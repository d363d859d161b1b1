//! The user's configuration.
//!
//! A config file only ever overrides: an absent file, an empty file and an omitted field all
//! reproduce the built-in behaviour, through the defaults written down here, once. A file
//! that cannot be used is refused loudly, with its path; only a missing file at a default
//! path is nothing to complain of.

use vstd::prelude::*;

use crate::clock::{Duration, MILLI};
use crate::error::{ConfigError, SessionError};
use crate::keys::{prefix_label, prefix_name, PREFIX};
use crate::launch::{fault, Launch, DEFAULT};
use crate::paths::{join, joined};
use crate::text::{debug_text, decimal, number_text, quoted, starts, trimmed};

verus! {

/// The kind of machine the program runs on, where it makes a difference.
#[derive(Debug, Clone, Copy, PartialEq, Eq, Structural)]
pub enum Platform {
    Unix,
    /// Its ssh cannot share a connection.
    Windows,
}

/// The prefix key and how long a half-typed sequence waits.
#[derive(Debug, Clone, Copy, PartialEq, Eq, Structural)]
pub struct KeySettings {
    /// The control byte of the prefix.
    pub prefix: u8,
    /// How long to wait for the second byte of a prefix sequence, and for another digit of
    /// a session number.
    pub timeout_ms: u64,
}

/// What a new session launches when nothing else is said.
#[derive(Debug, Clone, PartialEq, Eq)]
pub struct SessionSettings {
    /// The command line, with `{sock}` standing in for the session's socket.
    pub command: String,
}

/// The local client that draws a session.
#[derive(Debug, Clone, Copy, PartialEq, Eq, Structural)]
pub struct ClientSettings {
    /// Keep one client per session rather than one in all.
    pub per_session: bool,
}

/// How a host is reached.
#[derive(Debug, Clone, Copy, PartialEq, Eq, Structural)]
pub struct SshSettings {
    pub transport: SshTransport,
}

/// The two ways there are to reach a host over ssh.
#[derive(Debug, Clone, Copy, PartialEq, Eq, Structural)]
pub enum SshTransport {
    /// One `ControlMaster` per host, and a forward added to it per session.
    ControlMaster,
    /// One plain connection, multiplexed by a relay at the far end.
    Relay,
}

/// The fade between screens.
#[derive(Debug, Clone, Copy, PartialEq, Eq, Structural)]
pub struct FadeSettings {
    /// Master switch.
    pub enabled: bool,
    /// How long a dissolve takes, both directions together.
    pub duration_ms: u64,
    /// Whether a Neovim screen dissolves too, rather than only the program's own.
    pub session: bool,
    /// Whether the quick excursions fade too.
    pub excursions: bool,
}

/// The whole configuration.
#[derive(Debug, Clone, PartialEq, Eq)]
pub struct Settings {
    pub keys: KeySettings,
    pub session: SessionSettings,
    pub client: ClientSettings,
    pub fade: FadeSettings,
    pub ssh: SshSettings,
}

/// The transport a platform uses unless asked otherwise: the shared connection wherever ssh can
/// share one.
pub open spec fn platform_transport(platform: Platform) -> SshTransport {
    match platform {
        Platform::Unix => SshTransport::ControlMaster,
        Platform::Windows => SshTransport::Relay,
    }
}

impl SshTransport {
    /// As the file spells it.
    pub open spec fn name(self) -> Seq<char> {
        match self {
            SshTransport::ControlMaster => "control-master"@,
            SshTransport::Relay => "relay"@,
        }
    }

    /// As the file spells it.
    pub fn label(self) -> (r: &'static str)
        ensures
            r@ == self.name(),
    {
        match self {
            SshTransport::ControlMaster => "control-master",
            SshTransport::Relay => "relay",
        }
    }

    /// The one a platform uses unless asked otherwise.
    pub fn on(platform: Platform) -> (r: Self)
        ensures
            r == platform_transport(platform),
    {
        match platform {
            Platform::Unix => SshTransport::ControlMaster,
            Platform::Windows => SshTransport::Relay,
        }
    }
}

impl Default for KeySettings {
    fn default() -> (r: Self)
        ensures
            r == (KeySettings { prefix: PREFIX, timeout_ms: 1000 }),
    {
        KeySettings { prefix: PREFIX, timeout_ms: 1000 }
    }
}

impl Default for SessionSettings {
    fn default() -> (r: Self)
        ensures
            r.command@ == DEFAULT@,
    {
        SessionSettings { command: String::from_str(DEFAULT) }
    }
}

impl Default for ClientSettings {
    fn default() -> (r: Self)
        ensures
            r == (ClientSettings { per_session: false }),
    {
        ClientSettings { per_session: false }
    }
}

impl SshSettings {
    /// The built-in ones of a platform.
    pub fn on(platform: Platform) -> (r: Self)
        ensures
            r.transport == platform_transport(platform),
    {
        SshSettings { transport: SshTransport::on(platform) }
    }
}

impl Default for FadeSettings {
    fn default() -> (r: Self)
        ensures
            r == (FadeSettings {
                enabled: true,
                duration_ms: 200,
                session: true,
                excursions: true,
            }),
    {
        FadeSettings { enabled: true, duration_ms: 200, session: true, excursions: true }
    }
}

impl Settings {
    /// The built-in behaviour on a platform.
    pub open spec fn built_in(self, platform: Platform) -> bool {
        self.with_default_prefix(PREFIX, platform)
    }

    /// The built-in behaviour on a platform but for the prefix.
    pub open spec fn with_default_prefix(self, prefix: u8, platform: Platform) -> bool {
        &&& self.keys == KeySettings { prefix, timeout_ms: 1000 }
        &&& self.session.command@ == DEFAULT@
        &&& self.client == ClientSettings { per_session: false }
        &&& self.fade == FadeSettings {
            enabled: true,
            duration_ms: 200,
            session: true,
            excursions: true,
        }
        &&& self.ssh == SshSettings { transport: platform_transport(platform) }
    }

    /// The built-in behaviour on a platform.
    pub fn on(platform: Platform) -> (r: Self)
        ensures
            r.built_in(platform),
    {
        Settings {
            keys: KeySettings::default(),
            session: SessionSettings::default(),
            client: ClientSettings::default(),
            fade: FadeSettings::default(),
            ssh: SshSettings::on(platform),
        }
    }
}

impl FadeSettings {
    /// One direction of a dissolve: half of what both take together, in nanoseconds, so the
    /// smallest setting does not halve to nothing.
    pub fn one_way(&self) -> (r: Duration)
        requires
            self.duration_ms * MILLI / 2 <= u64::MAX,
        ensures
            r == self.duration_ms * MILLI / 2,
            self.duration_ms > 0 ==> r > 0,
    {
        self.duration_ms * 500_000
    }
}

/// Ceiling for `keys.timeout_ms`: an absurd wait is a hang.
pub const MAX_TIMEOUT_MS: u64 = 60_000;

/// Ceiling for `fade.duration_ms`: past it the value is a hang with a name.
pub const MAX_FADE_MS: u64 = 2_000;

/// What is wrong with the settings, if anything: checked in this order.
pub open spec fn settings_fault(s: Settings, platform: Platform) -> Option<Seq<char>> {
    if s.keys.timeout_ms == 0 {
        Some("keys.timeout_ms must be at least 1"@)
    } else if s.keys.timeout_ms > MAX_TIMEOUT_MS {
        Some("keys.timeout_ms must be at most "@ + decimal(MAX_TIMEOUT_MS as nat))
    } else if s.fade.duration_ms == 0 {
        Some("fade.duration_ms must be at least 1"@)
    } else if s.fade.duration_ms > MAX_FADE_MS {
        Some("fade.duration_ms must be at most "@ + decimal(MAX_FADE_MS as nat))
    } else if fault(trimmed(s.session.command@)) is Some {
        Some("session.command "@ + fault(trimmed(s.session.command@))->0)
    } else if platform == Platform::Windows && s.ssh.transport == SshTransport::ControlMaster {
        Some(
            "ssh.transport = \"control-master\" is not available on Windows, whose ssh cannot multiplex; \"relay\" is"@,
        )
    } else {
        None
    }
}

impl Settings {
    /// Rules on the values: only those that would misbehave at runtime, not taste.
    pub fn validate(&self, platform: Platform) -> (r: Result<(), String>)
        ensures
            match r {
                Ok(()) => settings_fault(*self, platform) is None,
                Err(message) => settings_fault(*self, platform) == Some(message@),
            },
    {
        if self.keys.timeout_ms == 0 {
            return Err(String::from_str("keys.timeout_ms must be at least 1"));
        }
        if self.keys.timeout_ms > MAX_TIMEOUT_MS {
            let mut message: String = String::from_str("keys.timeout_ms must be at most ");
            message.append(number_text(MAX_TIMEOUT_MS).as_str());
            return Err(message);
        }
        if self.fade.duration_ms == 0 {
            return Err(String::from_str("fade.duration_ms must be at least 1"));
        }
        if self.fade.duration_ms > MAX_FADE_MS {
            let mut message: String = String::from_str("fade.duration_ms must be at most ");
            message.append(number_text(MAX_FADE_MS).as_str());
            return Err(message);
        }
        match Launch::parse(self.session.command.as_str()) {
            Err(SessionError::InvalidCommand { command: _, reason }) => {
                let mut message: String = String::from_str("session.command ");
                message.append(reason);
                return Err(message);
            },
            _ => {},
        }
        if platform == Platform::Windows && self.ssh.transport == SshTransport::ControlMaster {
            return Err(
                String::from_str(
                    "ssh.transport = \"control-master\" is not available on Windows, whose ssh cannot multiplex; \"relay\" is",
                ),
            );
        }
        Ok(())
    }
}

/// Where the config file is, if anywhere.
#[derive(Debug, PartialEq, Eq)]
pub enum ConfigSource {
    /// Named by `$NVMUX_CONFIG`; must exist.
    Explicit(String),
    /// A default search path; may be absent.
    Default(String),
    /// No path could be formed; use the defaults.
    Nowhere,
}

/// A variable that is set to something.
pub open spec fn set_to(value: Option<&str>) -> Option<Seq<char>> {
    match value {
        Some(s) => if s@.len() > 0 {
            Some(s@)
        } else {
            None
        },
        None => None,
    }
}

/// An empty value is treated as unset.
pub(crate) fn nonempty<'a>(value: Option<&'a str>) -> (r: Option<&'a str>)
    ensures
        match r {
            Some(s) => set_to(value) == Some(s@) && s@.len() > 0,
            None => set_to(value) is None,
        },
{
    match value {
        Some(s) => if s.is_empty() {
            None
        } else {
            Some(s)
        },
        None => None,
    }
}

/// The home directory the environment names: `$HOME`, or on Windows the profile where that is
/// not set.
pub open spec fn home_of(
    platform: Platform,
    home_dir: Option<&str>,
    user_profile: Option<&str>,
) -> Option<Seq<char>> {
    match set_to(home_dir) {
        Some(dir) => Some(dir),
        None => match (platform, user_profile) {
            (Platform::Windows, Some(profile)) => Some(profile@),
            _ => None,
        },
    }
}

/// The home directory the environment names: `$HOME`, or on Windows the profile where that is
/// not set.
pub fn home<'a>(
    platform: Platform,
    home_dir: Option<&'a str>,
    user_profile: Option<&'a str>,
) -> (r: Option<&'a str>)
    ensures
        match r {
            Some(dir) => home_of(platform, home_dir, user_profile) == Some(dir@),
            None => home_of(platform, home_dir, user_profile) is None,
        },
{
    match nonempty(home_dir) {
        Some(dir) => Some(dir),
        None => if platform == Platform::Windows {
            user_profile
        } else {
            None
        },
    }
}

/// The file in a directory of configurations.
pub open spec fn config_in(dir: Seq<char>) -> Seq<char> {
    joined(joined(dir, "nvmux"@), "config.toml"@)
}

/// Where the config file is, as a value.
#[verifier::ext_equal]
pub enum Place {
    Explicit(Seq<char>),
    Default(Seq<char>),
    Nowhere,
}

impl ConfigSource {
    pub open spec fn place(self) -> Place {
        match self {
            ConfigSource::Explicit(path) => Place::Explicit(path@),
            ConfigSource::Default(path) => Place::Default(path@),
            ConfigSource::Nowhere => Place::Nowhere,
        }
    }
}

/// Where the config file is, given what the three variables are set to, if they are.
pub open spec fn place_of(
    nvmux_config: Option<Seq<char>>,
    xdg_config_home: Option<Seq<char>>,
    home: Option<Seq<char>>,
) -> Place {
    match (nvmux_config, xdg_config_home, home) {
        (Some(path), _, _) => Place::Explicit(path),
        (None, Some(dir), _) => Place::Default(config_in(dir)),
        (None, None, Some(dir)) => Place::Default(config_in(joined(dir, ".config"@))),
        (None, None, None) => Place::Nowhere,
    }
}

/// Resolve the config path from the relevant environment: `$NVMUX_CONFIG` (an exact path)
/// before `$XDG_CONFIG_HOME/nvmux/` before `$HOME/.config/nvmux/`.
pub fn resolve_config_path(
    nvmux_config: Option<&str>,
    xdg_config_home: Option<&str>,
    home: Option<&str>,
) -> (r: ConfigSource)
    ensures
        r.place() == place_of(set_to(nvmux_config), set_to(xdg_config_home), set_to(home)),
{
    if let Some(explicit) = nonempty(nvmux_config) {
        return ConfigSource::Explicit(String::from_str(explicit));
    }
    if let Some(xdg) = nonempty(xdg_config_home) {
        return ConfigSource::Default(join(join(xdg, "nvmux").as_str(), "config.toml"));
    }
    if let Some(home) = nonempty(home) {
        let dir: String = join(home, ".config");
        return ConfigSource::Default(
            join(join(dir.as_str(), "nvmux").as_str(), "config.toml"),
        );
    }
    ConfigSource::Nowhere
}

/// What came of reading the config file.
#[derive(Debug)]
pub enum ReadFile {
    /// What it holds.
    Contents(String),
    /// It is not there.
    NotFound,
    /// What the system said.
    Failed(String),
}

/// What to do with what was read.
#[derive(Debug)]
pub enum Loading {
    /// There is nothing to load: these are the settings.
    Settled(Settings),
    /// These contents, of the file at this path, are to be parsed.
    Parse { path: String, contents: String },
}

/// Decide what a read of the config file means. A missing default file is not an error; a
/// missing explicit one is. Every failure carries its path.
pub fn load(source: ConfigSource, read: ReadFile, platform: Platform) -> (r: Result<
    Loading,
    ConfigError,
>)
    ensures
        match (source, read) {
            (ConfigSource::Nowhere, _) => r matches Ok(Loading::Settled(s)) && s.built_in(platform),
            (ConfigSource::Default(p), ReadFile::Contents(text)) | (
                ConfigSource::Explicit(p),
                ReadFile::Contents(text),
            ) => r matches Ok(Loading::Parse { path, contents }) && path@ == p@ && contents@
                == text@,
            (ConfigSource::Default(_), ReadFile::NotFound) => r matches Ok(Loading::Settled(s))
                && s.built_in(platform),
            (ConfigSource::Explicit(p), ReadFile::NotFound) => r matches Err(
                ConfigError::ExplicitMissing(path),
            ) && path@ == p@,
            (ConfigSource::Default(p), ReadFile::Failed(why)) | (
                ConfigSource::Explicit(p),
                ReadFile::Failed(why),
            ) => r matches Err(ConfigError::Read { path, source }) && path@ == p@ && source@
                == why@,
        },
{
    match source {
        ConfigSource::Nowhere => Ok(Loading::Settled(Settings::on(platform))),
        ConfigSource::Default(path) => match read {
            ReadFile::Contents(contents) => Ok(Loading::Parse { path, contents }),
            ReadFile::NotFound => Ok(Loading::Settled(Settings::on(platform))),
            ReadFile::Failed(source) => Err(ConfigError::Read { path, source }),
        },
        ConfigSource::Explicit(path) => match read {
            ReadFile::Contents(contents) => Ok(Loading::Parse { path, contents }),
            ReadFile::NotFound => Err(ConfigError::ExplicitMissing(path)),
            ReadFile::Failed(source) => Err(ConfigError::Read { path, source }),
        },
    }
}

/// Accept what was parsed from the file at this path, tagging every error with it: what the
/// parser said, or what is wrong with a value.
pub fn parse(
    path: &str,
    parsed: Result<Settings, String>,
    platform: Platform,
) -> (r: Result<Settings, ConfigError>)
    ensures
        match parsed {
            Err(why) => r matches Err(ConfigError::Parse { path: p, source }) && p@ == path@
                && source@ == why@,
            Ok(settings) => match settings_fault(settings, platform) {
                Some(message) => r matches Err(ConfigError::Invalid { path: p, message: m }) && p@
                    == path@ && m@ == message,
                None => r == Ok::<Settings, ConfigError>(settings),
            },
        },
{
    match parsed {
        Err(source) => Err(ConfigError::Parse { path: String::from_str(path), source }),
        Ok(settings) => match settings.validate(platform) {
            Ok(()) => Ok(settings),
            Err(message) => Err(ConfigError::Invalid { path: String::from_str(path), message }),
        },
    }
}

/// The path a first-run config should be written to, told whether something is at the
/// default one: nowhere when the user named a file, when no path can be formed, or when a
/// config is there already.
pub fn first_run_target(source: ConfigSource, exists: bool) -> (r: Option<String>)
    ensures
        match source {
            ConfigSource::Default(path) => if exists {
                r is None
            } else {
                r matches Some(target) && target@ == path@
            },
            _ => r is None,
        },
{
    match source {
        ConfigSource::Default(path) => if exists {
            None
        } else {
            Some(path)
        },
        _ => None,
    }
}

/// The settings for a session started from the first-run prompt: the chosen prefix over the
/// built-in defaults.
pub fn with_prefix(prefix: u8, platform: Platform) -> (r: Settings)
    ensures
        r.with_default_prefix(prefix, platform),
{
    let mut settings: Settings = Settings::on(platform);
    settings.keys.prefix = prefix;
    settings
}

/// How this run comes by its settings.
#[derive(Debug, PartialEq, Eq)]
pub enum Establish {
    /// Ask for a prefix, and record it at this path.
    Ask(String),
    /// Load what there is.
    Load,
}

/// Decide how this run comes by its settings: it asks on a true first run at an interactive
/// terminal, both ways, and loads otherwise.
pub fn establish(target: Option<String>, stdin: bool, stdout: bool) -> (r: Establish)
    ensures
        match target {
            Some(path) => if stdin && stdout {
                r matches Establish::Ask(p) && p@ == path@
            } else {
                r is Load
            },
            None => r is Load,
        },
{
    match target {
        Some(path) => if stdin && stdout {
            Establish::Ask(path)
        } else {
            Establish::Load
        },
        None => Establish::Load,
    }
}

/// The settings after the first-run prompt: with the prefix that was chosen, or the built-in
/// ones where it was skipped.
pub fn answered(choice: Option<u8>, platform: Platform) -> (r: Settings)
    ensures
        match choice {
            Some(prefix) => r.with_default_prefix(prefix, platform),
            None => r.built_in(platform),
        },
{
    match choice {
        Some(prefix) => with_prefix(prefix, platform),
        None => Settings::on(platform),
    }
}

/// `true` or `false`.
pub open spec fn flag(b: bool) -> Seq<char> {
    if b {
        "true"@
    } else {
        "false"@
    }
}

fn flag_text(b: bool) -> (r: &'static str)
    ensures
        r@ == flag(b),
{
    if b {
        "true"
    } else {
        "false"
    }
}

/// The body of the first-run config file: a commented template that documents every option
/// and activates only the prefix. The commented values are the defaults.
pub open spec fn template(prefix: u8, platform: Platform) -> Seq<char> {
    "# nvmux configuration — created on first run.\n#\n# Uncomment and edit any line to override its default; delete this file\n# to start over. See the README for what each option does.\n\n[keys]\nprefix     = "@
        + debug_text(prefix_name(prefix)) + "\n# timeout_ms = "@ + decimal(1000)
        + "\n\n[session]\n# {sock} becomes the session's socket; it is what nvmux finds it by.\n# command = "@
        + debug_text(DEFAULT@)
        + "\n\n[client]\n# One Neovim client per session, parked while another is in front, so a\n# switch back puts the screen back at once. Each is one more UI on its\n# session.\n# per_session = "@
        + flag(false)
        + "\n\n[fade]\n# The dissolve between screens, and of the notice a switch puts up.\n# NO_COLOR turns it off whatever this says.\n# enabled     = "@
        + flag(true) + "\n# duration_ms = "@ + decimal(200) + "\n# session     = "@ + flag(true)
        + "\n# excursions  = "@ + flag(true)
        + "\n\n[ssh]\n# How `nvmux <host>` reaches the host: \"control-master\" shares one ssh\n# connection through a ControlMaster; \"relay\" makes one plain connection\n# and multiplexes it itself, for an ssh that cannot (Windows) or a host\n# that refuses unix-socket forwards.\n# transport = "@
        + debug_text(platform_transport(platform).name()) + "\n"@
}

/// The body of the first-run config file.
pub fn render_default_config(prefix: u8, platform: Platform) -> (r: String)
    ensures
        r@ == template(prefix, platform),
{
    let k: KeySettings = KeySettings::default();
    let s: SessionSettings = SessionSettings::default();
    let c: ClientSettings = ClientSettings::default();
    let f: FadeSettings = FadeSettings::default();
    let h: SshSettings = SshSettings::on(platform);
    let mut out: String = String::from_str(
        "# nvmux configuration — created on first run.\n#\n# Uncomment and edit any line to override its default; delete this file\n# to start over. See the README for what each option does.\n\n[keys]\nprefix     = ",
    );
    out.append(quoted(prefix_label(prefix).as_str()).as_str());
    out.append("\n# timeout_ms = ");
    out.append(number_text(k.timeout_ms).as_str());
    out.append(
        "\n\n[session]\n# {sock} becomes the session's socket; it is what nvmux finds it by.\n# command = ",
    );
    out.append(quoted(s.command.as_str()).as_str());
    out.append(
        "\n\n[client]\n# One Neovim client per session, parked while another is in front, so a\n# switch back puts the screen back at once. Each is one more UI on its\n# session.\n# per_session = ",
    );
    out.append(flag_text(c.per_session));
    out.append(
        "\n\n[fade]\n# The dissolve between screens, and of the notice a switch puts up.\n# NO_COLOR turns it off whatever this says.\n# enabled     = ",
    );
    out.append(flag_text(f.enabled));
    out.append("\n# duration_ms = ");
    out.append(number_text(f.duration_ms).as_str());
    out.append("\n# session     = ");
    out.append(flag_text(f.session));
    out.append("\n# excursions  = ");
    out.append(flag_text(f.excursions));
    out.append(
        "\n\n[ssh]\n# How `nvmux <host>` reaches the host: \"control-master\" shares one ssh\n# connection through a ControlMaster; \"relay\" makes one plain connection\n# and multiplexes it itself, for an ssh that cannot (Windows) or a host\n# that refuses unix-socket forwards.\n# transport = ",
    );
    out.append(quoted(h.transport.label()).as_str());
    out.append("\n");
    out
}

/// The built-in behaviour of a platform is a valid configuration there, and so is every other
/// prefix over it.
pub proof fn law_the_defaults_are_valid(s: Settings, prefix: u8, platform: Platform)
    requires
        s.with_default_prefix(prefix, platform),
    ensures
        settings_fault(s, platform) is None,
{
    crate::launch::law_the_default_command_is_accepted();
}

/// Settings are valid exactly when their two times are in range, their command is one that is
/// accepted, and they do not ask Windows for control-master. So the relay is valid on every
/// platform, and so is control-master on Unix; and nothing else in them matters.
pub proof fn law_what_settings_are_valid(s: Settings, platform: Platform)
    ensures
        settings_fault(s, platform) is None <==> {
            &&& 1 <= s.keys.timeout_ms <= 60_000
            &&& 1 <= s.fade.duration_ms <= 2_000
            &&& fault(trimmed(s.session.command@)) is None
            &&& !(platform == Platform::Windows && s.ssh.transport == SshTransport::ControlMaster)
        },
{
}

/// Asking for the relay never makes valid settings invalid, whatever the platform, and neither
/// does asking for control-master on Unix: settings that differ in the transport alone are both
/// valid there or both not, for the same reason.
pub proof fn law_the_transport_is_free_on_unix(s: Settings, transport: SshTransport)
    ensures
        ({
            let other = Settings { ssh: SshSettings { transport }, ..s };
            settings_fault(s, Platform::Unix) == settings_fault(other, Platform::Unix)
        }),
        ({
            let relayed = Settings { ssh: SshSettings { transport: SshTransport::Relay }, ..s };
            &&& settings_fault(relayed, Platform::Windows) == settings_fault(
                relayed,
                Platform::Unix,
            )
            &&& forall|p: Platform| #[trigger]
                settings_fault(s, p) is None ==> settings_fault(relayed, p) is None
        }),
{
}

/// The prefix, the clients, and whether and what fades are taste: they make no settings valid or
/// invalid.
pub proof fn law_taste_is_not_validated(a: Settings, b: Settings, platform: Platform)
    requires
        a.keys.timeout_ms == b.keys.timeout_ms,
        a.fade.duration_ms == b.fade.duration_ms,
        a.session.command@ == b.session.command@,
        a.ssh == b.ssh,
    ensures
        settings_fault(a, platform) == settings_fault(b, platform),
{
}

/// What is said of settings that are refused begins with the name of the setting that is wrong.
pub proof fn law_a_refusal_names_the_setting(s: Settings, platform: Platform)
    ensures
        !(1 <= s.keys.timeout_ms <= 60_000) ==> (settings_fault(s, platform) matches Some(why)
            && starts(why, "keys.timeout_ms"@)),
        1 <= s.keys.timeout_ms <= 60_000 && !(1 <= s.fade.duration_ms <= 2_000) ==> (
        settings_fault(s, platform) matches Some(why) && starts(why, "fade.duration_ms"@)),
        1 <= s.keys.timeout_ms <= 60_000 && 1 <= s.fade.duration_ms <= 2_000 && fault(
            trimmed(s.session.command@),
        ) is Some ==> (settings_fault(s, platform) matches Some(why) && starts(
            why,
            "session.command"@,
        )),
        settings_fault(s, platform) is Some && 1 <= s.keys.timeout_ms <= 60_000 && 1
            <= s.fade.duration_ms <= 2_000 && fault(trimmed(s.session.command@)) is None ==> starts(
            settings_fault(s, platform)->0,
            "ssh.transport"@,
        ),
{
    reveal_strlit("keys.timeout_ms");
    reveal_strlit("keys.timeout_ms must be at least 1");
    reveal_strlit("keys.timeout_ms must be at most ");
    reveal_strlit("fade.duration_ms");
    reveal_strlit("fade.duration_ms must be at least 1");
    reveal_strlit("fade.duration_ms must be at most ");
    reveal_strlit("session.command");
    reveal_strlit("session.command ");
    reveal_strlit("ssh.transport");
    reveal_strlit(
        "ssh.transport = \"control-master\" is not available on Windows, whose ssh cannot multiplex; \"relay\" is",
    );
    if let Some(why) = settings_fault(s, platform) {
        if !(1 <= s.keys.timeout_ms <= 60_000) {
            assert(why.take(15) =~= "keys.timeout_ms"@);
        } else if !(1 <= s.fade.duration_ms <= 2_000) {
            assert(why.take(16) =~= "fade.duration_ms"@);
        } else if fault(trimmed(s.session.command@)) is Some {
            assert(why.take(15) =~= "session.command"@);
        } else {
            assert(why.take(13) =~= "ssh.transport"@);
        }
    }
}

/// The config file stands in its own directory inside the directory of configurations.
pub proof fn law_the_config_file_has_its_own_directory(dir: Seq<char>)
    requires
        dir.len() > 0,
        dir.last() != '/',
    ensures
        config_in(dir) == dir + "/nvmux/config.toml"@,
        config_in(dir.push('/')) == dir + "/nvmux/config.toml"@,
{
    reveal_strlit("nvmux");
    reveal_strlit("config.toml");
    reveal_strlit("/");
    reveal_strlit("/nvmux/config.toml");
    assert(config_in(dir) =~= dir + "/nvmux/config.toml"@);
    assert(config_in(dir.push('/')) =~= dir + "/nvmux/config.toml"@);
}

/// A platform's own transport is one it can use: the shared connection on Unix, the relay where
/// ssh cannot share one.
pub proof fn law_a_platform_uses_what_it_can()
    ensures
        platform_transport(Platform::Unix) == SshTransport::ControlMaster,
        platform_transport(Platform::Windows) == SshTransport::Relay,
        SshTransport::ControlMaster.name() == "control-master"@,
        SshTransport::Relay.name() == "relay"@,
{
}

/// A file the user names is taken as it is named, whatever else is set; failing that the
/// directory of configurations, and failing that the one in the home directory; and a variable
/// that is empty is one that is not set.
pub proof fn law_the_config_path_is_the_first_that_is_set(
    path: Seq<char>,
    xdg: Option<Seq<char>>,
    dir: Seq<char>,
    home: Option<Seq<char>>,
    empty: &str,
)
    requires
        dir.len() > 0,
        dir.last() != '/',
        empty@.len() == 0,
    ensures
        place_of(Some(path), xdg, home) == Place::Explicit(path),
        place_of(None, Some(dir), home) == Place::Default(dir + "/nvmux/config.toml"@),
        place_of(None, None, Some(dir)) == Place::Default(dir + "/.config/nvmux/config.toml"@),
        place_of(None, None, None) == Place::Nowhere,
        set_to(Some(empty)) is None && set_to(None) is None,
{
    law_the_config_file_has_its_own_directory(dir);
    let inner = joined(dir, ".config"@);
    reveal_strlit(".config");
    reveal_strlit("/");
    reveal_strlit("/nvmux/config.toml");
    reveal_strlit("/.config/nvmux/config.toml");
    assert(inner =~= dir + "/"@ + ".config"@);
    assert(inner.last() == 'g');
    law_the_config_file_has_its_own_directory(inner);
    assert(inner + "/nvmux/config.toml"@ =~= dir + "/.config/nvmux/config.toml"@);
}

/// Whatever `$HOME` says is taken as it is, on every platform, unless it says nothing; without
/// it the profile counts on Windows and nowhere else.
pub proof fn law_home_is_what_the_environment_names(
    platform: Platform,
    dir: &str,
    empty: &str,
    profile: &str,
    other: Option<&str>,
)
    requires
        dir@.len() > 0,
        empty@.len() == 0,
    ensures
        set_to(Some(dir)) == Some(dir@),
        home_of(platform, Some(dir), other) == Some(dir@),
        home_of(Platform::Windows, None, Some(profile)) == Some(profile@),
        home_of(Platform::Windows, Some(empty), Some(profile)) == Some(profile@),
        home_of(platform, None, None) is None,
        platform != Platform::Windows ==> home_of(platform, None, other) is None && home_of(
            platform,
            Some(empty),
            other,
        ) is None,
{
}

} // verus!
