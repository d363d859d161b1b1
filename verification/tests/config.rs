use nvmux::config::{
    answered, establish, first_run_target, home, load, parse, render_default_config,
    resolve_config_path, with_prefix, ConfigSource, Establish, FadeSettings, KeySettings, Loading,
    Platform, ReadFile, SessionSettings, Settings, SshSettings, SshTransport, MAX_FADE_MS,
};
use nvmux::error::ConfigError;

fn milli(ms: u64) -> u64 {
    ms * 1_000_000
}

fn micro(us: u64) -> u64 {
    us * 1_000
}

#[test]
fn the_default_prefix_is_the_one_the_key_machine_uses() {
    assert_eq!(KeySettings::default().prefix, nvmux::keys::PREFIX);
}

#[test]
fn one_direction_is_half_the_configured_dissolve() {
    let at = |ms| {
        FadeSettings {
            duration_ms: ms,
            ..FadeSettings::default()
        }
        .one_way()
    };

    assert_eq!(at(200), milli(100), "the default");
    assert_eq!(at(MAX_FADE_MS), milli(1_000), "the ceiling");
    assert_eq!(
        at(101),
        micro(50_500),
        "an odd value is not rounded away"
    );
    assert_eq!(at(1), micro(500), "the floor is not zero");
    assert!(at(1) != 0, "a legal setting must have some length");
}

#[test]
fn the_default_command_is_the_one_the_launcher_uses() {
    assert_eq!(SessionSettings::default().command, nvmux::launch::DEFAULT);
}

#[test]
fn the_default_config_activates_only_the_prefix() {
    let rendered = render_default_config(0x01, Platform::Unix);
    assert!(
        rendered.contains("\nprefix     = \"Ctrl-a\"\n"),
        "the chosen prefix is the one active setting: {rendered:?}"
    );
    assert!(rendered.contains("# timeout_ms = 1000"));
    assert!(
        rendered.contains("# command = \"nvim --headless --listen {sock}\""),
        "the template must document the command: {rendered:?}"
    );
    assert!(rendered.contains("\n[fade]\n"), "{rendered:?}");
    assert!(rendered.contains("\n[client]\n"), "{rendered:?}");
    assert!(rendered.contains("\n[ssh]\n"), "{rendered:?}");
    assert!(
        rendered.contains(&format!(
            "# transport = {:?}",
            SshSettings::on(Platform::Unix).transport.label()
        )),
        "the template must document the transport: {rendered:?}"
    );
    for line in [
        "# per_session = false",
        "# enabled     = true",
        "# duration_ms = 200",
        "# session     = true",
        "# excursions  = true",
    ] {
        assert!(
            rendered.contains(line),
            "the template must document {line:?}: {rendered:?}"
        );
    }
}

#[test]
fn the_default_config_is_headed_by_its_table() {
    let rendered = render_default_config(0x14, Platform::Unix);
    assert!(rendered.contains("[keys]\n"), "{rendered:?}");
    assert!(rendered.contains("\nprefix     = \"Ctrl-t\"\n"), "{rendered:?}");
}

#[test]
fn the_transport_is_the_platforms_unless_asked_for() {
    assert_eq!(Settings::on(Platform::Unix).ssh.transport, SshTransport::ControlMaster);
    assert_eq!(Settings::on(Platform::Windows).ssh.transport, SshTransport::Relay);
    assert_eq!(SshTransport::on(Platform::Unix), SshTransport::ControlMaster);
    assert_eq!(SshTransport::on(Platform::Windows), SshTransport::Relay);
    let mut master = Settings::on(Platform::Unix);
    master.ssh.transport = SshTransport::ControlMaster;
    match parse("test.toml", Ok(master.clone()), Platform::Windows).expect_err("refused on Windows") {
        ConfigError::Invalid { message, .. } => {
            assert!(message.contains("ssh.transport"), "{message}")
        }
        other => panic!("expected Invalid, got {other:?}"),
    }
    parse("test.toml", Ok(master), Platform::Unix).expect("fine where ssh multiplexes");
    let mut relay = Settings::on(Platform::Unix);
    relay.ssh.transport = SshTransport::Relay;
    parse("test.toml", Ok(relay), Platform::Windows).expect("fine everywhere");
    assert_eq!(SshTransport::Relay.label(), "relay");
    assert_eq!(SshTransport::ControlMaster.label(), "control-master");
}

#[test]
fn one_client_per_session_is_off_unless_asked_for() {
    assert!(!Settings::on(Platform::Unix).client.per_session);
}

fn timeout(ms: u64) -> Settings {
    let mut s = Settings::on(Platform::Unix);
    s.keys.timeout_ms = ms;
    s
}

fn fade(ms: u64) -> Settings {
    let mut s = Settings::on(Platform::Unix);
    s.fade.duration_ms = ms;
    s
}

fn command(line: &str) -> Settings {
    let mut s = Settings::on(Platform::Unix);
    s.session.command = line.to_string();
    s
}

#[test]
fn out_of_range_values_are_rejected_with_their_key_named() {
    let cases = [
        (timeout(0), "keys.timeout_ms"),
        (timeout(60001), "keys.timeout_ms"),
        (timeout(3000000000), "keys.timeout_ms"),
        (fade(0), "fade.duration_ms"),
        (fade(2001), "fade.duration_ms"),
    ];
    for (doc, key) in cases {
        let shown = format!("{doc:?}");
        let err = parse("test.toml", Ok(doc), Platform::Unix).expect_err(&shown);
        match err {
            ConfigError::Invalid { message, path } => {
                assert!(message.contains(key), "{shown} -> {message:?}");
                assert_eq!(path, "test.toml");
            }
            other => panic!("{shown}: expected Invalid, got {other:?}"),
        }
    }
    for doc in [timeout(1), timeout(60000), fade(1), fade(2000)] {
        parse("test.toml", Ok(doc), Platform::Unix).expect("within its range");
    }
}

#[test]
fn an_unusable_command_is_rejected_with_its_key_named() {
    for doc in ["nvim --headless", "", "nvim --listen '{sock}"] {
        let err = parse("test.toml", Ok(command(doc)), Platform::Unix).expect_err(doc);
        match err {
            ConfigError::Invalid { message, .. } => {
                assert!(
                    message.contains("session.command"),
                    "{doc:?} -> {message:?}"
                )
            }
            other => panic!("{doc:?}: expected Invalid, got {other:?}"),
        }
    }
}

#[test]
fn resolve_prefers_nvmux_config_then_xdg_then_home() {
    let nvmux = "/explicit.toml";
    let xdg = "/xdg";
    let home = "/home/u";

    assert_eq!(
        resolve_config_path(Some(nvmux), Some(xdg), Some(home)),
        ConfigSource::Explicit("/explicit.toml".into())
    );
    assert_eq!(
        resolve_config_path(None, Some(xdg), Some(home)),
        ConfigSource::Default("/xdg/nvmux/config.toml".into())
    );
    assert_eq!(
        resolve_config_path(None, None, Some(home)),
        ConfigSource::Default("/home/u/.config/nvmux/config.toml".into())
    );
    assert_eq!(resolve_config_path(None, None, None), ConfigSource::Nowhere);
}

#[test]
fn an_empty_env_value_is_treated_as_unset() {
    let empty = "";
    let home = "/home/u";
    assert_eq!(
        resolve_config_path(Some(empty), Some(empty), Some(home)),
        ConfigSource::Default("/home/u/.config/nvmux/config.toml".into())
    );
}

#[test]
fn an_absent_default_file_yields_defaults() {
    let source = resolve_config_path(None, None, Some("/home/u"));
    match load(source, ReadFile::NotFound, Platform::Unix).expect("no file is fine") {
        Loading::Settled(settings) => assert_eq!(settings, Settings::on(Platform::Unix)),
        other => panic!("expected settings, got {other:?}"),
    }
    match load(ConfigSource::Nowhere, ReadFile::NotFound, Platform::Unix).expect("nowhere is fine") {
        Loading::Settled(settings) => assert_eq!(settings, Settings::on(Platform::Unix)),
        other => panic!("expected settings, got {other:?}"),
    }
}

#[test]
fn nvmux_config_reads_an_explicit_file() {
    let source = resolve_config_path(Some("/dir/custom.toml"), None, None);
    let text = "[keys]\ntimeout_ms = 250\n";
    match load(source, ReadFile::Contents(text.into()), Platform::Unix).expect("valid") {
        Loading::Parse { path, contents } => {
            assert_eq!(path, "/dir/custom.toml");
            assert_eq!(contents, text);
            let settings = parse(&path, Ok(timeout(250)), Platform::Unix).expect("valid");
            assert_eq!(settings.keys.timeout_ms, 250);
        }
        other => panic!("expected a file to parse, got {other:?}"),
    }
}

#[test]
fn nvmux_config_set_to_a_missing_file_is_fatal() {
    let source = resolve_config_path(Some("/dir/nope.toml"), None, None);
    match load(source, ReadFile::NotFound, Platform::Unix) {
        Err(e @ ConfigError::ExplicitMissing(_)) => assert_eq!(
            e.message(),
            "/dir/nope.toml: config file not found (named by $NVMUX_CONFIG)"
        ),
        other => panic!("expected ExplicitMissing, got {other:?}"),
    }
}

#[test]
fn a_malformed_default_file_is_fatal() {
    match parse("/c.toml", Err("unknown field `prefx`".into()), Platform::Unix) {
        Err(ConfigError::Parse { path, source }) => {
            assert_eq!(path, "/c.toml");
            assert_eq!(source, "unknown field `prefx`");
        }
        other => panic!("a typo in the default file must not be silently ignored: {other:?}"),
    }
}

#[test]
fn a_file_that_cannot_be_read_is_fatal() {
    let source = ConfigSource::Default("/c.toml".into());
    match load(source, ReadFile::Failed("permission denied".into()), Platform::Unix) {
        Err(e @ ConfigError::Read { .. }) => {
            assert_eq!(e.message(), "/c.toml: permission denied")
        }
        other => panic!("expected Read, got {other:?}"),
    }
}

#[test]
fn first_run_target_is_none_when_nvmux_config_is_set() {
    let source = resolve_config_path(Some("/some/explicit.toml"), None, Some("/home/whoever"));
    assert_eq!(
        first_run_target(source, false),
        None,
        "an explicit config is the user's"
    );
}

#[test]
fn first_run_target_points_at_the_default_when_absent() {
    let source = resolve_config_path(None, None, Some("/home/u"));
    assert_eq!(
        first_run_target(source, false),
        Some("/home/u/.config/nvmux/config.toml".into())
    );
}

#[test]
fn first_run_target_is_none_once_a_file_exists() {
    let source = resolve_config_path(None, None, Some("/home/u"));
    assert_eq!(
        first_run_target(source, true),
        None,
        "a present config is not first-run"
    );
}

#[test]
fn xdg_config_home_wins_for_the_first_run_target() {
    let source = resolve_config_path(None, Some("/xdg"), Some("/home/u"));
    assert_eq!(
        first_run_target(source, false),
        Some("/xdg/nvmux/config.toml".into())
    );
}

#[test]
fn only_a_first_run_at_a_terminal_asks() {
    let target = Some("/c.toml".to_string());
    assert_eq!(
        establish(target.clone(), true, true),
        Establish::Ask("/c.toml".into())
    );
    assert_eq!(establish(target.clone(), false, true), Establish::Load);
    assert_eq!(establish(target, true, false), Establish::Load);
    assert_eq!(establish(None, true, true), Establish::Load);
    assert_eq!(answered(Some(0x01), Platform::Unix), with_prefix(0x01, Platform::Unix));
    assert_eq!(answered(Some(0x01), Platform::Unix).keys.prefix, 0x01);
    assert_eq!(answered(None, Platform::Unix), Settings::on(Platform::Unix));
}

#[test]
fn the_home_directory_is_the_profile_only_where_there_is_one() {
    assert_eq!(home(Platform::Unix, Some("/h"), Some("/p")), Some("/h"));
    assert_eq!(home(Platform::Unix, Some(""), Some("/p")), None);
    assert_eq!(home(Platform::Windows, None, Some("/p")), Some("/p"));
    assert_eq!(home(Platform::Windows, Some("/h"), Some("/p")), Some("/h"));
}

/// Every default follows the platform: on Windows the relay, which is what is valid there.
#[test]
fn the_defaults_are_the_platforms_own() {
    for (platform, transport) in [
        (Platform::Unix, SshTransport::ControlMaster),
        (Platform::Windows, SshTransport::Relay),
    ] {
        let settings = Settings::on(platform);
        assert_eq!(settings.ssh, SshSettings::on(platform));
        assert_eq!(settings.ssh.transport, transport);
        assert_eq!(settings.validate(platform), Ok(()));
        assert_eq!(answered(None, platform), settings);
        assert_eq!(with_prefix(0x01, platform).ssh.transport, transport);
        match load(ConfigSource::Nowhere, ReadFile::NotFound, platform).expect("nowhere is fine") {
            Loading::Settled(loaded) => assert_eq!(loaded, settings),
            other => panic!("expected settings, got {other:?}"),
        }
        assert!(render_default_config(0x01, platform)
            .contains(&format!("# transport = {:?}\n", transport.label())));
    }
    assert!(Settings::on(Platform::Unix).validate(Platform::Windows).is_err());
}
