//! Typed errors, for the callers that branch on them: a stale socket gets reaped and a busy
//! one does not, a kill that did not take effect must not delete files.
//!
//! Every error has a `message`, which is what the user reads. Where the message quotes
//! something the system or another program said, the error carries those words.

use vstd::prelude::*;

use crate::clock::Duration;
use crate::text::{decimal, debug_text, number_text, quoted};

verus! {

/// What `Debug` writes for a length of time of this many nanoseconds, such as `3s`.
pub uninterp spec fn duration_text(nanos: u64) -> Seq<char>;

/// `format!` with `{:?}` on `std::time::Duration::from_nanos`: the text that
/// [`duration_text`] names.
#[verifier::external_body]
pub(crate) fn spell_duration(nanos: u64) -> (r: String)
    ensures
        r@ == duration_text(nanos),
{
    format!("{:?}", std::time::Duration::from_nanos(nanos))
}

/// A number in base eight, without leading zeros.
pub open spec fn octal(n: nat) -> Seq<char>
    decreases n,
{
    if n < 8 {
        seq![crate::text::digit(n)]
    } else {
        octal(n / 8).push(crate::text::digit(n % 8))
    }
}

/// A number in base eight, in four digits at least.
pub open spec fn octal4(n: nat) -> Seq<char> {
    let digits = octal(n);
    if digits.len() >= 4 {
        digits
    } else {
        Seq::new((4 - digits.len()) as nat, |i: int| '0') + digits
    }
}

fn octal_text(n: u32) -> (r: String)
    ensures
        r@ == octal(n as nat),
    decreases n,
{
    let mut out: String = if n < 8 {
        String::new()
    } else {
        octal_text(n / 8)
    };
    out.push((0x30 + (n % 8) as u8) as char);
    assert(n < 8 ==> out@ =~= seq![crate::text::digit(n as nat)]);
    out
}

fn mode_text(n: u32) -> (r: String)
    ensures
        r@ == octal4(n as nat),
{
    let digits: String = octal_text(n);
    let len: usize = digits.as_str().unicode_len();
    let mut out: String = String::new();
    let mut i: usize = len;
    while i < 4
        invariant
            len <= i <= 4 || (i == len && len >= 4),
            out@ == Seq::new((i - len) as nat, |i: int| '0'),
        decreases 4 - i,
    {
        out.push('0');
        i += 1;
        assert(out@ =~= Seq::new((i - len) as nat, |i: int| '0'));
    }
    out.append(digits.as_str());
    assert(len >= 4 ==> out@ =~= digits@);
    out
}

/// A signed number in base ten.
pub open spec fn signed(n: int) -> Seq<char> {
    if n < 0 {
        seq!['-'] + decimal((-n) as nat)
    } else {
        decimal(n as nat)
    }
}

pub(crate) fn signed_text(n: i32) -> (r: String)
    ensures
        r@ == signed(n as int),
{
    if n < 0 {
        let mut out: String = String::new();
        out.push('-');
        assert(out@ =~= seq!['-']);
        let below: i64 = -(n as i64);
        out.append(number_text(below as u64).as_str());
        out
    } else {
        number_text(n as u64).as_str().to_owned()
    }
}

/// Failures constructing or validating paths.
#[derive(Debug)]
pub enum PathError {
    /// A composed socket path exceeded the `sun_path` budget.
    TooLong { path: String, len: usize, max: usize },
    /// The runtime directory exists but is not a directory, as `lstat` tells it.
    NotADirectory(String),
    /// Someone else owns the runtime directory.
    BadOwner { path: String, owner: u32, expected: u32 },
    /// The runtime directory is accessible to other users.
    BadMode { path: String, mode: u32 },
    /// A session id that is not eight base32 characters. Ids become paths, so this is a containment check.
    MalformedId(String),
    /// What the system said.
    Io { path: String, source: String },
}

impl PathError {
    /// What the user reads.
    pub open spec fn text(self) -> Seq<char> {
        match self {
            PathError::TooLong { path, len, max } => "unix socket path is "@ + decimal(len as nat) + " bytes, max "@ + decimal(max as nat) + ": "@ + path@ + "\nhint: nvmux composes paths under /tmp/nvmux-. A longer path would be silently truncated by Neovim, leaving a session nvmux could never reach."@,
            PathError::NotADirectory(what) => what@ + ": not a directory (or is a symlink to one, which we refuse)"@,
            PathError::BadOwner { path, owner, expected } => path@ + ": owned by uid "@ + decimal(owner as nat) + ", expected "@ + decimal(expected as nat),
            PathError::BadMode { path, mode } => path@ + ": mode is "@ + octal4(mode as nat) + ", refusing to use a directory accessible to other users"@,
            PathError::MalformedId(what) => "malformed session id "@ + debug_text(what@) + ": expected 8 lowercase base32 characters"@,
            PathError::Io { path, source } => path@ + ": "@ + source@,
        }
    }

    /// What the user reads.
    pub fn message(&self) -> (r: String)
        ensures
            r@ == self.text(),
    {
        match self {
            PathError::TooLong { path, len, max } => {
                let mut s: String = String::from_str("unix socket path is ");
                s.append(number_text(*len as u64).as_str());
                s.append(" bytes, max ");
                s.append(number_text(*max as u64).as_str());
                s.append(": ");
                s.append(path.as_str());
                s.append("\nhint: nvmux composes paths under /tmp/nvmux-. A longer path would be silently truncated by Neovim, leaving a session nvmux could never reach.");
                s
            },
            PathError::NotADirectory(what) => {
                let mut s: String = String::from_str(what.as_str());
                s.append(": not a directory (or is a symlink to one, which we refuse)");
                s
            },
            PathError::BadOwner { path, owner, expected } => {
                let mut s: String = String::from_str(path.as_str());
                s.append(": owned by uid ");
                s.append(number_text(*owner as u64).as_str());
                s.append(", expected ");
                s.append(number_text(*expected as u64).as_str());
                s
            },
            PathError::BadMode { path, mode } => {
                let mut s: String = String::from_str(path.as_str());
                s.append(": mode is ");
                s.append(mode_text(*mode).as_str());
                s.append(", refusing to use a directory accessible to other users");
                s
            },
            PathError::MalformedId(what) => {
                let mut s: String = String::from_str("malformed session id ");
                s.append(quoted(what.as_str()).as_str());
                s.append(": expected 8 lowercase base32 characters");
                s
            },
            PathError::Io { path, source } => {
                let mut s: String = String::from_str(path.as_str());
                s.append(": ");
                s.append(source.as_str());
                s
            },
        }
    }
}

/// Failures talking to a Neovim server.
#[derive(Debug)]
pub enum RpcError {
    /// Nothing is listening.
    ConnectionRefused(String),
    /// The peer went away in the middle of a conversation.
    Reset,
    /// The call did not answer in time, which does not mean the session is dead.
    Timeout(Duration),
    /// Neovim answered with an error object.
    Nvim(String),
    /// The bytes on the wire made no sense.
    Protocol(String),
    /// What the system said.
    Io(String),
}

impl RpcError {
    /// What the user reads.
    pub open spec fn text(self) -> Seq<char> {
        match self {
            RpcError::ConnectionRefused(what) => "connection refused: "@ + what@,
            RpcError::Reset => "connection reset by peer"@,
            RpcError::Timeout(what) => "timed out after "@ + duration_text(what),
            RpcError::Nvim(what) => "nvim returned an error: "@ + what@,
            RpcError::Protocol(what) => "malformed msgpack from nvim: "@ + what@,
            RpcError::Io(what) => what@,
        }
    }

    /// What the user reads.
    pub fn message(&self) -> (r: String)
        ensures
            r@ == self.text(),
    {
        match self {
            RpcError::ConnectionRefused(what) => {
                let mut s: String = String::from_str("connection refused: ");
                s.append(what.as_str());
                s
            },
            RpcError::Reset => {
                String::from_str("connection reset by peer")
            },
            RpcError::Timeout(what) => {
                let mut s: String = String::from_str("timed out after ");
                s.append(spell_duration(*what).as_str());
                s
            },
            RpcError::Nvim(what) => {
                let mut s: String = String::from_str("nvim returned an error: ");
                s.append(what.as_str());
                s
            },
            RpcError::Protocol(what) => {
                let mut s: String = String::from_str("malformed msgpack from nvim: ");
                s.append(what.as_str());
                s
            },
            RpcError::Io(what) => {
                String::from_str(what.as_str())
            },
        }
    }

    /// "There is definitely no server here", as opposed to "it did not answer in time".
    pub fn is_definitely_dead(&self) -> (r: bool)
        ensures
            r == (self is ConnectionRefused || self is Reset),
    {
        match self {
            RpcError::ConnectionRefused(_) | RpcError::Reset => true,
            _ => false,
        }
    }
}

/// Failures about sessions as entities.
#[derive(Debug)]
pub enum SessionError {
    /// No session has this name.
    NotFound(String),
    /// The name is taken.
    Exists(String),
    /// The name cannot be one.
    InvalidName { name: String, reason: &'static str },
    /// The launch command cannot be one.
    InvalidCommand { command: String, reason: &'static str },
    /// The socket appeared but nothing ever answered on it.
    NotReady { name: String, timeout: Duration, log: String, log_tail: String },
    /// The kill did not take effect, so the files were left alone.
    NotKilled { name: String, reason: &'static str },
    /// Refused before attaching: the session has as many UIs as it may have.
    TooManyUis { id: String, attached: usize },
    /// A script on the host refused, in its own words.
    ScriptFailed(String),
    /// The session's metadata could not be read.
    Metadata { path: String, source: String },
}

impl SessionError {
    /// What the user reads.
    pub open spec fn text(self) -> Seq<char> {
        match self {
            SessionError::NotFound(what) => "no session named "@ + debug_text(what@),
            SessionError::Exists(what) => "a session named "@ + debug_text(what@) + " already exists"@,
            SessionError::InvalidName { name, reason } => "invalid session name "@ + debug_text(name@) + ": "@ + reason@,
            SessionError::InvalidCommand { command, reason } => "invalid command "@ + debug_text(command@) + ": "@ + reason@,
            SessionError::NotReady { name, timeout, log, log_tail } => "session "@ + debug_text(name@) + " did not become ready within "@ + duration_text(timeout) + "\n--- tail of "@ + log@ + " ---\n"@ + log_tail@,
            SessionError::NotKilled { name, reason } => "could not kill session "@ + debug_text(name@) + ": "@ + reason@,
            SessionError::TooManyUis { id, attached } => "session "@ + id@ + " already has "@ + decimal(attached as nat) + " attached UIs; detach one before attaching again"@,
            SessionError::ScriptFailed(what) => what@,
            SessionError::Metadata { path, source } => "session metadata at "@ + path@ + ": "@ + source@,
        }
    }

    /// What the user reads.
    pub fn message(&self) -> (r: String)
        ensures
            r@ == self.text(),
    {
        match self {
            SessionError::NotFound(what) => {
                let mut s: String = String::from_str("no session named ");
                s.append(quoted(what.as_str()).as_str());
                s
            },
            SessionError::Exists(what) => {
                let mut s: String = String::from_str("a session named ");
                s.append(quoted(what.as_str()).as_str());
                s.append(" already exists");
                s
            },
            SessionError::InvalidName { name, reason } => {
                let mut s: String = String::from_str("invalid session name ");
                s.append(quoted(name.as_str()).as_str());
                s.append(": ");
                s.append(reason);
                s
            },
            SessionError::InvalidCommand { command, reason } => {
                let mut s: String = String::from_str("invalid command ");
                s.append(quoted(command.as_str()).as_str());
                s.append(": ");
                s.append(reason);
                s
            },
            SessionError::NotReady { name, timeout, log, log_tail } => {
                let mut s: String = String::from_str("session ");
                s.append(quoted(name.as_str()).as_str());
                s.append(" did not become ready within ");
                s.append(spell_duration(*timeout).as_str());
                s.append("\n--- tail of ");
                s.append(log.as_str());
                s.append(" ---\n");
                s.append(log_tail.as_str());
                s
            },
            SessionError::NotKilled { name, reason } => {
                let mut s: String = String::from_str("could not kill session ");
                s.append(quoted(name.as_str()).as_str());
                s.append(": ");
                s.append(reason);
                s
            },
            SessionError::TooManyUis { id, attached } => {
                let mut s: String = String::from_str("session ");
                s.append(id.as_str());
                s.append(" already has ");
                s.append(number_text(*attached as u64).as_str());
                s.append(" attached UIs; detach one before attaching again");
                s
            },
            SessionError::ScriptFailed(what) => {
                String::from_str(what.as_str())
            },
            SessionError::Metadata { path, source } => {
                let mut s: String = String::from_str("session metadata at ");
                s.append(path.as_str());
                s.append(": ");
                s.append(source.as_str());
                s
            },
        }
    }
}

/// Problems with the `nvim` binary itself, on either machine.
#[derive(Debug)]
pub enum NvimError {
    /// There is none.
    NotFound { where_: String, min: &'static str },
    /// It is older than the oldest supported one.
    TooOld { where_: String, found: String, min: &'static str },
    /// Its banner names no version.
    UnparsableVersion { where_: String, raw: String },
}

impl NvimError {
    /// What the user reads.
    pub open spec fn text(self) -> Seq<char> {
        match self {
            NvimError::NotFound { where_, min } => where_@ + ": `nvim` not found on $PATH\nhint: nvmux needs Neovim >= "@ + min@ + " on "@ + where_@,
            NvimError::TooOld { where_, found, min } => where_@ + ": Neovim "@ + found@ + " is too old; nvmux needs >= "@ + min@ + "\nhint: "@ + min@ + " is where `:detach` and `:connect` landed, which nvmux relies on"@,
            NvimError::UnparsableVersion { where_, raw } => where_@ + ": could not parse `nvim --version` output: "@ + debug_text(raw@),
        }
    }

    /// What the user reads.
    pub fn message(&self) -> (r: String)
        ensures
            r@ == self.text(),
    {
        match self {
            NvimError::NotFound { where_, min } => {
                let mut s: String = String::from_str(where_.as_str());
                s.append(": `nvim` not found on $PATH\nhint: nvmux needs Neovim >= ");
                s.append(min);
                s.append(" on ");
                s.append(where_.as_str());
                s
            },
            NvimError::TooOld { where_, found, min } => {
                let mut s: String = String::from_str(where_.as_str());
                s.append(": Neovim ");
                s.append(found.as_str());
                s.append(" is too old; nvmux needs >= ");
                s.append(min);
                s.append("\nhint: ");
                s.append(min);
                s.append(" is where `:detach` and `:connect` landed, which nvmux relies on");
                s
            },
            NvimError::UnparsableVersion { where_, raw } => {
                let mut s: String = String::from_str(where_.as_str());
                s.append(": could not parse `nvim --version` output: ");
                s.append(quoted(raw.as_str()).as_str());
                s
            },
        }
    }
}

/// Problems driving the `ssh` client.
#[derive(Debug)]
pub enum SshError {
    /// No master connection is running.
    NoMaster(String),
    /// The connection to the host went away.
    MasterDied(String),
    /// A socket could not be forwarded.
    ForwardFailed { local: String, remote: String, stderr: String },
    /// The host did not let us in.
    AuthFailed(String),
    /// The host could not be reached.
    Unreachable(String),
    /// Anything else it exited with.
    Failed { code: i32, stderr: String },
    /// There is no `ssh`.
    NotFound,
    /// It cannot forward unix sockets.
    TooOld { found: String, min: &'static str },
    /// It connected, and the relay at the far end did not come up.
    RelayFailed { host: String, why: String },
}

impl SshError {
    /// What the user reads.
    pub open spec fn text(self) -> Seq<char> {
        match self {
            SshError::NoMaster(what) => "ssh: no ControlMaster running for "@ + what@,
            SshError::MasterDied(what) => "ssh: the connection to "@ + what@ + " died"@,
            SshError::ForwardFailed { local, remote, stderr } => "ssh: could not forward "@ + remote@ + " to "@ + local@ + ": "@ + stderr@,
            SshError::AuthFailed(what) => "ssh: authentication failed for "@ + what@ + "\nhint: nvmux uses your ssh client, so `ssh "@ + what@ + "` must work on its own first"@,
            SshError::Unreachable(what) => "ssh: host "@ + what@ + " is unreachable"@,
            SshError::Failed { code, stderr } => "ssh exited "@ + signed(code as int) + ": "@ + stderr@,
            SshError::NotFound => "`ssh` not found on $PATH"@,
            SshError::TooOld { found, min } => "ssh "@ + found@ + " is too old; nvmux needs >= "@ + min@ + " for unix-socket forwarding"@,
            SshError::RelayFailed { host, why } => "ssh: the relay on "@ + host@ + " did not start: "@ + why@,
        }
    }

    /// What the user reads.
    pub fn message(&self) -> (r: String)
        ensures
            r@ == self.text(),
    {
        match self {
            SshError::NoMaster(what) => {
                let mut s: String = String::from_str("ssh: no ControlMaster running for ");
                s.append(what.as_str());
                s
            },
            SshError::MasterDied(what) => {
                let mut s: String = String::from_str("ssh: the connection to ");
                s.append(what.as_str());
                s.append(" died");
                s
            },
            SshError::ForwardFailed { local, remote, stderr } => {
                let mut s: String = String::from_str("ssh: could not forward ");
                s.append(remote.as_str());
                s.append(" to ");
                s.append(local.as_str());
                s.append(": ");
                s.append(stderr.as_str());
                s
            },
            SshError::AuthFailed(what) => {
                let mut s: String = String::from_str("ssh: authentication failed for ");
                s.append(what.as_str());
                s.append("\nhint: nvmux uses your ssh client, so `ssh ");
                s.append(what.as_str());
                s.append("` must work on its own first");
                s
            },
            SshError::Unreachable(what) => {
                let mut s: String = String::from_str("ssh: host ");
                s.append(what.as_str());
                s.append(" is unreachable");
                s
            },
            SshError::Failed { code, stderr } => {
                let mut s: String = String::from_str("ssh exited ");
                s.append(signed_text(*code).as_str());
                s.append(": ");
                s.append(stderr.as_str());
                s
            },
            SshError::NotFound => {
                String::from_str("`ssh` not found on $PATH")
            },
            SshError::TooOld { found, min } => {
                let mut s: String = String::from_str("ssh ");
                s.append(found.as_str());
                s.append(" is too old; nvmux needs >= ");
                s.append(min);
                s.append(" for unix-socket forwarding");
                s
            },
            SshError::RelayFailed { host, why } => {
                let mut s: String = String::from_str("ssh: the relay on ");
                s.append(host.as_str());
                s.append(" did not start: ");
                s.append(why.as_str());
                s
            },
        }
    }
}

/// Failures loading the user's configuration file.
#[derive(Debug)]
pub enum ConfigError {
    /// The file named by `$NVMUX_CONFIG` does not exist.
    ExplicitMissing(String),
    /// The file exists but could not be read.
    Read { path: String, source: String },
    /// The file is not valid TOML, names an unknown key, or a value did not parse.
    Parse { path: String, source: String },
    /// A value is out of range.
    Invalid { path: String, message: String },
    /// The first-run file could not be written.
    Write { path: String, source: String },
}

impl ConfigError {
    /// What the user reads.
    pub open spec fn text(self) -> Seq<char> {
        match self {
            ConfigError::ExplicitMissing(what) => what@ + ": config file not found (named by $NVMUX_CONFIG)"@,
            ConfigError::Read { path, source } => path@ + ": "@ + source@,
            ConfigError::Parse { path, source } => path@ + ": "@ + source@,
            ConfigError::Invalid { path, message } => path@ + ": "@ + message@,
            ConfigError::Write { path, source } => path@ + ": "@ + source@,
        }
    }

    /// What the user reads.
    pub fn message(&self) -> (r: String)
        ensures
            r@ == self.text(),
    {
        match self {
            ConfigError::ExplicitMissing(what) => {
                let mut s: String = String::from_str(what.as_str());
                s.append(": config file not found (named by $NVMUX_CONFIG)");
                s
            },
            ConfigError::Read { path, source } => {
                let mut s: String = String::from_str(path.as_str());
                s.append(": ");
                s.append(source.as_str());
                s
            },
            ConfigError::Parse { path, source } => {
                let mut s: String = String::from_str(path.as_str());
                s.append(": ");
                s.append(source.as_str());
                s
            },
            ConfigError::Invalid { path, message } => {
                let mut s: String = String::from_str(path.as_str());
                s.append(": ");
                s.append(message.as_str());
                s
            },
            ConfigError::Write { path, source } => {
                let mut s: String = String::from_str(path.as_str());
                s.append(": ");
                s.append(source.as_str());
                s
            },
        }
    }
}

/// Any of them, as it crosses from one part of the program to another.
#[derive(Debug)]
pub enum NvmuxError {
    Path(PathError),
    Rpc(RpcError),
    Session(SessionError),
    Nvim(NvimError),
    Ssh(SshError),
    Config(ConfigError),
    /// What the system said.
    Io(String),
    /// Something that is not there yet, reported politely.
    Unimplemented(&'static str),
}

impl NvmuxError {
    /// What the user reads.
    pub open spec fn text(self) -> Seq<char> {
        match self {
            NvmuxError::Path(e) => e.text(),
            NvmuxError::Rpc(e) => e.text(),
            NvmuxError::Session(e) => e.text(),
            NvmuxError::Nvim(e) => e.text(),
            NvmuxError::Ssh(e) => e.text(),
            NvmuxError::Config(e) => e.text(),
            NvmuxError::Io(what) => what@,
            NvmuxError::Unimplemented(what) => "not implemented yet: "@ + what@,
        }
    }

    /// What the user reads.
    pub fn message(&self) -> (r: String)
        ensures
            r@ == self.text(),
    {
        match self {
            NvmuxError::Path(e) => e.message(),
            NvmuxError::Rpc(e) => e.message(),
            NvmuxError::Session(e) => e.message(),
            NvmuxError::Nvim(e) => e.message(),
            NvmuxError::Ssh(e) => e.message(),
            NvmuxError::Config(e) => e.message(),
            NvmuxError::Io(what) => what.clone(),
            NvmuxError::Unimplemented(what) => {
                let mut s: String = String::from_str("not implemented yet: ");
                s.append(what);
                s
            },
        }
    }
}

/// The number that octal digits spell.
pub open spec fn octal_value(s: Seq<char>) -> nat
    decreases s.len(),
{
    if s.len() == 0 {
        0
    } else {
        octal_value(s.drop_last()) * 8 + (s.last() as u32 - 0x30) as nat
    }
}

/// A mode is shown in octal digits that spell it, four of them at least.
pub proof fn law_a_mode_reads_back(n: nat)
    ensures
        octal4(n).len() >= 4,
        octal_value(octal4(n)) == n,
        forall|i: int| 0 <= i < octal4(n).len() ==> '0' <= #[trigger] octal4(n)[i] && octal4(n)[i]
            <= '7',
{
    lemma_octal_reads_back(n);
    let d = octal(n);
    if d.len() < 4 {
        let zeros = Seq::new((4 - d.len()) as nat, |i: int| '0');
        lemma_zeros_add_nothing(zeros, d);
        assert forall|i: int| 0 <= i < octal4(n).len() implies '0' <= #[trigger] octal4(n)[i]
            && octal4(n)[i] <= '7' by {
            if i >= zeros.len() {
                assert(octal4(n)[i] == d[i - zeros.len()]);
            }
        }
    }
}

proof fn lemma_octal_reads_back(n: nat)
    ensures
        octal(n).len() > 0,
        octal_value(octal(n)) == n,
        forall|i: int| 0 <= i < octal(n).len() ==> '0' <= #[trigger] octal(n)[i] && octal(n)[i]
            <= '7',
    decreases n,
{
    let d = octal(n);
    reveal_with_fuel(octal_value, 2);
    if n < 8 {
        assert(d.drop_last() =~= Seq::<char>::empty());
        assert(d.last() as u32 == 0x30 + n);
    } else {
        lemma_octal_reads_back(n / 8);
        assert(d.drop_last() =~= octal(n / 8));
        assert(d.last() as u32 == 0x30 + n % 8);
        assert forall|i: int| 0 <= i < d.len() implies '0' <= #[trigger] d[i] && d[i] <= '7' by {
            if i < d.len() - 1 {
                assert(d[i] == octal(n / 8)[i]);
            }
        }
    }
}

proof fn lemma_zeros_add_nothing(zeros: Seq<char>, d: Seq<char>)
    requires
        forall|i: int| 0 <= i < zeros.len() ==> #[trigger] zeros[i] == '0',
    ensures
        octal_value(zeros + d) == octal_value(d),
    decreases zeros.len() + d.len(),
{
    let s = zeros + d;
    if d.len() > 0 {
        lemma_zeros_add_nothing(zeros, d.drop_last());
        assert(s.drop_last() =~= zeros + d.drop_last());
        assert(s.last() == d.last());
    } else if zeros.len() > 0 {
        let fewer = zeros.drop_last();
        assert forall|i: int| 0 <= i < fewer.len() implies #[trigger] fewer[i] == '0' by {
            assert(fewer[i] == zeros[i]);
        }
        lemma_zeros_add_nothing(fewer, d);
        assert(s.drop_last() =~= fewer + d);
        assert(s.last() == zeros[zeros.len() - 1]);
    } else {
        assert(s =~= d);
    }
}

/// A signed number is spelled so that it reads back.
pub proof fn law_a_signed_number_reads_back(n: i32)
    ensures
        crate::text::int32(signed(n as int)) == Some(n),
{
    crate::text::law_whole_numbers_read_back(if n < 0 {
        -(n as int)
    } else {
        n as int
    });
}

} // verus!
