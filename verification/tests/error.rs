use nvmux::error::{
    ConfigError, NvimError, NvmuxError, PathError, RpcError, SessionError, SshError,
};

#[test]
fn path_errors_say_what_is_wrong_with_the_path() {
    let long = PathError::TooLong {
        path: "/p".into(),
        len: 120,
        max: 100,
    };
    assert!(
        long.message()
            .starts_with("unix socket path is 120 bytes, max 100: /p\nhint: "),
        "{}",
        long.message()
    );
    assert_eq!(
        PathError::NotADirectory("/p".into()).message(),
        "/p: not a directory (or is a symlink to one, which we refuse)"
    );
    assert_eq!(
        PathError::BadOwner {
            path: "/p".into(),
            owner: 0,
            expected: 501
        }
        .message(),
        "/p: owned by uid 0, expected 501"
    );
    assert_eq!(
        PathError::BadMode {
            path: "/p".into(),
            mode: 0o75
        }
        .message(),
        "/p: mode is 0075, refusing to use a directory accessible to other users"
    );
    assert_eq!(
        PathError::BadMode {
            path: "/p".into(),
            mode: 0o12345
        }
        .message(),
        "/p: mode is 12345, refusing to use a directory accessible to other users"
    );
    assert_eq!(
        PathError::MalformedId("a\"b\n".into()).message(),
        "malformed session id \"a\\\"b\\n\": expected 8 lowercase base32 characters"
    );
}

#[test]
fn rpc_errors_tell_a_dead_server_from_a_slow_one() {
    let refused = RpcError::ConnectionRefused("x.sock".into());
    assert_eq!(refused.message(), "connection refused: x.sock");
    assert!(refused.is_definitely_dead());
    assert!(RpcError::Reset.is_definitely_dead());
    let slow = RpcError::Timeout(1_500_000_000);
    assert_eq!(slow.message(), "timed out after 1.5s");
    assert!(!slow.is_definitely_dead());
    assert_eq!(
        RpcError::Nvim("E5108".into()).message(),
        "nvim returned an error: E5108"
    );
    assert_eq!(
        RpcError::Protocol("0xc1".into()).message(),
        "malformed msgpack from nvim: 0xc1"
    );
    assert_eq!(RpcError::Io("pipe".into()).message(), "pipe");
}

#[test]
fn session_errors_quote_the_name() {
    assert_eq!(
        SessionError::NotFound("web".into()).message(),
        "no session named \"web\""
    );
    assert_eq!(
        SessionError::Exists("web".into()).message(),
        "a session named \"web\" already exists"
    );
    assert_eq!(
        SessionError::InvalidName {
            name: "".into(),
            reason: "it is empty"
        }
        .message(),
        "invalid session name \"\": it is empty"
    );
    assert_eq!(
        SessionError::InvalidCommand {
            command: "nvim".into(),
            reason: "is missing {sock}"
        }
        .message(),
        "invalid command \"nvim\": is missing {sock}"
    );
    assert_eq!(
        SessionError::NotReady {
            name: "web".into(),
            timeout: 250_000_000,
            log: "/l".into(),
            log_tail: "boom".into()
        }
        .message(),
        "session \"web\" did not become ready within 250ms\n--- tail of /l ---\nboom"
    );
    assert_eq!(
        SessionError::NotKilled {
            name: "web".into(),
            reason: "it lives"
        }
        .message(),
        "could not kill session \"web\": it lives"
    );
    assert_eq!(
        SessionError::TooManyUis {
            id: "abcdefgh".into(),
            attached: 16
        }
        .message(),
        "session abcdefgh already has 16 attached UIs; detach one before attaching again"
    );
    assert_eq!(SessionError::ScriptFailed("no".into()).message(), "no");
    assert_eq!(
        SessionError::Metadata {
            path: "/m".into(),
            source: "bad json".into()
        }
        .message(),
        "session metadata at /m: bad json"
    );
}

#[test]
fn nvim_errors_name_the_machine() {
    assert_eq!(
        NvimError::NotFound {
            where_: "h".into(),
            min: "0.11"
        }
        .message(),
        "h: `nvim` not found on $PATH\nhint: nvmux needs Neovim >= 0.11 on h"
    );
    assert!(NvimError::TooOld {
        where_: "h".into(),
        found: "0.9.5".into(),
        min: "0.11"
    }
    .message()
    .starts_with("h: Neovim 0.9.5 is too old; nvmux needs >= 0.11\nhint: "));
    assert_eq!(
        NvimError::UnparsableVersion {
            where_: "h".into(),
            raw: "x\ty".into()
        }
        .message(),
        "h: could not parse `nvim --version` output: \"x\\ty\""
    );
}

#[test]
fn ssh_errors_name_the_host() {
    assert_eq!(
        SshError::NoMaster("h".into()).message(),
        "ssh: no ControlMaster running for h"
    );
    assert_eq!(
        SshError::ForwardFailed {
            local: "/l".into(),
            remote: "/r".into(),
            stderr: "no".into()
        }
        .message(),
        "ssh: could not forward /r to /l: no"
    );
    assert!(SshError::AuthFailed("h".into())
        .message()
        .starts_with("ssh: authentication failed for h\nhint: "));
    assert_eq!(
        SshError::Unreachable("h".into()).message(),
        "ssh: host h is unreachable"
    );
    assert_eq!(
        SshError::Failed {
            code: i32::MIN,
            stderr: "x".into()
        }
        .message(),
        "ssh exited -2147483648: x"
    );
    assert_eq!(SshError::NotFound.message(), "`ssh` not found on $PATH");
    assert_eq!(
        SshError::TooOld {
            found: "6.6".into(),
            min: "6.7"
        }
        .message(),
        "ssh 6.6 is too old; nvmux needs >= 6.7 for unix-socket forwarding"
    );
}

#[test]
fn an_error_crosses_over_with_its_words() {
    assert_eq!(
        NvmuxError::Path(PathError::Io {
            path: "/p".into(),
            source: "gone".into()
        })
        .message(),
        "/p: gone"
    );
    assert_eq!(
        NvmuxError::Config(ConfigError::Write {
            path: "/c".into(),
            source: "full".into()
        })
        .message(),
        "/c: full"
    );
    assert_eq!(
        NvmuxError::Unimplemented("this").message(),
        "not implemented yet: this"
    );
}
