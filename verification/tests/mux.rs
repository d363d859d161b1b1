use nvmux::error::{NvimError, NvmuxError, SessionError, SshError};
use nvmux::mux::{
    credit, exit_status, exit_text, frame, header, keep_tail, link_error, spawn_error,
    stderr_text, version_error, Boot, Booting, Channels, Exiting, Header, Opening, Sending, ShellPipes, Stream,
    Waiting, CLOSE, CREDIT, CREDIT_DUE, DATA, EOF, EXIT, EXIT_WAIT, MAX_CHUNK, MAX_FRAME, OPENED,
    OPEN_TIMEOUT, REFUSED, STDERR, STDERR_TAIL, WINDOW,
};
use nvmux::proc::{Ready, Streams};

const BOTH: Streams = Streams {
    out: true,
    err: true,
};

#[test]
fn exit_statuses_read_as_a_child_would_report_them() {
    assert_eq!(exit_status(b"0 0"), 0);
    assert_eq!(exit_status(b"3 0"), 3);
    assert_eq!(exit_status(b"-1 9"), -1);
    assert_eq!(exit_status(b"0 15"), -1, "a signal has no code");
    assert_eq!(exit_status(b"garbage"), -1);
}

#[test]
fn an_exit_needs_a_number_that_fits() {
    assert_eq!(exit_text(" 7  0 "), 7);
    assert_eq!(exit_text("7"), 7, "no signal is no signal");
    assert_eq!(exit_text("7 x"), 7, "an unreadable signal is none");
    assert_eq!(exit_text("-2147483648 0"), i32::MIN);
    assert_eq!(exit_text("2147483648 0"), -1);
    assert_eq!(exit_text("+3 0"), 3);
    assert_eq!(exit_text(""), -1);
    assert_eq!(exit_status(b"\xff 0"), -1);
}

#[test]
fn a_frame_reads_back_as_it_was_written() {
    let bytes = frame(DATA, 0x0102_0304, b"hello");
    assert_eq!(bytes, b"\x05\x01\x02\x03\x04\x00\x00\x00\x05hello");
    let mut front = [0u8; 9];
    front.copy_from_slice(&bytes[..9]);
    assert_eq!(
        header(&front),
        Some(Header {
            kind: DATA,
            id: 0x0102_0304,
            len: 5
        })
    );
    assert_eq!(&bytes[9..], b"hello");
    assert_eq!(credit(0x0001_0203), [0, 1, 2, 3]);
}

#[test]
fn a_frame_too_large_to_be_the_relays_is_refused() {
    let front = |len: u32| {
        let mut bytes = [0u8; 9];
        bytes[0] = DATA;
        bytes[5..].copy_from_slice(&credit(len));
        bytes
    };
    assert!(header(&front(MAX_FRAME as u32)).is_some());
    assert!(header(&front(MAX_FRAME as u32 + 1)).is_none());
}

fn open(channels: &mut Channels) -> usize {
    channels.open().expect("the connection is up")
}

#[test]
fn an_open_is_answered_refused_or_given_up_on() {
    let mut channels = Channels::new();
    let a = open(&mut channels);
    let b = open(&mut channels);
    assert_eq!((channels.id(a), channels.id(b)), (1, 2));
    assert_eq!(
        channels.opening(a, 5, 5 + OPEN_TIMEOUT),
        Opening::Wait(OPEN_TIMEOUT)
    );
    assert_eq!(channels.opening(a, 9, 9), Opening::TimedOut);

    assert_eq!(channels.deliver(OPENED, 1, b" 4711\n"), Some(a));
    assert_eq!(channels.opening(a, 9, 9), Opening::Opened(4711));
    assert_eq!(channels.deliver(REFUSED, 2, b"no such socket"), Some(b));
    assert_eq!(
        channels.opening(b, 9, 9),
        Opening::Refused("no such socket".into())
    );
    assert_eq!(channels.sending(b, 1), Sending::Closed);
    assert_eq!(channels.deliver(DATA, 2, b"late"), None, "let go of");
}

#[test]
fn an_open_without_a_pid_is_a_socket() {
    for payload in [&b""[..], b"x", b"\xff", b"4294967296"] {
        let mut channels = Channels::new();
        let h = open(&mut channels);
        channels.deliver(OPENED, 1, payload);
        assert_eq!(channels.opening(h, 0, 0), Opening::Opened(0), "{payload:?}");
    }
}

#[test]
fn bytes_come_out_in_order_and_only_from_their_channel() {
    let mut channels = Channels::new();
    let a = open(&mut channels);
    let b = open(&mut channels);
    channels.deliver(DATA, 1, b"hel");
    channels.deliver(DATA, 2, b"other");
    channels.deliver(DATA, 1, b"lo");
    channels.deliver(STDERR, 1, b"oops");
    assert_eq!(channels.take(a, Stream::Output, 4), (b"hell".to_vec(), None));
    assert_eq!(channels.take(a, Stream::Output, 4), (b"o".to_vec(), None));
    assert_eq!(channels.take(a, Stream::Errors, 9), (b"oops".to_vec(), None));
    assert_eq!(channels.take(b, Stream::Output, 9), (b"other".to_vec(), None));
    assert_eq!(channels.deliver(DATA, 3, b"nobody"), None);
}

#[test]
fn a_write_stops_at_its_window_and_goes_on_with_credit() {
    let mut channels = Channels::new();
    let h = open(&mut channels);
    let mut sent = 0u64;
    loop {
        match channels.sending(h, 1 << 20) {
            Sending::Send(n) => {
                assert!(n <= MAX_CHUNK);
                sent += n as u64;
            }
            Sending::Wait => break,
            Sending::Closed => panic!("it is open"),
        }
    }
    assert_eq!(sent, WINDOW);
    channels.deliver(CREDIT, 1, &credit(7));
    assert_eq!(channels.sending(h, 100), Sending::Send(7));
    channels.deliver(CREDIT, 1, b"not four");
    assert_eq!(channels.sending(h, 100), Sending::Wait);
}

#[test]
fn credit_goes_back_once_enough_was_taken() {
    let mut channels = Channels::new();
    let h = open(&mut channels);
    let half = vec![0u8; CREDIT_DUE as usize];
    channels.deliver(DATA, 1, &half);
    let (first, none) = channels.take(h, Stream::Output, half.len() - 1);
    assert_eq!((first.len(), none), (half.len() - 1, None));
    let (last, due) = channels.take(h, Stream::Output, 100);
    assert_eq!((last.len(), due), (1, Some(CREDIT_DUE as u32)));
    channels.deliver(STDERR, 1, b"x");
    assert_eq!(channels.take(h, Stream::Errors, 9).1, None, "counted afresh");
}

#[test]
fn a_wait_ends_with_bytes_an_end_or_its_deadline() {
    let mut channels = Channels::new();
    let h = open(&mut channels);
    let nothing = Ready {
        out: false,
        err: false,
    };
    assert_eq!(channels.waiting(h, BOTH, 10, None), Waiting::Wait(None));
    assert_eq!(
        channels.waiting(h, BOTH, 10, Some(15)),
        Waiting::Wait(Some(5))
    );
    assert_eq!(
        channels.waiting(h, BOTH, 15, Some(15)),
        Waiting::Done(nothing)
    );
    channels.deliver(EOF, 1, b"err");
    assert_eq!(
        channels.waiting(h, BOTH, 0, None),
        Waiting::Done(Ready {
            out: false,
            err: true
        })
    );
    channels.deliver(EOF, 1, b"out");
    assert_eq!(
        channels.waiting(h, BOTH, 0, None),
        Waiting::Done(Ready {
            out: true,
            err: true
        })
    );
}

#[test]
fn a_shells_exit_is_waited_for() {
    let mut channels = Channels::new();
    let h = open(&mut channels);
    assert_eq!(channels.exit(h), None);
    assert_eq!(
        channels.exiting(h, 0, EXIT_WAIT),
        Exiting::Wait(EXIT_WAIT)
    );
    assert_eq!(channels.exiting(h, 5, 5), Exiting::Exited(-1));
    channels.deliver(EXIT, 1, b"3 0");
    assert_eq!(channels.exit(h), Some(3));
    assert_eq!(channels.exiting(h, 5, 5), Exiting::Exited(3));
    let g = open(&mut channels);
    channels.deliver(CLOSE, 2, b"");
    assert_eq!(channels.exit(g), None, "the link is up");
    assert_eq!(channels.exiting(g, 0, EXIT_WAIT), Exiting::Exited(-1));
}

#[test]
fn a_channel_ended_from_here_is_told_of_once() {
    let mut channels = Channels::new();
    let h = open(&mut channels);
    assert!(channels.may_finish(h));
    assert!(channels.shutdown(h), "the far side is told");
    assert!(!channels.may_finish(h));
    assert!(!channels.shutdown(h));
    assert!(!channels.release(h));
    let g = open(&mut channels);
    assert!(channels.release(g));
    assert_eq!(channels.deliver(DATA, 2, b"x"), None);
}

#[test]
fn closing_the_link_ends_its_channels() {
    let mut channels = Channels::new();
    let h = open(&mut channels);
    channels.deliver(DATA, 1, b"kept");
    channels.went_down(255, "gone");
    assert!(!channels.is_up());
    assert_eq!(
        channels.opening(h, 0, 100),
        Opening::Refused("the relay's connection went down".into())
    );
    assert_eq!(channels.take(h, Stream::Output, 16).0, b"kept");
    assert_eq!(channels.take(h, Stream::Output, 16).0, b"");
    assert_eq!(channels.sending(h, 1), Sending::Closed);
    assert_eq!(channels.exit(h), Some(-1));
    assert!(channels.open().is_none());
}

#[test]
fn a_shells_ends_close_once() {
    let mut pipes = ShellPipes::new();
    assert!(pipes.write_in().is_ok());
    assert!(pipes.close_in());
    assert!(!pipes.close_in());
    assert_eq!(pipes.write_in(), Err("stdin already closed"));
    assert_eq!(pipes.wanted(BOTH), BOTH);
    pipes.read_err(3);
    assert!(pipes.err_open());
    pipes.read_err(0);
    assert!(!pipes.err_open());
    assert_eq!(
        pipes.wanted(BOTH),
        Streams {
            out: true,
            err: false
        }
    );
}

#[test]
fn only_the_end_of_what_was_said_is_kept() {
    let mut tail = Vec::new();
    keep_tail(&mut tail, b"first ");
    keep_tail(&mut tail, &vec![b'x'; STDERR_TAIL - 2]);
    assert_eq!(tail.len(), STDERR_TAIL);
    assert!(tail.starts_with(b"t xx"), "{:?}", &tail[..4]);
}

#[test]
fn what_was_kept_reads_as_text_though_the_cut_splits_a_character() {
    let mut tail = Vec::new();
    keep_tail(&mut tail, "à".as_bytes());
    keep_tail(&mut tail, &vec![b'x'; STDERR_TAIL - 1]);
    assert_eq!(
        stderr_text(&tail),
        format!("\u{fffd}{}", "x".repeat(STDERR_TAIL - 1))
    );
    assert_eq!(stderr_text("fermé".as_bytes()), "fermé");
}

fn failed() -> SshError {
    SshError::AuthFailed("h".into())
}

#[test]
fn the_far_side_comes_up_line_by_line() {
    let mut boot = Boot::start("s3cret");
    assert_eq!(boot.line(b"Welcome\n"), Booting::More);
    assert_eq!(boot.line(b"NVMUX_BOOT_other NVIM v0.11.4\n"), Booting::More);
    assert_eq!(boot.line(b"NVMUX_BOOT_s3cret NVIM v0.11.4\n"), Booting::More);
    assert_eq!(boot.line(b"some warning\n"), Booting::More);
    assert_eq!(boot.line(b"NVMUX_RELAY_s3cret 1\n"), Booting::Up);
    let mut boot = Boot::start("s");
    boot.line(b"NVMUX_BOOT_s NVIM v0.11.4\n");
    assert_eq!(
        boot.line(b"NVMUX_RELAY_s 2\n"),
        Booting::Speaks("2".into())
    );
    match version_error("h", "2") {
        SshError::RelayFailed { host, why } => {
            assert_eq!(host, "h");
            assert_eq!(why, "it speaks protocol 2, and this nvmux speaks 1");
        }
        other => panic!("expected RelayFailed, got {other:?}"),
    }
}

#[test]
fn a_connection_that_never_starts_is_ssh_failing() {
    let boot = Boot::start("s");
    let err = boot.failure("h", 255, "Permission denied (publickey).\n", failed());
    assert!(
        matches!(err, NvmuxError::Ssh(SshError::AuthFailed(_))),
        "{err:?}"
    );
}

#[test]
fn a_refusing_script_is_quoted() {
    let mut boot = Boot::start("s");
    boot.line(b"Welcome\n");
    boot.line(b"ERROR the directory is not ours\r\n");
    boot.line(b"ERROR another\n");
    match boot.failure("h", 1, "", failed()) {
        NvmuxError::Session(SessionError::ScriptFailed(why)) => {
            assert_eq!(why, "the directory is not ours")
        }
        other => panic!("expected ScriptFailed, got {other:?}"),
    }
}

#[test]
fn a_host_without_neovim_is_reported_as_one() {
    let mut boot = Boot::start("s");
    assert_eq!(boot.line(b"NVMUX_BOOT_s \n"), Booting::Without);
    let err = boot.failure("h", 0, "", failed());
    assert!(
        matches!(err, NvmuxError::Nvim(NvimError::NotFound { .. })),
        "{err:?}"
    );
}

#[test]
fn a_relay_that_does_not_start_says_why() {
    let mut boot = Boot::start("s");
    boot.line(b"NVMUX_BOOT_s NVIM v0.9.5\n");
    assert!(matches!(
        boot.failure("h", 1, "", failed()),
        NvmuxError::Nvim(NvimError::TooOld { .. })
    ));
    let mut boot = Boot::start("s");
    boot.line(b"NVMUX_BOOT_s garbage\n");
    assert!(matches!(
        boot.failure("h", 1, "", failed()),
        NvmuxError::Nvim(NvimError::UnparsableVersion { .. })
    ));
    let mut boot = Boot::start("s");
    boot.line(b"NVMUX_BOOT_s NVIM v0.11.4\n");
    let why = |stderr: &str| match boot.failure("h", 7, stderr, failed()) {
        NvmuxError::Ssh(SshError::RelayFailed { why, .. }) => why,
        other => panic!("expected RelayFailed, got {other:?}"),
    };
    assert_eq!(why(" \n"), "Neovim exited with status 7 and said nothing");
    assert_eq!(why("first\nE5113: the last one\n"), "E5113: the last one");
}

#[test]
fn a_link_that_went_down_died() {
    let lost = SshError::Failed {
        code: 255,
        stderr: String::new(),
    };
    assert!(matches!(link_error("h", lost), SshError::MasterDied(h) if h == "h"));
    assert!(matches!(link_error("h", failed()), SshError::AuthFailed(_)));
    assert!(matches!(spawn_error(true, "", "h"), SshError::NotFound));
    assert_eq!(
        spawn_error(false, "no memory", "h").message(),
        "ssh exited -1: running ssh for h: no memory"
    );
}

/// A socket nothing listens on is refused, in the relay's words, and the connection is none the
/// worse for it.
#[test]
fn a_socket_that_is_not_there_is_refused() {
    let mut channels = Channels::new();
    let socket = open(&mut channels);
    channels.deliver(REFUSED, channels.id(socket), b"ENOENT: no such file or directory");
    assert_eq!(
        channels.opening(socket, 0, OPEN_TIMEOUT),
        Opening::Refused("ENOENT: no such file or directory".into())
    );
    assert!(channels.is_up());
    let shell = open(&mut channels);
    channels.deliver(OPENED, channels.id(shell), b"42");
    assert_eq!(channels.opening(shell, 0, OPEN_TIMEOUT), Opening::Opened(42));
}

/// What is taken on both streams is credited back, so a script that says more than a window's
/// worth finishes: the sender never has more than a window on its way.
#[test]
fn a_chatty_script_outlasts_its_window() {
    let mut channels = Channels::new();
    let h = open(&mut channels);
    let id = channels.id(h);
    channels.deliver(OPENED, id, b"42");
    let (mut room, mut out, mut err) = (WINDOW, vec![], vec![]);
    for _ in 0..4000 {
        let (line, oops) = (format!("{:0500}\n", 0), format!("e{:0100}\n", 0));
        let said = (line.len() + oops.len()) as u64;
        assert!(room >= said, "the window ran out with everything taken");
        room -= said;
        channels.deliver(DATA, id, line.as_bytes());
        channels.deliver(STDERR, id, oops.as_bytes());
        for (which, into) in [(Stream::Output, &mut out), (Stream::Errors, &mut err)] {
            let (bytes, credit) = channels.take(h, which, 4096);
            into.extend_from_slice(&bytes);
            room += u64::from(credit.unwrap_or(0));
        }
    }
    let (out, err) = (String::from_utf8(out).unwrap(), String::from_utf8(err).unwrap());
    assert_eq!(out.lines().count(), 4000);
    assert_eq!(err.lines().count(), 4000);
    assert!(out.len() as u64 > 4 * WINDOW, "the window was not exercised");
}
