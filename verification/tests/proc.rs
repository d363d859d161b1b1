use nvmux::launch::split;
use nvmux::proc::{
    find_marker, frame, marker, needle, quote, quote_all, reaping, settle_for, Died, Look, Output,
    Reap, Scan, Shell, Step,
};

const SECRET: &str = "s3cret";

fn started() -> Shell {
    let mut shell = Shell::start("/bin/sh", SECRET);
    assert_eq!(
        shell.handshake(),
        b"printf '\\n%s %s\\n' NVMUX_MARK_s3cret_0 ready\n"
    );
    shell.heard_out(b"\nNVMUX_MARK_s3cret_0 ready\n");
    shell
}

fn answer(shell: &mut Shell, script: &str, seq: u64, said: &[u8], status: &str) -> (Vec<u8>, i32) {
    shell.begin(script, &[]).expect("alive");
    shell.heard_out(said);
    shell.heard_out(format!("\nNVMUX_MARK_{SECRET}_{seq} {status}\n").as_bytes());
    match shell.step() {
        Step::Finished(out, status) => (out, status),
        other => panic!("the run is over, got {other:?}"),
    }
}

/// A run that printed this on its two streams.
fn run(shell: &mut Shell, script: &str, seq: u64, out: &[u8], err: &[u8], status: &str) -> Output {
    shell.begin(script, &[]).expect("alive");
    shell.heard_err(err);
    shell.heard_out(out);
    shell.heard_out(format!("\nNVMUX_MARK_{SECRET}_{seq} {status}\n").as_bytes());
    match shell.step() {
        Step::Finished(stdout, status) => shell.finish(stdout, status),
        other => panic!("the run is over, got {other:?}"),
    }
}

#[test]
fn positional_arguments_arrive_intact() {
    let args = ["one", "two words", "it's"];
    assert_eq!(quote_all(&args), r"'one' 'two words' 'it'\''s'");
    assert_eq!(split(&quote_all(&args)).expect("reads back"), args);
}

#[test]
fn shell_metacharacters_in_arguments_are_not_evaluated() {
    let args = ["$(echo pwned)"];
    assert_eq!(quote(args[0]), "'$(echo pwned)'");
    assert_eq!(split(&quote_all(&args)).expect("reads back"), args);
}

#[test]
fn arguments_are_quoted_not_evaluated_and_do_not_accumulate() {
    let args = ["$(echo pwned)", "a b", "'", ""];
    assert_eq!(split(&quote_all(&args)).expect("reads back"), args);
    assert_eq!(quote_all(&["only"]), "'only'");
    assert_eq!(quote_all(&[]), "");
    assert_eq!(
        frame("M", "printf x", &["a b", "c"]),
        b"( set -- 'a b' 'c'\nprintf x\n) </dev/null; printf '\\n%s %s\\n' M \"$?\"\n"
    );
}

#[test]
fn a_failing_script_reports_its_status_not_an_error() {
    let mut shell = started();
    let (stdout, status) = answer(&mut shell, "exit 3", 1, b"", "3");
    let out = shell.finish(stdout, status);
    assert_eq!(out.status, 3);
    assert!(!out.ok());
}

#[test]
fn a_shell_runs_scripts_one_after_another() {
    let mut shell = started();
    assert_eq!(answer(&mut shell, "printf one", 1, b"one", "0").0, b"one");
    assert_eq!(answer(&mut shell, "printf two", 2, b"two", "0").0, b"two");
    let (stdout, status) = answer(&mut shell, ":", 3, b"[one][two words][it's]", "0");
    let out = shell.finish(stdout, status);
    assert!(out.ok(), "stderr: {}", out.stderr);
    assert_eq!(out.stdout, "[one][two words][it's]");
}

#[test]
fn output_is_byte_exact() {
    let mut shell = started();
    for (i, said) in [&b"no newline"[..], b"a\n\n", b"", b"\n"].iter().enumerate() {
        assert_eq!(answer(&mut shell, ":", i as u64 + 1, said, "0").0, *said);
    }
}

#[test]
fn terminator_lookalikes_in_the_output_do_not_end_a_run() {
    let mut shell = started();
    let script = "printf 'NVMUX_END\\n'; printf 'NVMUX_MARK_aaaaaaaa_1 0\\n'; printf 'NVMUX_MARK_ 0\\n'; printf 'tail'";
    let said = b"NVMUX_END\nNVMUX_MARK_aaaaaaaa_1 0\nNVMUX_MARK_ 0\ntail";
    let out = run(&mut shell, script, 1, said, b"", "0");
    assert_eq!(
        out.stdout,
        "NVMUX_END\nNVMUX_MARK_aaaaaaaa_1 0\nNVMUX_MARK_ 0\ntail"
    );
    assert!(out.ok());
    // The secret never appears on stdout, which is the whole guarantee.
    assert!(!out.stdout.contains(SECRET));
    assert_eq!(
        run(&mut shell, "printf still", 2, b"still", b"", "0").stdout,
        "still"
    );
}

#[test]
fn a_failing_script_is_a_status_and_the_shell_goes_on() {
    let mut shell = started();
    let out = run(&mut shell, "exit 3", 1, b"", b"", "3");
    assert_eq!(out.status, 3);
    assert!(!out.ok());
    assert_eq!(
        run(&mut shell, "printf fine", 2, b"fine", b"", "0").stdout,
        "fine"
    );
}

#[test]
fn stderr_is_attributed_to_the_run_that_wrote_it() {
    let mut shell = started();
    let a = run(&mut shell, "printf a >&2; exit 1", 1, b"", b"a", "1");
    assert_eq!(a.stderr, "a");
    let quiet = run(&mut shell, ":", 2, b"", b"", "0");
    assert_eq!(quiet.stderr, "", "the previous run's stderr leaked");
    let b = run(&mut shell, "printf b >&2", 3, b"", b"b", "0");
    assert_eq!(b.stderr, "b");
}

/// Both streams at once, in pieces, and more than a pipe holds.
#[test]
fn a_chatty_script_cannot_wedge_the_shell() {
    let mut shell = started();
    let script = "i=0; while [ $i -lt 2000 ]; do printf '%0500d\\n' 0; printf 'e%0100d\\n' 0 >&2; i=$((i+1)); done";
    shell.begin(script, &[]).expect("alive");
    for _ in 0..2000 {
        shell.heard_out(format!("{:0500}\n", 0).as_bytes());
        shell.heard_err(format!("e{:0100}\n", 0).as_bytes());
        assert_eq!(shell.step(), Step::Read);
    }
    shell.heard_out(format!("\nNVMUX_MARK_{SECRET}_1 0\n").as_bytes());
    let Step::Finished(stdout, status) = shell.step() else {
        panic!("the run is over");
    };
    let out = shell.finish(stdout, status);
    assert!(out.ok());
    assert_eq!(out.stdout.lines().count(), 2000);
    assert_eq!(out.stderr.lines().count(), 2000);
    assert_eq!(
        run(&mut shell, "printf next", 2, b"next", b"", "0").stdout,
        "next"
    );
}

#[test]
fn an_answer_may_come_a_byte_at_a_time() {
    let mut shell = Shell::start("/bin/sh", SECRET);
    shell.begin("printf x", &[]).expect("alive");
    let all = b"Welcome\nNVMUX_MARK_s3cret_0 ready\nhi\nthere\nNVMUX_MARK_s3cret_1 7\r\nmore";
    let mut done = None;
    for byte in all {
        if done.is_none() {
            assert_eq!(shell.step(), Step::Read);
            shell.heard_out(&[*byte]);
            if let Step::Finished(out, status) = shell.step() {
                done = Some((out, status));
            }
        } else {
            shell.heard_out(&[*byte]);
        }
    }
    assert_eq!(done, Some((b"hi\nthere".to_vec(), 7)));
}

#[test]
fn what_a_shell_says_before_its_handshake_is_not_the_first_runs_output() {
    let mut shell = Shell::start("chatty", SECRET);
    shell.begin("printf hi; printf mine >&2", &[]).expect("alive");
    shell.heard_err(b"warn\nmine");
    shell.heard_out(b"Welcome\n\nNVMUX_MARK_s3cret_0 ready\nhi\nNVMUX_MARK_s3cret_1 0\n");
    let Step::Finished(stdout, status) = shell.step() else {
        panic!("the run is over");
    };
    let out = shell.finish(stdout, status);
    assert_eq!(out.stdout, "hi");
    assert_eq!(out.stderr, "warn\nmine");
    let (stdout, status) = answer(&mut shell, "printf again", 2, b"again", "0");
    let out = shell.finish(stdout, status);
    assert_eq!(out.stdout, "again");
    assert_eq!(out.stderr, "");
}

#[test]
fn a_shell_started_ahead_of_its_first_run_still_answers() {
    let mut shell = started();
    assert!(!shell.is_dead());
    assert_eq!(answer(&mut shell, "printf later", 1, b"later", "0").0, b"later");
}

#[test]
fn output_between_two_runs_belongs_to_nobody() {
    let mut shell = started();
    answer(&mut shell, ":", 1, b"", "0");
    shell.heard_out(b"stray");
    assert_eq!(answer(&mut shell, ":", 2, b"mine", "0").0, b"mine");
}

#[test]
fn something_else_answering_is_not_the_shell() {
    let mut shell = Shell::start("/bin/sh", SECRET);
    shell.begin(":", &[]).expect("alive");
    shell.heard_out(b"\nNVMUX_MARK_s3cret_0 what\n");
    assert_eq!(shell.step(), Step::Broken);
}

#[test]
fn a_marker_without_a_status_is_a_failure() {
    let mut shell = started();
    assert_eq!(answer(&mut shell, ":", 1, b"x", "none"), (b"x".to_vec(), -1));
}

#[test]
fn a_dead_shell_is_reported_once_and_a_fresh_start_works() {
    let mut shell = started();
    shell.begin("kill -9 $$", &[]).expect("alive");
    shell.heard_err(b"nope\n");
    let died = shell.died(-1);
    assert_eq!(died.status, -1);
    assert_eq!(died.stderr, "nope\n");
    assert!(shell.is_dead());
    let again = shell.begin(":", &[]).expect_err("still dead");
    assert_eq!(
        again,
        Died {
            name: "/bin/sh".into(),
            status: -1,
            stderr: String::new()
        }
    );
    let mut fresh = started();
    assert_eq!(answer(&mut fresh, "printf ok", 1, b"ok", "0").0, b"ok");
}

#[test]
fn a_shell_that_dies_before_its_handshake_reports_what_it_said() {
    let mut shell = Shell::start("doomed", SECRET);
    shell.begin("printf x", &[]).expect("not known to be gone");
    shell.heard_err(b"nope\n");
    assert_eq!(shell.step(), Step::Read);
    let died = shell.died(7);
    assert_eq!(died.status, 7);
    assert_eq!(died.stderr, "nope\n");
    assert_eq!(
        died.message(),
        "doomed died with status 7 while running a script: nope"
    );
}

#[test]
fn only_a_failed_run_is_waited_for() {
    assert_eq!(settle_for(false, 5, 100), 0);
    assert_eq!(settle_for(true, 5, 100), 95);
    assert_eq!(settle_for(true, 100, 5), 0);
    assert_eq!(marker("x", 12), "NVMUX_MARK_x_12");
}

#[test]
fn a_marker_is_found_only_when_its_line_is_complete() {
    let needle = needle("NVMUX_MARK_secret_3");
    let full = b"out\nNVMUX_MARK_secret_3 0\nnext";
    match find_marker(full, &needle, 0) {
        Scan::Found {
            start,
            payload,
            end,
        } => {
            assert_eq!(start, 3);
            assert_eq!(payload, "0");
            assert_eq!(end, 26);
            assert_eq!(&full[end..], b"next");
        }
        _ => panic!("not found"),
    }
    assert!(matches!(
        find_marker(b"\nNVMUX_MARK_secret_3 7\n", &needle, 0),
        Scan::Found { start: 0, .. }
    ));
    assert!(matches!(
        find_marker(b"out\nNVMUX_MARK_secret_3 1", &needle, 0),
        Scan::Incomplete { start: 3 }
    ));
    assert!(matches!(
        find_marker(b"foo NVMUX_MARK_secret_3 0\n", &needle, 0),
        Scan::NotFound
    ));
    match find_marker(b"\nNVMUX_MARK_secret_3 2\r\n", &needle, 0) {
        Scan::Found { payload, .. } => assert_eq!(payload, "2"),
        _ => panic!("not found"),
    }
    assert!(matches!(find_marker(full, &needle, 4), Scan::NotFound));
}

#[test]
fn a_process_that_will_not_leave_is_killed() {
    assert_eq!(reaping(Look::Running, 4, 5), Reap::Sleep);
    assert_eq!(reaping(Look::Running, 5, 5), Reap::Kill);
    assert_eq!(reaping(Look::Failed, 0, 5), Reap::Kill);
    assert_eq!(reaping(Look::Exited(Some(3)), 9, 5), Reap::Left(3));
    assert_eq!(reaping(Look::Exited(None), 0, 5), Reap::Left(-1));
}

#[test]
fn what_a_command_produced_is_its_streams_as_text_and_its_status() {
    let out = Output::of(b"all \xff well", b"", Some(3));
    assert_eq!(out.stdout, "all \u{fffd} well");
    assert_eq!(out.stderr, "");
    assert_eq!(out.status, 3);
    assert!(!out.ok());
    let killed = Output::of("à".as_bytes(), b"gone", None);
    assert_eq!(
        killed,
        Output {
            stdout: "à".into(),
            stderr: "gone".into(),
            status: -1
        }
    );
    assert!(Output::of(b"", b"", Some(0)).ok());
}
