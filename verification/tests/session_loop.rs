use nvmux::cli::Location;
use nvmux::error::{NvmuxError, RpcError, SessionError, SshError};
use nvmux::keys::Direction;
use nvmux::session::{highest_num, pick as pick_at, Session, Target};
use nvmux::session_loop::{
    describe_attach_failure, describe_listing_failure, one_line, one_line_of, Action, How,
    Outcome, SessionLoop,
};

fn pick(sessions: &[Session], target: Target, from: u32) -> Option<&Session> {
    pick_at(sessions, target, from).map(|at| &sessions[at])
}

#[test]
fn a_number_is_resolved_against_the_listing_in_hand() {
    let listing = listing_of(&[(1, "id000001"), (2, "id000002"), (3, "id000003")]);
    let picked = pick(&listing, Target::Number(2), 1).expect("2 is on the list");
    assert_eq!(picked.id, "id000002");
}

#[test]
fn a_step_walks_the_listing_in_hand() {
    let listing = listing_of(&[(1, "id000001"), (2, "id000002"), (3, "id000003")]);
    let next = pick(&listing, Target::Step(Direction::Next), 2).expect("3 follows 2");
    assert_eq!(next.id, "id000003");
    let prev = pick(&listing, Target::Step(Direction::Prev), 2).expect("1 precedes 2");
    assert_eq!(prev.id, "id000001");
}

#[test]
fn a_number_the_listing_does_not_have_resolves_to_nothing() {
    let listing = listing_of(&[(1, "id000001"), (2, "id000002")]);
    assert!(pick(&listing, Target::Number(3), 1).is_none());
}

#[test]
fn an_empty_listing_names_nothing() {
    assert!(pick(&[], Target::Number(1), 0).is_none());
    assert!(pick(&[], Target::Step(Direction::Next), 0).is_none());
}

fn listing_of(rows: &[(u32, &str)]) -> Vec<Session> {
    rows.iter()
        .map(|(num, id)| {
            let mut s =
                Session::new((*id).into(), format!("s{num}"), 100, *num);
            s.state.num = *num;
            s
        })
        .collect()
}

fn refused() -> NvmuxError {
    NvmuxError::Rpc(RpcError::ConnectionRefused("x.sock".into()))
}

#[test]
fn a_refused_forward_blames_the_connection_not_the_session() {
    let msg = describe_attach_failure(&Location::Ssh("myhost".into()), &refused());
    assert!(msg.contains("myhost"), "{msg}");
    assert!(msg.contains("dropped"), "{msg}");
    assert!(msg.contains("retry"), "{msg}");
}

#[test]
fn a_reset_forward_means_the_remote_session_is_gone() {
    let msg = describe_attach_failure(
        &Location::Ssh("myhost".into()),
        &NvmuxError::Rpc(RpcError::Reset),
    );
    assert!(msg.contains("no longer running on myhost"), "{msg}");
}

#[test]
fn a_refused_local_socket_means_the_session_is_gone() {
    let msg = describe_attach_failure(&Location::Local, &refused());
    assert_eq!(msg, "that session is gone");
}

#[test]
fn other_errors_are_flattened_to_one_line() {
    let e = NvmuxError::Session(SessionError::NotReady {
        name: "x".into(),
        timeout: 1_000_000_000,
        log: "x.log".into(),
        log_tail: "line one\nline two".into(),
    });
    let msg = describe_attach_failure(&Location::Local, &e);
    assert!(!msg.contains('\n'), "{msg:?}");
    assert!(
        msg.contains("line one") && msg.contains("line two"),
        "{msg:?}"
    );
}

#[test]
fn a_failed_listing_says_what_nvmux_was_doing() {
    let e = NvmuxError::Ssh(SshError::MasterDied("myhost".into()));
    let msg = describe_listing_failure(&e);
    assert!(msg.contains("list sessions"), "{msg}");
    assert!(msg.contains("myhost"), "{msg}");
}

#[test]
fn a_bare_script_failure_is_not_left_to_speak_for_itself() {
    let e = NvmuxError::Session(SessionError::ScriptFailed(
        "runtime directory /tmp/nvmux-1000 is not owned by us".into(),
    ));
    let msg = describe_listing_failure(&e);
    assert!(msg.contains("could not list sessions"), "{msg}");
    assert!(msg.contains("is not owned by us"), "{msg}");
}

#[test]
fn a_multi_line_listing_failure_is_flattened_to_one_line() {
    let e = NvmuxError::Session(SessionError::NotReady {
        name: "x".into(),
        timeout: 1_000_000_000,
        log: "x.log".into(),
        log_tail: "line one\nline two".into(),
    });
    let msg = describe_listing_failure(&e);
    assert!(!msg.contains('\n'), "{msg:?}");
    assert!(
        msg.contains("line one") && msg.contains("line two"),
        "{msg:?}"
    );
}

#[test]
fn a_busy_session_is_not_called_lost() {
    let e = NvmuxError::Rpc(RpcError::Timeout(3_000_000_000));
    assert_eq!(
        describe_attach_failure(&Location::Local, &e),
        "that session is busy and did not answer within 3s"
    );
}

#[test]
fn lines_are_put_one_behind_the_other() {
    assert_eq!(one_line_of("a\nb\r\nc"), "a — b — c");
    assert_eq!(one_line_of("a\n"), "a");
    assert_eq!(one_line_of("a\n\nb"), "a —  — b");
    assert_eq!(one_line_of(""), "");
    let e = NvmuxError::Io("one\ntwo".into());
    assert_eq!(one_line(&e), "one — two");
}

fn session(num: u32) -> Session {
    Session::new(format!("id{num:06}"), format!("s{num}"), 100, num)
}

fn sessions(nums: &[u32]) -> Vec<Session> {
    nums.iter().map(|n| session(*n)).collect()
}

fn opened(action: Action) -> (How, u32) {
    match action {
        Action::Open { how, session } => (how, session.state.num),
        _ => panic!("expected a client to be opened"),
    }
}

fn picking(action: Action) -> (Option<String>, Option<String>, bool, Option<usize>) {
    match action {
        Action::Pick {
            message,
            focus,
            back,
            in_hand,
        } => (message, focus, back, in_hand.map(|l| l.len())),
        _ => panic!("expected the picker"),
    }
}

fn attached(nums: &[u32], at: u32) -> SessionLoop {
    let (mut run, first) = SessionLoop::start(Location::Ssh("myhost".into()));
    assert_eq!(picking(first), (None, None, false, None));
    let action = run.picked(session(at), sessions(nums));
    assert_eq!(opened(action), (How::Start, at));
    match run.opened(Ok(())) {
        Action::Relay { highest } => assert_eq!(highest, highest_num(&sessions(nums))),
        _ => panic!("expected a relay"),
    }
    run
}

#[test]
fn a_quit_retires_the_client_in_hand() {
    let (mut run, _) = SessionLoop::start(Location::Local);
    assert!(matches!(run.quit(), Action::Leave { retire: false }));
    let mut run = attached(&[1, 2], 1);
    run.relayed(Outcome::ToPicker, true);
    assert!(matches!(run.quit(), Action::Leave { retire: true }));
}

#[test]
fn the_picker_comes_back_to_the_same_client() {
    let mut run = attached(&[1, 2], 1);
    let back = run.relayed(Outcome::ToPicker, true);
    assert_eq!(
        picking(back),
        (None, Some("id000001".into()), true, Some(2))
    );
    let same = run.picked(session(1), sessions(&[1, 2]));
    assert_eq!(opened(same), (How::Reuse, 1));
}

#[test]
fn picking_another_session_replaces_the_client() {
    let mut run = attached(&[1, 2], 1);
    run.relayed(Outcome::ToPicker, true);
    let other = run.picked(session(2), sessions(&[1, 2]));
    assert_eq!(opened(other), (How::Replace, 2));
}

#[test]
fn a_session_that_exited_leaves_nothing_to_go_back_to() {
    let mut run = attached(&[1, 2], 1);
    let back = run.relayed(Outcome::ChildExited, false);
    assert_eq!(
        picking(back),
        (None, Some("id000001".into()), false, Some(2))
    );
}

#[test]
fn a_detach_and_a_closed_input_leave() {
    for outcome in [Outcome::Detached, Outcome::StdinClosed] {
        let mut run = attached(&[1], 1);
        assert!(matches!(
            run.relayed(outcome, false),
            Action::Leave { retire: false }
        ));
    }
}

#[test]
fn a_failed_attach_is_shown_on_the_picker() {
    let (mut run, _) = SessionLoop::start(Location::Ssh("myhost".into()));
    run.picked(session(2), sessions(&[1, 2]));
    let back = run.opened(Err(NvmuxError::Rpc(RpcError::Reset)));
    assert_eq!(
        picking(back),
        (
            Some("that session is no longer running on myhost".into()),
            Some("id000002".into()),
            false,
            Some(2)
        )
    );
}

#[test]
fn a_cancelled_prompt_and_the_help_resume_the_client() {
    let mut run = attached(&[1], 1);
    assert!(matches!(
        run.relayed(Outcome::CreateNew, true),
        Action::Prompt
    ));
    assert_eq!(opened(run.prompted(None)), (How::Reuse, 1));
    run.opened(Ok(()));
    assert!(matches!(run.relayed(Outcome::ShowHelp, true), Action::Help));
    assert_eq!(opened(run.help_closed()), (How::Reuse, 1));
}

#[test]
fn a_created_session_is_in_front_and_can_be_found_again() {
    let mut run = attached(&[1, 2], 1);
    run.relayed(Outcome::CreateNew, true);
    assert_eq!(opened(run.prompted(Some(session(12)))), (How::Replace, 12));
    match run.opened(Ok(())) {
        Action::Relay { highest } => assert_eq!(highest, 12),
        _ => panic!("expected a relay"),
    }
    let next = run.relayed(Outcome::Switch(Target::Number(2)), true);
    assert_eq!(opened(next), (How::Replace, 2));
    run.opened(Ok(()));
    let back = run.relayed(Outcome::Switch(Target::Number(12)), true);
    assert_eq!(opened(back), (How::Replace, 12));
}

#[test]
fn a_switch_the_listing_does_not_have_pays_for_a_fresh_one() {
    let mut run = attached(&[1, 2], 1);
    assert!(matches!(
        run.relayed(Outcome::Switch(Target::Number(3)), true),
        Action::List
    ));
    let found = run.listed(Ok(sessions(&[1, 2, 3])));
    assert_eq!(opened(found), (How::Replace, 3));

    let mut run = attached(&[1, 2], 1);
    run.relayed(Outcome::Switch(Target::Number(3)), true);
    let nothing = run.listed(Ok(sessions(&[1, 2])));
    assert_eq!(opened(nothing), (How::Reuse, 1), "straight back");
}

#[test]
fn a_failed_listing_goes_back_to_the_picker() {
    let mut run = attached(&[1], 1);
    run.relayed(Outcome::Switch(Target::Number(3)), true);
    let back = run.listed(Err(NvmuxError::Ssh(SshError::MasterDied("myhost".into()))));
    assert_eq!(
        picking(back),
        (
            Some("could not list sessions: ssh: the connection to myhost died".into()),
            Some("id000001".into()),
            true,
            Some(1)
        )
    );
}

#[test]
fn a_step_wraps_and_a_lone_session_steps_to_itself() {
    let listing = sessions(&[1, 5, 9]);
    let at = |target, from| pick(&listing, target, from).expect("not empty").state.num;
    assert_eq!(at(Target::Step(Direction::Next), 9), 1);
    assert_eq!(at(Target::Step(Direction::Prev), 1), 9);
    let alone = sessions(&[4]);
    assert_eq!(
        pick(&alone, Target::Step(Direction::Next), 4).map(|s| s.state.num),
        Some(4)
    );
    assert_eq!(highest_num(&[]), 0);
}
