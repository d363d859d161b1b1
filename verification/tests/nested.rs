use nvmux::nested::{guard, refusal, MARKER};

fn refused(value: &[u8]) -> String {
    guard(Some(value)).expect_err("a marker is a session")
}

#[test]
fn no_marker_is_not_a_session() {
    assert!(guard(None).is_ok());
}

#[test]
fn an_empty_marker_is_how_a_nested_run_is_forced() {
    assert!(guard(Some(b"")).is_ok());
}

#[test]
fn a_marker_refuses_and_says_what_to_do_instead() {
    let msg = refused(b"/tmp/nvmux-1000/abcdefgh.sock");
    let (said, hint) = msg.split_once('\n').expect("a hint on its own line");
    assert!(said.contains("/tmp/nvmux-1000/abcdefgh.sock"), "{msg}");
    assert!(hint.starts_with("hint: "), "{msg}");
    assert!(hint.contains("<prefix> t"), "{msg}");
    assert!(hint.contains("$NVMUX"), "{msg}");
    assert_eq!(MARKER, "NVMUX");
    assert_eq!(msg, refusal("/tmp/nvmux-1000/abcdefgh.sock"));
}

#[test]
fn a_marker_that_is_not_utf8_still_refuses() {
    let msg = refused(b"/tmp/nvmux-1000/\xff.sock");
    assert!(msg.contains("already inside an nvmux session"), "{msg}");
    assert!(msg.contains("/tmp/nvmux-1000/\u{fffd}.sock"), "{msg}");
}
