use nvmux::boundary::{Boundary, KEPT_FOR, KEPT_MAX};

const NOW: u64 = 5_000_000_000;

fn frame() -> Vec<u8> {
    let mut out = Vec::new();
    for row in 1..=24u32 {
        out.extend_from_slice(format!("\x1b[{row};1H").as_bytes());
        for col in 0..40u32 {
            let v = (row * 7 + col * 3) % 256;
            out.extend_from_slice(format!("\x1b[38;2;{v};{v};{v};48;2;0;0;0m").as_bytes());
            out.extend_from_slice("▀".as_bytes());
        }
    }
    out.extend_from_slice(b"\x1b[?25h");
    out
}

fn shown(bytes: &[u8]) -> Boundary {
    let mut boundary = Boundary::new();
    boundary.saw_session(bytes);
    boundary
}

fn rests(bytes: &[u8]) -> Vec<bool> {
    let mut boundary = Boundary::new();
    bytes
        .iter()
        .map(|b| {
            boundary.saw_session(&[*b]);
            boundary.between_sequences()
        })
        .collect()
}

fn through(chunks: &[&[u8]]) -> Vec<u8> {
    let mut boundary = Boundary::new();
    let now = NOW;
    let mut out = Vec::new();
    for chunk in chunks {
        out.extend_from_slice(&boundary.relay(chunk, now));
    }
    out.extend_from_slice(&boundary.give_up());
    out
}

#[test]
fn a_cut_escape_sequence_is_not_a_place_to_write() {
    for seq in [
        &b"\x1b[1;1H"[..],
        b"\x1b[38;2;1;2;3m",
        b"\x1b[?25l",
        b"\x1b]0;a title\x07",
        b"\x1b]11;rgb:00/00/00\x1b\\",
        b"\x1bP+q544e\x1b\\",
        b"\x1b(B",
        b"\x1bM",
    ] {
        let rests = rests(seq);
        let (last, rest) = rests.split_last().expect("a sequence has bytes");
        assert!(*last, "{seq:?} does not end between sequences");
        assert!(
            !rest.iter().any(|r| *r),
            "{seq:?} reported a boundary inside itself"
        );
    }
}

#[test]
fn a_character_is_never_split_down_the_middle() {
    let text = "aé▀😀z";
    let rests = rests(text.as_bytes());
    let ends: Vec<usize> = text.char_indices().map(|(i, c)| i + c.len_utf8()).collect();
    for (i, at_rest) in rests.iter().enumerate() {
        assert_eq!(
            *at_rest,
            ends.contains(&(i + 1)),
            "byte {i} of {text:?} answered {at_rest}"
        );
    }
}

#[test]
fn a_read_of_a_frame_rarely_ends_between_sequences() {
    let frame = frame();
    let mut boundary = Boundary::new();
    let mut reads = 0;
    let mut landed = 0;
    for chunk in frame.chunks(8192) {
        boundary.saw_session(chunk);
        reads += 1;
        landed += usize::from(boundary.between_sequences());
    }
    assert!(
        reads >= 4,
        "a frame that does not fill a read proves nothing"
    );
    assert!(
        landed * 2 < reads,
        "{landed} of {reads} reads ended between sequences; the tail buys nothing"
    );
}

#[test]
fn what_is_handed_out_always_ends_between_sequences() {
    let frame = frame();
    for read in [1, 7, 64, 8192] {
        let mut boundary = Boundary::new();
        let now = NOW;
        for chunk in frame.chunks(read) {
            boundary.relay(chunk, now);
            assert!(
                boundary.between_sequences(),
                "a read of {read} left the terminal mid-sequence"
            );
        }
    }
}

#[test]
fn everything_kept_back_comes_out_in_the_order_it_arrived() {
    let frame = frame();
    for read in [1, 3, 64, 1000, 8192] {
        let chunks: Vec<&[u8]> = frame.chunks(read).collect();
        assert_eq!(through(&chunks), frame, "reassembly failed at {read}");
    }
}

#[test]
fn what_nvmux_writes_over_a_session_leaves_the_parser_where_it_was() {
    let mut boundary = Boundary::new();
    boundary.relay(b"hello", NOW);
    assert!(boundary.between_sequences());
    boundary.saw_own(b"\x1b[?2026h\x1b7\x1b[5;5H\x1b[0mbox\x1b8\x1b[?2026l");
    assert!(
        boundary.between_sequences(),
        "the notice left the parser somewhere"
    );
}

#[test]
fn nothing_is_written_inside_the_sessions_own_synchronized_update() {
    let mut boundary = shown(b"\x1b[?2026h");
    assert!(
        !boundary.between_sequences(),
        "inside a synchronized update"
    );
    boundary.saw_session(b"\x1b[1;1Hstill drawing");
    assert!(!boundary.between_sequences(), "still inside it");
    boundary.saw_session(b"\x1b[?2026l");
    assert!(boundary.between_sequences(), "the span closed");
}

#[test]
fn a_synchronized_update_is_recognised_among_other_modes() {
    let mut boundary = shown(b"\x1b[?1049;2026h");
    assert!(!boundary.between_sequences());
    boundary.saw_session(b"\x1b[?2026;1049l");
    assert!(boundary.between_sequences());
}

#[test]
fn a_mode_that_is_not_the_synchronized_update_is_left_alone() {
    for set in [&b"\x1b[?20268h"[..], b"\x1b[2026h", b"\x1b[?2026$p"] {
        assert!(
            shown(set).between_sequences(),
            "{set:?} was read as a synchronized update"
        );
    }
}

#[test]
fn a_session_that_brackets_a_frame_is_remembered_for_having_done_it() {
    let mut boundary = Boundary::new();
    let now = NOW;
    boundary.relay(b"\x1b[1;1Hplain text", now);
    assert!(!boundary.session_brackets_its_own_frames());
    boundary.relay(b"\x1b[?2026h\x1b[1;1Hdrawing\x1b[?2026l", now);
    assert!(boundary.session_brackets_its_own_frames());
    boundary.relay(b"\x1b[2;1Hand more plain text", now);
    assert!(
        boundary.session_brackets_its_own_frames(),
        "the span closing unlearned it"
    );
}

#[test]
fn the_notices_own_brackets_are_not_the_sessions() {
    let mut boundary = Boundary::new();
    boundary.relay(b"\x1b[1;1Hplain", NOW);
    boundary.saw_own(b"\x1b[?2026h\x1b7\x1b[5;5H\x1b[0mbox\x1b8\x1b[?2026l");
    assert!(
        !boundary.session_brackets_its_own_frames(),
        "nvmux read its own span as the session's"
    );
    assert!(boundary.between_sequences());
}

#[test]
fn the_notice_goes_inside_the_frame_the_session_is_about_to_present() {
    let mut boundary = Boundary::new();
    let now = NOW;
    boundary.relay(b"\x1b[?2026h\x1b[1;1Hdrawing", now);
    assert!(
        !boundary.holding_the_sessions_close(),
        "there is no close in sight yet"
    );
    let ready = boundary.relay(b" some more\x1b[?2026l", now);
    assert_eq!(
        ready, b" some more",
        "the frame's close went out ahead of the notice"
    );
    assert!(
        boundary.holding_the_sessions_close(),
        "the close was not held for the notice"
    );
    assert!(
        boundary.between_sequences(),
        "the one moment the box belongs in is refused"
    );

    boundary.saw_own(b"\x1b[?2026h\x1b7box\x1b8\x1b[?2026l");
    assert_eq!(boundary.release_the_sessions_close(), b"\x1b[?2026l");
    assert!(!boundary.holding_the_sessions_close());
}

#[test]
fn a_frame_close_is_worth_more_than_the_clock_that_would_flush_it() {
    let mut boundary = Boundary::new();
    let t0 = NOW;
    boundary.relay(b"\x1b[?2026h\x1b[1;1Hdrawing\x1b[", t0);
    assert_eq!(
        boundary.due(),
        Some(t0 + KEPT_FOR),
        "an ordinary tail is on the clock"
    );

    let late = t0 + KEPT_FOR + KEPT_FOR;
    let ready = boundary.relay(b"2;1Hmore\x1b[?2026l\x1b[?2026h\x1b[3;1H", late);
    assert_eq!(
        ready, b"\x1b[2;1Hmore",
        "the close went out with the impatient tail"
    );
    assert!(
        boundary.holding_the_sessions_close(),
        "the clock took away the one moment the notice has"
    );
    assert_eq!(
        boundary.due(),
        None,
        "the relay would flush the close before the notice was offered it"
    );
    assert_eq!(boundary.release_the_sessions_close(), b"\x1b[?2026l");
}

#[test]
fn a_close_that_goes_out_with_the_tail_stops_being_a_moment_to_write_in() {
    let mut boundary = Boundary::new();
    let now = NOW;
    boundary.relay(b"\x1b[?2026h\x1b[1;1Hdrawing", now);
    let held = boundary.relay(b"\x1b[?2026l\x1b[?2026h\x1b[2;3H\xe2\x94", now);
    assert!(held.is_empty(), "the close went out ahead of the notice");
    assert!(boundary.holding_the_sessions_close());

    let flushed = boundary.give_up();
    assert_eq!(
        flushed, b"\x1b[?2026l\x1b[?2026h\x1b[2;3H\xe2\x94",
        "the held close was not written with the tail it was sitting on"
    );
    assert!(
        !boundary.holding_the_sessions_close(),
        "a close already at the terminal is still being offered to write in front of"
    );
    assert!(
        !boundary.between_sequences(),
        "the box would land in the middle of the character that flush ended on"
    );
}

#[test]
fn a_held_frame_close_is_the_next_thing_out_after_the_notice() {
    let frame = b"\x1b[?2026h\x1b[1;1Hhello\x1b[?2026l\x1b[?2026h\x1b[2;1Hagain\x1b[?2026l";
    for read in [1, 5, 64, 8192] {
        let mut boundary = Boundary::new();
        let now = NOW;
        let mut out = Vec::new();
        for chunk in frame.chunks(read) {
            out.extend_from_slice(&boundary.relay(chunk, now));
            out.extend_from_slice(&boundary.release_the_sessions_close());
        }
        out.extend_from_slice(&boundary.give_up());
        assert_eq!(out, frame, "the stream came apart at a read of {read}");
    }
}

#[test]
fn a_synchronized_span_holds_back_nothing_of_the_sessions_own() {
    let mut boundary = Boundary::new();
    let now = NOW;
    let mut out = Vec::new();
    out.extend_from_slice(&boundary.relay(b"\x1b[?2026h\x1b[1;1Hdrawing", now));
    assert!(!boundary.between_sequences(), "nvmux may not write here");
    assert_eq!(out, b"\x1b[?2026h\x1b[1;1Hdrawing", "the frame was held up");
    out.extend_from_slice(&boundary.relay(b"\x1b[?2026l", now));
    assert!(boundary.between_sequences());
}

#[test]
fn nothing_is_written_between_the_sessions_save_and_its_restore() {
    let mut boundary = shown(b"\x1b7");
    assert!(!boundary.between_sequences(), "the slot is the client's");
    boundary.saw_session(b"\x1b[9;9Hmark");
    assert!(!boundary.between_sequences());
    boundary.saw_session(b"\x1b8");
    assert!(boundary.between_sequences(), "the client took it back");
}

#[test]
fn a_tail_that_never_finishes_goes_out_anyway() {
    let mut boundary = Boundary::new();
    let t0 = NOW;
    assert!(boundary.relay(b"text\x1b[38;2", t0).ends_with(b"text"));
    assert_eq!(boundary.due(), Some(t0 + KEPT_FOR));
    assert!(boundary.relay(b"", t0 + KEPT_FOR / 2).is_empty());
    assert_eq!(
        boundary.relay(b"", t0 + KEPT_FOR),
        b"\x1b[38;2",
        "the tail was kept past its welcome"
    );
    assert_eq!(boundary.due(), None);
    assert!(
        !boundary.between_sequences(),
        "an unfinished sequence is still unfinished once it is written"
    );
}

#[test]
fn a_string_with_no_end_to_it_is_not_kept_for_ever() {
    let mut boundary = Boundary::new();
    let now = NOW;
    let mut out = Vec::new();
    let mut written = 0usize;
    out.extend_from_slice(&boundary.relay(b"\x1b]52;c;", now));
    while written < 4 * KEPT_MAX {
        let chunk = vec![b'A'; 8192];
        written += chunk.len();
        out.extend_from_slice(&boundary.relay(&chunk, now));
    }
    assert!(
        out.len() > written - KEPT_MAX,
        "{} of {written} bytes are still being kept",
        written - out.len()
    );
}

#[test]
fn a_parser_between_sequences_carries_only_its_counters() {
    let mut stream = frame();
    stream.extend_from_slice(b"\x1b[?2026h\x1b7mid\x1b8\x1b[?2026l");
    let mut boundary = Boundary::new();
    let mut fresh = Boundary::new();
    for byte in stream {
        boundary.saw_session(&[byte]);
        fresh.saw_session(&[byte]);
        assert_eq!(
            boundary.mid_sequence(),
            fresh.mid_sequence(),
            "a parser at a boundary carried something"
        );
        if !boundary.mid_sequence() {
            fresh = Boundary::new();
        }
    }
}

#[test]
fn an_escape_abandons_the_string_it_lands_in() {
    let mut boundary = shown(b"\x1b]0;a title");
    assert!(!boundary.between_sequences());
    boundary.saw_session(b"\x1b[1;1H");
    assert!(
        boundary.between_sequences(),
        "the CSI inside the OSC was swallowed"
    );
}

#[test]
fn a_run_of_plain_text_is_a_boundary_at_every_byte() {
    assert!(rests(b"the quick brown fox").iter().all(|r| *r));
}

#[test]
fn a_new_boundary_is_between_sequences() {
    let boundary = Boundary::new();
    assert!(boundary.between_sequences());
    assert_eq!(boundary.due(), None);
}

/// Half of a frame close went out unfinished, and its other half is read: that half is no close
/// to hold, and no write is offered where it would land inside the sequence.
#[test]
fn half_a_frame_close_is_never_held_as_one() {
    let mut boundary = Boundary::new();
    assert_eq!(boundary.relay(b"\x1b[?2026h", NOW), b"\x1b[?2026h");
    assert_eq!(boundary.relay(b"\x1b[?20", NOW), b"");
    assert_eq!(boundary.relay(b"", NOW + KEPT_FOR), b"\x1b[?20");
    assert!(boundary.mid_sequence());
    assert!(!boundary.between_sequences());

    assert_eq!(boundary.relay(b"26", NOW + KEPT_FOR), b"");
    assert!(!boundary.holding_the_sessions_close());
    assert!(boundary.mid_sequence());
    assert!(!boundary.between_sequences());

    assert_eq!(boundary.relay(b"l", NOW + KEPT_FOR), b"26l");
    assert!(!boundary.holding_the_sessions_close());
    assert!(!boundary.mid_sequence());
    assert!(boundary.between_sequences(), "the close is on the terminal");
}

#[test]
fn the_other_half_of_a_frame_close_goes_straight_out() {
    let mut boundary = Boundary::new();
    boundary.relay(b"\x1b[?2026h", NOW);
    boundary.relay(b"\x1b[?20", NOW);
    assert_eq!(boundary.relay(b"", NOW + KEPT_FOR), b"\x1b[?20");
    assert_eq!(boundary.relay(b"26l", NOW + KEPT_FOR), b"26l");
    assert!(!boundary.mid_sequence() && boundary.between_sequences());

    // The next whole close is held as ever, and only in front of it may anything be written.
    assert_eq!(
        boundary.relay(b"\x1b[?2026hx\x1b[?2026l", NOW + KEPT_FOR),
        b"\x1b[?2026hx"
    );
    assert!(boundary.holding_the_sessions_close());
    assert!(boundary.between_sequences());
    boundary.saw_session(b"\x1b[");
    assert!(boundary.mid_sequence());
    assert!(!boundary.between_sequences(), "inside a sequence after all");
}
