use nvmux::ledger::{Ledger, MouseReporting, MAX_OSC};

const CURSOR_COLOUR_RESET: &[u8] = b"\x1b]112\x07";

fn fed(bytes: &[u8]) -> Ledger {
    let mut l = Ledger::new();
    l.saw(bytes);
    l
}

#[test]
fn a_client_that_said_nothing_has_the_mouse_off() {
    assert_eq!(Ledger::new().mouse(), MouseReporting::Off);
    assert!(!Ledger::new().reads_size_in_band());
    assert_eq!(Ledger::new().title(), None);
}

#[test]
fn neovims_mouse_sequences_map_to_what_it_asked_for() {
    assert_eq!(
        fed(b"\x1b[?1002h\x1b[?1006h").mouse(),
        MouseReporting::Buttons
    );
    assert_eq!(
        fed(b"\x1b[?1002h\x1b[?1006h\x1b[?1003h").mouse(),
        MouseReporting::Motion
    );
    assert_eq!(
        fed(b"\x1b[?1002h\x1b[?1006h\x1b[?1002l\x1b[?1006l").mouse(),
        MouseReporting::Off
    );
    assert_eq!(fed(b"\x1b[?1002;1006h").mouse(), MouseReporting::Buttons);
}

#[test]
fn the_last_word_on_the_mouse_is_the_one_kept() {
    let mut l = fed(b"\x1b[?1002h\x1b[?1003h");
    l.saw(b"\x1b[?1003l");
    assert_eq!(l.mouse(), MouseReporting::Buttons);
    l.saw(b"\x1b[?1002l");
    assert_eq!(l.mouse(), MouseReporting::Off);
}

#[test]
fn a_sequence_cut_by_a_read_still_counts() {
    let mut l = Ledger::new();
    for byte in b"\x1b[?2048h\x1b]0;notes - NVIM\x07" {
        l.saw(std::slice::from_ref(byte));
    }
    assert!(l.reads_size_in_band());
    assert_eq!(l.title(), Some(&b"\x1b]0;notes - NVIM\x07"[..]));
}

#[test]
fn an_ansi_mode_is_not_mistaken_for_a_private_one() {
    assert_eq!(fed(b"\x1b[1002h").mouse(), MouseReporting::Off);
    assert!(!fed(b"\x1b[2048h").reads_size_in_band());
}

#[test]
fn a_title_is_kept_as_it_was_written() {
    assert_eq!(
        fed(b"\x1b]2;a;b;c\x1b\\").title(),
        Some(&b"\x1b]2;a;b;c\x1b\\"[..])
    );
    let mut l = fed(b"\x1b]0;first\x07");
    l.saw(b"\x1b]0;second\x07");
    assert_eq!(l.title(), Some(&b"\x1b]0;second\x07"[..]));
}

#[test]
fn a_frame_is_whole_only_once_its_update_has_closed() {
    let mut l = Ledger::new();
    assert!(l.between_frames(), "a client that has said nothing");
    l.saw(b"\x1b[?2026h\x1b[1;1Hhello");
    assert!(!l.between_frames(), "inside the client's own update");
    l.saw(b"\x1b[38;2;1");
    assert!(!l.between_frames(), "inside a sequence");
    l.saw(b";2;3mworld\x1b[?2026l");
    assert!(l.between_frames(), "the update has closed");
    l.saw(b"\xe2\x96");
    assert!(!l.between_frames(), "inside a character");
}

#[test]
fn other_operating_system_commands_are_not_titles() {
    for seq in [
        &b"\x1b]1;icon\x07"[..],
        b"\x1b]11;?\x07",
        b"\x1b]52;c;aGVsbG8=\x07",
        b"\x1b]112\x07",
    ] {
        assert_eq!(fed(seq).title(), None, "{seq:?}");
    }
}

#[test]
fn an_overlong_title_is_not_kept() {
    let mut l = fed(b"\x1b]0;short\x07");
    let mut long = b"\x1b]0;".to_vec();
    long.extend(std::iter::repeat_n(b'x', MAX_OSC));
    long.push(0x07);
    l.saw(&long);
    assert_eq!(l.title(), Some(&b"\x1b]0;short\x07"[..]));
}

#[test]
fn modes_every_client_sets_come_back_only_after_an_exit() {
    let mut l = fed(b"\x1b[?1h\x1b=\x1b[?2004h\x1b[?1004h\x1b[?2048h\x1b[?2027l");
    l.left_the_terminal();
    let quiet = l.put_back(false);
    assert!(!quiet.windows(3).any(|w| w == b"\x1b[?"), "{quiet:?}");
    let after = String::from_utf8(l.put_back(true)).expect("text");
    assert!(after.contains("\x1b[?2027l"), "{after:?}");
    assert!(after.contains("\x1b[?1;1004;2004;2048h"), "{after:?}");
    assert!(after.contains("\x1b="), "{after:?}");
    assert!(
        after.find("\x1b[?2027l") < after.find("\x1b[?1;"),
        "resets before sets: {after:?}"
    );
}

#[test]
fn putting_in_band_reports_back_is_said_to_be_so() {
    let mut l = fed(b"\x1b[?2004h\x1b[?2048h");
    l.left_the_terminal();
    assert!(!l.puts_back_in_band_reports(false));
    assert!(l.puts_back_in_band_reports(true));
    let mut other = fed(b"\x1b[?2004h");
    other.left_the_terminal();
    assert!(!other.puts_back_in_band_reports(true));
}

#[test]
fn modes_set_while_away_come_back() {
    let mut l = fed(b"\x1b[?2004h\x1b[?2048h");
    l.left_the_terminal();
    l.saw(b"\x1b[?1004h");
    let back = String::from_utf8(l.put_back(false)).expect("text");
    assert!(back.contains("\x1b[?1004h"), "{back:?}");
    assert!(!back.contains("2048"), "{back:?}");
    assert!(!back.contains("2004"), "{back:?}");
}

#[test]
fn a_title_the_parser_cut_short_is_not_kept() {
    let mut l = fed(b"\x1b]0;whole\x07");
    l.saw(b"\x1b]0;a;b;c;d;e;f;g;h;i;j;k;l;m;n;o;p;q;r\x07");
    assert_eq!(l.title(), Some(&b"\x1b]0;whole\x07"[..]));
}

#[test]
fn the_keyboard_protocol_is_set_back_not_pushed() {
    let pushed = String::from_utf8(fed(b"\x1b[>3u").put_back(false)).expect("text");
    assert!(pushed.contains("\x1b[=3;1u"), "{pushed:?}");
    assert!(!pushed.contains("\x1b[>"), "{pushed:?}");
    let adjusted = String::from_utf8(fed(b"\x1b[>1u\x1b[=2;2u").put_back(false)).expect("text");
    assert!(adjusted.contains("\x1b[=3;1u"), "{adjusted:?}");
    let other = String::from_utf8(fed(b"\x1b[>4;2m").put_back(false)).expect("text");
    assert!(other.contains("\x1b[>4;2m"), "{other:?}");
}

#[test]
fn the_cursor_colour_is_the_clients_or_the_terminals() {
    let set = fed(b"\x1b]12;#ff0000\x07").put_back(false);
    assert!(set.ends_with(b"\x1b]12;#ff0000\x07"), "{set:?}");
    let never = Ledger::new().put_back(false);
    assert!(never.ends_with(CURSOR_COLOUR_RESET), "{never:?}");
}

#[test]
fn the_cursor_shape_comes_back() {
    let shaped = String::from_utf8(fed(b"\x1b[2 q\x1b[6 q").put_back(false)).expect("text");
    assert!(shaped.contains("\x1b[6 q"), "{shaped:?}");
    assert!(!shaped.contains("\x1b[2 q"), "{shaped:?}");
}

#[test]
fn a_broken_ledger_puts_nothing_back() {
    let mut l = fed(b"\x1b]0;title\x07\x1b[>3u");
    l.retire();
    assert!(l.put_back(true).is_empty());
}

/// A read that ends inside a character costs the sequence behind it nothing, even where a stray
/// byte follows its escape.
#[test]
fn an_escape_behind_a_cut_character_is_not_lost() {
    let whole = b"\xc3\xa9\x1b\xff[?1002h";
    for cut in 0..=whole.len() {
        let mut ledger = Ledger::new();
        ledger.saw(&whole[..cut]);
        ledger.saw(&whole[cut..]);
        assert_eq!(ledger.mouse(), MouseReporting::Buttons, "cut at {cut}");
    }
}
