use nvmux::bytes::number;
use nvmux::keyseq::{classify, Sequence, ESC, MAX_LEN};

const CTRL: u32 = 4;
const CAPS_LOCK: u32 = 64;
const NUM_LOCK: u32 = 128;

const SPACE: u8 = b' ';
const T: u8 = b't';

#[test]
fn a_spelling_is_partial_until_its_last_byte() {
    for whole in [
        &b"\x1b[32;5u"[..],
        b"\x1b[32;5:1u",
        b"\x1b[32;5:2u",
        b"\x1b[32:32;5u",
        b"\x1b[32;133u",
        b"\x1b[27;5;32~",
    ] {
        for n in 1..whole.len() {
            assert_eq!(
                classify(&whole[..n], SPACE),
                Sequence::Partial,
                "{:?} cut after {n} bytes",
                String::from_utf8_lossy(whole)
            );
        }
        assert_eq!(
            classify(whole, SPACE),
            Sequence::Prefix,
            "{:?}",
            String::from_utf8_lossy(whole)
        );
    }
}

#[test]
fn only_ctrl_and_the_lock_keys_spell_the_prefix() {
    for m in 1u32..=256 {
        let bits = m - 1;
        let seq = format!("\x1b[32;{m}u");
        let got = classify(seq.as_bytes(), SPACE);
        if bits & !(CAPS_LOCK | NUM_LOCK) == CTRL {
            assert_eq!(got, Sequence::Prefix, "modifiers {m}");
        } else {
            assert_eq!(got, Sequence::Other(seq.len()), "modifiers {m}");
        }
    }
    assert_eq!(classify(b"\x1b[32u", SPACE), Sequence::Other(5));
    for seq in [&b"\x1b[32;6u"[..], b"\x1b[32;7u", b"\x1b[32;13u"] {
        assert_eq!(classify(seq, SPACE), Sequence::Other(seq.len()));
    }
}

#[test]
fn a_release_event_names_its_key() {
    assert_eq!(classify(b"\x1b[32;5:3u", SPACE), Sequence::Release(32));
    assert_eq!(classify(b"\x1b[32;1:3u", SPACE), Sequence::Release(32));
    assert_eq!(classify(b"\x1b[100;1:3u", SPACE), Sequence::Release(100));
    assert_eq!(classify(b"\x1b[27;1:3u", SPACE), Sequence::Release(27));
    assert_eq!(classify(b"\x1b[32;5:4u", SPACE), Sequence::Other(9));
}

#[test]
fn another_key_is_another_key() {
    for seq in [
        &b"\x1b[100;5u"[..],
        b"\x1b[116;5u",
        b"\x1b[27u",
        b"\x1b[27;5u",
    ] {
        assert_eq!(classify(seq, SPACE), Sequence::Other(seq.len()), "{seq:?}");
    }
    assert_eq!(classify(b"\x1b[116;5u", T), Sequence::Prefix);
    assert_eq!(classify(b"\x1b[27;5;116~", T), Sequence::Prefix);
    assert_eq!(classify(b"\x1b[32;5u", T), Sequence::Other(7));
    assert_eq!(classify(b"\x1b[84;5u", T), Sequence::Other(7));
}

#[test]
fn the_xterm_form_needs_all_three_numbers_in_order() {
    assert_eq!(classify(b"\x1b[27;5;32~", SPACE), Sequence::Prefix);
    for seq in [
        &b"\x1b[27;5~"[..],
        b"\x1b[32;5;27~",
        b"\x1b[27;6;32~",
        b"\x1b[28;5;32~",
        b"\x1b[27;5;32u",
    ] {
        assert_eq!(classify(seq, SPACE), Sequence::Other(seq.len()), "{seq:?}");
    }
}

#[test]
fn an_escape_followed_by_anything_but_a_bracket_stands_alone() {
    assert_eq!(classify(b"\x1b", SPACE), Sequence::Partial);
    for b in [b'x', b':', 0x00, ESC, b'O', 0x7f, 0xc3] {
        assert_eq!(classify(&[ESC, b], SPACE), Sequence::Other(1), "{b:#04x}");
    }
}

#[test]
fn other_sequences_are_decided_as_soon_as_they_can_be() {
    for (seq, unit) in [
        (&b"\x1b[A"[..], 3),
        (b"\x1b[1;5A", 6),
        (b"\x1b[200~", 6),
        (b"\x1b[15~", 5),
        (b"\x1b[I", 3),
        (b"\x1b[27;5;32;9u", 12),
        (b"\x1b[<35;10;20M", 3),
        (b"\x1b[;", 3),
        (b"\x1b[1 q", 4),
    ] {
        assert_eq!(
            classify(seq, SPACE),
            Sequence::Other(unit),
            "{:?}",
            String::from_utf8_lossy(seq)
        );
    }
}

#[test]
fn a_terminal_reply_is_recognised_whole() {
    for reply in [
        &b"\x1b[?0u"[..],
        b"\x1b[?62;22c",
        b"\x1b[?64;1;2;6;9;15;16;17;18;21;22;28;29c",
        b"\x1b[>0;95;0c",
        b"\x1b[?2026;2$y",
        b"\x1b[=0c",
    ] {
        for n in 1..reply.len() {
            assert_eq!(
                classify(&reply[..n], SPACE),
                Sequence::Partial,
                "{:?} cut after {n} bytes",
                String::from_utf8_lossy(reply)
            );
        }
        assert_eq!(
            classify(reply, SPACE),
            Sequence::Reply,
            "{:?}",
            String::from_utf8_lossy(reply)
        );
    }
    assert_eq!(classify(b"\x1b[?6\x14", SPACE), Sequence::Other(4));
}

#[test]
fn a_byte_that_cannot_belong_ends_the_sequence_before_itself() {
    assert_eq!(classify(b"\x1b[11\x00", SPACE), Sequence::Other(4));
    assert_eq!(classify(b"\x1b[32;5\x1b", SPACE), Sequence::Other(6));
    assert_eq!(classify(b"\x1b[\x7f", SPACE), Sequence::Other(2));
}

#[test]
fn a_sequence_that_never_ends_is_given_up_on() {
    let mut seq = b"\x1b[".to_vec();
    seq.extend(std::iter::repeat_n(b'1', MAX_LEN));
    assert_eq!(classify(&seq, SPACE), Sequence::Other(seq.len()));
    assert_eq!(classify(&seq[..MAX_LEN - 1], SPACE), Sequence::Partial);
}

#[test]
fn numbers_are_strict() {
    assert_eq!(number(b"116"), Some(116));
    assert_eq!(number(b""), None);
    assert_eq!(number(b"1a"), None);
    assert_eq!(number(b"4294967295"), None, "ten digits is too many");
    assert_eq!(classify(b"\x1b[32;999999999u", SPACE), Sequence::Other(15));
}
