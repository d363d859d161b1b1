use nvmux::keys::{
    bindings, command, key_glyph, key_label, parse_prefix, prefix_code, prefix_label, Action,
    Binding, Direction, Pending, Prefix, Step, Wait, CTRL_SPACE, ENTER, PREFIX, PREFIX_LABEL,
    SPACE_GLYPH,
};
use nvmux::keyseq::ESC;

fn forwarded(steps: &[Step]) -> Vec<u8> {
    steps
        .iter()
        .filter_map(|s| match s {
            Step::Forward(b) => Some(b.clone()),
            Step::Act(_) => None,
        })
        .flatten()
        .collect()
}

fn actions(steps: &[Step]) -> Vec<Action> {
    steps
        .iter()
        .filter_map(|s| match s {
            Step::Act(a) => Some(*a),
            Step::Forward(_) => None,
        })
        .collect()
}

#[test]
fn ordinary_bytes_pass_through_untouched() {
    let mut p = Prefix::new(0);
    let steps = p.feed(b"hello world");
    assert_eq!(forwarded(&steps), b"hello world");
    assert!(actions(&steps).is_empty());
    assert!(!p.is_armed());
}

#[test]
fn a_run_of_bytes_is_one_write() {
    let mut p = Prefix::new(0);
    let steps = p.feed(b"abcdef");
    assert_eq!(steps.len(), 1, "should coalesce: {steps:?}");
}

#[test]
fn prefix_alone_is_swallowed_and_arms() {
    let mut p = Prefix::new(0);
    let steps = p.feed(&[PREFIX]);
    assert!(
        forwarded(&steps).is_empty(),
        "prefix must not reach nvim yet"
    );
    assert!(p.is_armed());
}

#[test]
fn commands_produce_actions_and_no_bytes() {
    for Binding { key, action, .. } in bindings() {
        let mut p = Prefix::new(0);
        let steps = p.feed(&[PREFIX, key]);
        assert_eq!(actions(&steps), vec![action], "for {:?}", key as char);
        assert!(
            forwarded(&steps).is_empty(),
            "command bytes must not reach nvim: {:?}",
            key as char
        );
        assert!(!p.is_armed());
    }
}

#[test]
fn unknown_command_replays_both_bytes_in_order() {
    assert!(
        command(b'x').is_none(),
        "this test needs a byte that is not a command"
    );
    let mut p = Prefix::new(0);
    let steps = p.feed(&[PREFIX, b'x']);
    assert_eq!(forwarded(&steps), vec![PREFIX, b'x']);
    assert!(actions(&steps).is_empty());
}

#[test]
fn timeout_resolves_a_lone_prefix_to_a_literal() {
    let mut p = Prefix::new(0);
    p.feed(&[PREFIX]);
    assert!(p.is_armed());
    assert_eq!(forwarded(&p.timeout()), vec![PREFIX]);
    assert!(!p.is_armed());
}

#[test]
fn timeout_when_not_armed_does_nothing() {
    let mut p = Prefix::new(0);
    assert!(p.timeout().is_empty());
    p.feed(&[PREFIX]);
    p.timeout();
    assert!(p.timeout().is_empty());
}

#[test]
fn state_survives_a_chunk_boundary() {
    let mut p = Prefix::new(0);
    let first = p.feed(b"ab\x00");
    assert_eq!(forwarded(&first), b"ab");
    assert!(p.is_armed());

    let second = p.feed(b"d");
    assert_eq!(actions(&second), vec![Action::Detach]);
    assert!(forwarded(&second).is_empty());
}

#[test]
fn ctrl_z_is_not_special() {
    let mut p = Prefix::new(0);
    let steps = p.feed(&[0x1a]);
    assert_eq!(forwarded(&steps), vec![0x1a]);
    assert!(actions(&steps).is_empty());
}

#[test]
fn ctrl_c_and_ctrl_s_are_not_special() {
    let mut p = Prefix::new(0);
    let steps = p.feed(&[0x03, 0x13, 0x1c]);
    assert_eq!(forwarded(&steps), vec![0x03, 0x13, 0x1c]);
}

#[test]
fn other_escape_sequences_pass_through_untouched() {
    let mut p = Prefix::new(0);
    let raw = b"\x1b[200~pasted\x1b[201~\x1b[?0u\x1b[A\x1b[1;5A\x1b[15~\x1b[<35;10;20M\x1b[I\x1b[100;5u";
    let steps = p.feed(raw);
    assert_eq!(forwarded(&steps), raw);
    assert!(actions(&steps).is_empty());
    assert_eq!(p.wait(), None, "nothing should be held: {steps:?}");
}

const KITTY: &[u8] = b"\x1b[32;5u";
const XTERM: &[u8] = b"\x1b[27;5;32~";

#[test]
fn an_encoded_prefix_arms_and_its_command_acts() {
    for spelling in [
        KITTY,
        XTERM,
        b"\x1b[32;5:1u",
        b"\x1b[32;5:2u",
        b"\x1b[32;133u",
    ] {
        let mut p = Prefix::new(0);
        let steps = p.feed(spelling);
        assert!(
            steps.is_empty(),
            "{spelling:?} must be swallowed, got {steps:?}"
        );
        assert_eq!(p.wait(), Some(Wait::Command), "{spelling:?} must arm");

        let steps = p.feed(b"d");
        assert_eq!(actions(&steps), vec![Action::Detach], "{spelling:?}");
        assert!(forwarded(&steps).is_empty(), "{spelling:?}");
        assert!(!p.is_armed());
    }
}

#[test]
fn the_prefix_then_its_bare_key_opens_the_picker() {
    for spelling in [&[PREFIX][..], KITTY, XTERM] {
        let mut p = Prefix::new(0);
        assert!(p.feed(spelling).is_empty(), "{spelling:?}");
        let steps = p.feed(b" ");
        assert_eq!(actions(&steps), vec![Action::Picker], "{spelling:?}");
        assert!(forwarded(&steps).is_empty(), "{spelling:?}");
        assert!(!p.is_armed(), "{spelling:?}");
    }

    let mut p = Prefix::new(0);
    p.feed(KITTY);
    assert!(p.feed(b"\x1b[32;5:3u").is_empty(), "held with its press");
    let steps = p.feed(b" ");
    assert_eq!(actions(&steps), vec![Action::Picker]);
    assert!(forwarded(&steps).is_empty(), "neither reaches Neovim");
}

#[test]
fn an_encoded_prefix_inside_a_larger_chunk_splits_correctly() {
    let mut p = Prefix::new(0);
    let mut input = b"before".to_vec();
    input.extend_from_slice(KITTY);
    input.extend_from_slice(b" middle");
    input.extend_from_slice(XTERM);
    input.extend_from_slice(b"dafter");
    let steps = p.feed(&input);
    assert_eq!(
        steps,
        vec![
            Step::Forward(b"before".to_vec()),
            Step::Act(Action::Picker),
            Step::Forward(b"middle".to_vec()),
            Step::Act(Action::Detach),
            Step::Forward(b"after".to_vec()),
        ]
    );
}

#[test]
fn an_encoded_prefix_survives_a_chunk_boundary_at_every_byte() {
    for spelling in [KITTY, XTERM] {
        for cut in 1..spelling.len() {
            let mut p = Prefix::new(0);
            let first = p.feed(&spelling[..cut]);
            assert!(first.is_empty(), "cut at {cut}: {first:?}");
            assert_eq!(
                p.wait(),
                Some(Wait::Sequence),
                "cut at {cut}: the rest must be waited for, briefly"
            );
            let second = p.feed(&spelling[cut..]);
            assert!(second.is_empty(), "cut at {cut}: {second:?}");
            assert_eq!(p.wait(), Some(Wait::Command), "cut at {cut}");

            let steps = p.feed(b" ");
            assert_eq!(actions(&steps), vec![Action::Picker], "cut at {cut}");
        }
    }
}

#[test]
fn a_doubled_encoded_prefix_replays_the_terminal_s_own_spelling() {
    let mut p = Prefix::new(0);
    let mut both = KITTY.to_vec();
    both.extend_from_slice(KITTY);
    let steps = p.feed(&both);
    assert_eq!(forwarded(&steps), KITTY);
    assert!(actions(&steps).is_empty());
    assert!(!p.is_armed());

    let mut p = Prefix::new(0);
    let mut mixed = XTERM.to_vec();
    mixed.push(PREFIX);
    assert_eq!(forwarded(&p.feed(&mixed)), XTERM);
    let mut p = Prefix::new(0);
    let mut mixed = vec![PREFIX];
    mixed.extend_from_slice(KITTY);
    assert_eq!(forwarded(&p.feed(&mixed)), vec![PREFIX]);
}

#[test]
fn an_encoded_prefix_alone_is_replayed_on_the_timeout() {
    let mut p = Prefix::new(0);
    p.feed(KITTY);
    assert_eq!(forwarded(&p.timeout()), KITTY);
    assert!(!p.is_armed());
    assert!(p.timeout().is_empty(), "idempotent");
}

#[test]
fn an_encoded_prefix_then_another_key_replays_both() {
    for other in [&b"x"[..], b"\x1b[27u", b"\x1b[100;5u"] {
        let mut p = Prefix::new(0);
        let mut input = KITTY.to_vec();
        input.extend_from_slice(other);
        let steps = p.feed(&input);
        let mut want = KITTY.to_vec();
        want.extend_from_slice(other);
        assert_eq!(forwarded(&steps), want, "after {other:?}");
        assert!(actions(&steps).is_empty());
        assert!(!p.is_armed());
    }
}

#[test]
fn a_byte_prefix_then_a_sequence_is_handled_like_any_other_key() {
    let mut p = Prefix::new(0);
    let steps = p.feed(b"\x00\x1b[A");
    assert_eq!(forwarded(&steps), b"\x00\x1b[A");
    assert!(!p.is_armed());

    let mut p = Prefix::new(0);
    let mut input = vec![PREFIX];
    input.extend_from_slice(KITTY);
    assert_eq!(forwarded(&p.feed(&input)), vec![PREFIX]);
    assert!(!p.is_armed());
}

#[test]
fn key_release_reports_are_transparent_in_every_state() {
    let release_prefix = b"\x1b[32;5:3u";
    let release_d = b"\x1b[100;1:3u";
    let release_one = b"\x1b[49;1:3u";

    let mut p = Prefix::new(12);
    assert_eq!(forwarded(&p.feed(release_prefix)), release_prefix);
    assert!(!p.is_armed());

    let mut p = Prefix::new(12);
    p.feed(KITTY);
    assert!(p.feed(release_prefix).is_empty(), "held with its press");
    assert_eq!(p.wait(), Some(Wait::Command), "still armed");
    assert_eq!(forwarded(&p.feed(release_d)), release_d);
    assert_eq!(p.wait(), Some(Wait::Command), "still armed");
    let steps = p.feed(b"d");
    assert_eq!(actions(&steps), vec![Action::Detach]);
    assert!(forwarded(&steps).is_empty(), "a command drops both");

    let mut p = Prefix::new(12);
    p.feed(KITTY);
    p.feed(b"1");
    let steps = p.feed(release_one);
    assert_eq!(forwarded(&steps), release_one);
    assert_eq!(p.wait(), Some(Wait::Command), "still a number");
    assert_eq!(actions(&p.feed(b"2")), vec![Action::Switch(12)]);
}

#[test]
fn a_terminal_reply_between_the_prefix_and_its_command_is_not_a_key() {
    let da1 = b"\x1b[?62;22c";
    let mut p = Prefix::new(12);
    p.feed(KITTY);
    assert_eq!(forwarded(&p.feed(da1)), da1, "the answer goes through");
    assert_eq!(p.wait(), Some(Wait::Command), "still armed");
    assert_eq!(actions(&p.feed(b"d")), vec![Action::Detach]);

    let mut p = Prefix::new(12);
    p.feed(&[PREFIX, b'1']);
    assert_eq!(forwarded(&p.feed(b"\x1b[?0u")), b"\x1b[?0u");
    assert_eq!(p.wait(), Some(Wait::Command), "still a number");
    assert_eq!(actions(&p.feed(b"2")), vec![Action::Switch(12)]);
}

#[test]
fn a_literal_prefix_replays_its_press_and_release_in_order() {
    let release = b"\x1b[32;1:3u";
    let mut both = KITTY.to_vec();
    both.extend_from_slice(release);

    let mut p = Prefix::new(0);
    p.feed(KITTY);
    p.feed(release);
    assert_eq!(forwarded(&p.feed(KITTY)), both);
    assert!(!p.is_armed());

    let mut p = Prefix::new(0);
    p.feed(KITTY);
    p.feed(release);
    assert_eq!(forwarded(&p.timeout()), both);
    assert!(!p.is_armed());
}

#[test]
fn a_held_down_encoded_prefix_alternates_like_a_held_down_byte() {
    let repeat = b"\x1b[32;5:2u";
    let mut p = Prefix::new(0);
    let mut input = KITTY.to_vec();
    input.extend_from_slice(repeat);
    input.extend_from_slice(repeat);
    let steps = p.feed(&input);
    assert_eq!(
        forwarded(&steps),
        KITTY,
        "one literal, in the press's spelling"
    );
    assert!(actions(&steps).is_empty());
    assert_eq!(p.wait(), Some(Wait::Command), "the third press arms again");

    let mut p = Prefix::new(0);
    assert_eq!(forwarded(&p.feed(&[PREFIX, PREFIX, PREFIX])), vec![PREFIX]);
    assert!(p.is_armed());
}

#[test]
fn an_encoded_prefix_after_a_number_ends_it_and_arms_again() {
    let mut p = Prefix::new(12);
    p.feed(&[PREFIX]);
    p.feed(b"1");
    let steps = p.feed(KITTY);
    assert_eq!(actions(&steps), vec![Action::Switch(1)]);
    assert!(forwarded(&steps).is_empty());
    assert_eq!(p.wait(), Some(Wait::Command));
    assert_eq!(actions(&p.feed(b" ")), vec![Action::Picker]);
}

#[test]
fn a_cut_off_sequence_asks_for_the_short_wait_in_every_state() {
    let mut p = Prefix::new(12);
    assert!(p.feed(b"\x1b").is_empty());
    assert_eq!(p.wait(), Some(Wait::Sequence));
    assert_eq!(forwarded(&p.timeout()), b"\x1b");
    assert!(!p.is_armed());

    let mut p = Prefix::new(12);
    p.feed(KITTY);
    assert_eq!(p.wait(), Some(Wait::Command));
    p.feed(b"\x1b[1");
    assert_eq!(p.wait(), Some(Wait::Sequence));
    let mut want = KITTY.to_vec();
    want.extend_from_slice(b"\x1b[1");
    assert_eq!(forwarded(&p.timeout()), want);
    assert!(!p.is_armed());

    let mut p = Prefix::new(12);
    p.feed(&[PREFIX, b'1']);
    p.feed(b"\x1b");
    assert_eq!(p.wait(), Some(Wait::Sequence));
    let steps = p.timeout();
    assert_eq!(actions(&steps), vec![Action::Switch(1)]);
    assert_eq!(forwarded(&steps), b"\x1b");
    assert!(!p.is_armed());
}

#[test]
fn an_escape_then_an_unrelated_byte_forwards_the_escape_and_goes_on() {
    let mut p = Prefix::new(0);
    assert!(p.feed(b"\x1b").is_empty());
    let steps = p.feed(b":");
    assert_eq!(forwarded(&steps), b"\x1b:");
    assert!(!p.is_armed());

    let mut p = Prefix::new(0);
    assert!(p.feed(b"\x1b").is_empty());
    let steps = p.feed(&[PREFIX]);
    assert_eq!(forwarded(&steps), b"\x1b", "the ESC goes through");
    assert_eq!(p.wait(), Some(Wait::Command), "and the prefix byte arms");

    let mut p = Prefix::new(0);
    let steps = p.feed(b"\x1b[11\x00");
    assert_eq!(forwarded(&steps), b"\x1b[11");
    assert!(p.is_armed());
    assert_eq!(actions(&p.feed(b"d")), vec![Action::Detach]);
}

#[test]
fn a_different_chord_in_the_same_spelling_is_not_the_prefix() {
    for seq in [
        &b"\x1b[32;6u"[..],
        b"\x1b[100;5u",
        b"\x1b[32;7u",
        b"\x1b[27;6;32~",
    ] {
        let mut p = Prefix::new(0);
        let mut input = seq.to_vec();
        input.push(b'd');
        let steps = p.feed(&input);
        assert_eq!(forwarded(&steps), input, "{seq:?}");
        assert!(actions(&steps).is_empty(), "{seq:?}");
        assert!(!p.is_armed(), "{seq:?}");
    }
}

#[test]
fn a_remapped_prefix_is_recognised_in_every_spelling() {
    let ctrl_a = 0x01;
    for spelling in [&[ctrl_a][..], b"\x1b[97;5u", b"\x1b[27;5;97~"] {
        let mut p = Prefix::with_prefix(0, ctrl_a);
        assert!(p.feed(spelling).is_empty(), "{spelling:?}");
        assert_eq!(actions(&p.feed(b"d")), vec![Action::Detach], "{spelling:?}");
    }
    let mut p = Prefix::with_prefix(0, ctrl_a);
    assert_eq!(forwarded(&p.feed(KITTY)), KITTY);
    assert!(!p.is_armed());
}

#[test]
fn the_prefix_code_is_the_key_the_label_names() {
    for byte in 1u8..=26 {
        let label = prefix_label(byte);
        assert_eq!(
            label.as_bytes().last().copied(),
            Some(prefix_code(byte)),
            "for {label}"
        );
        assert!(prefix_code(byte).is_ascii_lowercase());
    }
    assert_eq!(prefix_label(CTRL_SPACE), "Ctrl-Space");
    assert_eq!(prefix_code(CTRL_SPACE), b' ');
}

#[test]
fn a_large_paste_full_of_sequences_is_forwarded_whole() {
    let mut p = Prefix::new(30);
    let mut paste = b"\x1b[200~".to_vec();
    for _ in 0..500 {
        paste.extend_from_slice(b"line 12 \x1b[A\x1b[31mred\x1b[0m\n");
    }
    paste.extend_from_slice(b"\x1b[201~");
    let steps = p.feed(&paste);
    assert_eq!(forwarded(&steps), paste);
    assert!(actions(&steps).is_empty());
    assert!(!p.is_armed());
}

#[test]
fn a_prefix_inside_a_larger_chunk_splits_correctly() {
    let mut p = Prefix::new(0);
    let steps = p.feed(b"before\x00 after");
    assert_eq!(forwarded(&steps), b"beforeafter");
    assert_eq!(actions(&steps), vec![Action::Picker]);
    assert!(matches!(steps[0], Step::Forward(_)));
    assert!(matches!(steps[1], Step::Act(Action::Picker)));
    assert!(matches!(steps[2], Step::Forward(_)));
}

#[test]
fn several_commands_in_one_chunk() {
    let mut p = Prefix::new(0);
    let steps = p.feed(b"\x00 \x00d\x00c\x00n\x00p\x00?");
    assert_eq!(
        actions(&steps),
        vec![
            Action::Picker,
            Action::Detach,
            Action::Create,
            Action::Cycle(Direction::Next),
            Action::Cycle(Direction::Prev),
            Action::Help,
        ]
    );
    assert!(forwarded(&steps).is_empty());
}

#[test]
fn n_and_p_step_forwards_and_backwards() {
    for (key, want) in [(b'n', Direction::Next), (b'p', Direction::Prev)] {
        let mut p = Prefix::new(0);
        let steps = p.feed(&[PREFIX, key]);
        assert_eq!(
            actions(&steps),
            vec![Action::Cycle(want)],
            "{}",
            key as char
        );
        assert!(
            forwarded(&steps).is_empty(),
            "{} must not also reach Neovim",
            key as char
        );
    }
}

#[test]
fn a_literal_prefix_then_n_still_reaches_neovim() {
    let mut p = Prefix::new(0);
    let steps = p.feed(&[PREFIX, PREFIX, b'n']);
    assert_eq!(forwarded(&steps), vec![PREFIX, b'n']);
    assert!(actions(&steps).is_empty());
}

#[test]
fn triple_prefix_is_a_literal_then_arms_again() {
    let mut p = Prefix::new(0);
    let steps = p.feed(&[PREFIX, PREFIX, PREFIX]);
    assert_eq!(forwarded(&steps), vec![PREFIX]);
    assert!(p.is_armed(), "the third byte should re-arm");
}

#[test]
fn empty_input_is_a_no_op() {
    let mut p = Prefix::new(0);
    assert!(p.feed(b"").is_empty());
    p.feed(&[PREFIX]);
    assert!(p.feed(b"").is_empty());
    assert!(p.is_armed(), "an empty read must not disarm");
}

#[test]
fn exhaustive_second_byte_table() {
    for b in 0u8..=255 {
        let mut p = Prefix::new(0);
        let steps = p.feed(&[PREFIX, b]);
        if b == PREFIX {
            assert_eq!(forwarded(&steps), vec![PREFIX]);
        } else if b == ESC {
            assert!(steps.is_empty(), "a bare ESC is held, not replayed yet");
            assert_eq!(p.wait(), Some(Wait::Sequence));
            assert_eq!(
                forwarded(&p.timeout()),
                vec![PREFIX, ESC],
                "the wait passing replays both, in order"
            );
        } else if (b'1'..=b'9').contains(&b) {
            assert_eq!(
                actions(&steps),
                vec![Action::Switch(u32::from(b - b'0'))],
                "digit {:?} should select a session",
                b as char
            );
            assert!(forwarded(&steps).is_empty(), "byte {b:#04x} leaked bytes");
        } else if let Some(action) = command(b) {
            assert_eq!(actions(&steps), vec![action], "byte {b:#04x} should act");
            assert!(forwarded(&steps).is_empty(), "byte {b:#04x} leaked bytes");
        } else {
            assert_eq!(
                forwarded(&steps),
                vec![PREFIX, b],
                "byte {b:#04x} must be replayed after the prefix"
            );
        }
        assert!(!p.is_armed(), "byte {b:#04x} left the machine armed");
    }
}

#[test]
fn a_literal_prefix_then_question_mark_still_reaches_neovim() {
    let mut p = Prefix::new(0);
    let steps = p.feed(&[PREFIX, PREFIX, b'?']);
    assert_eq!(forwarded(&steps), vec![PREFIX, b'?']);
    assert!(actions(&steps).is_empty());
}

#[test]
fn the_table_binds_every_action_exactly_once() {
    let all = [
        Action::Picker,
        Action::Detach,
        Action::Create,
        Action::Cycle(Direction::Next),
        Action::Cycle(Direction::Prev),
        Action::Help,
    ];
    for action in all {
        match action {
            Action::Picker
            | Action::Detach
            | Action::Create
            | Action::Cycle(_)
            | Action::Help => {}
            Action::Switch(_) => unreachable!("Switch is not a table action"),
        }
        assert_eq!(
            bindings().iter().filter(|b| b.action == action).count(),
            1,
            "{action:?} must have exactly one key"
        );
    }
    assert_eq!(
        bindings().len(),
        all.len(),
        "a new command needs a row here and above"
    );
    assert!(
        !bindings()
            .iter()
            .any(|b| matches!(b.action, Action::Switch(_))),
        "Switch is a rule in `feed`, not a row"
    );
}

#[test]
fn no_command_key_is_a_digit() {
    for b in bindings() {
        assert!(
            !b.key.is_ascii_digit(),
            "{:?} collides with the session-number rule",
            b.key as char
        );
    }
}

#[test]
fn command_keys_are_distinct_printable_and_never_the_prefix() {
    for (i, a) in bindings().iter().enumerate() {
        assert!(
            a.key.is_ascii() && !a.key.is_ascii_control(),
            "byte {:#04x} cannot be shown on the help screen",
            a.key
        );
        assert_ne!(a.key, PREFIX);
        for b in &bindings()[i + 1..] {
            assert_ne!(a.key, b.key, "two commands share {:?}", a.key as char);
        }
    }
}

#[test]
fn every_binding_has_a_one_line_description() {
    for b in bindings() {
        assert!(!b.help.is_empty(), "{:?} has no description", b.key as char);
        assert!(
            !b.help.contains('\n'),
            "{:?} has a multi-line description",
            b.key as char
        );
    }
}

#[test]
fn every_binding_has_a_one_word_hint() {
    for b in bindings() {
        let hint = b.hint;
        assert!(!hint.is_empty(), "{:?} has no hint label", b.key as char);
        assert!(
            !hint.contains(char::is_whitespace),
            "{:?}'s hint {hint:?} is more than one word",
            b.key as char
        );
        assert_eq!(
            hint,
            hint.to_lowercase(),
            "{:?}'s hint is not lowercase",
            b.key as char
        );
    }
}

#[test]
fn no_two_bindings_share_a_hint() {
    for (i, a) in bindings().iter().enumerate() {
        for b in &bindings()[i + 1..] {
            assert_ne!(a.hint, b.hint, "two commands are labelled {:?}", a.hint);
        }
    }
}

#[test]
fn pending_follows_the_state_machine() {
    let mut p = Prefix::new(12);
    assert_eq!(p.pending(), None, "nothing is pending from idle");

    p.feed(&[PREFIX]);
    assert_eq!(p.pending(), Some(Pending::Command), "a lone prefix arms");
    p.feed(&[PREFIX]);
    assert_eq!(p.pending(), None, "a literal prefix resolves it");

    p.feed(&[PREFIX, b'1']);
    assert_eq!(p.pending(), Some(Pending::Number(1)), "a half-typed number");
    p.feed(b"2");
    assert_eq!(p.pending(), None, "the twelfth session is named");

    p.feed(&[PREFIX, b'd']);
    assert_eq!(p.pending(), None, "a command resolves it");

    p.feed(&[PREFIX]);
    p.timeout();
    assert_eq!(p.pending(), None, "so does the timeout");
}

#[test]
fn pending_ignores_a_half_read_sequence() {
    let mut p = Prefix::new(0);
    p.feed(b"\x1b[1");
    assert_eq!(p.wait(), Some(Wait::Sequence), "mid-sequence");
    assert_eq!(p.pending(), None, "the Escape key is not a command");

    let mut p = Prefix::new(0);
    p.feed(&[PREFIX]);
    p.feed(b"\x1b[1");
    assert_eq!(p.wait(), Some(Wait::Sequence), "mid-sequence");
    assert_eq!(
        p.pending(),
        Some(Pending::Command),
        "the prefix is still waiting"
    );

    let mut p = Prefix::new(0);
    p.feed(KITTY);
    p.feed(b"\x1b[32;5:3u");
    assert_eq!(
        p.pending(),
        Some(Pending::Command),
        "a release is not a key"
    );
}

#[test]
fn a_single_digit_selects_a_session_without_waiting() {
    let mut p = Prefix::new(9);
    let steps = p.feed(&[PREFIX, b'3']);
    assert_eq!(actions(&steps), vec![Action::Switch(3)]);
    assert!(
        forwarded(&steps).is_empty(),
        "the digit must not reach nvim"
    );
    assert!(!p.is_armed(), "nothing should still be pending");
}

#[test]
fn several_digits_make_one_number() {
    let mut p = Prefix::new(30);
    let steps = p.feed(&[PREFIX, b'1', b'2']);
    assert_eq!(actions(&steps), vec![Action::Switch(12)]);
    assert!(forwarded(&steps).is_empty());
    assert!(!p.is_armed());
}

#[test]
fn a_digit_waits_only_while_a_longer_number_is_possible() {
    let mut p = Prefix::new(12);
    assert!(
        p.feed(&[PREFIX, b'1']).is_empty(),
        "1 could still become 12"
    );
    assert!(p.is_armed(), "the caller must arm a timeout");

    let mut p = Prefix::new(12);
    let steps = p.feed(&[PREFIX, b'2']);
    assert_eq!(
        actions(&steps),
        vec![Action::Switch(2)],
        "20 is past the end, so 2 is already the whole answer"
    );
    assert!(!p.is_armed());
}

#[test]
fn a_half_typed_number_resolves_on_the_timeout() {
    let mut p = Prefix::new(12);
    p.feed(&[PREFIX, b'1']);
    assert_eq!(actions(&p.timeout()), vec![Action::Switch(1)]);
    assert!(!p.is_armed());
    assert!(p.timeout().is_empty());
}

#[test]
fn enter_ends_a_number_early() {
    let mut p = Prefix::new(12);
    p.feed(&[PREFIX, b'1']);
    let steps = p.feed(&[ENTER]);
    assert_eq!(actions(&steps), vec![Action::Switch(1)]);
    assert!(
        forwarded(&steps).is_empty(),
        "the terminator must not reach nvim"
    );
}

#[test]
fn a_leading_zero_is_replayed_like_any_other_non_command() {
    let mut p = Prefix::new(30);
    let steps = p.feed(&[PREFIX, b'0']);
    assert_eq!(forwarded(&steps), vec![PREFIX, b'0']);
    assert!(actions(&steps).is_empty());
    assert!(!p.is_armed());
}

#[test]
fn zero_is_still_a_digit_inside_a_number() {
    let mut p = Prefix::new(30);
    let steps = p.feed(&[PREFIX, b'1', b'0']);
    assert_eq!(actions(&steps), vec![Action::Switch(10)]);
}

#[test]
fn a_key_after_a_number_ends_it_and_then_reaches_neovim() {
    let mut p = Prefix::new(12);
    let steps = p.feed(&[PREFIX, b'1', b'x']);
    assert_eq!(actions(&steps), vec![Action::Switch(1)]);
    assert_eq!(
        forwarded(&steps),
        vec![b'x'],
        "no stray prefix byte may be injected"
    );
    assert!(!p.is_armed());
}

#[test]
fn a_prefix_after_a_number_ends_it_and_arms_again() {
    let mut p = Prefix::new(12);
    let steps = p.feed(&[PREFIX, b'1', PREFIX]);
    assert_eq!(actions(&steps), vec![Action::Switch(1)]);
    assert!(forwarded(&steps).is_empty());
    assert!(p.is_armed(), "the second prefix should arm");
}

#[test]
fn a_number_survives_a_chunk_boundary() {
    let mut p = Prefix::new(30);
    assert!(p.feed(&[PREFIX]).is_empty());
    assert!(p.feed(b"1").is_empty(), "1 could still become 12");
    let steps = p.feed(b"2");
    assert_eq!(actions(&steps), vec![Action::Switch(12)]);
}

#[test]
fn a_literal_prefix_then_a_digit_still_reaches_neovim() {
    let mut p = Prefix::new(9);
    let steps = p.feed(&[PREFIX, PREFIX, b'1']);
    assert_eq!(forwarded(&steps), vec![PREFIX, b'1']);
    assert!(actions(&steps).is_empty());
}

#[test]
fn digits_in_ordinary_input_are_not_commands() {
    let mut p = Prefix::new(30);
    let steps = p.feed(b"buffer 12 line 30");
    assert_eq!(forwarded(&steps), b"buffer 12 line 30");
    assert!(actions(&steps).is_empty());
    assert!(!p.is_armed());
}

#[test]
fn an_absurdly_long_number_does_not_overflow() {
    let mut p = Prefix::new(u32::MAX);
    let steps = p.feed(&[PREFIX]);
    assert!(steps.is_empty());
    let steps = p.feed(&[b'9'; 64]);
    assert!(
        actions(&steps)
            .iter()
            .all(|a| matches!(a, Action::Switch(_))),
        "unexpected actions: {steps:?}"
    );
}

#[test]
fn the_prefix_label_names_the_prefix_byte() {
    assert_eq!(prefix_label(PREFIX), PREFIX_LABEL);
    assert_eq!(parse_prefix(PREFIX_LABEL), Ok(PREFIX));
}

#[test]
fn a_prefix_string_parses_to_its_control_byte() {
    assert_eq!(parse_prefix("C-Space"), Ok(PREFIX));
    assert_eq!(parse_prefix("C-t"), Ok(0x14));
    assert_eq!(parse_prefix("Ctrl-a"), Ok(0x01));
    assert_eq!(parse_prefix("C-z"), Ok(0x1a));
}

#[test]
fn a_prefix_string_is_case_insensitive() {
    assert_eq!(parse_prefix("ctrl-T"), Ok(0x14));
    assert_eq!(parse_prefix("c-A"), Ok(0x01));
    assert_eq!(parse_prefix("  Ctrl-B  "), Ok(0x02));
    assert_eq!(parse_prefix("  c-sPaCe  "), Ok(CTRL_SPACE));
}

#[test]
fn the_prefix_string_round_trips() {
    for byte in 1u8..=26 {
        if matches!(byte, 0x08 | 0x09 | 0x0a | 0x0d) {
            continue;
        }
        let label = prefix_label(byte);
        assert_eq!(parse_prefix(&label), Ok(byte), "for {label}");
    }
    assert_eq!(parse_prefix(&prefix_label(CTRL_SPACE)), Ok(CTRL_SPACE));
}

#[test]
fn the_prefix_label_names_any_control_byte() {
    assert_eq!(prefix_label(0x01), "Ctrl-a");
    assert_eq!(prefix_label(0x14), "Ctrl-t");
    assert_eq!(prefix_label(0x1a), "Ctrl-z");
    assert_eq!(prefix_label(CTRL_SPACE), "Ctrl-Space");
}

#[test]
fn a_malformed_prefix_is_rejected() {
    for s in [
        "t", "C-1", "C-", "", "hyper-t", "C-ab", "C-é", "Space", "C-spa",
    ] {
        assert!(parse_prefix(s).is_err(), "{s:?} should be rejected");
    }
}

#[test]
fn prefixes_that_break_the_terminal_are_rejected() {
    for s in ["C-m", "C-j", "C-i", "C-h"] {
        assert!(parse_prefix(s).is_err(), "{s:?} should be rejected");
    }
}

#[test]
fn ctrl_c_and_ctrl_z_are_accepted_as_prefixes() {
    assert_eq!(parse_prefix("C-c"), Ok(0x03));
    assert_eq!(parse_prefix("C-z"), Ok(0x1a));
}

#[test]
fn a_remapped_prefix_arms_on_its_own_byte() {
    let ctrl_a = 0x01;
    let mut p = Prefix::with_prefix(0, ctrl_a);
    let armed = p.feed(&[ctrl_a]);
    assert!(forwarded(&armed).is_empty(), "the new prefix must be eaten");
    assert!(p.is_armed());

    let steps = p.feed(b" ");
    assert_eq!(actions(&steps), vec![Action::Picker]);

    let mut p = Prefix::with_prefix(0, ctrl_a);
    let steps = p.feed(&[PREFIX]);
    assert_eq!(forwarded(&steps), vec![PREFIX]);
    assert!(!p.is_armed());
}

#[test]
fn a_remapped_doubled_prefix_sends_one_literal() {
    let ctrl_a = 0x01;
    let mut p = Prefix::with_prefix(0, ctrl_a);
    let steps = p.feed(&[ctrl_a, ctrl_a]);
    assert_eq!(forwarded(&steps), vec![ctrl_a]);
    assert!(!p.is_armed());
}

#[test]
fn new_and_default_use_the_standard_prefix() {
    for mut p in [Prefix::new(0), Prefix::default()] {
        assert!(p.feed(&[PREFIX]).is_empty());
        assert!(p.is_armed(), "the standard prefix must arm the machine");
    }
}

/// The "While attached" table of the README.
const WHILE_ATTACHED: &str = "\
| Keys | Action |
|---|---|
| `<prefix>` `d` | detach: leaves the session running, exits nvmux |
| `<prefix>` `Space` | back to the picker, session still attached |
| `<prefix>` `1`, `2`, … `12` | switch straight to that session |
| `<prefix>` `n` | next session by number (wraps) |
| `<prefix>` `p` | previous session by number (wraps) |
| `<prefix>` `c` | set up a new session and attach to it |
| `<prefix>` `?` | show these keys |
| `<prefix>` `<prefix>` | send a literal `<prefix>` to Neovim |
";

/// Every command has a row there.
#[test]
fn every_binding_has_a_row_in_the_readme() {
    for b in bindings() {
        let cell = format!("| `<prefix>` `{}` |", key_label(b.key));
        assert!(
            WHILE_ATTACHED.contains(&cell),
            "README has no row for `<prefix> {}`",
            key_label(b.key)
        );
    }
}
