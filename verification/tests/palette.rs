use nvmux::palette::{
    default_ansi, parse_colour, parse_replies, request, Palette, Query, Replies, Rgb, Share,
    QUERY_CAP,
};

fn share(num: i128, den: u64) -> Share {
    Share { num, den }
}

#[test]
fn lerp_runs_from_one_end_to_the_other() {
    let a = Rgb(0, 100, 200);
    let b = Rgb(200, 100, 0);
    assert_eq!(a.lerp(b, share(0, 1)), a);
    assert_eq!(a.lerp(b, share(1, 1)), b);
    assert_eq!(a.lerp(b, share(1, 2)), Rgb(100, 100, 100));
    assert_eq!(a.lerp(b, share(-1, 1)), a);
    assert_eq!(a.lerp(b, share(2, 1)), b);
}

fn palette() -> Palette {
    Palette {
        fg: Rgb(0xee, 0xee, 0xee),
        bg: Rgb(0x10, 0x10, 0x10),
        ansi: default_ansi(),
    }
}

#[test]
fn the_indexed_table_has_xterms_corners() {
    let p = palette();
    assert_eq!(p.index(0), Rgb(0, 0, 0));
    assert_eq!(p.index(15), Rgb(0xff, 0xff, 0xff));
    assert_eq!(p.index(16), Rgb(0, 0, 0), "the cube starts at black");
    assert_eq!(p.index(21), Rgb(0, 0, 0xff), "the cube's blue corner");
    assert_eq!(p.index(196), Rgb(0xff, 0, 0), "the cube's red corner");
    assert_eq!(
        p.index(231),
        Rgb(0xff, 0xff, 0xff),
        "the cube ends at white"
    );
    assert_eq!(p.index(232), Rgb(8, 8, 8), "the ramp starts near black");
    assert_eq!(p.index(255), Rgb(238, 238, 238), "and ends near white");
}

#[test]
fn unanswered_ansi_entries_fall_back_to_xterms() {
    let mut replies = Replies {
        fg: Some(Rgb(1, 2, 3)),
        bg: Some(Rgb(4, 5, 6)),
        ..Replies::default()
    };
    replies.ansi[1] = Some(Rgb(0xaa, 0, 0));
    let p = replies.palette().expect("fg and bg are in");
    assert_eq!(p.ansi[1], Rgb(0xaa, 0, 0));
    assert_eq!(p.ansi[2], default_ansi()[2]);
    assert_eq!(p.fg, Rgb(1, 2, 3));
    assert_eq!(p.bg, Rgb(4, 5, 6));
}

#[test]
fn a_palette_needs_both_defaults() {
    let only_bg = Replies {
        bg: Some(Rgb(0, 0, 0)),
        ..Replies::default()
    };
    assert_eq!(only_bg.palette(), None);
    let only_fg = Replies {
        fg: Some(Rgb(0, 0, 0)),
        ..Replies::default()
    };
    assert_eq!(only_fg.palette(), None);
}

#[test]
fn xterms_replies_are_read_top_eight_bits() {
    let bytes = b"\x1b]10;rgb:eeee/eeee/eeee\x1b\\\x1b]11;rgb:1e1e/1f1f/2020\x1b\\\x1b[0n";
    let r = parse_replies(bytes);
    assert_eq!(r.fg, Some(Rgb(0xee, 0xee, 0xee)));
    assert_eq!(r.bg, Some(Rgb(0x1e, 0x1f, 0x20)));
    assert!(r.dsr, "the terminator was seen");
    assert!(r.complete());
}

#[test]
fn every_spelling_of_a_colour_is_accepted() {
    assert_eq!(parse_colour("rgb:ff/80/00"), Some(Rgb(0xff, 0x80, 0x00)));
    assert_eq!(parse_colour("rgb:f/8/0"), Some(Rgb(0xff, 0x88, 0x00)));
    assert_eq!(parse_colour("rgb:fff/888/000"), Some(Rgb(0xff, 0x88, 0x00)));
    assert_eq!(
        parse_colour("rgba:ffff/8080/0000/ffff"),
        Some(Rgb(0xff, 0x80, 0x00))
    );
    assert_eq!(parse_colour("#ff8000"), Some(Rgb(0xff, 0x80, 0x00)));
    assert_eq!(parse_colour("#f80"), Some(Rgb(0xff, 0x88, 0x00)));
    assert_eq!(parse_colour("#ffff80800000"), Some(Rgb(0xff, 0x80, 0x00)));
    for bad in [
        "",
        "rgb:",
        "rgb:gg/00/00",
        "rgb:ff/00",
        "#ff",
        "#fffff",
        "blue",
    ] {
        assert_eq!(parse_colour(bad), None, "{bad:?}");
    }
    let r = parse_replies(b"\x1b]11;rgb:00/00/00\x07");
    assert_eq!(r.bg, Some(Rgb(0, 0, 0)));
    assert!(!r.dsr);
}

#[test]
fn the_sixteen_are_filed_by_their_index() {
    let bytes = b"\x1b]4;0;rgb:0000/0000/0000\x1b\\\x1b]4;15;rgb:ffff/ffff/ffff\x1b\\\x1b]4;16;rgb:1111/1111/1111\x1b\\";
    let r = parse_replies(bytes);
    assert_eq!(r.ansi[0], Some(Rgb(0, 0, 0)));
    assert_eq!(r.ansi[15], Some(Rgb(0xff, 0xff, 0xff)));
    assert!(r.ansi[1..15].iter().all(Option::is_none));
}

#[test]
fn junk_and_the_terminator_are_never_mistaken_for_colours() {
    let bytes = b"j\x1b[?62;22c\x1b]52;c;aGk=\x1b\\\x1b[0n\x1b]11;rgb:00/00/00\x07";
    let r = parse_replies(bytes);
    assert!(r.dsr);
    assert_eq!(r.fg, None);
    assert_eq!(
        r.bg,
        Some(Rgb(0, 0, 0)),
        "a reply after the junk still counts"
    );
}

#[test]
fn an_unterminated_reply_waits_for_the_rest() {
    let whole = b"\x1b]11;rgb:1e1e/1e1e/1e1e\x1b\\";
    for cut in 1..whole.len() {
        let r = parse_replies(&whole[..cut]);
        assert_eq!(r.bg, None, "cut at {cut}");
        assert!(!r.complete());
    }
    assert_eq!(parse_replies(whole).bg, Some(Rgb(0x1e, 0x1e, 0x1e)));
}

#[test]
fn every_answer_in_is_as_good_as_the_terminator() {
    let mut bytes = Vec::from(&b"\x1b]10;rgb:ff/ff/ff\x07\x1b]11;rgb:00/00/00\x07"[..]);
    for n in 0..16 {
        bytes.extend_from_slice(format!("\x1b]4;{n};rgb:11/11/11\x07").as_bytes());
    }
    let r = parse_replies(&bytes);
    assert!(!r.dsr);
    assert!(r.complete());
}

#[test]
fn the_request_ends_on_the_terminator_it_waits_for() {
    let req = request();
    assert!(req.ends_with(b"\x1b[5n"));
    let text = String::from_utf8(req).expect("ascii");
    assert!(text.contains("\x1b]10;?\x1b\\"));
    assert!(text.contains("\x1b]11;?\x1b\\"));
    for n in 0..16 {
        assert!(text.contains(&format!("\x1b]4;{n};?\x1b\\")), "entry {n}");
    }
    assert!(
        !text.contains("\x1b]4;16;"),
        "only the sixteen are asked for"
    );
}

#[test]
fn nothing_is_known_until_the_terminal_is_asked() {
    assert_eq!(Query::start(0).palette(), None);
}

#[test]
fn a_query_reads_until_it_has_every_answer_or_its_time_is_up() {
    let mut query = Query::start(1_000);
    assert_eq!(query.wait(1_000), Some(QUERY_CAP));
    assert_eq!(query.wait(1_000 + QUERY_CAP - 1), Some(1));
    assert_eq!(query.wait(1_000 + QUERY_CAP), None, "time is up");
    query.read(b"\x1b]10;rgb:ff/ff/ff\x07\x1b]11;rgb:10/20");
    assert_eq!(query.palette(), None);
    query.read(b"/30\x07\x1b[0n");
    assert_eq!(query.wait(2_000), None, "the terminator came");
    let palette = query.palette().expect("both defaults are in");
    assert_eq!(palette.fg, Rgb(0xff, 0xff, 0xff));
    assert_eq!(palette.bg, Rgb(0x10, 0x20, 0x30));
}

#[test]
fn a_blend_rounds_to_the_nearest_level() {
    let a = Rgb(0, 0, 0);
    let b = Rgb(255, 10, 1);
    assert_eq!(a.lerp(b, share(1, 3)), Rgb(85, 3, 0));
    assert_eq!(a.lerp(b, share(2, 3)), Rgb(170, 7, 1));
}
