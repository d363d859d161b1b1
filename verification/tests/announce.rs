use nvmux::announce::{
    label, overlay, overlay_bytes, placed_each, plain_bytes, Act, Popup, DURATION, GIVE_UP,
    MIN_COLS, MIN_ROWS, PAD, SETTLE,
};
use nvmux::draw::PtySize;
use nvmux::fade::{Dissolve, FRAME};
use nvmux::palette::{Rgb, Share};
use unicode_width::UnicodeWidthStr;

const T0: u64 = 7_000_000_000;
const ONE_WAY: u64 = 100_000_000;
const TINY_SIZES: &[(u16, u16)] = &[
    (0, 0),
    (1, 1),
    (2, 1),
    (4, 3),
    (5, 2),
    (5, 3),
    (13, 3),
    (3, 24),
    (80, 2),
];

fn millis(ms: u64) -> u64 {
    ms * 1_000_000
}

fn at(t: Share) -> f64 {
    t.num as f64 / t.den as f64
}

fn size(cols: u16, rows: u16) -> PtySize {
    PtySize { rows, cols }
}

fn big() -> PtySize {
    size(80, 24)
}

fn dissolve() -> Dissolve {
    Dissolve {
        duration: ONE_WAY,
        fg: Rgb(200, 200, 200),
        bg: Rgb(0, 0, 0),
    }
}

fn dissolved(popup: &Popup) -> f64 {
    at(popup.dissolved().expect("a life"))
}

struct Row {
    at: (usize, usize),
    sgr: String,
    text: String,
}

fn placed(bytes: &[u8]) -> Vec<Row> {
    let text = String::from_utf8(bytes.to_vec()).expect("utf-8");
    let mut out = vec![];
    let mut at = None;
    for piece in text.split('\x1b') {
        if let Some(coords) = piece.strip_prefix('[').and_then(|p| p.strip_suffix('H')) {
            let (row, col) = coords.split_once(';').expect("row;col");
            at = Some((
                row.parse::<usize>().expect("row"),
                col.parse::<usize>().expect("col"),
            ));
        } else if let Some(sgr) = piece.strip_prefix("[0") {
            let (sgr, drawn) = sgr.split_once('m').expect("an SGR terminator");
            out.push(Row {
                at: at.take().expect("a row is placed before it is drawn"),
                sgr: format!("0{sgr}"),
                text: drawn.to_string(),
            });
        }
    }
    out
}

fn rows_of(bytes: &[u8]) -> Vec<String> {
    placed(bytes).into_iter().map(|row| row.text).collect()
}

fn drive(popup: &mut Popup, from: u64, size: PtySize) -> (Vec<(u64, f64)>, Act) {
    let mut painted = vec![];
    let mut now = from;
    for _ in 0..10_000 {
        match popup.step(now, false, size, false) {
            Act::Paint(_) => {
                painted.push((now - from, dissolved(popup)));
            }
            Act::Idle => {}
            end => return (painted, end),
        }
        now = popup.wake_at(now).max(now + millis(1));
    }
    panic!("the popup never ended");
}

fn held_until(popup: &Popup) -> Option<u64> {
    popup.held_until()
}

#[test]
fn the_label_is_the_name_and_nothing_else() {
    assert_eq!(label("dotfiles"), "dotfiles");
    assert_eq!(label("api server"), "api server");
    assert_eq!(label("日本語"), "日本語");
}

#[test]
fn a_control_character_in_a_name_cannot_reach_the_terminal() {
    let sneaky = label("ok\x1b[31mred\x07\n");
    assert!(!sneaky.contains('\x1b'), "{sneaky:?}");
    assert!(!sneaky.contains('\x07'), "{sneaky:?}");
    assert!(!sneaky.contains('\n'), "{sneaky:?}");
    assert_eq!(sneaky, "ok[31mred");
}

#[test]
fn a_label_with_nothing_in_it_arms_nothing() {
    let now = T0;
    assert!(Popup::arm(None, now, None).is_none());
    assert!(Popup::arm(Some(label("\x07\x1b")), now, None).is_none());
    assert!(Popup::arm(Some(label("dotfiles")), now, None).is_some());
}

#[test]
fn the_overlay_saves_and_restores_inside_one_synchronized_frame() {
    for fg in [None, Some(Rgb(1, 2, 3))] {
        let bytes = overlay_bytes("2  dotfiles", big(), fg).expect("drawn");
        let text = String::from_utf8(bytes).expect("utf-8");
        assert!(text.starts_with("\x1b[?2026h\x1b7"), "{text:?}");
        assert!(text.ends_with("\x1b8\x1b[?2026l"), "{text:?}");
        assert_eq!(text.matches('\x07').count(), 0);
    }
}

#[test]
fn the_overlay_never_writes_a_newline_or_a_carriage_return() {
    for fg in [None, Some(Rgb(1, 2, 3))] {
        let bytes = overlay_bytes("2  dotfiles", big(), fg).expect("drawn");
        assert!(!bytes.contains(&b'\n'), "a newline reached the terminal");
        assert!(
            !bytes.contains(&b'\r'),
            "a carriage return reached the terminal"
        );
    }
}

#[test]
fn nothing_in_the_overlay_sets_a_colour() {
    let bytes = overlay_bytes("2  dotfiles", big(), None).expect("drawn");
    let text = String::from_utf8(bytes).expect("utf-8");
    for sgr in text.split("\x1b[").filter_map(|p| p.strip_suffix('m')) {
        assert_eq!(sgr, "0", "the only SGR may be a reset, found {sgr:?}");
    }
}

#[test]
fn a_dissolving_row_sets_one_truecolor_foreground_from_a_reset() {
    let bytes = overlay_bytes("2  dotfiles", big(), Some(Rgb(100, 110, 120))).expect("drawn");
    let rows = placed(&bytes);
    assert_eq!(rows.len(), 3);
    for row in &rows {
        assert_eq!(row.sgr, "0;38;2;100;110;120", "at {:?}", row.at);
    }
    let text = String::from_utf8(bytes).expect("utf-8");
    assert!(
        !text.contains("48;2;"),
        "the box set a background: {text:?}"
    );
}

#[test]
fn every_row_is_positioned_absolutely_and_fits_the_screen() {
    for &(cols, rows) in &[(80u16, 24u16), (20, 5), (5, 3), (13, 3)] {
        let Some(bytes) = overlay_bytes("2  dotfiles", size(cols, rows), None) else {
            continue;
        };
        let text = String::from_utf8(bytes).expect("utf-8");
        let widths: Vec<usize> = rows_of(text.as_bytes()).iter().map(|r| r.width()).collect();
        assert_eq!(widths.len(), 3, "three rows at {cols}x{rows}: {text:?}");
        assert!(
            widths.windows(2).all(|w| w[0] == w[1]),
            "the box is ragged at {cols}x{rows}: {widths:?}"
        );

        let placements: Vec<(usize, usize)> = placed(text.as_bytes())
            .into_iter()
            .map(|row| row.at)
            .collect();
        assert_eq!(placements.len(), 3, "one placement per row");
        for (i, (row, col)) in placements.iter().enumerate() {
            assert_eq!(
                *row,
                (usize::from(rows) - 3) / 2 + 1 + i,
                "the box is not vertically centred"
            );
            assert!(*row <= usize::from(rows), "row {row} past {rows}");
            let before = col - 1;
            let after = usize::from(cols) - (before + widths[i]);
            assert!(
                before.abs_diff(after) <= 1,
                "{cols}x{rows}: {before} columns left, {after} right"
            );
            assert!(
                col + widths[i] <= usize::from(cols) + 1,
                "{cols}x{rows}: a row runs off the right-hand edge"
            );
        }
    }
}

#[test]
fn a_wide_name_is_measured_in_columns_not_bytes() {
    let bytes = overlay_bytes("1  日本語", size(40, 10), None).expect("drawn");
    let rows = rows_of(&bytes);
    assert_eq!(rows.len(), 3);
    assert!(rows[1].contains("日本語"), "{rows:?}");
    assert_eq!(rows[1].width(), 3 + 6 + 2 * PAD + 2);
    assert!(
        rows.iter().all(|r| r.width() == rows[0].width()),
        "{rows:?}"
    );
}

#[test]
fn a_terminal_too_small_for_the_box_gets_nothing() {
    for &(cols, rows) in TINY_SIZES {
        let drawn = overlay_bytes("2  dotfiles", size(cols, rows), None);
        if let Some(bytes) = drawn {
            let widths: Vec<usize> = rows_of(&bytes).iter().map(|r| r.width()).collect();
            assert!(
                widths.iter().all(|w| *w <= usize::from(cols)),
                "{cols}x{rows} drew {widths:?}"
            );
            assert!(rows >= MIN_ROWS, "{cols}x{rows} drew three rows");
        }
    }
}

#[test]
fn with_no_shadow_the_box_dissolves_as_it_did_before() {
    let t0 = T0;
    let d = dissolve();
    let mut popup = Popup::arm(Some("dotfiles".into()), t0, Some(d)).expect("armed");
    let Act::Paint(bytes) = popup.step(t0 + SETTLE, false, big(), false) else {
        panic!("the box did not go up");
    };
    let t = popup.dissolved().expect("a life");
    let over = overlay("dotfiles", big()).expect("a box");
    assert_eq!(bytes, plain_bytes(&over, d.colour(t)));
}

#[test]
fn the_box_at_rest_is_drawn_plain_even_with_a_screen_to_hand() {
    let t0 = T0;
    let mut popup = Popup::arm(Some("dotfiles".into()), t0, None).expect("armed");
    let Act::Paint(bytes) = popup.step(t0 + SETTLE, false, big(), true) else {
        panic!("the box did not go up");
    };
    let over = overlay("dotfiles", big()).expect("a box");
    assert_eq!(bytes, plain_bytes(&over, None));
}

#[test]
fn the_box_is_centred_and_sized_to_its_text() {
    let over = overlay("dotfiles", size(80, 24)).expect("a box");
    assert_eq!(over.rows.len(), 3);
    assert_eq!(over.width, 8 + 2 * PAD as u16 + 2);
    assert_eq!(over.top, (24 - 3) / 2);
    assert_eq!(over.left, (80 - over.width) / 2);
    assert!(over
        .rows
        .iter()
        .all(|r| r.width() == usize::from(over.width)));
}

#[test]
fn the_lull_clock_restarts_on_output_but_the_life_does_not() {
    let t0 = T0;
    let mut popup = Popup::arm(Some("dotfiles".into()), t0, None).expect("armed");

    for ms in [10, 100, 500] {
        let act = popup.step(t0 + millis(ms), true, big(), false);
        assert_eq!(act, Act::Idle, "drew at {ms}ms while the child was talking");
    }
    assert_eq!(
        popup.step(t0 + millis(510), false, big(), false),
        Act::Idle
    );
    let painted = t0 + millis(600);
    assert!(matches!(
        popup.step(painted, false, big(), false),
        Act::Paint(_)
    ));
    assert_eq!(held_until(&popup), Some(painted + DURATION));

    assert_eq!(
        popup.step(painted + millis(10), true, big(), false),
        Act::Idle
    );
    assert_eq!(
        popup.step(painted + millis(20), false, big(), false),
        Act::Idle,
        "one quiet pass is not a lull"
    );
    assert!(matches!(
        popup.step(painted + millis(60), false, big(), false),
        Act::Paint(_)
    ));
    assert_eq!(held_until(&popup), Some(painted + DURATION));

    assert_eq!(
        popup.step(
            painted + DURATION + millis(1),
            false,
            big(),
            false
        ),
        Act::Erase
    );
}

#[test]
fn an_overlay_that_never_finds_a_lull_gives_up_rather_than_drawing_late() {
    let t0 = T0;
    let mut popup = Popup::arm(Some("dotfiles".into()), t0, None).expect("armed");
    let mut at = t0;
    while at + millis(10) < t0 + GIVE_UP {
        at += millis(10);
        assert_eq!(popup.step(at, true, big(), false), Act::Idle, "at {at:?}");
    }
    assert_eq!(
        popup.step(t0 + GIVE_UP, true, big(), false),
        Act::Done,
        "it must stop trying rather than draw onto a busy screen"
    );
}

#[test]
fn with_no_effect_the_box_goes_up_whole_and_comes_down_whole() {
    let t0 = T0;
    let mut popup = Popup::arm(Some("dotfiles".into()), t0, None).expect("armed");
    let (painted, end) = drive(&mut popup, t0, big());

    assert_eq!(painted.len(), 1, "more than one paint: {painted:?}");
    assert_eq!(painted[0].1, 0.0, "the box went up part-drawn");
    assert_eq!(painted[0].0, SETTLE, "it waited for something but the lull");
    assert_eq!(end, Act::Erase);
}

#[test]
fn the_box_dissolves_in_then_holds_then_dissolves_out() {
    let t0 = T0;
    let d = dissolve();
    let mut popup = Popup::arm(Some("dotfiles".into()), t0, Some(d)).expect("armed");
    let (painted, end) = drive(&mut popup, t0, big());
    assert_eq!(end, Act::Erase);

    let ts: Vec<f64> = painted.iter().map(|(_, t)| *t).collect();
    let turn = ts.iter().position(|t| *t == 0.0).expect("a frame at rest");
    let (into, out_of) = ts.split_at(turn + 1);
    assert!(into.len() >= 4 && out_of.len() >= 4, "{ts:?}");
    assert!(
        into[0] < 1.0,
        "the first frame is the box already dissolved"
    );
    assert!(into[0] > 0.0, "the box went up whole");
    assert!(into.windows(2).all(|w| w[1] < w[0]), "not falling: {ts:?}");
    assert!(out_of.windows(2).all(|w| w[1] > w[0]), "not rising: {ts:?}");
    assert!(*out_of.last().expect("a last frame") > 0.9, "{ts:?}");
    assert_eq!(dissolved(&popup), 1.0);

    let held = painted[turn + 1].0 - painted[turn].0;
    assert!(
        held.abs_diff(DURATION) < millis(20),
        "held for {held:?}"
    );
    let fading_in = painted[turn].0 - SETTLE;
    assert!(
        fading_in.abs_diff(ONE_WAY) < millis(20),
        "faded in over {fading_in:?}"
    );
    let fading_out = painted.last().expect("a last frame").0 - painted[turn + 1].0;
    assert!(
        fading_out < ONE_WAY,
        "faded out over more than its length: {fading_out:?}"
    );
}

#[test]
fn the_box_it_holds_is_the_box_it_would_have_drawn_unfaded() {
    let t0 = T0;
    let mut popup = Popup::arm(Some("dotfiles".into()), t0, Some(dissolve())).expect("armed");
    let unfaded = overlay_bytes("dotfiles", big(), None).expect("drawn");

    let mut now = t0;
    let mut at_rest = 0;
    for _ in 0..10_000 {
        match popup.step(now, false, big(), false) {
            Act::Paint(bytes) => {
                if bytes == unfaded {
                    at_rest += 1;
                    assert!(held_until(&popup).is_some(), "an uncoloured box mid-fade");
                }
            }
            Act::Idle => {}
            _ => break,
        }
        now = popup.wake_at(now).max(now + millis(1));
    }
    assert_eq!(at_rest, 1, "the box at rest was painted {at_rest} times");
}

#[test]
fn a_repaint_mid_dissolve_resumes_where_it_had_got_to() {
    let t0 = T0;
    let mut popup = Popup::arm(Some("dotfiles".into()), t0, Some(dissolve())).expect("armed");
    let mut now = t0 + SETTLE;
    assert!(matches!(popup.step(now, false, big(), false), Act::Paint(_)));
    let first = dissolved(&popup);

    now += millis(10);
    assert_eq!(popup.step(now, true, big(), false), Act::Idle);
    assert_eq!(
        dissolved(&popup),
        first,
        "the dissolve moved while nothing was drawn"
    );

    now += millis(1);
    assert_eq!(popup.step(now, false, big(), false), Act::Idle);
    now += SETTLE;
    assert!(matches!(popup.step(now, false, big(), false), Act::Paint(_)));
    let resumed = dissolved(&popup);
    assert!(resumed < first, "{first} -> {resumed}");
    assert!(resumed > 0.0, "it jumped straight to the end");
}

#[test]
fn a_box_talked_over_for_its_whole_life_still_comes_down_on_time() {
    let t0 = T0;
    let mut popup = Popup::arm(Some("dotfiles".into()), t0, Some(dissolve())).expect("armed");
    let mut now = t0 + SETTLE;
    assert!(matches!(popup.step(now, false, big(), false), Act::Paint(_)));

    let life = ONE_WAY * 2 + DURATION;
    let end = now + life + millis(100);
    while now < end {
        now += millis(10);
        if popup.step(now, true, big(), false) == Act::Erase {
            let lived = now - t0;
            assert!(
                lived.abs_diff(SETTLE + life) < millis(50),
                "lived {lived:?}"
            );
            return;
        }
    }
    panic!("the box never came down");
}

#[test]
fn a_screen_too_small_mid_dissolve_stops_rather_than_drawing_a_fragment() {
    let t0 = T0;
    let mut popup = Popup::arm(Some("dotfiles".into()), t0, Some(dissolve())).expect("armed");
    let mut now = t0 + SETTLE;
    assert!(matches!(popup.step(now, false, big(), false), Act::Paint(_)));
    now += FRAME;
    assert_eq!(popup.step(now, false, size(2, 1), false), Act::Done);
}

#[test]
fn a_dissolve_runs_from_no_colour_at_all_to_the_background() {
    let d = dissolve();
    let whole = Share { num: 0, den: 1 };
    let gone = Share { num: 1, den: 1 };
    let half = Share { num: 1, den: 2 };
    assert_eq!(d.colour(whole), None, "the box at rest picks no colour");
    assert_eq!(d.colour(gone), Some(d.bg));
    assert_eq!(d.colour(half), Some(Rgb(100, 100, 100)));

    let at_rest = overlay_bytes("2  dotfiles", big(), d.colour(whole)).expect("drawn");
    let unfaded = overlay_bytes("2  dotfiles", big(), None).expect("drawn");
    assert_eq!(at_rest, unfaded);
}

#[test]
fn the_box_arrives_out_of_the_screen_it_is_covering() {
    let t0 = T0;
    let mut popup = Popup::arm(Some("dotfiles".into()), t0, Some(dissolve())).expect("armed");

    let mut now = t0 + SETTLE;
    let mut frames = vec![];
    let mut rest = None;
    for _ in 0..64 {
        match popup.step(now, false, big(), true) {
            Act::Blend(over, t) => {
                assert_eq!(over, overlay("dotfiles", big()).expect("a box"));
                frames.push(at(t));
            }
            Act::Paint(bytes) => {
                rest = Some(bytes);
                break;
            }
            _ => {}
        }
        now = popup.wake_at(now).max(now + millis(1));
    }

    let first = frames.first().expect("a first frame");
    assert!(
        *first > 0.5,
        "the arrival did not start from the screen: {first:?}"
    );
    assert!(frames.windows(2).all(|w| w[1] < w[0]), "{frames:?}");
    assert_eq!(
        rest.expect("the box never arrived"),
        overlay_bytes("dotfiles", big(), None).expect("drawn"),
        "the box did not end up covering the screen"
    );
}

#[test]
fn the_box_leaves_back_into_the_screen_it_was_covering() {
    let t0 = T0;
    let mut popup = Popup::arm(Some("dotfiles".into()), t0, Some(dissolve())).expect("armed");

    let mut now = t0 + SETTLE;
    let mut last = 0.0;
    for _ in 0..10_000 {
        match popup.step(now, false, big(), true) {
            Act::Blend(_, t) => last = at(t),
            Act::Paint(_) | Act::Idle => {}
            end => {
                assert_eq!(end, Act::Erase);
                break;
            }
        }
        now = popup.wake_at(now).max(now + millis(1));
    }
    assert!(
        last > 0.5,
        "the box did not dissolve back into the screen: {last:?}"
    );
}

#[test]
fn boxes_are_placed_one_after_another_in_one_frame() {
    let over = overlay("a", size(20, 10)).expect("a box");
    let bytes = placed_each(&vec![(over.clone(), "\x1b[0;2m"), (over, "\x1b[0m")]);
    let text = String::from_utf8(bytes).expect("utf-8");
    assert!(text.starts_with("\x1b[?2026h\x1b7"), "{text:?}");
    assert!(text.ends_with("\x1b8\x1b[?2026l"), "{text:?}");
    assert_eq!(text.matches("\x1b[0;2m").count(), 3);
    assert!(overlay("a", size(MIN_COLS - 1, MIN_ROWS)).is_none());
    assert!(overlay("a", size(MIN_COLS, MIN_ROWS - 1)).is_none());
}
