use nvmux::draw::PtySize;
use nvmux::fade::{Dissolve, Veil, ALL, FRAME};
use nvmux::hint::{
    entries, keys_text, placed, sessions_text, strips, Act, Bar, Listing, Strip, CUT, GAP, HERE,
    LABEL_WIDTH, RESET_DIM, SETTLE,
};
use nvmux::keys::{self, Pending};
use nvmux::palette::Rgb;
use nvmux::session::Session;
use unicode_width::UnicodeWidthStr;

const T0: u64 = 7_000_000_000;
const VEIL: f64 = 0.5;
const TINY_SIZES: &[(u16, u16)] = &[
    (0, 0),
    (1, 1),
    (2, 1),
    (2, 2),
    (5, 3),
    (9, 2),
    (13, 3),
    (3, 24),
    (80, 2),
];

fn size(cols: u16, rows: u16) -> PtySize {
    PtySize { rows, cols }
}

fn big() -> PtySize {
    size(80, 24)
}

fn three() -> Listing {
    Listing::new(
        [(1, "api"), (2, "dotfiles"), (3, "notes")]
            .map(|(n, s)| (n, s.to_string()))
            .to_vec(),
        Some(2),
    )
}

fn many(n: u32) -> Listing {
    Listing::new((1..=n).map(|i| (i, format!("s{i}"))).collect(), Some(1))
}

fn texts(strips: &[Strip]) -> Vec<String> {
    strips
        .iter()
        .map(|s| s.over.rows[0].trim().to_string())
        .collect()
}

fn drawn(pending: Pending, listing: &Listing, size: PtySize) -> Vec<String> {
    texts(&strips(pending, listing, size, false))
}

#[test]
fn the_key_row_lists_every_binding_in_table_order() {
    let text = keys_text(Pending::Command, 200).expect("a row");
    let mut rest = text.as_str();
    for b in keys::bindings() {
        let entry = format!("{} {}", keys::key_glyph(b.key), b.hint);
        let at = rest.find(&entry).unwrap_or_else(|| {
            panic!("{entry:?} is not on the row, or is out of order: {text:?}")
        });
        rest = &rest[at + entry.len()..];
    }
    assert!(rest.is_empty(), "the row goes on past the table: {rest:?}");
}

#[test]
fn the_row_never_spells_the_prefix() {
    let text = keys_text(Pending::Command, 200).expect("a row");
    for prefix in [keys::PREFIX, keys::parse_prefix("C-t").expect("a chord")] {
        let label = keys::prefix_label(prefix);
        assert!(
            !text.contains(&label),
            "the row spells the prefix ({label}): {text:?}"
        );
    }
    assert!(!text.contains("Ctrl"), "the row names a chord: {text:?}");
}

#[test]
fn the_space_bar_is_the_glyph_the_picker_uses() {
    let text = keys_text(Pending::Command, 200).expect("a row");
    assert!(
        text.starts_with(&format!("{} picker", keys::SPACE_GLYPH)),
        "the space bar is not the glyph: {text:?}"
    );
    assert!(
        !text.contains("space") && !text.contains("Space"),
        "the space bar is spelled out as well: {text:?}"
    );
}

#[test]
fn the_key_row_has_the_commands_and_nothing_else() {
    let text = keys_text(Pending::Command, 200).expect("a row");
    assert!(
        !text.contains("literal"),
        "the row offers the literal prefix: {text:?}"
    );
    assert!(!text.contains("other"), "the row offers a replay: {text:?}");
    assert!(!text.contains("1-"), "the row teaches the digits: {text:?}");
    assert_eq!(
        text.split(GAP).count(),
        keys::bindings().len(),
        "the row has entries beyond the commands: {text:?}"
    );
}

#[test]
fn entries_are_dropped_whole_to_fit() {
    let all = entries();
    for cols in 1..=200u16 {
        let Some(text) = keys_text(Pending::Command, cols) else {
            continue;
        };
        assert!(
            text.width() <= usize::from(cols),
            "{cols} columns overflowed: {text:?}"
        );
        let shown: Vec<&str> = text.split(GAP).collect();
        assert_eq!(
            shown,
            all[..shown.len()]
                .iter()
                .map(String::as_str)
                .collect::<Vec<_>>(),
            "at {cols} columns the row is not a whole-entry prefix of the table"
        );
    }
}

#[test]
fn a_screen_too_narrow_for_one_entry_says_nothing() {
    let first = entries().remove(0);
    for cols in 0..first.width() {
        assert_eq!(
            keys_text(Pending::Command, u16::try_from(cols).expect("small")),
            None,
            "drew part of {first:?} in {cols} columns"
        );
    }
    assert!(keys_text(
        Pending::Command,
        u16::try_from(first.width()).expect("small")
    )
    .is_some());
}

#[test]
fn a_pending_number_is_shown() {
    assert_eq!(keys_text(Pending::Number(1), 80).as_deref(), Some("#1"));
    assert_eq!(keys_text(Pending::Number(12), 80).as_deref(), Some("#12"));
    let rows = drawn(Pending::Number(1), &many(12), big());
    assert_eq!(rows.last().map(String::as_str), Some("#1"));
}

#[test]
fn the_sessions_row_names_each_session_by_its_number() {
    let rows = drawn(Pending::Command, &three(), big());
    assert_eq!(rows[0], "1 api  ▸2 dotfiles  3 notes");
    assert_eq!(rows.len(), 2, "{rows:?}");
}

#[test]
fn a_single_session_has_no_sessions_row() {
    let one = Listing::new(vec![(1, "api".to_string())], Some(1));
    assert_eq!(drawn(Pending::Command, &one, big()).len(), 1);
    assert_eq!(drawn(Pending::Command, &Listing::default(), big()).len(), 1);
}

#[test]
fn a_long_name_is_cut_and_says_so() {
    let listing = Listing::new(vec![(1, "a".repeat(40)), (2, "web".to_string())], Some(2));
    let row = &drawn(Pending::Command, &listing, big())[0];
    let first = row.split(GAP).next().expect("an entry");
    assert_eq!(first, format!("1 {}{CUT}", "a".repeat(LABEL_WIDTH - 1)));
    assert!(row.ends_with("▸2 web"), "{row:?}");
}

#[test]
fn sessions_that_do_not_fit_are_dropped_whole_and_counted() {
    let listing = many(30);
    for cols in 12..=120u16 {
        let rows = drawn(Pending::Command, &listing, size(cols, 24));
        if rows.len() < 2 {
            continue;
        }
        let row = &rows[0];
        assert!(row.width() <= usize::from(cols), "{cols}: {row:?}");
        let entries: Vec<&str> = row.split(GAP).collect();
        let (kept, more) = entries.split_at(entries.len() - 1);
        let dropped: usize = more[0]
            .strip_prefix('+')
            .and_then(|m| m.strip_suffix(" more"))
            .and_then(|n| n.parse().ok())
            .unwrap_or_else(|| panic!("{cols}: no count at the end of {row:?}"));
        assert_eq!(kept.len() + dropped, 30, "{cols}: {row:?}");
        for (i, entry) in kept.iter().enumerate() {
            let marker = if i == 0 { HERE } else { "" };
            assert_eq!(*entry, format!("{marker}{} s{}", i + 1, i + 1), "{cols}");
        }
    }
    let row = &drawn(Pending::Command, &many(3), big())[0];
    assert!(!row.contains("more"), "{row:?}");
}

#[test]
fn a_pending_number_narrows_the_row_to_what_it_can_still_reach() {
    let rows = drawn(Pending::Number(1), &many(12), big());
    assert_eq!(rows[0], "▸1 s1  10 s10  11 s11  12 s12");
}

#[test]
fn a_name_cannot_carry_an_escape_sequence_onto_the_screen() {
    let listing = Listing::new(
        vec![(1, "evil\x1b[2J".to_string()), (2, "web".to_string())],
        None,
    );
    let row = &drawn(Pending::Command, &listing, big())[0];
    assert!(!row.contains('\x1b'), "{row:?}");
    assert!(row.starts_with("1 evil[2J"), "{row:?}");
}

#[test]
fn a_listing_is_in_number_order_and_knows_its_highest() {
    let listing = Listing::new(
        vec![
            (3, "c".to_string()),
            (1, "a".to_string()),
            (2, "b".to_string()),
        ],
        None,
    );
    assert_eq!(drawn(Pending::Command, &listing, big())[0], "1 a  2 b  3 c");
    assert_eq!(listing.highest(), 3);
    assert_eq!(Listing::default().highest(), 0);

    let session = |id: &str, name: &str, num: u32| {
        let mut s = Session::new(id.into(), name.into(), 1, num);
        s.state.num = num;
        s
    };
    let sessions = [session("aaaaaaaa", "api", 1), session("bbbbbbbb", "web", 2)];
    let listing = Listing::of(&sessions, "bbbbbbbb");
    assert_eq!(drawn(Pending::Command, &listing, big())[0], "1 api  ▸2 web");
}

#[test]
fn the_rows_are_the_first_and_the_last_at_full_width() {
    for (cols, rows) in [(80u16, 24u16), (60, 3), (200, 50)] {
        let strips = strips(Pending::Command, &three(), size(cols, rows), false);
        assert_eq!(strips.len(), 2, "{cols}x{rows}");
        for (strip, top) in strips.iter().zip([0, rows - 1]) {
            assert_eq!(strip.over.top, top, "{cols}x{rows}");
            assert_eq!(strip.over.left, 0, "{cols}x{rows}");
            assert_eq!(strip.over.width, cols, "{cols}x{rows}");
            assert_eq!(strip.over.rows.len(), 1, "{cols}x{rows}");
            let row = &strip.over.rows[0];
            assert_eq!(row.width(), usize::from(cols), "{cols}x{rows}");
            let before = row.len() - row.trim_start().len();
            let after = row.len() - row.trim_end().len();
            assert!(
                before.abs_diff(after) <= 1,
                "{cols}x{rows}: not centred: {row:?}"
            );
        }
    }
}

#[test]
fn the_rows_never_take_every_row_of_a_session() {
    assert!(drawn(Pending::Command, &three(), size(200, 1)).is_empty());
    assert_eq!(drawn(Pending::Command, &three(), size(200, 2)).len(), 1);
    assert_eq!(drawn(Pending::Command, &three(), size(200, 3)).len(), 2);
}

#[test]
fn the_rows_are_dim_only_where_there_is_no_veil() {
    let live = strips(Pending::Command, &three(), big(), false);
    assert_eq!(live.len(), 2);
    assert!(live.iter().all(|s| s.dim), "{live:?}");
    let veiled = strips(Pending::Command, &three(), big(), true);
    assert_eq!(veiled.len(), 2);
    assert!(veiled.iter().all(|s| !s.dim), "{veiled:?}");
}

#[test]
fn a_tiny_screen_is_either_declined_or_drawn_inside_itself() {
    for &(cols, rows) in TINY_SIZES {
        for pending in [Pending::Command, Pending::Number(7)] {
            for strip in strips(pending, &three(), size(cols, rows), false) {
                let at = format!("{cols}x{rows} {pending:?}");
                assert!(strip.over.top < rows, "{at}: off the screen");
                assert_eq!(strip.over.left, 0, "{at}");
                assert_eq!(strip.over.width, cols, "{at}");
                assert_eq!(
                    strip.over.rows[0].width(),
                    usize::from(cols),
                    "{at}: the row overflows the screen"
                );
            }
        }
    }
}

#[test]
fn the_bytes_are_one_synchronized_update_that_cannot_scroll() {
    let bytes = placed(&strips(Pending::Command, &three(), big(), false));
    let text = String::from_utf8(bytes).expect("utf-8");

    assert!(text.starts_with("\x1b[?2026h\x1b7"), "{text:?}");
    assert!(text.ends_with("\x1b8\x1b[?2026l"), "{text:?}");
    assert_eq!(text.matches("\x1b[?2026h").count(), 1, "{text:?}");
    assert!(!text.contains('\n'), "a newline would scroll: {text:?}");
    assert!(!text.contains('\r'), "a carriage return: {text:?}");
    assert!(text.contains("\x1b[1;1H"), "the top row: {text:?}");
    assert!(text.contains("\x1b[24;1H"), "the bottom row: {text:?}");
    assert_eq!(text.matches(RESET_DIM).count(), 2, "not both dim: {text:?}");
    let tail = text.rsplit_once("\x1b8").expect("a restore").1;
    assert_eq!(tail, "\x1b[?2026l", "something follows the row: {tail:?}");
}

struct Glass {
    rows: Vec<String>,
    level: f64,
    dim: Vec<bool>,
}

impl Glass {
    fn new(size: PtySize) -> Self {
        Self {
            rows: vec!["x".repeat(usize::from(size.cols)); usize::from(size.rows)],
            level: 0.0,
            dim: vec![false; usize::from(size.rows)],
        }
    }

    fn write(&mut self, bytes: &[u8]) {
        let text = String::from_utf8(bytes.to_vec()).expect("utf-8");
        let mut at = None;
        for piece in text.split('\x1b') {
            if let Some(coords) = piece.strip_prefix('[').and_then(|p| p.strip_suffix('H')) {
                let (row, col) = coords.split_once(';').expect("row;col");
                assert_eq!(col, "1");
                at = Some(row.parse::<usize>().expect("row") - 1);
            } else if let Some(sgr) = piece.strip_prefix("[0") {
                let (faint, drawn) = sgr.split_once('m').expect("an SGR terminator");
                let row = at.take().expect("a row is placed before it is drawn");
                if row >= self.rows.len() {
                    self.rows.resize(row + 1, String::new());
                    self.dim.resize(row + 1, false);
                }
                self.rows[row] = drawn.to_string();
                self.dim[row] = faint == ";2";
            }
        }
    }

    fn restore(&mut self) {
        let cols = self.rows[0].width();
        for row in &mut self.rows {
            *row = "x".repeat(cols);
        }
        self.level = 0.0;
        self.dim = vec![false; self.rows.len()];
    }

    fn take(&mut self, act: &Act) {
        match act {
            Act::Idle => {}
            Act::Write(bytes) => self.write(bytes),
            Act::HandBack(bytes) => {
                self.level = 0.0;
                self.write(bytes);
            }
            Act::Dim(veiled) => {
                self.restore();
                for strip in &veiled.strips {
                    self.rows[usize::from(strip.over.top)] = strip.over.rows[0].clone();
                    self.dim[usize::from(strip.over.top)] = strip.dim;
                }
                self.level = f64::from(veiled.veil.session) / f64::from(ALL);
            }
            Act::Restore => self.restore(),
        }
    }

    fn row(&self, row: usize) -> &str {
        &self.rows[row]
    }
}

fn level(glass: &Glass) -> f64 {
    glass.level
}

fn shows(act: &Act) -> bool {
    matches!(act, Act::Write(_) | Act::Dim(_))
}

fn hands_back(act: &Act) -> bool {
    matches!(act, Act::HandBack(_) | Act::Restore)
}

struct Driver {
    bar: Bar,
    now: u64,
    shadow: bool,
    glass: Glass,
}

fn dissolve() -> Dissolve {
    Dissolve {
        duration: 100_000_000,
        fg: Rgb(200, 200, 200),
        bg: Rgb(0, 0, 0),
    }
}

impl Driver {
    fn new(size: PtySize) -> Self {
        Self {
            bar: Bar::new(T0, size, three(), None),
            now: T0,
            shadow: false,
            glass: Glass::new(size),
        }
    }

    fn veiling(size: PtySize) -> Self {
        Driver::over(size, three(), Some(dissolve()))
    }

    fn over(size: PtySize, listing: Listing, dissolve: Option<Dissolve>) -> Self {
        Self {
            bar: Bar::new(T0, size, listing, dissolve),
            now: T0,
            shadow: true,
            glass: Glass::new(size),
        }
    }

    fn quiet(&mut self, pending: Option<Pending>, size: PtySize) -> Act {
        self.step(false, pending, size)
    }

    fn busy(&mut self, pending: Option<Pending>, size: PtySize) -> Act {
        self.step(true, pending, size)
    }

    fn step(&mut self, busy: bool, pending: Option<Pending>, size: PtySize) -> Act {
        self.now += SETTLE;
        let act = self.bar.step(self.now, busy, size, pending, self.shadow);
        self.glass.take(&act);
        act
    }

    fn wake_at(&self) -> Option<u64> {
        self.bar.wake_at(self.now)
    }

    fn settle(&mut self, pending: Option<Pending>, size: PtySize) -> Vec<Act> {
        let mut acts = vec![self.quiet(pending, size)];
        for _ in 0..50 {
            if self.wake_at().is_none() {
                return acts;
            }
            acts.push(self.quiet(pending, size));
        }
        panic!("the bar never settled");
    }
}

const ARMED: Option<Pending> = Some(Pending::Command);

#[test]
fn nothing_is_written_until_a_lull() {
    for mut d in [Driver::new(big()), Driver::veiling(big())] {
        for _ in 0..10 {
            assert_eq!(
                d.busy(ARMED, big()),
                Act::Idle,
                "wrote over a talking child"
            );
            assert_eq!(
                d.wake_at(),
                Some(d.now + SETTLE),
                "a write is owed, so a wake-up is asked for"
            );
        }
        assert_eq!(
            d.quiet(ARMED, big()),
            Act::Idle,
            "the lull starts on this pass, it has not passed yet"
        );
        assert!(shows(&d.quiet(ARMED, big())));
    }
}

#[test]
fn without_a_veil_the_rows_go_up_once_over_the_session_as_it_is() {
    let mut d = Driver::new(big());
    assert!(shows(&d.quiet(ARMED, big())));
    assert_eq!(d.glass.row(0).trim(), "1 api  ▸2 dotfiles  3 notes");
    assert!(d.glass.row(23).trim().starts_with("␣ picker"));
    assert!(d.glass.dim[0] && d.glass.dim[23], "not dim");
    assert_eq!(d.glass.row(12), "x".repeat(80), "the session was touched");
    assert_eq!(level(&d.glass), 0.0);
    for _ in 0..5 {
        assert_eq!(d.quiet(ARMED, big()), Act::Idle);
    }
    assert_eq!(d.wake_at(), None, "nothing is owed");
}

#[test]
fn covered_rows_are_painted_again_at_the_next_lull() {
    for cover in ["the child", "the notice"] {
        let mut d = Driver::new(big());
        assert!(shows(&d.quiet(ARMED, big())));
        if cover == "the child" {
            assert_eq!(d.busy(ARMED, big()), Act::Idle, "{cover}: while it talks");
            assert_eq!(d.quiet(ARMED, big()), Act::Idle);
        } else {
            d.bar.overdrawn();
        }
        assert!(
            d.wake_at().is_some(),
            "{cover}: a repaint is owed and not asked for"
        );
        assert!(
            shows(&d.quiet(ARMED, big())),
            "{cover}: the rows did not go back up"
        );
    }
}

#[test]
fn a_bar_that_is_down_is_not_woken_by_output() {
    for mut d in [Driver::new(big()), Driver::veiling(big())] {
        for _ in 0..10 {
            assert_eq!(d.busy(None, big()), Act::Idle);
            assert_eq!(d.wake_at(), None, "woken for a bar that is not up");
        }
        d.bar.overdrawn();
        assert_eq!(d.wake_at(), None, "woken for a bar that is not up");
    }
}

#[test]
fn a_bar_that_never_painted_has_nothing_to_hand_back() {
    for mut d in [Driver::new(big()), Driver::veiling(big())] {
        assert_eq!(d.busy(ARMED, big()), Act::Idle);
        d.quiet(None, big());
        assert_eq!(d.quiet(None, big()), Act::Idle, "handed back a bare screen");
        assert_eq!(d.wake_at(), None);
        assert!(d.bar.on_screen().is_none());
    }
}

#[test]
fn without_a_veil_the_rows_are_blanked_exactly_once() {
    let mut d = Driver::new(big());
    assert!(shows(&d.quiet(ARMED, big())));
    let act = d.quiet(None, big());
    assert!(hands_back(&act), "{act:?}");
    assert_eq!(d.glass.row(0).trim(), "", "the top row was not blanked");
    assert_eq!(d.glass.row(23).trim(), "", "the bottom row was not blanked");
    assert_eq!(d.quiet(None, big()), Act::Idle, "asked twice");
    assert_eq!(d.wake_at(), None);
}

#[test]
fn a_resize_forgets_the_rows_it_painted_and_draws_the_new_ones() {
    let mut d = Driver::new(big());
    let Act::Write(bytes) = d.quiet(ARMED, big()) else {
        panic!("the rows did not go up");
    };
    assert!(String::from_utf8_lossy(&bytes).contains("\x1b[24;1H"));

    let taller = size(80, 40);
    let Act::Write(bytes) = d.quiet(ARMED, taller) else {
        panic!("the rows did not move");
    };
    let text = String::from_utf8_lossy(&bytes).to_string();
    assert!(
        text.contains("\x1b[40;1H"),
        "not redrawn on row 40: {text:?}"
    );
    assert!(
        !text.contains("\x1b[24;1H"),
        "the row it left behind was written to as well: {text:?}"
    );
}

#[test]
fn a_bar_with_nothing_to_draw_asks_for_no_wake_up() {
    let narrow = size(6, 24);
    assert!(
        strips(Pending::Command, &three(), narrow, true).is_empty(),
        "the fixture is wide enough after all"
    );
    for mut d in [Driver::new(narrow), Driver::veiling(narrow)] {
        assert_eq!(d.quiet(ARMED, narrow), Act::Idle);
        assert_eq!(
            d.wake_at(),
            None,
            "still asking to be woken for rows it cannot draw"
        );
        assert!(shows(&d.quiet(Some(Pending::Number(3)), narrow)));
    }
}

#[test]
fn the_veil_rises_behind_rows_that_are_up_from_its_first_frame() {
    let mut d = Driver::veiling(big());
    assert!(shows(&d.quiet(ARMED, big())));
    assert_eq!(d.glass.row(0).trim(), "1 api  ▸2 dotfiles  3 notes");
    assert!(d.glass.row(23).trim().starts_with("␣ picker"));
    for (row, which) in [(0, "the sessions row"), (23, "the key row")] {
        assert!(!d.glass.dim[row], "{which} is dim over a veil");
    }
    let first = level(&d.glass);
    assert!(
        first > 0.0 && first < VEIL,
        "the first frame is not part of the way: {first}"
    );
    assert!(
        d.wake_at().is_some(),
        "the rest of the rise is not asked for"
    );

    let mut levels = vec![first];
    for act in d.settle(ARMED, big()) {
        if shows(&act) {
            levels.push(level(&d.glass));
        }
    }
    assert!(levels.windows(2).all(|w| w[1] >= w[0]), "{levels:?}");
    assert!(
        (level(&d.glass) - VEIL).abs() < 0.01,
        "the veil stopped at {}",
        level(&d.glass)
    );
    assert_eq!(
        d.glass.row(12),
        "x".repeat(80),
        "the session's text is not all there"
    );
}

#[test]
fn a_risen_veil_is_left_alone() {
    let mut d = Driver::veiling(big());
    d.settle(ARMED, big());
    for _ in 0..5 {
        assert_eq!(d.quiet(ARMED, big()), Act::Idle);
    }
    assert_eq!(d.wake_at(), None);
    assert!(d.bar.veiled());
}

#[test]
fn a_rising_veil_asks_for_its_next_frame() {
    let mut d = Driver::veiling(big());
    d.quiet(ARMED, big());
    let wake = d.wake_at().expect("the next frame");
    assert!(wake > d.now, "asked to be woken in the past: a spin");
    assert!(wake <= d.now + SETTLE.max(FRAME), "{:?}", wake - d.now);
}

#[test]
fn a_veil_the_session_draws_over_goes_back_up_where_it_stood() {
    let mut d = Driver::veiling(big());
    d.settle(ARMED, big());
    assert_eq!(d.busy(ARMED, big()), Act::Idle);
    assert_eq!(d.quiet(ARMED, big()), Act::Idle, "the lull has only begun");
    assert!(shows(&d.quiet(ARMED, big())));
    assert!((level(&d.glass) - VEIL).abs() < 0.01, "{}", level(&d.glass));
    assert_eq!(
        d.wake_at(),
        None,
        "a veil put back is not a rise to run again"
    );
}

#[test]
fn a_lifted_veil_hands_the_session_back() {
    let mut d = Driver::veiling(big());
    d.settle(ARMED, big());
    let acts = d.settle(None, big());
    let frames = acts.iter().filter(|a| shows(a)).count();
    let handed = acts
        .iter()
        .filter(|a| hands_back(a))
        .count();
    assert!(frames >= 2, "the veil did not lift, it vanished: {acts:?}");
    assert_eq!(handed, 1, "{acts:?}");
    assert!(acts.last().is_some_and(hands_back), "{acts:?}");
    for row in [0, 12, 23] {
        assert_eq!(
            d.glass.row(row),
            "x".repeat(80),
            "row {row} did not come back"
        );
    }
    assert_eq!(level(&d.glass), 0.0, "not the session's own colours");
    assert!(!d.bar.veiled());
    assert_eq!(d.quiet(None, big()), Act::Idle, "handed back twice");
}

#[test]
fn a_veil_the_session_drew_over_is_handed_back_at_once() {
    let mut d = Driver::veiling(big());
    d.settle(ARMED, big());
    assert_eq!(d.busy(None, big()), Act::Idle);
    assert_eq!(d.quiet(None, big()), Act::Idle);
    assert!(hands_back(&d.quiet(None, big())));
    assert!(!d.bar.veiled());
}

#[test]
fn the_prefix_again_raises_a_lifting_veil_from_where_it_stood() {
    let mut d = Driver::veiling(big());
    d.settle(ARMED, big());
    assert!(shows(&d.quiet(None, big())));
    let lifting = level(&d.glass);
    assert!(lifting < VEIL, "the lift had not begun: {lifting}");
    assert!(shows(&d.quiet(ARMED, big())));
    assert!(
        level(&d.glass) >= lifting,
        "it fell back to nothing first: {}",
        level(&d.glass)
    );
    assert_eq!(d.glass.row(0).trim(), "1 api  ▸2 dotfiles  3 notes");
    d.settle(ARMED, big());
    assert!((level(&d.glass) - VEIL).abs() < 0.01, "{}", level(&d.glass));
}

#[test]
fn a_resize_under_a_veil() {
    let taller = size(80, 30);

    let mut d = Driver::veiling(big());
    d.settle(ARMED, big());
    d.glass = Glass::new(taller);
    let acts = d.settle(ARMED, taller);
    assert!(acts.iter().any(|a| shows(a)), "{acts:?}");
    assert!(
        d.glass.row(29).trim().starts_with("␣ picker"),
        "{:?}",
        d.glass.row(29)
    );
    assert!((level(&d.glass) - VEIL).abs() < 0.01, "{}", level(&d.glass));

    let mut d = Driver::veiling(big());
    d.settle(ARMED, big());
    assert!(
        shows(&d.quiet(None, big())),
        "the lift began"
    );
    assert_eq!(
        d.quiet(None, taller),
        Act::Idle,
        "a resize needs no hand back"
    );
    assert!(!d.bar.veiled());
    assert_eq!(d.wake_at(), None);
}

#[test]
fn a_shadow_retired_under_the_veil_hands_back_through_the_server() {
    let mut d = Driver::veiling(big());
    d.settle(ARMED, big());
    d.shadow = false;
    assert!(hands_back(&d.quiet(ARMED, big())));
    assert!(!d.bar.veiled());
    assert!(shows(&d.quiet(ARMED, big())));
    assert!(d.glass.dim[0], "the sessions row, with no veil, is dim");
}

#[test]
fn only_a_usable_shadow_with_colours_veils() {
    let mut d = Driver::over(big(), three(), None);
    assert!(shows(&d.quiet(ARMED, big())));
    assert!(!d.bar.veiled(), "veiled with no colours to do it in");

    let mut d = Driver::veiling(big());
    d.shadow = false;
    assert!(shows(&d.quiet(ARMED, big())));
    assert!(!d.bar.veiled(), "veiled with no screen to veil");
}

#[test]
fn on_screen_says_where_the_veil_stands() {
    let mut d = Driver::veiling(big());
    assert!(d.bar.on_screen().is_none());
    d.settle(ARMED, big());
    let veiled = d.bar.on_screen().expect("a veil");
    assert_eq!(
        veiled.veil,
        Veil {
            session: ALL / 2,
            rows: 0,
            under: ALL
        }
    );
    assert_eq!(texts(&veiled.strips)[0], "1 api  ▸2 dotfiles  3 notes");
    d.quiet(None, big());
    let veil = d.bar.on_screen().expect("still a veil").veil;
    assert!(veil.session < ALL / 2 && veil.rows > 0, "{veil:?}");
}

#[test]
fn a_frame_of_the_veil_carries_bright_rows_over_a_screen_of_their_own() {
    let mut d = Driver::veiling(big());
    let acts = d.settle(ARMED, big());
    let frames: Vec<_> = acts
        .iter()
        .filter_map(|act| match act {
            Act::Dim(v) => Some(v),
            _ => None,
        })
        .collect();
    assert!(frames.len() >= 2, "{acts:?}");
    for v in &frames {
        assert_eq!(v.strips.len(), 2);
        assert_eq!(v.strips[0].over.top, 0);
        assert_eq!(v.strips[1].over.top, 23);
        assert!(!v.strips[0].dim && !v.strips[1].dim, "{v:?}");
        assert_eq!(v.veil.under, ALL, "the session shows under the rows");
        assert_eq!(v.veil.rows, 0, "the rows are not whole");
    }
    assert_eq!(frames[frames.len() - 1].veil.session, ALL / 2);
}

/// How long after `from` the veil's glide takes its last frame, seen a millisecond at a time.
fn glide_ends(bar: &mut Bar, from: u64, pending: Option<Pending>) -> u64 {
    let mut now = from;
    loop {
        let act = bar.step(now, false, big(), pending, true);
        let over = match pending {
            Some(_) => bar.on_screen().is_some_and(|v| v.veil.session == ALL / 2),
            None => act == Act::Restore,
        };
        if over {
            return now - from;
        }
        now += 1_000_000;
        assert!(now < from + 1_000_000_000, "the glide never ended");
    }
}

#[test]
fn the_veil_rises_over_half_a_dissolve_and_lifts_over_a_whole_one() {
    let mut bar = Bar::new(T0, big(), three(), Some(dissolve()));
    let rose = glide_ends(&mut bar, T0 + SETTLE, ARMED);
    assert_eq!(rose, 96_000_000, "the last frame before 100 ms");
    let lifted = glide_ends(&mut bar, T0 + 10 * SETTLE, None);
    assert_eq!(lifted, 192_000_000, "the last frame before 200 ms");
}

#[test]
fn a_pending_number_redraws_the_rows_on_the_veil() {
    let mut d = Driver::over(big(), many(12), Some(dissolve()));
    d.settle(ARMED, big());
    assert!(shows(&d.quiet(Some(Pending::Number(1)), big())));
    assert_eq!(d.glass.row(0).trim(), "▸1 s1  10 s10  11 s11  12 s12");
    assert_eq!(d.glass.row(23).trim(), "#1");
    assert!((level(&d.glass) - VEIL).abs() < 0.01, "{}", level(&d.glass));
}

#[test]
fn the_sessions_row_leaves_out_what_a_number_cannot_reach() {
    assert_eq!(
        sessions_text(Pending::Number(3), &many(12), 80).as_deref(),
        Some("3 s3")
    );
    assert_eq!(sessions_text(Pending::Command, &many(1), 80), None);
}

#[test]
fn the_rows_stand_in_the_first_and_last_row() {
    let rows: Vec<Strip> = strips(Pending::Command, &three(), big(), false);
    let text = String::from_utf8(placed(&rows)).expect("utf-8");
    assert!(text.find("\x1b[1;1H") < text.find("\x1b[24;1H"), "{text:?}");
    assert_eq!(rows[0].over.rows[0].width(), 80);
}
