use nvmux::config::FadeSettings;
use nvmux::fade::{
    active, apply, configured, cursor_for, dissolve, enabled, excursions, fade_in_session,
    fade_out_session, is_configured, session, CellLook, Cursor, Direction, Dissolve, Glide,
    Schedule, Veil, ALL, FRAME,
};
use nvmux::palette::{Palette, Rgb, Share};

const T0: u64 = 7_000_000_000;
const ONE_WAY: u64 = 100_000_000;

fn at(t: Share) -> f64 {
    t.num as f64 / t.den as f64
}

fn share(num: i128, den: u64) -> Share {
    Share { num, den }
}

fn palette() -> Palette {
    Palette {
        fg: Rgb(200, 200, 200),
        bg: Rgb(0, 0, 0),
        ansi: [Rgb(0, 0, 0); 16],
    }
}

#[test]
fn the_config_toggle_and_no_color_both_gate_the_effect() {
    assert!(is_configured(true, false), "on by default");
    assert!(
        !is_configured(true, true),
        "NO_COLOR wins over an enabled config"
    );
    assert!(!is_configured(false, false), "the config can disable it");
    assert!(!is_configured(false, true), "off is off");
}

#[test]
fn without_a_palette_nothing_is_enabled() {
    let settings = FadeSettings::default();
    assert!(!enabled(&settings, false, &None));
    assert!(active(&settings, false, &None).is_none());
    assert!(dissolve(&settings, false, &None).is_none());
    assert!(enabled(&settings, false, &Some(palette())));
    assert_eq!(active(&settings, false, &Some(palette())), Some(palette()));
    assert!(active(&settings, true, &Some(palette())).is_none(), "NO_COLOR");
    assert!(configured(&settings, false));
    assert!(excursions(&settings) && session(&settings));
}

#[test]
fn a_dissolve_takes_half_of_what_is_configured() {
    let settings = FadeSettings::default();
    let d = dissolve(&settings, false, &Some(palette())).expect("configured");
    assert_eq!(
        d,
        Dissolve {
            duration: ONE_WAY,
            fg: Rgb(200, 200, 200),
            bg: Rgb(0, 0, 0),
        }
    );
}

#[test]
fn a_schedule_on_time_rises_to_one_and_stops() {
    let t0 = T0;
    let mut s = Schedule::start(ONE_WAY, Direction::Out, t0);
    let mut seen = vec![];
    let mut now = t0;
    while let Some(t) = s.next(now) {
        seen.push(at(t));
        now += FRAME;
    }
    assert!(seen.len() >= 4, "{seen:?}");
    assert!(
        seen[0] > 0.0,
        "the first frame is not the screen as it stands"
    );
    assert!(seen.windows(2).all(|w| w[1] > w[0]), "not rising: {seen:?}");
    assert_eq!(*seen.last().unwrap(), 1.0);
    assert!(s.finished());
    assert_eq!(s.next(now), None, "nothing after the end");
}

#[test]
fn a_fade_in_falls_to_zero() {
    let t0 = T0;
    let mut s = Schedule::start(ONE_WAY, Direction::In, t0);
    let mut seen = vec![];
    let mut now = t0;
    while let Some(t) = s.next(now) {
        seen.push(at(t));
        now += FRAME;
    }
    assert!(seen[0] < 1.0);
    assert!(
        seen.windows(2).all(|w| w[1] < w[0]),
        "not falling: {seen:?}"
    );
    assert_eq!(*seen.last().unwrap(), 0.0);
}

#[test]
fn a_late_clock_skips_to_the_end() {
    let t0 = T0;
    let mut s = Schedule::start(ONE_WAY, Direction::Out, t0);
    let first = at(s.next(t0).expect("a first frame"));
    let jumped = at(s.next(t0 + 60_000_000).expect("a second frame"));
    assert!(jumped > first + 0.4, "{first} -> {jumped}");
    assert_eq!(s.next(t0 + 10_000_000_000).map(at), Some(1.0));
    assert_eq!(s.next(t0 + 20_000_000_000), None);
}

#[test]
fn a_schedule_is_over_on_the_same_frame_it_hands_out_its_last() {
    let t0 = T0;
    let mut s = Schedule::start(ONE_WAY, Direction::Out, t0);
    let mut now = t0;
    loop {
        let over = s.over(now);
        let Some(t) = s.next(now) else {
            assert!(over, "a spent schedule is over whatever the clock says");
            break;
        };
        assert_eq!(over, at(t) == 1.0, "disagreed at {:?}", now - t0);
        now += FRAME;
    }

    let cold = Schedule::start(ONE_WAY, Direction::In, t0);
    assert!(!cold.over(t0));
    assert!(cold.over(t0 + ONE_WAY));
}

#[test]
fn only_the_last_frame_of_a_fade_in_restores_the_cursor() {
    assert_eq!(cursor_for(Direction::In, true), Cursor::Restored);
    assert_eq!(cursor_for(Direction::In, false), Cursor::Hidden);
    assert_eq!(cursor_for(Direction::Out, false), Cursor::Hidden);
    assert_eq!(cursor_for(Direction::Out, true), Cursor::Hidden);
}

fn look(glyph: bool, reversed: bool) -> CellLook {
    CellLook { glyph, reversed }
}

const FG: Rgb = Rgb(200, 200, 200);
const BG: Rgb = Rgb(0, 0, 0);

#[test]
fn at_zero_nothing_changes() {
    for cell in [look(true, false), look(false, false), look(false, true)] {
        assert_eq!(apply(cell, FG, BG, share(0, 1)), None);
        assert_eq!(apply(cell, FG, BG, share(-1, 2)), None);
    }
}

#[test]
fn at_one_everything_visible_is_the_background_colour() {
    for (glyph, reversed) in [(true, false), (true, true), (false, true)] {
        assert_eq!(apply(look(glyph, reversed), FG, BG, share(1, 1)), Some(BG));
    }
    assert_eq!(
        apply(look(false, false), FG, BG, share(1, 1)),
        None,
        "a blank was coloured"
    );
}

#[test]
fn halfway_is_halfway_and_modifiers_survive() {
    for (glyph, reversed) in [(true, false), (false, true)] {
        assert_eq!(
            apply(look(glyph, reversed), FG, BG, share(1, 2)),
            Some(Rgb(100, 100, 100))
        );
    }
}

#[test]
fn a_dissolve_has_no_colour_of_its_own_at_rest() {
    let d = Dissolve {
        duration: ONE_WAY,
        fg: FG,
        bg: BG,
    };
    assert_eq!(d.colour(share(0, 1)), None);
    assert_eq!(d.colour(share(1, 1)), Some(BG));
    assert_eq!(d.colour(share(1, 2)), Some(Rgb(100, 100, 100)));
}

#[test]
fn a_session_fades_frame_by_frame_and_gets_its_cursor_back() {
    let d = Some(Dissolve {
        duration: ONE_WAY,
        fg: FG,
        bg: BG,
    });
    assert!(fade_in_session(None, true, T0).is_none());
    assert!(fade_in_session(d, false, T0).is_none());
    assert!(fade_out_session(d, false, T0).is_none());
    let mut fade = fade_in_session(d, true, T0).expect("a fade");
    let mut now = T0;
    let mut frames = vec![];
    while let Some(frame) = fade.next(now) {
        frames.push((at(frame.t), frame.cursor));
        now += FRAME;
    }
    assert_eq!(frames.last(), Some(&(0.0, Cursor::Restored)));
    let (_, early) = frames.split_last().expect("frames");
    assert!(early.iter().all(|f| f.0 > 0.0 && f.1 == Cursor::Hidden));
    let mut fade = fade_out_session(d, true, T0).expect("a fade");
    let last = fade.next(T0 + ONE_WAY).expect("a last frame");
    assert_eq!((at(last.t), last.cursor), (1.0, Cursor::Hidden));
    assert!(fade.next(T0 + ONE_WAY).is_none());
}

#[test]
fn a_glide_runs_from_one_veil_to_another() {
    let from = Veil {
        session: 0,
        rows: ALL,
        under: 0,
    };
    let to = Veil {
        session: ALL,
        rows: 0,
        under: ALL / 2,
    };
    let mut glide = Glide::start(from, to, ONE_WAY, T0);
    let mid = glide.next(T0 + ONE_WAY / 2).expect("a frame");
    assert!(from.session < mid.session && mid.session < to.session, "{mid:?}");
    assert!(to.rows < mid.rows && mid.rows < from.rows, "{mid:?}");
    assert!(!glide.finished());
    assert_eq!(glide.next(T0 + ONE_WAY), Some(to));
    assert!(glide.finished());
    assert_eq!(glide.next(T0 + ONE_WAY), None);
}
