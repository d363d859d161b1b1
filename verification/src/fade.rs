//! The dissolve between screens.
//!
//! The outgoing screen dissolves into the terminal's own background colour and the incoming
//! one dissolves up out of it: every visible cell interpolated toward the background over a
//! few frames. A fade is paced by the clock, not by counting frames: a slow terminal skips
//! frames rather than stretching the effect, and every fade ends on exactly its last value.
//!
//! Both ends of the interpolation have to be real colours, so the fade rests on the
//! terminal's answer to the query for its palette; `NO_COLOR` turns it off too, and so does
//! the configuration.

use vstd::prelude::*;

use crate::clock::{after, elapsed, later, passed, Duration, Instant, MILLI};
use crate::config::FadeSettings;
use crate::palette::{law_a_blend_runs_from_end_to_end, Palette, Rgb, Share};

verus! {

/// A synchronized update: the terminal presents nothing between these.
pub const SYNC_BEGIN: &'static str = "\x1b[?2026h";

pub const SYNC_END: &'static str = "\x1b[?2026l";

/// How often a frame goes out: roughly sixty a second.
pub const FRAME: Duration = 16_000_000;

/// The config and the environment allow a fade: `NO_COLOR` wins over the config.
pub open spec fn allowed(config_enabled: bool, no_color: bool) -> bool {
    config_enabled && !no_color
}

/// What to fade with: the terminal's own two colours, and one direction's half of the time.
pub open spec fn dissolve_of(
    settings: FadeSettings,
    no_color: bool,
    palette: Option<Palette>,
) -> Option<Dissolve> {
    match palette {
        Some(p) => if allowed(settings.enabled, no_color) {
            Some(
                Dissolve {
                    duration: (settings.duration_ms * MILLI / 2) as u64,
                    fg: p.fg,
                    bg: p.bg,
                },
            )
        } else {
            None
        },
        None => None,
    }
}

/// Whether the config and the environment allow a fade: everything but the terminal's
/// answer. `NO_COLOR` wins over the config.
pub fn configured(settings: &FadeSettings, no_color: bool) -> (r: bool)
    ensures
        r == allowed(settings.enabled, no_color),
{
    is_configured(settings.enabled, no_color)
}

/// The rule itself.
pub fn is_configured(config_enabled: bool, no_color: bool) -> (r: bool)
    ensures
        r == allowed(config_enabled, no_color),
{
    config_enabled && !no_color
}

/// Whether transitions animate at all: configured, and the terminal said what its colours
/// are.
pub fn enabled(settings: &FadeSettings, no_color: bool, palette: &Option<Palette>) -> (r: bool)
    ensures
        r == (allowed(settings.enabled, no_color) && palette is Some),
{
    active(settings, no_color, palette).is_some()
}

/// The palette to fade with, if a fade can run.
pub fn active(settings: &FadeSettings, no_color: bool, palette: &Option<Palette>) -> (r: Option<
    Palette,
>)
    ensures
        r == if allowed(settings.enabled, no_color) {
            *palette
        } else {
            None
        },
{
    if configured(settings, no_color) {
        *palette
    } else {
        None
    }
}

/// Whether the quick excursions fade too.
pub fn excursions(settings: &FadeSettings) -> (r: bool)
    ensures
        r == settings.excursions,
{
    settings.excursions
}

/// Whether an attached session is watched so it can dissolve.
pub fn session(settings: &FadeSettings) -> (r: bool)
    ensures
        r == settings.session,
{
    settings.session
}

/// What to interpolate between, and how long one direction takes.
#[derive(Debug, Clone, Copy, PartialEq, Eq, Structural)]
pub struct Dissolve {
    /// One direction's length.
    pub duration: Duration,
    /// The terminal's own foreground: a glyph fully drawn.
    pub fg: Rgb,
    /// The terminal's own background: a glyph fully dissolved.
    pub bg: Rgb,
}

impl Dissolve {
    /// The colour a glyph is drawn in `t` of the way through a fade, or `None` for one not
    /// being faded at all: none of the way is "do not touch it", so the last frame of a fade
    /// in sets no colour whatever.
    pub open spec fn shade(self, t: Share) -> Option<Rgb> {
        if t.num > 0 {
            Some(self.fg.blend(self.bg, t))
        } else {
            None
        }
    }

    /// The colour a glyph is drawn in `t` of the way through a fade.
    pub fn colour(self, t: Share) -> (r: Option<Rgb>)
        requires
            t.wf(),
        ensures
            r == self.shade(t),
    {
        if t.num > 0 {
            Some(self.fg.lerp(self.bg, t))
        } else {
            None
        }
    }
}

/// What to fade with, or `None` when there is no fade.
pub fn dissolve(settings: &FadeSettings, no_color: bool, palette: &Option<Palette>) -> (r: Option<
    Dissolve,
>)
    requires
        settings.duration_ms * MILLI / 2 <= u64::MAX,
    ensures
        r == dissolve_of(*settings, no_color, *palette),
{
    match active(settings, no_color, palette) {
        Some(palette) => Some(
            Dissolve { duration: settings.one_way(), fg: palette.fg, bg: palette.bg },
        ),
        None => None,
    }
}

/// Which way a fade goes.
#[derive(Debug, Clone, Copy, PartialEq, Eq, Structural)]
pub enum Direction {
    /// From the screen as drawn to fully dissolved.
    Out,
    /// From dissolved to the screen as drawn.
    In,
}

/// The frames of one fade, paced by the clock: told the time rather than reading it.
#[derive(Debug, Clone, Copy, PartialEq, Eq, Structural)]
pub struct Schedule {
    pub started: Instant,
    pub duration: Duration,
    pub direction: Direction,
    pub finished: bool,
}

impl Schedule {
    /// How far into the fade the frame drawn now is: it is drawn for the moment it will be
    /// seen, a frame from now.
    pub open spec fn reached(self, now: Instant) -> Duration {
        later(passed(now, self.started), FRAME)
    }

    /// The fade is over by the clock.
    pub open spec fn time_is_up(self, now: Instant) -> bool {
        self.reached(now) >= self.duration
    }

    /// How far dissolved the frame drawn now is.
    pub open spec fn dissolved(self, now: Instant) -> Share {
        if self.time_is_up(now) {
            match self.direction {
                Direction::Out => Share { num: 1, den: 1 },
                Direction::In => Share { num: 0, den: 1 },
            }
        } else {
            match self.direction {
                Direction::Out => Share { num: self.reached(now) as i128, den: self.duration },
                Direction::In => Share {
                    num: (self.duration - self.reached(now)) as i128,
                    den: self.duration,
                },
            }
        }
    }

    pub fn start(duration: Duration, direction: Direction, now: Instant) -> (r: Self)
        ensures
            r == (Schedule { started: now, duration, direction, finished: false }),
    {
        Self { started: now, duration, direction, finished: false }
    }

    /// How far dissolved the next frame should be, or `None` once the last frame has been
    /// handed out. The end value is produced exactly once, however late the clock is.
    pub fn next(&mut self, now: Instant) -> (r: Option<Share>)
        ensures
            *final(self) == (Schedule {
                finished: old(self).finished || old(self).time_is_up(now),
                ..*old(self)
            }),
            r == if old(self).finished {
                None
            } else {
                Some(old(self).dissolved(now))
            },
            r matches Some(t) ==> t.wf(),
    {
        if self.finished {
            return None;
        }
        let reached: Duration = after(elapsed(now, self.started), FRAME);
        if reached >= self.duration {
            self.finished = true;
            return Some(
                match self.direction {
                    Direction::Out => Share { num: 1, den: 1 },
                    Direction::In => Share { num: 0, den: 1 },
                },
            );
        }
        Some(
            match self.direction {
                Direction::Out => Share { num: reached as i128, den: self.duration },
                Direction::In => Share {
                    num: (self.duration - reached) as i128,
                    den: self.duration,
                },
            },
        )
    }

    /// Whether the last frame has been handed out.
    pub fn finished(&self) -> (r: bool)
        ensures
            r == self.finished,
    {
        self.finished
    }

    /// Whether the fade is over by the clock, whether or not its last frame was ever asked
    /// for.
    pub fn over(&self, now: Instant) -> (r: bool)
        ensures
            r == (self.finished || self.time_is_up(now)),
    {
        self.finished || after(elapsed(now, self.started), FRAME) >= self.duration
    }
}

/// The clock and the frames agree: the pass on which a fade is over by the clock is the pass
/// on which its end value is handed out.
pub proof fn law_over_on_the_frame_it_ends(s: Schedule, now: Instant)
    requires
        !s.finished,
    ensures
        s.time_is_up(now) <==> (match s.direction {
            Direction::Out => s.dissolved(now).num >= s.dissolved(now).den,
            Direction::In => s.dissolved(now).num <= 0,
        }),
{
}

/// A fade only ever goes one way: a later frame is at least as far along as an earlier one.
pub proof fn law_a_fade_goes_one_way(s: Schedule, a: Instant, b: Instant)
    requires
        a <= b,
    ensures
        ({
            let first = s.dissolved(a);
            let second = s.dissolved(b);
            match s.direction {
                Direction::Out => first.num * second.den <= second.num * first.den,
                Direction::In => first.num * second.den >= second.num * first.den,
            }
        }),
{
    let x = s.reached(a);
    let y = s.reached(b);
    let d = s.duration;
    assert(x <= y);
    if !s.time_is_up(b) {
        assert(x * d <= y * d) by (nonlinear_arith)
            requires
                x <= y,
                0 <= d,
        ;
        assert((d - x) * d >= (d - y) * d) by (nonlinear_arith)
            requires
                x <= y,
                0 <= d,
        ;
    } else {
        let first = s.dissolved(a);
        let second = s.dissolved(b);
        assert(first.num * second.den == first.num) by (nonlinear_arith)
            requires
                second.den == 1,
        ;
        assert(second.num * first.den == if second.num == 1 {
            first.den as int
        } else {
            0
        }) by (nonlinear_arith)
            requires
                second.num == 1 || second.num == 0,
        ;
    }
}

/// The first frame is never the screen as it stands: even one drawn at once is part of the
/// way.
pub proof fn law_the_first_frame_shows(s: Schedule)
    requires
        s.duration > 0,
    ensures
        s.direction == Direction::Out ==> s.dissolved(s.started).num > 0,
        s.direction == Direction::In ==> s.dissolved(s.started).num < s.dissolved(s.started).den,
{
}

/// All of a level: levels are counted in parts of this.
pub const ALL: u32 = 16_777_216;

/// How a session's screen stands behind rows drawn over it, in parts of [`ALL`]: how far it
/// is dissolved, how far the rows are, and how far what is under the rows is.
#[derive(Debug, Clone, Copy, PartialEq, Eq, Structural)]
pub struct Veil {
    pub session: u32,
    pub rows: u32,
    pub under: u32,
}

/// The level `part` of `whole` of the way from one to another, rounded toward the first.
pub open spec fn between(from: u32, to: u32, part: u64, whole: u64) -> int {
    if to >= from {
        from + ((to - from) * part) / whole as int
    } else {
        from - ((from - to) * part) / whole as int
    }
}

proof fn lemma_between(from: u32, to: u32, part: u64, whole: u64)
    requires
        part < whole,
    ensures
        from <= to ==> from <= between(from, to, part, whole) <= to,
        to <= from ==> to <= between(from, to, part, whole) <= from,
{
    let d = if to >= from {
        to - from
    } else {
        from - to
    };
    assert(0 <= (d * part) / whole as int <= d) by (nonlinear_arith)
        requires
            0 <= d,
            0 <= part < whole,
    ;
}

fn level_between(from: u32, to: u32, part: u64, whole: u64) -> (r: u32)
    requires
        part < whole,
    ensures
        r == between(from, to, part, whole),
{
    proof {
        lemma_between(from, to, part, whole);
    }
    if to >= from {
        let d: u32 = to - from;
        assert(d * part <= u32::MAX * u64::MAX) by (nonlinear_arith)
            requires
                d <= u32::MAX,
                part <= u64::MAX,
        ;
        from + ((d as u128 * part as u128) / whole as u128) as u32
    } else {
        let d: u32 = from - to;
        assert(d * part <= u32::MAX * u64::MAX) by (nonlinear_arith)
            requires
                d <= u32::MAX,
                part <= u64::MAX,
        ;
        from - ((d as u128 * part as u128) / whole as u128) as u32
    }
}

impl Veil {
    /// The veil part of the way to another.
    pub open spec fn toward(self, to: Veil, part: u64, whole: u64) -> Veil {
        Veil {
            session: between(self.session, to.session, part, whole) as u32,
            rows: between(self.rows, to.rows, part, whole) as u32,
            under: between(self.under, to.under, part, whole) as u32,
        }
    }
}

/// A veil on its way from one place to another, paced by the clock as a [`Schedule`] is.
#[derive(Debug, Clone, Copy, PartialEq, Eq, Structural)]
pub struct Glide {
    pub from: Veil,
    pub to: Veil,
    pub schedule: Schedule,
}

impl Glide {
    /// Where the frame drawn now is.
    pub open spec fn at(self, now: Instant) -> Veil {
        if self.schedule.time_is_up(now) {
            self.to
        } else {
            self.from.toward(self.to, self.schedule.reached(now), self.schedule.duration)
        }
    }

    pub fn start(from: Veil, to: Veil, duration: Duration, now: Instant) -> (r: Self)
        ensures
            r == (Glide {
                from,
                to,
                schedule: Schedule {
                    started: now,
                    duration,
                    direction: Direction::Out,
                    finished: false,
                },
            }),
    {
        Glide { from, to, schedule: Schedule::start(duration, Direction::Out, now) }
    }

    /// Where the next frame is, or `None` once the last has been handed out: it ends on
    /// exactly where it was going, once, however late the clock is.
    pub fn next(&mut self, now: Instant) -> (r: Option<Veil>)
        ensures
            *final(self) == (Glide {
                schedule: Schedule {
                    finished: old(self).schedule.finished || old(self).schedule.time_is_up(now),
                    ..old(self).schedule
                },
                ..*old(self)
            }),
            r == if old(self).schedule.finished {
                None
            } else {
                Some(old(self).at(now))
            },
    {
        if self.schedule.finished {
            return None;
        }
        let reached: Duration = after(elapsed(now, self.schedule.started), FRAME);
        let whole: Duration = self.schedule.duration;
        if reached >= whole {
            self.schedule.finished = true;
            return Some(self.to);
        }
        Some(
            Veil {
                session: level_between(self.from.session, self.to.session, reached, whole),
                rows: level_between(self.from.rows, self.to.rows, reached, whole),
                under: level_between(self.from.under, self.to.under, reached, whole),
            },
        )
    }

    /// Whether the last frame has been handed out.
    pub fn finished(&self) -> (r: bool)
        ensures
            r == self.schedule.finished,
    {
        self.schedule.finished
    }
}

/// A veil on its way stays between where it started and where it is going.
pub proof fn law_a_glide_stays_between_its_ends(g: Glide, now: Instant)
    ensures
        ({
            let at = g.at(now);
            &&& g.from.session <= g.to.session ==> g.from.session <= at.session <= g.to.session
            &&& g.to.session <= g.from.session ==> g.to.session <= at.session <= g.from.session
            &&& g.from.rows <= g.to.rows ==> g.from.rows <= at.rows <= g.to.rows
            &&& g.to.rows <= g.from.rows ==> g.to.rows <= at.rows <= g.from.rows
            &&& g.from.under <= g.to.under ==> g.from.under <= at.under <= g.to.under
            &&& g.to.under <= g.from.under ==> g.to.under <= at.under <= g.from.under
        }),
{
    if !g.schedule.time_is_up(now) {
        let part = g.schedule.reached(now);
        let whole = g.schedule.duration;
        lemma_between(g.from.session, g.to.session, part, whole);
        lemma_between(g.from.rows, g.to.rows, part, whole);
        lemma_between(g.from.under, g.to.under, part, whole);
    }
}

/// Where a session frame leaves the cursor.
#[derive(Debug, Clone, Copy, PartialEq, Eq, Structural)]
pub enum Cursor {
    Hidden,
    /// Back on its cell.
    Restored,
}

/// Hidden throughout, except on the last frame of a fade in, which is the one frame nothing
/// is certain to follow.
pub fn cursor_for(direction: Direction, last: bool) -> (r: Cursor)
    ensures
        r == if direction == Direction::In && last {
            Cursor::Restored
        } else {
            Cursor::Hidden
        },
{
    match direction {
        Direction::In => if last {
            Cursor::Restored
        } else {
            Cursor::Hidden
        },
        Direction::Out => Cursor::Hidden,
    }
}

/// One frame of a session's dissolve.
#[derive(Debug, Clone, Copy, PartialEq, Eq, Structural)]
pub struct Frame {
    /// How far dissolved it is.
    pub t: Share,
    /// Where it leaves the cursor.
    pub cursor: Cursor,
    /// Whether to pause for a frame's time before the next.
    pub pause: bool,
}

impl Schedule {
    /// The frame of a session's dissolve drawn now, if there is one more: the last pauses for
    /// nothing, and the last on the way in gives the cursor back.
    pub open spec fn session_frame(self, now: Instant) -> Option<Frame> {
        if self.finished {
            None
        } else {
            let last = self.time_is_up(now);
            Some(
                Frame {
                    t: self.dissolved(now),
                    cursor: if last && self.direction == Direction::In {
                        Cursor::Restored
                    } else {
                        Cursor::Hidden
                    },
                    pause: !last,
                },
            )
        }
    }
}

/// The dissolve of a session's screen, a frame at a time.
#[derive(Debug, Clone, Copy, PartialEq, Eq, Structural)]
pub struct SessionFade {
    pub schedule: Schedule,
}

impl SessionFade {
    /// The next frame to paint, or `None` when the dissolve is done.
    pub fn next(&mut self, now: Instant) -> (r: Option<Frame>)
        ensures
            final(self).schedule == (Schedule {
                finished: old(self).schedule.finished || old(self).schedule.time_is_up(now),
                ..old(self).schedule
            }),
            r == old(self).schedule.session_frame(now),
    {
        match self.schedule.next(now) {
            None => None,
            Some(t) => {
                let last: bool = self.schedule.finished();
                Some(
                    Frame { t, cursor: cursor_for(self.schedule.direction, last), pause: !last },
                )
            },
        }
    }
}

/// The dissolve of a session's screen in this direction, or `None` when the fade is off or
/// the picture of the screen cannot be trusted.
fn run_session(
    dissolve: Option<Dissolve>,
    usable: bool,
    direction: Direction,
    now: Instant,
) -> (r: Option<SessionFade>)
    ensures
        r == match dissolve {
            Some(d) => if usable {
                Some(
                    SessionFade {
                        schedule: Schedule {
                            started: now,
                            duration: d.duration,
                            direction,
                            finished: false,
                        },
                    },
                )
            } else {
                None
            },
            None => None,
        },
{
    match dissolve {
        Some(d) => if usable {
            Some(SessionFade { schedule: Schedule::start(d.duration, direction, now) })
        } else {
            None
        },
        None => None,
    }
}

/// Dissolve an attached session's screen out into the background.
pub fn fade_out_session(dissolve: Option<Dissolve>, usable: bool, now: Instant) -> (r: Option<
    SessionFade,
>)
    ensures
        r is Some <==> dissolve is Some && usable,
        r matches Some(f) ==> f.schedule == (Schedule {
            started: now,
            duration: dissolve->0.duration,
            direction: Direction::Out,
            finished: false,
        }),
{
    run_session(dissolve, usable, Direction::Out, now)
}

/// Dissolve an attached session's screen up out of the background. `None` means that the
/// terminal is still blank.
pub fn fade_in_session(dissolve: Option<Dissolve>, usable: bool, now: Instant) -> (r: Option<
    SessionFade,
>)
    ensures
        r is Some <==> dissolve is Some && usable,
        r matches Some(f) ==> f.schedule == (Schedule {
            started: now,
            duration: dissolve->0.duration,
            direction: Direction::In,
            finished: false,
        }),
{
    run_session(dissolve, usable, Direction::In, now)
}

/// What one cell of a finished screen shows.
#[derive(Debug, Clone, Copy, PartialEq, Eq, Structural)]
pub struct CellLook {
    /// Its symbol is more than white space.
    pub glyph: bool,
    /// It is drawn with foreground and background exchanged.
    pub reversed: bool,
}

impl CellLook {
    /// The foreground it gets when the screen is `t` of the way to the background.
    pub open spec fn shade(self, fg: Rgb, bg: Rgb, t: Share) -> Option<Rgb> {
        if t.num > 0 && (self.glyph || self.reversed) {
            Some(fg.blend(bg, t))
        } else {
            None
        }
    }
}

/// The foreground a cell gets when the screen is `t` of the way to the background, or `None`
/// where it is left alone: at none of the way nothing is touched, and otherwise every cell
/// that shows something is coloured.
pub fn apply(cell: CellLook, fg: Rgb, bg: Rgb, t: Share) -> (r: Option<Rgb>)
    requires
        t.wf(),
    ensures
        r == cell.shade(fg, bg, t),
{
    if t.num <= 0 {
        return None;
    }
    if cell.glyph || cell.reversed {
        Some(fg.lerp(bg, t))
    } else {
        None
    }
}

/// Each of red, green and blue lies between that same channel of two colours.
pub open spec fn lies_between(c: Rgb, a: Rgb, b: Rgb) -> bool {
    &&& a.0 <= c.0 <= b.0 || b.0 <= c.0 <= a.0
    &&& a.1 <= c.1 <= b.1 || b.1 <= c.1 <= a.1
    &&& a.2 <= c.2 <= b.2 || b.2 <= c.2 <= a.2
}

/// All of the way through a dissolve the colour is the background's, at every step on the way
/// each channel lies between that same channel of the foreground and of the background, and at
/// none of the way no colour is set at all.
pub proof fn law_a_dissolve_ends_in_the_background(d: Dissolve, t: Share)
    requires
        t.wf(),
    ensures
        t.num <= 0 ==> d.shade(t) is None,
        t.num > 0 ==> (d.shade(t) matches Some(c) && lies_between(c, d.fg, d.bg)),
        t.num >= t.den ==> d.shade(t) == Some(d.bg),
{
    law_a_blend_runs_from_end_to_end(d.fg, d.bg, t);
}

/// A cell that shows something dissolves from the foreground into the background, and one that
/// shows nothing is never touched; at none of the way no cell is.
pub proof fn law_a_cell_dissolves_if_it_shows(cell: CellLook, fg: Rgb, bg: Rgb, t: Share)
    requires
        t.wf(),
    ensures
        !cell.glyph && !cell.reversed ==> cell.shade(fg, bg, t) is None,
        t.num <= 0 ==> cell.shade(fg, bg, t) is None,
        (cell.glyph || cell.reversed) && t.num > 0 ==> (cell.shade(fg, bg, t) matches Some(c)
            && lies_between(c, fg, bg)),
        (cell.glyph || cell.reversed) && t.num >= t.den ==> cell.shade(fg, bg, t) == Some(bg),
{
    law_a_blend_runs_from_end_to_end(fg, bg, t);
}

/// A fade takes the time it is given: the frame that ends it is the first that will be seen
/// when that time has passed, one frame's time after it is drawn.
pub proof fn law_a_fade_takes_its_time(s: Schedule, now: Instant)
    requires
        now >= s.started,
        now + 16_000_000 <= u64::MAX,
    ensures
        s.time_is_up(now) <==> now + 16_000_000 >= s.started + s.duration,
{
}

/// A fade moves evenly: how far along a frame is is how much of the time has passed when it is
/// seen, from nothing to all of it on the way out, and the other way round on the way in.
pub proof fn law_a_fade_moves_evenly(s: Schedule, now: Instant)
    requires
        now >= s.started,
        now + 16_000_000 < s.started + s.duration,
    ensures
        ({
            let t = s.dissolved(now);
            let shown = now + 16_000_000 - s.started;
            &&& t.wf()
            &&& s.direction == Direction::Out ==> t.num * s.duration == shown * t.den
            &&& s.direction == Direction::In ==> t.num * s.duration == (s.duration - shown) * t.den
        }),
{
    let t = s.dissolved(now);
    let shown = now + 16_000_000 - s.started;
    assert(shown * s.duration == shown * t.den);
    assert((s.duration - shown) * s.duration == (s.duration - shown) * t.den);
}

/// A fade ends whole: the last frame out is wholly dissolved, the last one in not at all.
pub proof fn law_a_fade_ends_whole(s: Schedule, now: Instant)
    requires
        s.time_is_up(now),
    ensures
        s.dissolved(now).wf(),
        s.direction == Direction::Out ==> s.dissolved(now).num >= s.dissolved(now).den,
        s.direction == Direction::In ==> s.dissolved(now).num <= 0,
{
}

/// A level on its way has gone as much of the distance as the time says, to the whole part
/// below it, in the direction it is going.
pub proof fn law_a_level_moves_evenly(from: u32, to: u32, part: u64, whole: u64)
    requires
        part < whole,
    ensures
        from <= to ==> {
            let gone = between(from, to, part, whole) - from;
            gone * whole <= (to - from) * part < (gone + 1) * whole
        },
        to <= from ==> {
            let gone = from - between(from, to, part, whole);
            gone * whole <= (from - to) * part < (gone + 1) * whole
        },
{
    let d: int = if to >= from {
        to - from
    } else {
        from - to
    };
    let w = whole as int;
    let n = d * part;
    let gone = n / w;
    assert(d >= 0);
    assert(gone * w <= n < (gone + 1) * w) by (nonlinear_arith)
        requires
            gone == n / w,
            w > 0,
    ;
    if from == to {
        assert(n == 0) by (nonlinear_arith)
            requires
                n == d * part,
                d == 0,
        ;
        assert(0int / w == 0) by (nonlinear_arith)
            requires
                w > 0,
        ;
    }
}

/// A veil on its way has every one of its levels as far along as the time says, and ends where
/// it was going.
pub proof fn law_a_glide_moves_all_its_levels(g: Glide, now: Instant)
    requires
        now >= g.schedule.started,
        now + 16_000_000 <= u64::MAX,
    ensures
        ({
            let shown = (now + 16_000_000 - g.schedule.started) as u64;
            let whole = g.schedule.duration;
            if shown >= whole {
                g.at(now) == g.to
            } else {
                &&& g.at(now).session == between(g.from.session, g.to.session, shown, whole)
                &&& g.at(now).rows == between(g.from.rows, g.to.rows, shown, whole)
                &&& g.at(now).under == between(g.from.under, g.to.under, shown, whole)
            }
        }),
{
    let shown = (now + 16_000_000 - g.schedule.started) as u64;
    let whole = g.schedule.duration;
    if shown < whole {
        lemma_between(g.from.session, g.to.session, shown, whole);
        lemma_between(g.from.rows, g.to.rows, shown, whole);
        lemma_between(g.from.under, g.to.under, shown, whole);
    }
}

/// A fade runs exactly when the config asks for one, `NO_COLOR` does not forbid it, and the
/// terminal has said what its colours are; and it runs between the terminal's own foreground and
/// background, out and back in the time that was configured.
pub proof fn law_a_fade_needs_leave_and_colours(
    settings: FadeSettings,
    no_color: bool,
    palette: Option<Palette>,
)
    requires
        settings.duration_ms * 1_000_000 <= u64::MAX,
    ensures
        dissolve_of(settings, no_color, palette) is Some <==> settings.enabled && !no_color
            && palette is Some,
        dissolve_of(settings, no_color, palette) matches Some(d) ==> d.fg == palette->0.fg && d.bg
            == palette->0.bg && 2 * d.duration == settings.duration_ms * 1_000_000,
        no_color ==> !allowed(settings.enabled, no_color),
        !no_color ==> allowed(settings.enabled, no_color) == settings.enabled,
{
}

/// A session's dissolve hides the cursor on every frame but the last of a fade in, pauses after
/// every frame but the last, and has no frame after that.
pub proof fn law_the_cursor_comes_back_with_the_last_frame_in(s: Schedule, now: Instant)
    ensures
        s.session_frame(now) is None <==> s.finished,
        s.session_frame(now) matches Some(frame) ==> {
            &&& frame.cursor == Cursor::Restored <==> s.direction == Direction::In && s.time_is_up(
                now,
            )
            &&& frame.pause <==> !s.time_is_up(now)
            &&& frame.t == s.dissolved(now)
            &&& frame.cursor == Cursor::Restored ==> frame.t.num <= 0
        },
{
}

} // verus!
