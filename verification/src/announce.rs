//! The brief "you are now on this session" announcement.
//!
//! While a session is attached its own client draws the screen, so the announcement is a box
//! written over it. It goes up at the first lull: the first moment at which the session has
//! been quiet for [`SETTLE`], which is the one state where a write cannot land in the middle
//! of one of the session's own. If no lull arrives within [`GIVE_UP`], nothing is shown.
//!
//! The box does not snap on and off. It dissolves up, is held for [`DURATION`], and
//! dissolves down again; with no effect to dissolve with it goes up whole and comes down
//! whole. A frame is a write and waits for a lull, but the life of the box runs on the
//! clock: it comes down on time on a session that has been talking over it throughout.

use vstd::prelude::*;

use crate::boundary::{
    law_a_saved_cursor_is_owed_back, law_a_synchronized_update_opens_and_closes, law_fed_in_pieces,
    Terminal,
};
use crate::clock::{after, elapsed, later, passed, Duration, Instant};
use crate::draw::{
    display_width, lemma_fitting, put_repeated, repeated, truncate, truncated, width, Over, Placed,
    PtySize,
};
use crate::fade::{
    law_a_dissolve_ends_in_the_background, Direction, Dissolve, Schedule, FRAME,
};
use crate::launch::texts;
use crate::palette::{Rgb, Share};
use crate::text::{chars_of, decimal, number_text, utf8};

verus! {

/// How long the session must have been quiet before the announcement is shown.
pub const SETTLE: Duration = 25_000_000;

/// How long to wait for that lull before giving up on the announcement.
pub const GIVE_UP: Duration = 2_000_000_000;

/// How long the box stays up at full strength.
pub const DURATION: Duration = 1_000_000_000;

/// Columns between the box's border and its text.
pub const PAD: usize = 1;

/// The smallest screen the box fits on.
pub const MIN_COLS: u16 = 5;

pub const MIN_ROWS: u16 = 3;

/// The character is a control character.
pub open spec fn control(c: char) -> bool {
    (c as u32) <= 0x1f || 0x7f <= (c as u32) <= 0x9f
}

/// The text without its control characters.
pub open spec fn shown(name: Seq<char>) -> Seq<char> {
    name.filter(|c: char| !control(c))
}

/// What the box says: the session's name, without control characters. This is the one place
/// a name reaches a raw terminal, where an escape sequence in it would be executed rather
/// than shown.
pub fn label(name: &str) -> (r: String)
    ensures
        r@ == shown(name@),
{
    let chars: Vec<char> = chars_of(name);
    let mut out: String = String::new();
    let mut i: usize = 0;
    assert(shown(chars@.take(0)) =~= Seq::<char>::empty()) by {
        reveal(Seq::filter);
    }
    while i < chars.len()
        invariant
            i <= chars@.len(),
            out@ == shown(chars@.take(i as int)),
        decreases chars@.len() - i,
    {
        let c: char = chars[i];
        proof {
            reveal(Seq::filter);
            assert(chars@.take(i + 1).drop_last() =~= chars@.take(i as int));
            assert(chars@.take(i + 1).last() == c);
        }
        let n: u32 = c as u32;
        if !(n <= 0x1f || (0x7f <= n && n <= 0x9f)) {
            out.push(c);
        }
        i += 1;
    }
    assert(chars@.take(i as int) =~= name@);
    out
}

/// What the box says of a name holds nothing a terminal would execute.
pub proof fn law_a_label_holds_no_control_characters(name: Seq<char>)
    ensures
        forall|i: int| 0 <= i < shown(name).len() ==> !control(#[trigger] shown(name)[i]),
    decreases name.len(),
{
    reveal(Seq::filter);
    if name.len() > 0 {
        law_a_label_holds_no_control_characters(name.drop_last());
    }
}

/// Where the box goes and what it says: in the middle, three rows, as wide as the text that
/// fits takes. Nothing where the screen cannot hold even a one-column box.
pub open spec fn boxed(label: Seq<char>, size: PtySize) -> Option<Placed> {
    let text = truncated(label, (size.cols - 2 - 2 * PAD) as nat);
    if size.cols < MIN_COLS || size.rows < MIN_ROWS || text.len() == 0 {
        None
    } else {
        let inner = display_width(text) + 2 * PAD;
        let width = inner + 2;
        let bar = repeated("─"@, inner as nat);
        let pad = repeated(" "@, PAD as nat);
        Some(
            Placed {
                top: ((size.rows - 3) / 2) as u16,
                left: ((size.cols - width) / 2) as u16,
                width: width as u16,
                rows: seq![
                    "╭"@ + bar + "╮"@,
                    "│"@ + pad + text + pad + "│"@,
                    "╰"@ + bar + "╯"@,
                ],
            },
        )
    }
}

/// Where the box goes and what it says.
pub fn overlay(label: &str, size: PtySize) -> (r: Option<Over>)
    ensures
        match r {
            Some(over) => boxed(label@, size) == Some(over@),
            None => boxed(label@, size) is None,
        },
{
    if size.cols < MIN_COLS || size.rows < MIN_ROWS {
        return None;
    }
    let text: String = truncate(label, size.cols as usize - 2 - 2 * PAD);
    if text.as_str().is_empty() {
        return None;
    }
    // Measured on the truncated text's own width: a wide character that did not fit leaves
    // the text narrower than the room it was given.
    let inner: usize = width(text.as_str()) + 2 * PAD;
    let total: usize = inner + 2;
    let left: usize = (size.cols as usize - total) / 2;
    let top: usize = (size.rows as usize - 3) / 2;
    let mut first: String = String::from_str("╭");
    put_repeated(&mut first, "─", inner);
    first.append("╮");
    let mut middle: String = String::from_str("│");
    put_repeated(&mut middle, " ", PAD);
    middle.append(text.as_str());
    put_repeated(&mut middle, " ", PAD);
    middle.append("│");
    let mut last: String = String::from_str("╰");
    put_repeated(&mut last, "─", inner);
    last.append("╯");
    let over: Over = Over {
        top: top as u16,
        left: left as u16,
        width: total as u16,
        rows: vec![first, middle, last],
    };
    assert(texts(over.rows@) =~= seq![first@, middle@, last@]);
    Some(over)
}

/// The box fits the screen it is for, and its slack is shared out to within one cell.
pub proof fn law_the_box_fits_and_is_centred(label: Seq<char>, size: PtySize)
    ensures
        boxed(label, size) matches Some(b) ==> {
            &&& b.rows.len() == 3
            &&& b.top + 3 <= size.rows
            &&& b.left + b.width <= size.cols
            &&& 0 <= (size.cols - b.width - b.left) - b.left <= 1
            &&& 0 <= (size.rows - 3 - b.top) - b.top <= 1
        },
{
    if size.cols >= MIN_COLS && size.rows >= MIN_ROWS {
        lemma_fitting(label, (size.cols - 2 - 2 * PAD) as nat, label.len() as int);
    }
}

/// The graphic rendition a row of the box is drawn with: a reset, with a foreground on the
/// same sequence while the box is dissolving.
pub open spec fn rendition(fg: Option<Rgb>) -> Seq<char> {
    match fg {
        Some(c) => "\x1b[0;38;2;"@ + decimal(c.0 as nat) + ";"@ + decimal(c.1 as nat) + ";"@
            + decimal(c.2 as nat) + "m"@,
        None => "\x1b[0m"@,
    }
}

/// The first `n` rows of a box, each put in its place and drawn with this rendition.
pub open spec fn placed_rows(b: Placed, sgr: Seq<char>, n: int) -> Seq<char>
    decreases n,
{
    if n <= 0 {
        Seq::empty()
    } else {
        placed_rows(b, sgr, n - 1) + "\x1b["@ + decimal((b.top + n) as nat) + ";"@ + decimal(
            (b.left + 1) as nat,
        ) + "H"@ + sgr + b.rows[n - 1]
    }
}

/// The first `n` boxes, each with its rendition.
pub open spec fn placed_boxes(boxes: Seq<(Placed, Seq<char>)>, n: int) -> Seq<char>
    decreases n,
{
    if n <= 0 {
        Seq::empty()
    } else {
        placed_boxes(boxes, n - 1) + placed_rows(
            boxes[n - 1].0,
            boxes[n - 1].1,
            boxes[n - 1].0.rows.len() as int,
        )
    }
}

/// What is written over a session's screen: inside one synchronized update, with the cursor
/// saved and given back.
pub open spec fn over_screen(drawn: Seq<char>) -> Seq<char> {
    "\x1b[?2026h\x1b7"@ + drawn + "\x1b8\x1b[?2026l"@
}

/// The box on its own.
pub open spec fn plain_text(b: Placed, fg: Option<Rgb>) -> Seq<char> {
    over_screen(placed_rows(b, rendition(fg), b.rows.len() as int))
}

/// Puts the rows of a box behind `out`.
fn put_rows(out: &mut String, over: &Over, sgr: &str)
    ensures
        final(out)@ == old(out)@ + placed_rows(over@, sgr@, over@.rows.len() as int),
{
    let left: String = number_text(over.left as u64 + 1);
    let ghost head = out@;
    let mut i: usize = 0;
    assert(head + placed_rows(over@, sgr@, 0) =~= head);
    while i < over.rows.len()
        invariant
            i <= over.rows@.len(),
            left@ == decimal((over@.left + 1) as nat),
            out@ == head + placed_rows(over@, sgr@, i as int),
        decreases over.rows@.len() - i,
    {
        out.append("\x1b[");
        let line: u128 = over.top as u128 + i as u128 + 1;
        out.append(wide_number_text(line).as_str());
        out.append(";");
        out.append(left.as_str());
        out.append("H");
        out.append(sgr);
        out.append(over.rows[i].as_str());
        i += 1;
        assert(over@.rows[i - 1] == over.rows@[i - 1]@);
        assert(out@ =~= head + placed_rows(over@, sgr@, i as int));
    }
}

fn wide_number_text(n: u128) -> (r: String)
    ensures
        r@ == decimal(n as nat),
    decreases n,
{
    let mut out: String = if n < 10 {
        String::new()
    } else {
        wide_number_text(n / 10)
    };
    out.push((0x30 + (n % 10) as u8) as char);
    assert(n < 10 ==> out@ =~= seq![crate::text::digit(n as nat)]);
    out
}

/// The bytes of a text.
fn bytes_of(text: &str) -> (r: Vec<u8>)
    ensures
        r@ == utf8(text@),
{
    let mut bytes: Vec<u8> = Vec::new();
    crate::text::put(&mut bytes, text);
    assert(bytes@ =~= utf8(text@));
    bytes
}

/// The box on its own, drawn in `fg`, or in no colour at all, which is what the box at rest
/// is. Every row is placed absolutely; no newline and no carriage return is written.
pub fn plain_bytes(over: &Over, fg: Option<Rgb>) -> (r: Vec<u8>)
    ensures
        r@ == utf8(plain_text(over@, fg)),
{
    let mut sgr: String = String::from_str("\x1b[0m");
    if let Some(c) = fg {
        sgr = String::from_str("\x1b[0;38;2;");
        sgr.append(number_text(c.0 as u64).as_str());
        sgr.append(";");
        sgr.append(number_text(c.1 as u64).as_str());
        sgr.append(";");
        sgr.append(number_text(c.2 as u64).as_str());
        sgr.append("m");
    }
    let mut out: String = String::from_str("\x1b[?2026h\x1b7");
    put_rows(&mut out, over, sgr.as_str());
    out.append("\x1b8\x1b[?2026l");
    bytes_of(out.as_str())
}

/// The values of these boxes and their renditions.
pub open spec fn blocks_of(blocks: Seq<(Over, &'static str)>) -> Seq<(Placed, Seq<char>)> {
    blocks.map_values(|b: (Over, &'static str)| (b.0@, b.1@))
}

/// Several boxes, each under its own rendition, all in one synchronized update.
pub fn placed_each(blocks: &Vec<(Over, &'static str)>) -> (r: Vec<u8>)
    ensures
        r@ == utf8(over_screen(placed_boxes(blocks_of(blocks@), blocks@.len() as int))),
{
    let mut out: String = String::from_str("\x1b[?2026h\x1b7");
    let ghost head = out@;
    let mut i: usize = 0;
    assert(head + placed_boxes(blocks_of(blocks@), 0) =~= head);
    while i < blocks.len()
        invariant
            i <= blocks@.len(),
            out@ == head + placed_boxes(blocks_of(blocks@), i as int),
        decreases blocks@.len() - i,
    {
        put_rows(&mut out, &blocks[i].0, blocks[i].1);
        i += 1;
        assert(blocks_of(blocks@)[i - 1] == (blocks@[i - 1].0@, blocks@[i - 1].1@));
        assert(out@ =~= head + placed_boxes(blocks_of(blocks@), i as int));
    }
    out.append("\x1b8\x1b[?2026l");
    bytes_of(out.as_str())
}

/// Nothing written for the box can scroll or shear the screen: with no line break in its
/// rows there is none in what is written.
pub proof fn law_the_box_writes_no_line_break(b: Placed, fg: Option<Rgb>)
    requires
        forall|i: int, j: int|
            0 <= i < b.rows.len() && 0 <= j < b.rows[i].len() ==> !line_break(
                #[trigger] b.rows[i][j],
            ),
    ensures
        forall|k: int| 0 <= k < plain_text(b, fg).len() ==> !line_break(
            #[trigger] plain_text(b, fg)[k],
        ),
{
    reveal_strlit("\x1b[?2026h\x1b7");
    reveal_strlit("\x1b8\x1b[?2026l");
    reveal_strlit("\x1b[0;38;2;");
    reveal_strlit("\x1b[0m");
    reveal_strlit(";");
    reveal_strlit("m");
    if let Some(c) = fg {
        lemma_decimal_no_break(c.0 as nat);
        lemma_decimal_no_break(c.1 as nat);
        lemma_decimal_no_break(c.2 as nat);
    }
    assert(unbroken(rendition(fg)));
    lemma_rows_no_break(b, rendition(fg), b.rows.len() as int);
    assert(unbroken(plain_text(b, fg)));
}

/// A newline or a carriage return.
pub open spec fn line_break(c: char) -> bool {
    c == '\n' || c == '\r'
}

/// There is no line break in a text.
pub open spec fn unbroken(s: Seq<char>) -> bool {
    forall|k: int| 0 <= k < s.len() ==> !line_break(#[trigger] s[k])
}

proof fn lemma_decimal_no_break(n: nat)
    ensures
        unbroken(decimal(n)),
    decreases n,
{
    if n >= 10 {
        lemma_decimal_no_break(n / 10);
    }
}

proof fn lemma_rows_no_break(b: Placed, sgr: Seq<char>, n: int)
    requires
        0 <= n <= b.rows.len(),
        unbroken(sgr),
        forall|i: int, j: int|
            0 <= i < b.rows.len() && 0 <= j < b.rows[i].len() ==> !line_break(
                #[trigger] b.rows[i][j],
            ),
    ensures
        unbroken(placed_rows(b, sgr, n)),
    decreases n,
{
    if n > 0 {
        lemma_rows_no_break(b, sgr, n - 1);
        lemma_decimal_no_break((b.top + n) as nat);
        lemma_decimal_no_break((b.left + 1) as nat);
        reveal_strlit("\x1b[");
        reveal_strlit(";");
        reveal_strlit("H");
        assert(unbroken(b.rows[n - 1]));
    }
}

/// The box for this label on this screen, drawn on its own.
pub fn overlay_bytes(label: &str, size: PtySize, fg: Option<Rgb>) -> (r: Option<Vec<u8>>)
    ensures
        match r {
            Some(bytes) => boxed(label@, size) is Some && bytes@ == utf8(
                plain_text(boxed(label@, size)->0, fg),
            ),
            None => boxed(label@, size) is None,
        },
{
    match overlay(label, size) {
        Some(over) => Some(plain_bytes(&over, fg)),
        None => None,
    }
}

/// What is to be done about the announcement on this pass.
#[derive(Debug, Clone, PartialEq, Eq)]
pub enum Act {
    /// Nothing this time round.
    Idle,
    /// Write these bytes to the terminal, over the session's screen.
    Paint(Vec<u8>),
    /// Paint this box over the session's screen with each cell of the two cross-faded: the
    /// box is this far dissolved.
    Blend(Over, Share),
    /// The overlay's time is up. Take it off the screen, then drop the popup.
    Erase,
    /// Nothing more will happen. Drop the popup.
    Done,
}

/// What is to be done, as a value.
#[verifier::ext_equal]
pub enum Doing {
    Idle,
    Paint(Seq<u8>),
    Blend(Placed, Share),
    Erase,
    Done,
}

impl View for Act {
    type V = Doing;

    open spec fn view(&self) -> Doing {
        match self {
            Act::Idle => Doing::Idle,
            Act::Paint(bytes) => Doing::Paint(bytes@),
            Act::Blend(over, t) => Doing::Blend(over@, *t),
            Act::Erase => Doing::Erase,
            Act::Done => Doing::Done,
        }
    }
}

/// Where the box is in its life, once it has been painted at all.
#[derive(Debug, Clone, Copy)]
pub enum Phase {
    /// Rising out of the background.
    In(Schedule),
    /// Fully drawn, until this moment.
    Held(Instant),
    /// Sinking back into it.
    Out(Schedule),
}

/// The box from its first paint onwards.
#[derive(Debug, Clone, Copy)]
pub struct Life {
    pub phase: Phase,
    /// How dissolved the box is: what the terminal shows, or what it will be shown again at
    /// the next lull.
    pub t: Share,
    /// When the next frame of a dissolve is due.
    pub next_frame: Instant,
}

/// Fully drawn.
pub open spec fn whole() -> Share {
    Share { num: 0, den: 1 }
}

/// Fully dissolved.
pub open spec fn gone() -> Share {
    Share { num: 1, den: 1 }
}

impl Life {
    /// There is a whole that it is dissolved a part of.
    pub open spec fn wf(self) -> bool {
        self.t.wf()
    }

    /// The next value of whichever schedule the phase is running, recorded; as it was while
    /// the box is held or once a schedule is spent.
    pub open spec fn framed(self, now: Instant) -> Life {
        match self.phase {
            Phase::In(s) => if s.finished {
                self
            } else {
                Life {
                    phase: Phase::In(Schedule { finished: s.time_is_up(now), ..s }),
                    t: s.dissolved(now),
                    next_frame: later(now, FRAME),
                }
            },
            Phase::Out(s) => if s.finished {
                self
            } else {
                Life {
                    phase: Phase::Out(Schedule { finished: s.time_is_up(now), ..s }),
                    t: s.dissolved(now),
                    next_frame: later(now, FRAME),
                }
            },
            Phase::Held(_) => self,
        }
    }

    /// Whether there is a frame to take.
    pub open spec fn has_frame(self) -> bool {
        match self.phase {
            Phase::In(s) => !s.finished,
            Phase::Out(s) => !s.finished,
            Phase::Held(_) => false,
        }
    }

    /// The box going up, at the lull that first paints it. With no effect to dissolve with it
    /// goes up whole and its time begins there.
    pub open spec fn begun(now: Instant, dissolve: Option<Dissolve>) -> Life {
        match dissolve {
            None => Life {
                phase: Phase::Held(later(now, DURATION)),
                t: whole(),
                next_frame: now,
            },
            Some(d) => (Life {
                phase: Phase::In(
                    Schedule {
                        started: now,
                        duration: d.duration,
                        direction: Direction::In,
                        finished: false,
                    },
                ),
                t: gone(),
                next_frame: now,
            }).framed(now),
        }
    }

    /// The phase's time is up by the clock.
    pub open spec fn phase_over(self, now: Instant) -> bool {
        match self.phase {
            Phase::Held(until) => now >= until,
            Phase::In(s) => s.finished || s.time_is_up(now),
            Phase::Out(s) => s.finished || s.time_is_up(now),
        }
    }

    /// The value a phase ends on.
    pub open spec fn end_value(self) -> Share {
        match self.phase {
            Phase::Held(_) => self.t,
            Phase::In(s) => if s.finished {
                self.t
            } else if s.direction == Direction::Out {
                gone()
            } else {
                whole()
            },
            Phase::Out(s) => if s.finished {
                self.t
            } else if s.direction == Direction::Out {
                gone()
            } else {
                whole()
            },
        }
    }
}

/// An announcement, as a value.
#[verifier::ext_equal]
pub struct Notice {
    pub label: Seq<char>,
    /// How the box dissolves, or `None` when it does not.
    pub dissolve: Option<Dissolve>,
    /// When the session was last seen with nothing to say, or `None` if it spoke on the last
    /// pass.
    pub quiet_since: Option<Instant>,
    /// When to stop waiting for a lull that is not coming.
    pub give_up_at: Instant,
    /// Everything that has happened to the box since it was first painted.
    pub life: Option<Life>,
    /// Whether the terminal shows the box as far dissolved as it is.
    pub painted: bool,
}

impl Notice {
    pub open spec fn wf(self) -> bool {
        self.life matches Some(life) ==> life.wf()
    }

    /// What the pass's first look makes of it: speech restarts the wait for a lull, and may
    /// have drawn over the box.
    pub open spec fn heard(self, now: Instant, child_spoke: bool) -> Notice {
        if child_spoke {
            Notice { quiet_since: None, painted: false, ..self }
        } else if self.quiet_since is None {
            Notice { quiet_since: Some(now), ..self }
        } else {
            self
        }
    }

    /// The life moved on by the clock, whether or not a frame of it was ever drawn; and
    /// whether that was the end of the box.
    pub open spec fn advanced(self, now: Instant) -> (Notice, bool) {
        match self.life {
            None => (self, false),
            Some(life) => if !life.phase_over(now) {
                (self, false)
            } else {
                let t = life.end_value();
                let spent = Notice { painted: self.painted && t == life.t, ..self };
                match (life.phase, self.dissolve) {
                    (Phase::In(_), _) => (
                        Notice {
                            life: Some(
                                Life { phase: Phase::Held(later(now, DURATION)), t, ..life },
                            ),
                            ..spent
                        },
                        false,
                    ),
                    (Phase::Held(_), Some(d)) => (
                        Notice {
                            life: Some(
                                Life {
                                    phase: Phase::Out(
                                        Schedule {
                                            started: now,
                                            duration: d.duration,
                                            direction: Direction::Out,
                                            finished: false,
                                        },
                                    ),
                                    t,
                                    next_frame: now,
                                },
                            ),
                            ..spent
                        },
                        false,
                    ),
                    (Phase::Held(_), None) => (spent, true),
                    (Phase::Out(s), _) => (
                        Notice {
                            life: Some(
                                Life {
                                    phase: Phase::Out(Schedule { finished: true, ..s }),
                                    t,
                                    ..life
                                },
                            ),
                            ..spent
                        },
                        true,
                    ),
                }
            },
        }
    }

    /// The session has been quiet for long enough to write over.
    pub open spec fn settled(self, now: Instant) -> bool {
        self.quiet_since matches Some(quiet) && passed(now, quiet) >= SETTLE
    }

    /// The next frame taken if one is due, with the life begun if this is the lull that
    /// first paints the box.
    pub open spec fn with_frame(self, now: Instant) -> Notice {
        let life = match self.life {
            Some(life) => life,
            None => Life::begun(now, self.dissolve),
        };
        if now >= life.next_frame && life.has_frame() {
            Notice { life: Some(life.framed(now)), painted: false, ..self }
        } else {
            Notice { life: Some(life), ..self }
        }
    }

    /// How a box this far dissolved is drawn: cross-faded with the session's screen while it
    /// is dissolving and there is a picture of that screen, and on its own otherwise.
    pub open spec fn drawn(self, over: Placed, under: bool, t: Share) -> Doing {
        if under && self.dissolve is Some && t.num > 0 {
            Doing::Blend(over, t)
        } else {
            Doing::Paint(
                utf8(
                    plain_text(
                        over,
                        match self.dissolve {
                            Some(d) => d.shade(t),
                            None => None,
                        },
                    ),
                ),
            )
        }
    }

    /// One pass.
    pub open spec fn stepped(
        self,
        now: Instant,
        child_spoke: bool,
        size: PtySize,
        under: bool,
    ) -> (Notice, Doing) {
        let (moved, ended) = self.heard(now, child_spoke).advanced(now);
        if ended {
            (moved, Doing::Erase)
        } else if !moved.settled(now) {
            if moved.life is None && now >= moved.give_up_at {
                (moved, Doing::Done)
            } else {
                (moved, Doing::Idle)
            }
        } else {
            let next = moved.with_frame(now);
            if next.painted {
                (next, Doing::Idle)
            } else {
                match boxed(self.label, size) {
                    None => (next, Doing::Done),
                    Some(over) => (
                        Notice { painted: true, ..next },
                        next.drawn(over, under, next.life->0.t),
                    ),
                }
            }
        }
    }
}

impl Notice {
    /// When there is next something to do about it: a frame of a dissolve waits for both its
    /// time and a lull, a repaint for a lull but never past the end of the hold.
    pub open spec fn due(self, now: Instant) -> Instant {
        let settle = later(
            match self.quiet_since {
                Some(quiet) => quiet,
                None => now,
            },
            SETTLE,
        );
        let min = |a: Instant, b: Instant| if a < b { a } else { b };
        let max = |a: Instant, b: Instant| if a > b { a } else { b };
        match self.life {
            None => min(settle, self.give_up_at),
            Some(life) => match life.phase {
                Phase::Held(until) => if self.painted {
                    until
                } else {
                    min(settle, until)
                },
                _ => max(settle, life.next_frame),
            },
        }
    }
}

/// An announcement waiting for its moment, and then living out its time. Told the time rather
/// than reading a clock.
#[derive(Debug)]
pub struct Popup {
    label: String,
    dissolve: Option<Dissolve>,
    quiet_since: Option<Instant>,
    give_up_at: Instant,
    life: Option<Life>,
    painted: bool,
}

impl View for Popup {
    type V = Notice;

    closed spec fn view(&self) -> Notice {
        Notice {
            label: self.label@,
            dissolve: self.dissolve,
            quiet_since: self.quiet_since,
            give_up_at: self.give_up_at,
            life: self.life,
            painted: self.painted,
        }
    }
}

impl Life {
    /// Take the next value of whichever schedule the phase is running, and record it. Says
    /// whether there was one.
    fn take_frame(&mut self, now: Instant) -> (took: bool)
        requires
            old(self).wf(),
        ensures
            final(self).wf(),
            *final(self) == old(self).framed(now),
            took == old(self).has_frame(),
    {
        match self.phase {
            Phase::In(s) => {
                let mut schedule: Schedule = s;
                match schedule.next(now) {
                    Some(t) => {
                        *self = Life {
                            phase: Phase::In(schedule),
                            t,
                            next_frame: after(now, FRAME),
                        };
                        true
                    },
                    None => false,
                }
            },
            Phase::Out(s) => {
                let mut schedule: Schedule = s;
                match schedule.next(now) {
                    Some(t) => {
                        *self = Life {
                            phase: Phase::Out(schedule),
                            t,
                            next_frame: after(now, FRAME),
                        };
                        true
                    },
                    None => false,
                }
            },
            Phase::Held(_) => false,
        }
    }

    /// The box going up.
    fn begin(now: Instant, dissolve: Option<Dissolve>) -> (r: Life)
        ensures
            r.wf(),
            r == Life::begun(now, dissolve),
    {
        match dissolve {
            None => Life {
                phase: Phase::Held(after(now, DURATION)),
                t: Share { num: 0, den: 1 },
                next_frame: now,
            },
            Some(d) => {
                let mut life: Life = Life {
                    phase: Phase::In(Schedule::start(d.duration, Direction::In, now)),
                    t: Share { num: 1, den: 1 },
                    next_frame: now,
                };
                let _ = life.take_frame(now);
                life
            },
        }
    }
}

impl Popup {
    /// `None` when there is nothing to say, including a label with nothing left in it.
    pub fn arm(label: Option<String>, now: Instant, dissolve: Option<Dissolve>) -> (r: Option<
        Self,
    >)
        ensures
            r is Some <==> label is Some && label->0@.len() > 0,
            r matches Some(p) ==> p@.wf() && p@ == (Notice {
                label: label->0@,
                dissolve,
                quiet_since: Some(now),
                give_up_at: later(now, GIVE_UP),
                life: None,
                painted: false,
            }),
    {
        match label {
            None => None,
            Some(label) => if label.as_str().is_empty() {
                None
            } else {
                Some(
                    Popup {
                        label,
                        dissolve,
                        quiet_since: Some(now),
                        give_up_at: after(now, GIVE_UP),
                        life: None,
                        painted: false,
                    },
                )
            },
        }
    }

    /// How dissolved the box is, once it has been painted at all.
    pub fn dissolved(&self) -> (r: Option<Share>)
        ensures
            r == match self@.life {
                Some(life) => Some(life.t),
                None => None,
            },
    {
        match self.life {
            Some(life) => Some(life.t),
            None => None,
        }
    }

    /// Until when the box is held, if it is.
    pub fn held_until(&self) -> (r: Option<Instant>)
        ensures
            r == match self@.life {
                Some(life) => match life.phase {
                    Phase::Held(until) => Some(until),
                    _ => None,
                },
                None => None,
            },
    {
        match self.life {
            Some(life) => match life.phase {
                Phase::Held(until) => Some(until),
                _ => None,
            },
            None => None,
        }
    }

    /// When the caller must next wake up on this popup's account: a frame of a dissolve waits
    /// for both its time and a lull, a repaint for a lull but never past the end of the hold.
    pub fn wake_at(&self, now: Instant) -> (r: Instant)
        ensures
            r == self@.due(now),
    {
        let quiet: Instant = match self.quiet_since {
            Some(quiet) => quiet,
            None => now,
        };
        let settle: Instant = after(quiet, SETTLE);
        match self.life {
            None => if settle < self.give_up_at {
                settle
            } else {
                self.give_up_at
            },
            Some(life) => match life.phase {
                Phase::Held(until) => if self.painted || until <= settle {
                    until
                } else {
                    settle
                },
                _ => if settle > life.next_frame {
                    settle
                } else {
                    life.next_frame
                },
            },
        }
    }

    /// One pass of the relay loop. `child_spoke` is whether the session had anything for the
    /// terminal this time round, and `under` whether there is a picture of its screen that a
    /// dissolving frame can be cross-faded with.
    pub fn step(&mut self, now: Instant, child_spoke: bool, size: PtySize, under: bool) -> (r: Act)
        requires
            old(self)@.wf(),
        ensures
            final(self)@.wf(),
            final(self)@ == old(self)@.stepped(now, child_spoke, size, under).0,
            r@ == old(self)@.stepped(now, child_spoke, size, under).1,
    {
        let ghost first = self@;
        if child_spoke {
            self.quiet_since = None;
            // Whatever was on screen may have been drawn over.
            self.painted = false;
        } else if self.quiet_since.is_none() {
            self.quiet_since = Some(now);
        }
        assert(self@ =~= first.heard(now, child_spoke));
        // The life runs on the clock, ahead of any lull.
        if self.advance(now) {
            return Act::Erase;
        }
        let settled: bool = match self.quiet_since {
            Some(quiet) => elapsed(now, quiet) >= SETTLE,
            None => false,
        };
        if !settled {
            // Nothing is on screen yet and the session has been busy throughout: let it be.
            return if self.life.is_none() && now >= self.give_up_at {
                Act::Done
            } else {
                Act::Idle
            };
        }
        let t: Share = self.frame(now);
        if self.painted {
            return Act::Idle;
        }
        let over: Over = match overlay(self.label.as_str(), size) {
            Some(over) => over,
            // Too small to draw on, and nothing to erase either.
            None => return Act::Done,
        };
        self.painted = true;
        self.draw(over, under, t)
    }

    /// Move the box out of a phase it has outlived, whether or not a frame of it was ever
    /// drawn. Says whether that was the end of the box.
    fn advance(&mut self, now: Instant) -> (ended: bool)
        requires
            old(self)@.wf(),
        ensures
            final(self)@.wf(),
            final(self)@ == old(self)@.advanced(now).0,
            ended == old(self)@.advanced(now).1,
    {
        if !self.outlived(now) {
            return false;
        }
        let life: Life = match self.life {
            Some(life) => life,
            None => return false,
        };
        match (life.phase, self.dissolve) {
            // Up, and standing there for its time.
            (Phase::In(_), _) => {
                self.life = Some(Life { phase: Phase::Held(after(now, DURATION)), ..life });
                false
            },
            // The time is up: start dissolving, with the first frame due at once.
            (Phase::Held(_), Some(d)) => {
                self.life = Some(
                    Life {
                        phase: Phase::Out(Schedule::start(d.duration, Direction::Out, now)),
                        next_frame: now,
                        ..life
                    },
                );
                false
            },
            (Phase::Held(_), None) | (Phase::Out(_), _) => true,
        }
    }

    /// Whether the current phase's time is up, spending whatever is left of its schedule if
    /// it is: that is what lands the box on exactly the value it was going to land on, however
    /// few of its frames were drawn.
    fn outlived(&mut self, now: Instant) -> (over: bool)
        requires
            old(self)@.wf(),
        ensures
            final(self)@.wf(),
            over == (old(self)@.life matches Some(life) && life.phase_over(now)),
            !over ==> final(self)@ == old(self)@,
            over ==> {
                let life = old(self)@.life->0;
                let t = life.end_value();
                final(self)@ == (Notice {
                    life: Some(
                        Life {
                            t,
                            phase: match life.phase {
                                Phase::In(s) => Phase::In(Schedule { finished: true, ..s }),
                                Phase::Out(s) => Phase::Out(Schedule { finished: true, ..s }),
                                Phase::Held(until) => Phase::Held(until),
                            },
                            ..life
                        },
                    ),
                    painted: old(self)@.painted && t == life.t,
                    ..old(self)@
                })
            },
    {
        let life: Life = match self.life {
            Some(life) => life,
            None => return false,
        };
        match life.phase {
            Phase::Held(until) => now >= until,
            Phase::In(s) => {
                let mut schedule: Schedule = s;
                if !schedule.over(now) {
                    return false;
                }
                let t: Share = match schedule.next(now) {
                    Some(end) => end,
                    None => life.t,
                };
                if t != life.t {
                    self.painted = false;
                }
                self.life = Some(Life { phase: Phase::In(schedule), t, ..life });
                true
            },
            Phase::Out(s) => {
                let mut schedule: Schedule = s;
                if !schedule.over(now) {
                    return false;
                }
                let t: Share = match schedule.next(now) {
                    Some(end) => end,
                    None => life.t,
                };
                if t != life.t {
                    self.painted = false;
                }
                self.life = Some(Life { phase: Phase::Out(schedule), t, ..life });
                true
            },
        }
    }

    /// How dissolved to draw the box on this pass, taking the next frame of a running
    /// schedule if one is due, and beginning the life if this is the lull that first paints
    /// the box.
    fn frame(&mut self, now: Instant) -> (t: Share)
        requires
            old(self)@.wf(),
        ensures
            final(self)@.wf(),
            final(self)@ == old(self)@.with_frame(now),
            t == final(self)@.life->0.t,
            t.wf(),
    {
        let mut life: Life = match self.life {
            Some(life) => life,
            None => Life::begin(now, self.dissolve),
        };
        let took: bool = now >= life.next_frame && life.take_frame(now);
        if took {
            // The screen is a frame behind again.
            self.painted = false;
        }
        self.life = Some(life);
        life.t
    }

    /// This frame: cross-faded with the session's screen while the box is dissolving, and the
    /// box on its own the rest of the time.
    fn draw(&self, over: Over, under: bool, t: Share) -> (r: Act)
        requires
            t.wf(),
        ensures
            r@ == self@.drawn(over@, under, t),
    {
        match self.dissolve {
            Some(d) => if under && t.num > 0 {
                Act::Blend(over, t)
            } else {
                Act::Paint(plain_bytes(&over, d.colour(t)))
            },
            None => Act::Paint(plain_bytes(&over, None)),
        }
    }
}

/// Nothing is drawn but at a lull: a pass on which the session spoke, or on which it has not
/// yet been quiet for long enough, writes nothing.
pub proof fn law_nothing_is_drawn_without_a_lull(
    n: Notice,
    now: Instant,
    child_spoke: bool,
    size: PtySize,
    under: bool,
)
    requires
        child_spoke || !n.heard(now, child_spoke).settled(now),
    ensures
        !(n.stepped(now, child_spoke, size, under).1 is Paint),
        !(n.stepped(now, child_spoke, size, under).1 is Blend),
{
}

/// The life of the box runs on the clock alone: where it stands after a pass that drew
/// nothing new is the same whether or not the session spoke, and a box whose time has come
/// is taken down either way.
pub proof fn law_speech_buys_the_box_no_time(n: Notice, now: Instant, size: PtySize, under: bool)
    ensures
        n.heard(now, true).advanced(now).1 == n.heard(now, false).advanced(now).1,
        n.heard(now, true).advanced(now).0.life == n.heard(now, false).advanced(now).0.life,
        n.stepped(now, true, size, under).1 is Erase <==> n.stepped(now, false, size, under).1
            is Erase,
        n.stepped(now, true, size, under).0.give_up_at == n.give_up_at,
{
}

/// With no effect the box is up for its time and then taken down: the pass at which the hold
/// ends erases it.
pub proof fn law_an_unfaded_box_comes_down_on_time(
    n: Notice,
    until: Instant,
    now: Instant,
    child_spoke: bool,
    size: PtySize,
    under: bool,
)
    requires
        n.dissolve is None,
        n.life matches Some(life) && life.phase == Phase::Held(until),
    ensures
        n.stepped(now, child_spoke, size, under).1 is Erase <==> now >= until,
{
}

/// A box that never finds a lull gives up: once its time to wait is over and nothing has been
/// painted, a busy pass ends it.
pub proof fn law_a_busy_screen_is_given_up_on(n: Notice, now: Instant, size: PtySize, under: bool)
    requires
        n.life is None,
    ensures
        now >= n.give_up_at ==> n.stepped(now, true, size, under).1 == Doing::Done,
        now < n.give_up_at ==> n.stepped(now, true, size, under).1 == Doing::Idle,
{
}

/// The box at rest sets no colour: fully drawn, it is the box as it would be with no fade at
/// all, whatever there is to dissolve with.
pub proof fn law_the_box_at_rest_is_plain(n: Notice, over: Placed, under: bool)
    ensures
        n.drawn(over, under, whole()) == Doing::Paint(utf8(plain_text(over, None))),
{
}

/// A fade in lands on the box fully drawn, however few of its frames were painted: when its
/// time is up the box is held, whole, for its full time from then.
pub proof fn law_a_fade_in_ends_whole(n: Notice, s: Schedule, now: Instant)
    requires
        n.life matches Some(life) && life.phase == Phase::In(s) && (s.finished ==> life.t
            == whole()),
        s.direction == Direction::In,
        s.time_is_up(now),
    ensures
        n.advanced(now).0.life matches Some(life) && life.phase == Phase::Held(
            later(now, DURATION),
        ) && life.t == whole(),
        !n.advanced(now).1,
{
}

/// A label is the name with its control characters left out and everything else as it was, in
/// order.
pub proof fn law_a_label_is_the_rest_of_the_name(a: Seq<char>, b: Seq<char>, c: char)
    ensures
        shown(a + b) == shown(a) + shown(b),
        shown(seq![c]) == if c <= '\u{1f}' || ('\u{7f}' <= c && c <= '\u{9f}') {
            Seq::<char>::empty()
        } else {
            seq![c]
        },
{
    let keep = |x: char| !control(x);
    Seq::filter_distributes_over_add(a, b, keep);
    reveal(Seq::filter);
    let one = seq![c];
    assert(one.drop_last() =~= Seq::<char>::empty());
    assert(one.drop_last().filter(keep) =~= Seq::<char>::empty());
    assert(shown(one) =~= if control(c) {
        Seq::<char>::empty()
    } else {
        seq![c]
    });
}

/// The box says as much of its label as fits between its sides, with a space on either side of
/// it, and is as wide as that takes; there is one wherever the screen has five columns, three
/// rows, and room for some of the label.
pub proof fn law_the_box_says_its_label(label: Seq<char>, size: PtySize)
    requires
        size.cols >= 5,
        size.rows >= 3,
    ensures
        ({
            let text = truncated(label, (size.cols - 4) as nat);
            &&& boxed(label, size) is Some <==> text.len() > 0
            &&& boxed(label, size) matches Some(b) ==> {
                &&& b.rows[1] == seq!['│', ' '] + text + seq![' ', '│']
                &&& b.width == display_width(text) + 4
                &&& b.rows[0] == seq!['╭'] + repeated(seq!['─'], (display_width(text) + 2) as nat)
                    + seq!['╮']
                &&& b.rows[2] == seq!['╰'] + repeated(seq!['─'], (display_width(text) + 2) as nat)
                    + seq!['╯']
            }
        }),
{
    let text = truncated(label, (size.cols - 4) as nat);
    reveal_strlit("│");
    reveal_strlit(" ");
    reveal_strlit("─");
    reveal_strlit("╭");
    reveal_strlit("╮");
    reveal_strlit("╰");
    reveal_strlit("╯");
    assert("─"@ =~= seq!['─']);
    assert(" "@ =~= seq![' ']);
    reveal_with_fuel(repeated, 2);
    assert(repeated(" "@, 1) =~= seq![' ']);
    lemma_fitting(label, (size.cols - 4) as nat, label.len() as int);
    if let Some(b) = boxed(label, size) {
        assert(b.rows[1] =~= seq!['│', ' '] + text + seq![' ', '│']);
        assert("╭"@ =~= seq!['╭'] && "╮"@ =~= seq!['╮'] && "╰"@ =~= seq!['╰'] && "╯"@ =~= seq![
            '╯',
        ]);
        assert(text.len() > 0 ==> display_width(text) <= size.cols - 4);
    }
}

/// A screen with fewer than five columns or three rows has no box.
pub proof fn law_a_small_screen_has_no_box(label: Seq<char>, size: PtySize)
    requires
        size.cols < 5 || size.rows < 3,
    ensures
        boxed(label, size) is None,
{
}

/// A colour is asked for by its red, its green and its blue, in that order, behind a reset; with
/// none there is the reset alone.
pub proof fn law_a_rendition_names_red_green_and_blue(c: Rgb)
    ensures
        rendition(None) == seq!['\x1b', '[', '0', 'm'],
        rendition(Some(c)) == seq!['\x1b', '[', '0', ';', '3', '8', ';', '2', ';'] + decimal(
            c.0 as nat,
        ) + seq![';'] + decimal(c.1 as nat) + seq![';'] + decimal(c.2 as nat) + seq!['m'],
{
    reveal_strlit("\x1b[0m");
    reveal_strlit("\x1b[0;38;2;");
    reveal_strlit(";");
    reveal_strlit("m");
    assert(";"@ =~= seq![';'] && "m"@ =~= seq!['m']);
    assert("\x1b[0;38;2;"@ =~= seq!['\x1b', '[', '0', ';', '3', '8', ';', '2', ';']);
    assert(rendition(None) =~= seq!['\x1b', '[', '0', 'm']);
}

/// Each row of a box goes to its own line of the screen, one below the other, all from the same
/// column: lines and columns are counted from one.
pub proof fn law_each_row_goes_to_its_own_line(b: Placed, sgr: Seq<char>, n: int)
    requires
        0 <= n < b.rows.len(),
    ensures
        placed_rows(b, sgr, n + 1) == placed_rows(b, sgr, n) + (seq!['\x1b', '['] + decimal(
            (b.top + 1 + n) as nat,
        ) + seq![';'] + decimal((b.left + 1) as nat) + seq!['H'] + sgr + b.rows[n]),
        placed_rows(b, sgr, 0) == Seq::<char>::empty(),
{
    reveal_strlit("\x1b[");
    reveal_strlit(";");
    reveal_strlit("H");
    assert("\x1b["@ =~= seq!['\x1b', '[']);
    assert(";"@ =~= seq![';'] && "H"@ =~= seq!['H']);
    assert(placed_rows(b, sgr, n + 1) =~= placed_rows(b, sgr, n) + (seq!['\x1b', '['] + decimal(
        (b.top + 1 + n) as nat,
    ) + seq![';'] + decimal((b.left + 1) as nat) + seq!['H'] + sgr + b.rows[n]));
}

/// What is drawn over a session leaves the terminal as it found it: the update that is opened
/// for it is closed again and the cursor that is saved is given back, as long as what is drawn
/// between opens nothing of its own.
pub proof fn law_what_is_drawn_leaves_the_terminal_as_it_was(t: Terminal, drawn: Seq<char>)
    requires
        t.mode is Ground,
        t.sync < u32::MAX,
        t.saved < u32::MAX,
        ({
            let inside = Terminal {
                sync: (t.sync + 1) as u32,
                saved: (t.saved + 1) as u32,
                seen_sync: true,
                ..t
            };
            inside.fed(utf8(drawn)) == inside
        }),
    ensures
        t.fed(utf8(over_screen(drawn))) == (Terminal { seen_sync: true, ..t }),
{
    let begin = seq![0x1bu8, 0x5b, 0x3f, 0x32, 0x30, 0x32, 0x36, 0x68];
    let end = seq![0x1bu8, 0x5b, 0x3f, 0x32, 0x30, 0x32, 0x36, 0x6c];
    let save = seq![0x1bu8, 0x37];
    let restore = seq![0x1bu8, 0x38];
    let head = "\x1b[?2026h\x1b7"@;
    let tail = "\x1b8\x1b[?2026l"@;
    assert(utf8(head) =~= begin + save && utf8(tail) =~= restore + end) by {
        reveal_strlit("\x1b[?2026h\x1b7");
        reveal_strlit("\x1b8\x1b[?2026l");
        assert(vstd::utf8::is_ascii_chars(head));
        assert(vstd::utf8::is_ascii_chars(tail));
        vstd::utf8::is_ascii_chars_encode_utf8(head);
        vstd::utf8::is_ascii_chars_encode_utf8(tail);
    }
    lemma_utf8_concat(head, drawn);
    lemma_utf8_concat(head + drawn, tail);
    law_fed_in_pieces(t, utf8(head) + utf8(drawn), utf8(tail));
    law_fed_in_pieces(t, utf8(head), utf8(drawn));
    law_fed_in_pieces(t, begin, save);
    law_a_synchronized_update_opens_and_closes(t);
    let opened = t.fed(begin);
    law_a_saved_cursor_is_owed_back(opened);
    let inside = opened.fed(save);
    law_fed_in_pieces(inside, restore, end);
    assert(inside.fed(restore) == opened);
    law_a_synchronized_update_opens_and_closes(opened);
}

proof fn lemma_utf8_concat(a: Seq<char>, b: Seq<char>)
    ensures
        utf8(a + b) == utf8(a) + utf8(b),
    decreases a.len(),
{
    if a.len() == 0 {
        assert(a + b =~= b);
        assert(utf8(a) =~= Seq::<u8>::empty());
        assert(utf8(a) + utf8(b) =~= utf8(b));
    } else {
        lemma_utf8_concat(a.drop_first(), b);
        assert((a + b).drop_first() =~= a.drop_first() + b);
        assert((a + b)[0] == a[0]);
        assert(utf8(a + b) =~= utf8(a) + utf8(b));
    }
}

/// With no effect the box goes up whole and stays for a second from there; with one it begins on
/// its way in, and takes the dissolve's time for it.
pub proof fn law_the_box_is_up_for_a_second(now: Instant, d: Dissolve)
    requires
        now + 1_000_000_000 <= u64::MAX,
    ensures
        Life::begun(now, None).phase == Phase::Held((now + 1_000_000_000) as u64),
        Life::begun(now, None).t.num == 0,
        Life::begun(now, Some(d)).phase matches Phase::In(s) && s.started == now && s.duration
            == d.duration && s.direction == Direction::In,
{
}

/// A box that dissolves sinks when its time is up, over the dissolve's time, and only when that
/// is up too does it come down.
pub proof fn law_a_faded_box_sinks_before_it_comes_down(
    n: Notice,
    d: Dissolve,
    now: Instant,
    child_spoke: bool,
    size: PtySize,
    under: bool,
)
    requires
        n.dissolve == Some(d),
    ensures
        n.life matches Some(life) && (life.phase matches Phase::Held(until) && now >= until) ==> {
            let (next, ended) = n.advanced(now);
            &&& !ended
            &&& next.life matches Some(after) && (after.phase matches Phase::Out(s) && s.started
                == now && s.duration == d.duration && s.direction == Direction::Out && !s.finished)
        },
        n.life matches Some(life) && (life.phase matches Phase::Held(until) && now < until) ==> {
            &&& n.advanced(now) == (n, false)
            &&& !(n.stepped(now, child_spoke, size, under).1 is Erase)
        },
        n.life matches Some(life) && (life.phase matches Phase::Out(s) && !s.finished) ==> (
        n.stepped(now, child_spoke, size, under).1 is Erase <==> n.life->0.phase->Out_0.time_is_up(
            now,
        )),
{
}

/// A box that stands as it should is left alone, and one the session may have drawn over is
/// painted again at the next lull.
pub proof fn law_a_standing_box_is_left_alone(
    n: Notice,
    until: Instant,
    now: Instant,
    size: PtySize,
    under: bool,
)
    requires
        n.life matches Some(life) && life.phase == Phase::Held(until),
        now < until,
    ensures
        n.painted ==> n.stepped(now, false, size, under).1 == Doing::Idle && n.stepped(
            now,
            false,
            size,
            under,
        ).0.painted,
        !n.stepped(now, true, size, under).0.painted,
        !n.painted && n.settled(now) && boxed(n.label, size) is Some ==> {
            let (next, doing) = n.stepped(now, false, size, under);
            next.painted && (doing is Paint || doing is Blend)
        },
{
}

/// A session is quiet once it has said nothing for 25 ms, and a lull is counted from the first
/// pass on which it said nothing.
pub proof fn law_a_lull_is_twenty_five_milliseconds(n: Notice, now: Instant)
    ensures
        n.settled(now) <==> (n.quiet_since matches Some(quiet) && now >= quiet && now - quiet
            >= 25_000_000),
        n.heard(now, true).quiet_since is None,
        n.heard(now, false).quiet_since == match n.quiet_since {
            Some(quiet) => Some(quiet),
            None => Some(now),
        },
        n.heard(now, false).painted == n.painted,
{
}

/// Nothing is slept past: before the box is up there is another look within a lull's time and by
/// the time it is given up on, while it is held by the time it has to come down, and while it
/// moves by its next frame or its next lull.
pub proof fn law_nothing_is_slept_past(n: Notice, now: Instant)
    ensures
        n.life is None ==> n.due(now) <= n.give_up_at,
        n.life is None && n.quiet_since is None ==> n.due(now) <= later(now, 25_000_000),
        n.life is None ==> n.due(now) == n.give_up_at || (n.quiet_since matches Some(q) && n.due(
            now,
        ) == later(q, 25_000_000)) || n.due(now) == later(now, 25_000_000),
        n.life matches Some(life) && life.phase is Held ==> n.due(now) <= n.life->0.phase->Held_0,
        n.life matches Some(life) && life.phase is Held && n.painted ==> n.due(now)
            == n.life->0.phase->Held_0,
        n.life matches Some(life) && !(life.phase is Held) ==> n.due(now) >= n.life->0.next_frame,
        n.life matches Some(life) && !(life.phase is Held) && (n.quiet_since matches Some(q)
            && later(q, 25_000_000) <= n.life->0.next_frame) ==> n.due(now)
            == n.life->0.next_frame,
{
}

/// A dissolving box is cross-faded where there is a picture of the screen under it, and without
/// one is drawn in the colour it is on its way through.
pub proof fn law_a_dissolving_box_is_blended(n: Notice, over: Placed, under: bool, t: Share)
    requires
        t.num > 0,
    ensures
        n.dissolve is Some && under ==> n.drawn(over, under, t) == Doing::Blend(over, t),
        n.dissolve matches Some(d) && !under ==> n.drawn(over, under, t) == Doing::Paint(
            utf8(plain_text(over, n.dissolve->0.shade(t))),
        ),
        n.dissolve is None ==> n.drawn(over, under, t) == Doing::Paint(
            utf8(plain_text(over, None)),
        ),
{
}

/// A frame of the box's dissolve shows where the fade is by the clock, once it is due and not
/// before; and the next is due a frame's time on.
pub proof fn law_a_frame_shows_where_the_fade_is(n: Notice, life: Life, s: Schedule, now: Instant)
    requires
        n.life == Some(life),
        life.phase == Phase::In(s) || life.phase == Phase::Out(s),
        !s.finished,
    ensures
        now < life.next_frame ==> n.with_frame(now) == n,
        now >= life.next_frame ==> {
            let next = n.with_frame(now);
            &&& next.life matches Some(after) && after.t == s.dissolved(now) && after.next_frame
                == later(now, 16_000_000)
            &&& !next.painted
        },
{
}

/// A box that is held has no frame of its own to show: it stays as it is.
pub proof fn law_a_held_box_does_not_move(n: Notice, life: Life, until: Instant, now: Instant)
    requires
        n.life == Some(life),
        life.phase == Phase::Held(until),
    ensures
        n.with_frame(now) == n,
{
}

/// A box that is going ends in the background's colour and one that is coming ends with no
/// colour set over its own, however far either had got.
pub proof fn law_a_phase_ends_where_it_was_going(life: Life, s: Schedule, d: Dissolve)
    requires
        life.phase == Phase::In(s) || life.phase == Phase::Out(s),
        !s.finished,
    ensures
        s.direction == Direction::Out ==> d.shade(life.end_value()) == Some(d.bg),
        s.direction == Direction::In ==> d.shade(life.end_value()) is None,
        life.end_value().wf(),
        life.end_value().num <= life.end_value().den,
{
    law_a_dissolve_ends_in_the_background(d, life.end_value());
}

} // verus!
