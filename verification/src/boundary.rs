//! Where something may be written over a session.
//!
//! A session's bytes go to the terminal as they come, and a notice has to be put on top of
//! that stream. Between two of the session's escape sequences that is safe; inside one it
//! is corruption. A [`Boundary`] is the terminal's own parser as far as the bytes written
//! to it: a decoder, with no grid and no cursor, that knows whether the next byte starts
//! something new.
//!
//! It also holds the last few bytes back. [`Boundary::relay`] hands out everything up to
//! the last point that leaves the parser between sequences and keeps the rest until the
//! bytes that finish it arrive. A kept byte is never dropped, reordered or changed, and it
//! is never kept long: [`KEPT_FOR`], or [`KEPT_MAX`] bytes, whichever comes first.
//!
//! Two things that are not sequences still say "not here": a synchronized update
//! (`CSI ? 2026 h` to `CSI ? 2026 l`) that the session has open, and a cursor it has saved
//! with `ESC 7` and not taken back. The end of a synchronized update is the exception, and
//! the best moment there is: see [`Boundary::holding_the_sessions_close`].

use vstd::prelude::*;

use crate::bytes::{extend, has_piece, names};
use crate::clock::{after, elapsed, later, passed, Duration, Instant};

verus! {

/// How long a tail is kept back before it goes to the terminal anyway: one frame of a
/// terminal that draws sixty a second.
pub const KEPT_FOR: Duration = 16_000_000;

/// The most that is ever kept back, after which it goes out unfinished.
pub const KEPT_MAX: usize = 65536;

/// How many of a CSI's parameter and intermediate bytes are remembered.
pub const PARAMS: usize = 32;

/// What a terminal's parser is in the middle of.
#[verifier::ext_equal]
pub enum Mode {
    /// Between sequences: the next byte starts something new.
    Ground,
    /// Inside a UTF-8 character that still owes this many continuation bytes.
    Utf8(u8),
    /// An `ESC` with nothing after it yet.
    Escape,
    /// An `ESC` and its intermediate bytes.
    Intermediate,
    /// `ESC [` and these parameter bytes; `None` once there are too many to remember.
    Csi(Option<Seq<u8>>),
    /// `ESC ]`: an operating-system command.
    Osc,
    /// `ESC P`, `ESC X`, `ESC ^`, `ESC _`: a control string.
    Text,
    /// An `ESC` inside a command or a string.
    TextEscape,
}

/// A terminal's parser, and what the session has opened on it.
#[verifier::ext_equal]
pub struct Terminal {
    pub mode: Mode,
    /// How deep the session is inside its own synchronized updates.
    pub sync: u32,
    /// Whether the session has ever opened or closed one at all.
    pub seen_sync: bool,
    /// How many saved cursors the session has not taken back.
    pub saved: u32,
}

/// One more, held at the top of the range.
pub open spec fn one_more(n: u32) -> u32 {
    if n < u32::MAX {
        (n + 1) as u32
    } else {
        n
    }
}

/// One fewer, held at none.
pub open spec fn one_fewer(n: u32) -> u32 {
    if n > 0 {
        (n - 1) as u32
    } else {
        0
    }
}

/// These parameters are private ones, and the synchronized update is among them.
pub open spec fn names_sync(params: Seq<u8>) -> bool {
    params.len() > 0 && params[0] == 0x3f && has_piece(
        params,
        0x3b,
        seq![0x32u8, 0x30, 0x32, 0x36],
        1,
    )
}

impl Terminal {
    /// A terminal as it starts: between sequences, with nothing open.
    pub open spec fn start() -> Terminal {
        Terminal { mode: Mode::Ground, sync: 0, seen_sync: false, saved: 0 }
    }

    /// The same terminal in the middle of something else.
    pub open spec fn now(self, mode: Mode) -> Terminal {
        Terminal { mode, ..self }
    }

    /// A byte that starts something new.
    pub open spec fn on_ground(self, b: u8) -> Terminal {
        if b == 0x1b {
            self.now(Mode::Escape)
        } else if 0xc0 <= b < 0xe0 {
            self.now(Mode::Utf8(1))
        } else if 0xe0 <= b < 0xf0 {
            self.now(Mode::Utf8(2))
        } else if 0xf0 <= b < 0xf8 {
            self.now(Mode::Utf8(3))
        } else {
            self.now(Mode::Ground)
        }
    }

    /// The byte behind an `ESC`.
    pub open spec fn on_escape(self, b: u8) -> Terminal {
        if b == 0x5b {
            self.now(Mode::Csi(Some(Seq::empty())))
        } else if b == 0x5d {
            self.now(Mode::Osc)
        } else if b == 0x50 || b == 0x58 || b == 0x5e || b == 0x5f {
            self.now(Mode::Text)
        } else if b == 0x1b {
            self.now(Mode::Escape)
        } else if 0x20 <= b <= 0x2f {
            self.now(Mode::Intermediate)
        } else if b == 0x37 {
            Terminal { mode: Mode::Ground, saved: one_more(self.saved), ..self }
        } else if b == 0x38 {
            Terminal { mode: Mode::Ground, saved: one_fewer(self.saved), ..self }
        } else {
            self.now(Mode::Ground)
        }
    }

    /// The final byte of a CSI: a synchronized update begins or ends, or nothing does.
    pub open spec fn on_final(self, params: Option<Seq<u8>>, b: u8) -> Terminal {
        if (b == 0x68 || b == 0x6c) && params is Some && names_sync(params->0) {
            Terminal {
                mode: Mode::Ground,
                seen_sync: true,
                sync: if b == 0x68 {
                    one_more(self.sync)
                } else {
                    one_fewer(self.sync)
                },
                ..self
            }
        } else {
            self.now(Mode::Ground)
        }
    }

    /// One byte written to the terminal.
    pub open spec fn on_byte(self, b: u8) -> Terminal {
        match self.mode {
            Mode::Ground => self.on_ground(b),
            Mode::Utf8(owed) => if 0x80 <= b <= 0xbf {
                if owed <= 1 {
                    self.now(Mode::Ground)
                } else {
                    self.now(Mode::Utf8((owed - 1) as u8))
                }
            } else {
                self.on_ground(b)
            },
            Mode::Escape => self.on_escape(b),
            Mode::Intermediate => if 0x20 <= b <= 0x2f {
                self
            } else if b == 0x1b {
                self.now(Mode::Escape)
            } else {
                self.now(Mode::Ground)
            },
            Mode::Csi(params) => if 0x40 <= b <= 0x7e {
                self.on_final(params, b)
            } else if b == 0x1b {
                self.now(Mode::Escape)
            } else if b == 0x18 || b == 0x1a {
                self.now(Mode::Ground)
            } else if 0x20 <= b <= 0x3f {
                self.now(
                    Mode::Csi(
                        match params {
                            Some(p) => if p.len() < PARAMS {
                                Some(p.push(b))
                            } else {
                                None
                            },
                            None => None,
                        },
                    ),
                )
            } else {
                self
            },
            Mode::Osc => if b == 0x07 || b == 0x18 || b == 0x1a {
                self.now(Mode::Ground)
            } else if b == 0x1b {
                self.now(Mode::TextEscape)
            } else {
                self
            },
            Mode::Text => if b == 0x18 || b == 0x1a {
                self.now(Mode::Ground)
            } else if b == 0x1b {
                self.now(Mode::TextEscape)
            } else {
                self
            },
            Mode::TextEscape => if b == 0x5c {
                self.now(Mode::Ground)
            } else {
                self.on_escape(b)
            },
        }
    }

    /// These bytes written to the terminal, one after the other.
    pub open spec fn fed(self, bytes: Seq<u8>) -> Terminal
        decreases bytes.len(),
    {
        if bytes.len() == 0 {
            self
        } else {
            self.fed(bytes.drop_last()).on_byte(bytes.last())
        }
    }

    /// The most of these bytes that can be written and leave nothing half read.
    pub open spec fn rest_point(self, bytes: Seq<u8>) -> int
        decreases bytes.len(),
    {
        if bytes.len() == 0 {
            0
        } else if self.fed(bytes).mode is Ground {
            bytes.len() as int
        } else {
            self.rest_point(bytes.drop_last())
        }
    }

    /// The last of these bytes ends the session's frame, the one update it has open, with a
    /// sequence that is all among them: one whose beginning the terminal has already read is
    /// no close to stop in front of.
    pub open spec fn closes(self, bytes: Seq<u8>) -> bool {
        &&& bytes.len() > 0
        &&& self.fed(bytes.drop_last()).sync == 1
        &&& self.fed(bytes).sync == 0
        &&& self.fed(bytes).mode is Ground
        &&& self.fed(bytes.take(self.rest_point(bytes.drop_last()))).mode is Ground
    }

    /// Where the first sequence among these bytes that closes a frame begins and ends.
    pub open spec fn first_close(self, bytes: Seq<u8>) -> Option<(int, int)>
        decreases bytes.len(),
    {
        if bytes.len() == 0 {
            None
        } else {
            match self.first_close(bytes.drop_last()) {
                Some(close) => Some(close),
                None => if self.closes(bytes) {
                    Some((self.rest_point(bytes.drop_last()), bytes.len() as int))
                } else {
                    None
                },
            }
        }
    }

    /// Whether a write of the caller's own would land beside what the session wrote rather
    /// than inside it, with nothing the session opened still open.
    pub open spec fn at_rest(self) -> bool {
        self.mode is Ground && self.sync == 0 && self.saved == 0
    }
}

/// Writing some bytes and then some more is writing them all: where a read cuts the stream
/// makes no difference.
pub proof fn law_fed_in_pieces(t: Terminal, a: Seq<u8>, b: Seq<u8>)
    ensures
        t.fed(a + b) == t.fed(a).fed(b),
    decreases b.len(),
{
    if b.len() == 0 {
        assert(a + b =~= a);
    } else {
        law_fed_in_pieces(t, a, b.drop_last());
        assert((a + b).drop_last() =~= a + b.drop_last());
    }
}

/// The rest point is inside the bytes and, unless nothing was handed out, a place where
/// nothing is half read; what is open there is still open at the end.
pub proof fn lemma_rest_point(t: Terminal, bytes: Seq<u8>)
    ensures
        0 <= t.rest_point(bytes) <= bytes.len(),
        t.rest_point(bytes) > 0 ==> t.fed(bytes.take(t.rest_point(bytes))).mode is Ground,
        t.fed(bytes.take(t.rest_point(bytes))).sync == t.fed(bytes).sync,
        t.fed(bytes.take(t.rest_point(bytes))).saved == t.fed(bytes).saved,
        t.fed(bytes.take(t.rest_point(bytes))).seen_sync == t.fed(bytes).seen_sync,
        forall|k: int|
            t.rest_point(bytes) < k <= bytes.len() ==> !(t.fed(#[trigger] bytes.take(k)).mode is Ground),
    decreases bytes.len(),
{
    assert(bytes.take(bytes.len() as int) =~= bytes);
    if bytes.len() == 0 {
    } else if t.fed(bytes).mode is Ground {
    } else {
        let shorter = bytes.drop_last();
        lemma_rest_point(t, shorter);
        let at = t.rest_point(shorter);
        assert(shorter.take(at) =~= bytes.take(at));
        assert forall|k: int| at < k <= bytes.len() implies !(t.fed(#[trigger] bytes.take(k)).mode
            is Ground) by {
            if k < bytes.len() {
                assert(shorter.take(k) =~= bytes.take(k));
            }
        }
    }
}

/// The session has used synchronized updates once it has closed one.
proof fn lemma_close(t: Terminal, bytes: Seq<u8>)
    ensures
        t.first_close(bytes) matches Some((starts, ends)) ==> {
            &&& 0 <= starts < ends <= bytes.len()
            &&& t.closes(bytes.take(ends))
            &&& starts == t.rest_point(bytes.take(ends - 1))
            &&& t.fed(bytes).seen_sync
        },
    decreases bytes.len(),
{
    if bytes.len() > 0 {
        let shorter = bytes.drop_last();
        lemma_close(t, shorter);
        assert(bytes.take(bytes.len() as int) =~= bytes);
        assert(bytes.take(bytes.len() - 1) =~= shorter);
        if let Some((starts, ends)) = t.first_close(shorter) {
            assert(shorter.take(ends) =~= bytes.take(ends));
            assert(shorter.take(ends - 1) =~= bytes.take(ends - 1));
        } else {
            lemma_rest_point(t, shorter);
        }
    }
}

/// What the parser is in the middle of.
#[derive(Debug, Clone, Copy, PartialEq, Eq, Structural)]
enum State {
    Ground,
    Utf8,
    Escape,
    Intermediate,
    Csi,
    Osc,
    Text,
    TextEscape,
}

/// Where the terminal's parser stands.
#[derive(Debug, Clone, Copy)]
struct Decoder {
    state: State,
    /// Continuation bytes a UTF-8 character still owes.
    owed: u8,
    params: [u8; 32],
    /// How much of `params` is filled, or one past all of it once it has overflowed and
    /// the sequence can no longer be the one that matters.
    used: usize,
    sync: u32,
    seen_sync: bool,
    saved: u32,
}

/// Where a scan of some bytes got to, and what it passed on the way.
#[derive(Debug, Clone, Copy)]
struct Scan {
    /// Index just past the last byte that ends a sequence.
    rest: usize,
    /// The two counters as they stood there.
    counters: (u32, u32),
    /// The session's first frame close, if it made one.
    close: Option<Close>,
    /// Whether the session has ever bracketed a frame, this scan included.
    brackets: bool,
}

/// A synchronized update of the session's, ending.
#[derive(Debug, Clone, Copy)]
struct Close {
    /// Index of the first byte of the closing sequence.
    starts: usize,
    /// Index just past its last byte.
    ends: usize,
    /// The counters as they stood in front of it.
    counters: (u32, u32),
}

impl View for Decoder {
    type V = Terminal;

    closed spec fn view(&self) -> Terminal {
        Terminal {
            mode: match self.state {
                State::Ground => Mode::Ground,
                State::Utf8 => Mode::Utf8(self.owed),
                State::Escape => Mode::Escape,
                State::Intermediate => Mode::Intermediate,
                State::Csi => Mode::Csi(
                    if self.used <= PARAMS {
                        Some(self.params@.take(self.used as int))
                    } else {
                        None
                    },
                ),
                State::Osc => Mode::Osc,
                State::Text => Mode::Text,
                State::TextEscape => Mode::TextEscape,
            },
            sync: self.sync,
            seen_sync: self.seen_sync,
            saved: self.saved,
        }
    }
}

impl Decoder {
    /// The parser of a terminal as it starts.
    fn start() -> (r: Decoder)
        ensures
            r@ == Terminal::start(),
    {
        Decoder {
            state: State::Ground,
            owed: 0,
            params: [0; 32],
            used: 0,
            sync: 0,
            seen_sync: false,
            saved: 0,
        }
    }

    /// Watch these bytes go to the terminal.
    fn feed(&mut self, bytes: &[u8])
        ensures
            final(self)@ == old(self)@.fed(bytes@),
    {
        let ghost first = self@;
        let mut i: usize = 0;
        while i < bytes.len()
            invariant
                i <= bytes@.len(),
                self@ == first.fed(bytes@.take(i as int)),
            decreases bytes@.len() - i,
        {
            assert(bytes@.take(i + 1).drop_last() =~= bytes@.take(i as int));
            self.byte(bytes[i]);
            i += 1;
        }
        assert(bytes@.take(i as int) =~= bytes@);
    }

    /// Run over `bytes` without moving, and say where the interesting places in them are.
    fn scan(&self, bytes: &[u8]) -> (r: Scan)
        ensures
            r.rest == self@.rest_point(bytes@),
            r.counters == (self@.fed(bytes@).sync, self@.fed(bytes@).saved),
            r.brackets == self@.fed(bytes@).seen_sync,
            match r.close {
                Some(close) => {
                    &&& self@.first_close(bytes@) == Some((close.starts as int, close.ends as int))
                    &&& close.counters == (1u32, self@.fed(bytes@.take(close.ends as int)).saved)
                },
                None => self@.first_close(bytes@) is None,
            },
    {
        let mut scan: Decoder = *self;
        let mut rest: usize = 0;
        let mut counters: (u32, u32) = (self.sync, self.saved);
        let mut close: Option<Close> = None;
        // Where the sequence being read began, so a close can be cut in front of.
        let mut started: usize = 0;
        let mut i: usize = 0;
        while i < bytes.len()
            invariant
                i <= bytes@.len(),
                scan@ == self@.fed(bytes@.take(i as int)),
                rest == self@.rest_point(bytes@.take(i as int)),
                rest <= i,
                self.seen_sync ==> scan.seen_sync,
                counters == (scan@.sync, scan@.saved),
                i > 0 ==> started == self@.rest_point(bytes@.take(i - 1)),
                i == 0 ==> started == 0,
                match close {
                    Some(close) => {
                        &&& self@.first_close(bytes@.take(i as int)) == Some(
                            (close.starts as int, close.ends as int),
                        )
                        &&& close.ends <= i
                        &&& close.counters == (
                            1u32,
                            self@.fed(bytes@.take(close.ends as int)).saved,
                        )
                    },
                    None => self@.first_close(bytes@.take(i as int)) is None,
                },
            decreases bytes@.len() - i,
        {
            let ghost so_far = bytes@.take(i as int);
            let ghost longer = bytes@.take(i + 1);
            assert(longer.drop_last() =~= so_far);
            proof {
                lemma_rest_point(self@, so_far);
                assert(so_far.take(so_far.len() as int) =~= so_far);
                assert(i > 0 ==> so_far.drop_last() =~= bytes@.take(i - 1));
            }
            let was_ground: bool = scan.at_sequence_boundary();
            let inside_a_frame: u32 = scan.sync;
            scan.byte(bytes[i]);
            if was_ground {
                started = i;
            }
            if scan.at_sequence_boundary() {
                rest = i + 1;
                // A sequence that was begun before these bytes is no close to stop in front of.
                let whole: bool = started > 0 || self.at_sequence_boundary();
                assert(so_far.take(started as int) =~= longer.take(started as int));
                assert(longer.take(0) =~= Seq::<u8>::empty());
                if whole && inside_a_frame == 1 && scan.sync == 0 && close.is_none() {
                    close = Some(
                        Close {
                            starts: started,
                            ends: i + 1,
                            counters: (inside_a_frame, scan.saved),
                        },
                    );
                }
            }
            counters = (scan.sync, scan.saved);
            i += 1;
        }
        assert(bytes@.take(i as int) =~= bytes@);
        Scan { rest, counters, close, brackets: self.seen_sync || scan.seen_sync }
    }

    /// Whether the next byte would start something new: where the stream may be cut.
    fn at_sequence_boundary(&self) -> (r: bool)
        ensures
            r == (self@.mode is Ground),
    {
        self.state == State::Ground
    }

    /// Where something may be written: between sequences, and with nothing the session
    /// opened still open.
    fn at_rest(&self) -> (r: bool)
        ensures
            r == self@.at_rest(),
    {
        self.at_sequence_boundary() && self.sync == 0 && self.saved == 0
    }

    fn byte(&mut self, byte: u8)
        ensures
            final(self)@ == old(self)@.on_byte(byte),
    {
        match self.state {
            State::Ground => self.ground(byte),
            State::Utf8 => {
                if 0x80 <= byte && byte <= 0xbf {
                    self.owed = self.owed.saturating_sub(1);
                    if self.owed == 0 {
                        self.state = State::Ground;
                    }
                } else {
                    // Not the continuation it was promised: the character is malformed and
                    // this byte starts something of its own.
                    self.state = State::Ground;
                    self.ground(byte);
                }
            },
            State::Escape => self.escape(byte),
            State::Intermediate => {
                if byte == 0x1b {
                    self.state = State::Escape;
                } else if !(0x20 <= byte && byte <= 0x2f) {
                    self.state = State::Ground;
                }
            },
            State::Csi => {
                if 0x40 <= byte && byte <= 0x7e {
                    self.csi_final(byte);
                    self.state = State::Ground;
                } else if byte == 0x1b {
                    self.state = State::Escape;
                } else if byte == 0x18 || byte == 0x1a {
                    self.state = State::Ground;
                } else if 0x20 <= byte && byte <= 0x3f {
                    self.parameter(byte);
                }
            },
            State::Osc | State::Text => {
                if byte == 0x07 && self.state == State::Osc {
                    self.state = State::Ground;
                } else if byte == 0x1b {
                    self.state = State::TextEscape;
                } else if byte == 0x18 || byte == 0x1a {
                    self.state = State::Ground;
                }
            },
            State::TextEscape => {
                if byte == 0x5c {
                    self.state = State::Ground;
                } else {
                    // The `ESC` was the start of something new, and the string ended where
                    // it stood.
                    self.escape(byte);
                }
            },
        }
    }

    fn ground(&mut self, byte: u8)
        requires
            old(self).state == State::Ground,
        ensures
            final(self)@ == old(self)@.on_ground(byte),
    {
        if byte == 0x1b {
            self.state = State::Escape;
        } else if 0xc0 <= byte && byte <= 0xf7 {
            self.owed = if byte < 0xe0 {
                1
            } else if byte < 0xf0 {
                2
            } else {
                3
            };
            self.state = State::Utf8;
        }
    }

    fn escape(&mut self, byte: u8)
        ensures
            final(self)@ == old(self)@.on_escape(byte),
    {
        if byte == 0x5b {
            self.used = 0;
            self.state = State::Csi;
            assert(self.params@.take(0) =~= Seq::<u8>::empty());
        } else if byte == 0x5d {
            self.state = State::Osc;
        } else if byte == 0x50 || byte == 0x58 || byte == 0x5e || byte == 0x5f {
            self.state = State::Text;
        } else if byte == 0x1b {
            self.state = State::Escape;
        } else if 0x20 <= byte && byte <= 0x2f {
            self.state = State::Intermediate;
        } else {
            if byte == 0x37 {
                self.saved = self.saved.saturating_add(1);
            } else if byte == 0x38 {
                self.saved = self.saved.saturating_sub(1);
            }
            self.state = State::Ground;
        }
    }

    fn parameter(&mut self, byte: u8)
        requires
            old(self).state == State::Csi,
        ensures
            final(self)@ == old(self)@.on_byte(byte) || !(0x20 <= byte <= 0x3f),
    {
        if self.used < PARAMS {
            let ghost before = self.params@.take(self.used as int);
            let at: usize = self.used;
            self.params[at] = byte;
            self.used = at + 1;
            assert(self.params@.take(self.used as int) =~= before.push(byte));
        } else {
            self.used = PARAMS + 1;
        }
    }

    /// A CSI has ended. The only one worth recognising is the synchronized update.
    fn csi_final(&mut self, byte: u8)
        requires
            old(self).state == State::Csi,
        ensures
            final(self)@.now(Mode::Ground) == old(self)@.on_final(old(self)@.mode->Csi_0, byte),
    {
        if byte != 0x68 && byte != 0x6c {
            return ;
        }
        if self.used > PARAMS {
            return ;
        }
        let all: &[u8] = vstd::array::array_as_slice(&self.params);
        let params: &[u8] = vstd::slice::slice_subrange(all, 0, self.used);
        assert(params@ =~= self.params@.take(self.used as int));
        if params.len() == 0 || params[0] != 0x3f {
            return ;
        }
        let mode: [u8; 4] = [0x32, 0x30, 0x32, 0x36];
        assert(mode@ =~= seq![0x32u8, 0x30, 0x32, 0x36]);
        if names(params, 0x3b, vstd::array::array_as_slice(&mode), 1) {
            self.seen_sync = true;
            self.sync = if byte == 0x68 {
                self.sync.saturating_add(1)
            } else {
                self.sync.saturating_sub(1)
            };
        }
    }
}

/// A terminal, and the tail of the session's output that is kept back from it.
#[verifier::ext_equal]
pub struct Held {
    pub terminal: Terminal,
    /// The tail, waiting for the bytes that finish it.
    pub kept: Seq<u8>,
    /// When the oldest kept byte was kept.
    pub since: Option<Instant>,
    /// The length of the session's frame close, while it is held at the front of `kept`.
    pub closing: Option<int>,
}

impl Held {
    /// Something is kept exactly while there is a moment it has been kept since, and a held
    /// close is at the front of it.
    pub open spec fn wf(self) -> bool {
        &&& self.since is Some <==> self.kept.len() > 0
        &&& self.closing matches Some(n) ==> 0 < n <= self.kept.len()
    }

    /// The tail has waited long enough, or grown large enough, to go out unfinished.
    pub open spec fn out_of_patience(self, now: Instant) -> bool {
        self.kept.len() >= KEPT_MAX || (self.since matches Some(since) && passed(now, since)
            >= KEPT_FOR)
    }

    /// A write of the caller's own would land beside what the session wrote: nothing of the
    /// session's is open, or the terminal stands in front of the close of its frame.
    pub open spec fn between(self) -> bool {
        self.terminal.at_rest() || (self.closing is Some && self.terminal.mode is Ground)
    }

    /// What is left once the first `cut` of these bytes have gone out.
    pub open spec fn cut(
        self,
        all: Seq<u8>,
        cut: int,
        terminal: Terminal,
        closing: Option<int>,
        now: Instant,
    ) -> Held {
        Held {
            terminal,
            kept: all.skip(cut),
            since: if cut == all.len() {
                None
            } else if self.since is Some {
                self.since
            } else {
                Some(now)
            },
            closing,
        }
    }

    /// What becomes of it when `chunk` has been read at `now`, and how much of what was kept
    /// and what was read goes out: everything in front of the session's first frame close;
    /// with no close and no patience left, everything; and otherwise everything up to the
    /// last point that leaves nothing half read.
    pub open spec fn relayed(self, chunk: Seq<u8>, now: Instant) -> (Held, int) {
        let all = self.kept + chunk;
        let t = self.terminal;
        match t.first_close(all) {
            Some((starts, ends)) => {
                let stands = if starts == 0 {
                    t
                } else {
                    Terminal { seen_sync: true, ..t.fed(all.take(starts)) }
                };
                (self.cut(all, starts, stands, Some(ends - starts), now), starts)
            },
            None => if (Held { kept: all, ..self }).out_of_patience(now) {
                (self.cut(all, all.len() as int, t.fed(all), None, now), all.len() as int)
            } else {
                let rest = t.rest_point(all);
                (self.cut(all, rest, t.fed(all.take(rest)), None, now), rest)
            },
        }
    }

    /// The held close goes out.
    pub open spec fn released(self) -> (Held, int) {
        match self.closing {
            Some(n) => (
                Held {
                    terminal: self.terminal.fed(self.kept.take(n)),
                    kept: self.kept.skip(n),
                    since: if n == self.kept.len() {
                        None
                    } else {
                        self.since
                    },
                    closing: None,
                },
                n,
            ),
            None => (self, 0),
        }
    }
}

impl Held {
    /// When the kept tail goes out whether or not the rest of it has arrived. Nothing is waited
    /// for while a frame close is held.
    pub open spec fn due(self) -> Option<Instant> {
        match (self.closing, self.since) {
            (None, Some(since)) => Some(later(since, KEPT_FOR)),
            _ => None,
        }
    }
}

/// The terminal's own parser as far as anything has been written to it, and the tail of the
/// session's output kept back so that it is never left in the middle of a sequence.
///
/// Every byte written to the terminal while one of these exists is shown to it exactly
/// once, and said whose it is: [`Boundary::relay`] hands back the session's after taking
/// account of them, [`Boundary::saw_session`] takes the session's that went out by another
/// route, and [`Boundary::saw_own`] takes the caller's.
#[derive(Debug)]
pub struct Boundary {
    parser: Decoder,
    kept: Vec<u8>,
    since: Option<Instant>,
    closing: Option<usize>,
}

impl View for Boundary {
    type V = Held;

    closed spec fn view(&self) -> Held {
        Held {
            terminal: self.parser@,
            kept: self.kept@,
            since: self.since,
            closing: match self.closing {
                Some(n) => Some(n as int),
                None => None,
            },
        }
    }
}

impl Default for Boundary {
    fn default() -> (r: Self)
        ensures
            r@.wf(),
            r@ == (Held {
                terminal: Terminal::start(),
                kept: Seq::empty(),
                since: None,
                closing: None,
            }),
    {
        Self::new()
    }
}

impl Boundary {
    /// A terminal between sequences, with nothing kept back.
    pub fn new() -> (r: Self)
        ensures
            r@.wf(),
            r@ == (Held {
                terminal: Terminal::start(),
                kept: Seq::empty(),
                since: None,
                closing: None,
            }),
    {
        Self { parser: Decoder::start(), kept: Vec::new(), since: None, closing: None }
    }

    /// What may go to the terminal now, given that `chunk` has just been read.
    ///
    /// A frame close is taken ahead of the patience test: a session closing a frame has
    /// said the one thing patience is waiting to hear.
    pub fn relay(&mut self, chunk: &[u8], now: Instant) -> (ready: Vec<u8>)
        requires
            old(self)@.wf(),
        ensures
            final(self)@.wf(),
            final(self)@ == old(self)@.relayed(chunk@, now).0,
            ready@ == (old(self)@.kept + chunk@).take(old(self)@.relayed(chunk@, now).1),
            final(self)@.closing is Some ==> final(self)@.terminal.mode is Ground,
    {
        let ghost first = self@;
        extend(&mut self.kept, chunk);
        let ghost all = self.kept@;
        self.closing = None;
        let scan: Scan = self.parser.scan(&self.kept);
        proof {
            lemma_rest_point(first.terminal, all);
            lemma_close(first.terminal, all);
        }
        let cut: usize = if let Some(close) = scan.close {
            proof {
                let front = all.take(close.ends - 1);
                lemma_rest_point(first.terminal, front);
                assert(front.take(close.starts as int) =~= all.take(close.starts as int));
                assert(all.take(close.ends as int).drop_last() =~= front);
                lemma_close_keeps_saved(first.terminal, all.take(close.ends as int));
            }
            self.parser.take(close.starts, close.counters, scan.brackets);
            self.closing = Some(close.ends - close.starts);
            close.starts
        } else if self.out_of_patience(now) {
            self.parser.feed(&self.kept);
            assert(all.skip(all.len() as int) =~= Seq::<u8>::empty());
            self.kept.len()
        } else {
            self.parser.take(scan.rest, scan.counters, scan.brackets);
            scan.rest
        };
        assert(cut == 0 ==> all.take(0) =~= Seq::<u8>::empty());
        let tail: Vec<u8> = self.kept.split_off(cut);
        let mut ready: Vec<u8> = tail;
        core::mem::swap(&mut ready, &mut self.kept);
        assert(self.kept@ =~= all.skip(cut as int));
        assert(ready@ =~= all.take(cut as int));
        self.since = if self.kept.len() == 0 {
            None
        } else if self.since.is_some() {
            self.since
        } else {
            Some(now)
        };
        ready
    }

    /// Whether what is kept back begins with the session's own frame close, which is the
    /// moment a notice belongs in: written in front of the close, it is part of the frame
    /// the terminal is about to present.
    pub fn holding_the_sessions_close(&self) -> (r: bool)
        ensures
            r == (self@.closing is Some),
    {
        self.closing.is_some()
    }

    /// The session's frame close, to write once the notice is in front of it.
    pub fn release_the_sessions_close(&mut self) -> (close: Vec<u8>)
        requires
            old(self)@.wf(),
        ensures
            final(self)@.wf(),
            final(self)@ == old(self)@.released().0,
            close@ == old(self)@.kept.take(old(self)@.released().1),
    {
        let ghost first = self@;
        let len: usize = match self.closing {
            Some(len) => len,
            None => {
                assert(self.kept@.take(0) =~= Seq::<u8>::empty());
                return Vec::new();
            },
        };
        self.closing = None;
        let tail: Vec<u8> = self.kept.split_off(len);
        let mut close: Vec<u8> = tail;
        core::mem::swap(&mut close, &mut self.kept);
        assert(self.kept@ =~= first.kept.skip(len as int));
        assert(close@ =~= first.kept.take(len as int));
        self.parser.feed(&close);
        if self.kept.len() == 0 {
            self.since = None;
        }
        close
    }

    /// Bytes of the session's that reached the terminal by some route other than
    /// [`Boundary::relay`].
    pub fn saw_session(&mut self, bytes: &[u8])
        ensures
            final(self)@ == (Held { terminal: old(self)@.terminal.fed(bytes@), ..old(self)@ }),
    {
        self.parser.feed(bytes);
    }

    /// Bytes the caller wrote over the session itself. They move the parser, and say
    /// nothing of whether the session brackets its own frames.
    pub fn saw_own(&mut self, bytes: &[u8])
        ensures
            final(self)@ == (Held {
                terminal: Terminal {
                    seen_sync: old(self)@.terminal.seen_sync,
                    ..old(self)@.terminal.fed(bytes@)
                },
                ..old(self)@
            }),
    {
        let session_syncs: bool = self.parser.seen_sync;
        self.parser.feed(bytes);
        self.parser.seen_sync = session_syncs;
    }

    /// Whether the terminal is half way through reading a character or an escape sequence.
    pub fn mid_sequence(&self) -> (r: bool)
        ensures
            r == !(self@.terminal.mode is Ground),
    {
        !self.parser.at_sequence_boundary()
    }

    /// Whether a write of the caller's own would land beside one of the session's rather
    /// than inside it, a held frame close included.
    pub fn between_sequences(&self) -> (r: bool)
        ensures
            r == self@.between(),
    {
        self.parser.at_rest() || (self.holding_the_sessions_close()
            && self.parser.at_sequence_boundary())
    }

    /// Whether the session has ever bracketed anything in a synchronized update of its own.
    pub fn session_brackets_its_own_frames(&self) -> (r: bool)
        ensures
            r == self@.terminal.seen_sync,
    {
        self.parser.seen_sync
    }

    /// When the kept tail goes out whether or not the rest of it has arrived. Nothing is
    /// waited for while a frame close is held.
    pub fn due(&self) -> (r: Option<Instant>)
        ensures
            r == self@.due(),
    {
        if self.holding_the_sessions_close() {
            return None;
        }
        match self.since {
            Some(since) => Some(after(since, KEPT_FOR)),
            None => None,
        }
    }

    /// Everything kept back, complete or not. A held frame close goes out in that, so the
    /// hold on it is dropped too.
    pub fn give_up(&mut self) -> (all: Vec<u8>)
        ensures
            all@ == old(self)@.kept,
            final(self)@ == (Held {
                terminal: old(self)@.terminal.fed(old(self)@.kept),
                kept: Seq::empty(),
                since: None,
                closing: None,
            }),
    {
        self.parser.feed(&self.kept);
        self.since = None;
        self.closing = None;
        let mut all: Vec<u8> = Vec::new();
        core::mem::swap(&mut all, &mut self.kept);
        all
    }

    /// Whether the tail has waited long enough, or grown large enough, to go out unfinished.
    fn out_of_patience(&self, now: Instant) -> (r: bool)
        ensures
            r == self@.out_of_patience(now),
    {
        if self.kept.len() >= KEPT_MAX {
            return true;
        }
        match self.since {
            Some(since) => elapsed(now, since) >= KEPT_FOR,
            None => false,
        }
    }
}

impl Decoder {
    /// Move to `at`, a point where nothing is half read, with what is open there.
    fn take(&mut self, at: usize, counters: (u32, u32), brackets: bool)
        ensures
            final(self)@ == if at == 0 {
                old(self)@
            } else {
                Terminal {
                    mode: Mode::Ground,
                    sync: counters.0,
                    saved: counters.1,
                    seen_sync: brackets,
                }
            },
    {
        if at == 0 {
            return ;
        }
        let mut next: Decoder = Decoder::start();
        next.sync = counters.0;
        next.saved = counters.1;
        next.seen_sync = brackets;
        *self = next;
    }
}

/// The byte that closes a frame takes back no saved cursor.
proof fn lemma_close_keeps_saved(t: Terminal, bytes: Seq<u8>)
    requires
        t.closes(bytes),
    ensures
        t.fed(bytes).saved == t.fed(bytes.drop_last()).saved,
{
}

/// Nothing is dropped, reordered or changed: what goes out and what is kept is what was
/// kept and what came in.
pub proof fn law_relay_loses_nothing(h: Held, chunk: Seq<u8>, now: Instant)
    ensures
        (h.kept + chunk).take(h.relayed(chunk, now).1) + h.relayed(chunk, now).0.kept == h.kept
            + chunk,
        h.wf() ==> h.kept.take(h.released().1) + h.released().0.kept == h.kept,
{
    let all = h.kept + chunk;
    lemma_rest_point(h.terminal, all);
    lemma_close(h.terminal, all);
    assert(all.take(h.relayed(chunk, now).1) + h.relayed(chunk, now).0.kept =~= all);
    assert(h.wf() ==> h.kept.take(h.released().1) + h.released().0.kept =~= h.kept);
}

/// What has gone out is what the terminal has read: the parser stands where those bytes
/// leave it. (Whether the session brackets its frames may be known ahead of them.)
pub proof fn law_parser_follows_what_went_out(h: Held, chunk: Seq<u8>, now: Instant)
    ensures
        ({
            let (next, cut) = h.relayed(chunk, now);
            let fed = h.terminal.fed((h.kept + chunk).take(cut));
            &&& next.terminal == (Terminal { seen_sync: next.terminal.seen_sync, ..fed })
            &&& fed.seen_sync ==> next.terminal.seen_sync
        }),
{
    let all = h.kept + chunk;
    lemma_rest_point(h.terminal, all);
    lemma_close(h.terminal, all);
    assert(all.take(0) =~= Seq::<u8>::empty());
    assert(all.take(all.len() as int) =~= all);
}

/// While there is patience left, the terminal is never left in the middle of a sequence:
/// either nothing went out, or it ended between two.
pub proof fn law_writes_end_between_sequences(h: Held, chunk: Seq<u8>, now: Instant)
    requires
        !(Held { kept: h.kept + chunk, ..h }).out_of_patience(now) || h.terminal.first_close(
            h.kept + chunk,
        ) is Some,
    ensures
        h.relayed(chunk, now).1 == 0 || h.relayed(chunk, now).0.terminal.mode is Ground,
{
    let all = h.kept + chunk;
    lemma_rest_point(h.terminal, all);
    lemma_close(h.terminal, all);
    if let Some((starts, ends)) = h.terminal.first_close(all) {
        let front = all.take(ends - 1);
        lemma_rest_point(h.terminal, front);
        assert(front.take(starts) =~= all.take(starts));
    }
}

/// A write offered to the caller is never offered in the middle of a sequence.
pub proof fn law_between_is_never_inside_a_sequence(h: Held)
    ensures
        h.between() ==> h.terminal.mode is Ground,
{
}

/// Whether the session is known to bracket its frames changes nothing else that is read.
proof fn lemma_brackets_change_nothing_else(t: Terminal, bytes: Seq<u8>)
    ensures
        (Terminal { seen_sync: true, ..t }).fed(bytes) == (Terminal {
            seen_sync: true,
            ..t.fed(bytes)
        }),
    decreases bytes.len(),
{
    if bytes.len() > 0 {
        lemma_brackets_change_nothing_else(t, bytes.drop_last());
    }
}

/// What is held as the session's frame close is that close, all of it and no more: the terminal
/// stands between sequences inside the session's one open update, and the held bytes are a
/// single sequence that ends it.
pub proof fn law_a_held_close_is_the_whole_close(h: Held, chunk: Seq<u8>, now: Instant)
    ensures
        ({
            let next = h.relayed(chunk, now).0;
            next.closing matches Some(n) ==> {
                &&& 0 < n <= next.kept.len()
                &&& next.terminal.mode is Ground
                &&& next.terminal.sync == 1
                &&& next.terminal.fed(next.kept.take(n)).mode is Ground
                &&& next.terminal.fed(next.kept.take(n)).sync == 0
                &&& forall|k: int|
                    0 < k < n ==> !(next.terminal.fed(#[trigger] next.kept.take(k)).mode is Ground)
                &&& next.between()
            }
        }),
{
    let all = h.kept + chunk;
    let t = h.terminal;
    lemma_close(t, all);
    if let Some((starts, ends)) = t.first_close(all) {
        let next = h.relayed(chunk, now).0;
        let front = all.take(ends - 1);
        let whole = all.take(ends);
        assert(whole.drop_last() =~= front);
        lemma_rest_point(t, front);
        assert(front.take(starts) =~= all.take(starts));
        assert(whole.take(starts) =~= all.take(starts));
        assert(all.take(0) =~= Seq::<u8>::empty());
        let there = t.fed(all.take(starts));
        assert forall|k: int| 0 <= k <= ends - starts implies {
            let read = next.terminal.fed(#[trigger] next.kept.take(k));
            read.mode == t.fed(all.take(starts + k)).mode && read.sync == t.fed(
                all.take(starts + k),
            ).sync
        } by {
            law_fed_in_pieces(t, all.take(starts), next.kept.take(k));
            assert(all.take(starts) + next.kept.take(k) =~= all.take(starts + k));
            lemma_brackets_change_nothing_else(there, next.kept.take(k));
        }
        assert(next.kept.take(0) =~= Seq::<u8>::empty());
        let n = ends - starts;
        assert(next.terminal.fed(next.kept.take(n)).mode == t.fed(whole).mode);
        assert forall|k: int| 0 < k < n implies !(next.terminal.fed(
            #[trigger] next.kept.take(k),
        ).mode is Ground) by {
            assert(front.take(starts + k) =~= all.take(starts + k));
        }
    }
}

/// A tail is never kept past its time or its size: with no close to stop at, a tail that is
/// out of patience goes out whole.
pub proof fn law_patience_runs_out(h: Held, chunk: Seq<u8>, now: Instant)
    requires
        h.terminal.first_close(h.kept + chunk) is None,
        (Held { kept: h.kept + chunk, ..h }).out_of_patience(now),
    ensures
        h.relayed(chunk, now).0.kept == Seq::<u8>::empty(),
        h.relayed(chunk, now).0.since is None,
{
    let all = h.kept + chunk;
    assert(all.skip(all.len() as int) =~= Seq::<u8>::empty());
}

/// Between sequences nothing is remembered but what the session has open: two terminals
/// that agree on that read everything alike from there.
pub proof fn law_rest_forgets_the_past(a: Terminal, b: Terminal, bytes: Seq<u8>)
    requires
        a.mode is Ground,
        b.mode is Ground,
        a.sync == b.sync,
        a.seen_sync == b.seen_sync,
        a.saved == b.saved,
    ensures
        a.fed(bytes) == b.fed(bytes),
{
    assert(a == b);
}

/// Text is never kept back: with no frame close in them, bytes that leave nothing half read go
/// out at once, all of them.
pub proof fn law_what_is_whole_goes_out_at_once(h: Held, chunk: Seq<u8>, now: Instant)
    requires
        h.terminal.first_close(h.kept + chunk) is None,
        h.terminal.fed(h.kept + chunk).mode is Ground,
    ensures
        h.relayed(chunk, now).1 == (h.kept + chunk).len(),
        h.relayed(chunk, now).0.kept == Seq::<u8>::empty(),
        h.relayed(chunk, now).0.closing is None,
{
}

/// Printable ASCII, each character a whole, leaves the terminal as it was.
pub proof fn law_plain_text_opens_nothing(t: Terminal, text: Seq<u8>)
    requires
        t.mode is Ground,
        forall|i: int| 0 <= i < text.len() ==> 0x20 <= #[trigger] text[i] <= 0x7e,
    ensures
        t.fed(text) == t,
    decreases text.len(),
{
    if text.len() > 0 {
        let shorter = text.drop_last();
        assert forall|i: int| 0 <= i < shorter.len() implies 0x20 <= #[trigger] shorter[i]
            <= 0x7e by {
            assert(shorter[i] == text[i]);
        }
        law_plain_text_opens_nothing(t, shorter);
        assert(text.last() == text[text.len() - 1]);
    }
}

proof fn lemma_fed_one(t: Terminal, bytes: Seq<u8>, b: u8)
    ensures
        t.fed(bytes + seq![b]) == t.fed(bytes).on_byte(b),
{
    let all = bytes + seq![b];
    assert(all.drop_last() =~= bytes);
}

proof fn lemma_params_are_kept(t: Terminal, params: Seq<u8>)
    requires
        t.mode is Ground,
        params.len() <= 32,
        forall|i: int| 0 <= i < params.len() ==> 0x20 <= #[trigger] params[i] <= 0x3f,
    ensures
        t.fed(seq![0x1bu8, 0x5b] + params) == t.now(Mode::Csi(Some(params))),
    decreases params.len(),
{
    let head = seq![0x1bu8, 0x5b];
    if params.len() == 0 {
        assert(head + params =~= seq![0x1bu8] + seq![0x5bu8]);
        assert(Seq::<u8>::empty() + seq![0x1bu8] =~= seq![0x1bu8]);
        lemma_fed_one(t, Seq::empty(), 0x1b);
        lemma_fed_one(t, seq![0x1bu8], 0x5b);
        assert(t.fed(Seq::empty()) == t);
        assert(params =~= Seq::<u8>::empty());
    } else {
        let shorter = params.drop_last();
        assert forall|i: int| 0 <= i < shorter.len() implies 0x20 <= #[trigger] shorter[i]
            <= 0x3f by {
            assert(shorter[i] == params[i]);
        }
        lemma_params_are_kept(t, shorter);
        assert(params.last() == params[params.len() - 1]);
        assert(head + params =~= (head + shorter) + seq![params.last()]);
        lemma_fed_one(t, head + shorter, params.last());
        assert(shorter.push(params.last()) =~= params);
    }
}

/// A control sequence is one thing from its escape to its final byte: in the middle of it the
/// terminal is not between sequences, and at its end it is, with nothing opened by any that
/// neither sets nor resets a mode.
pub proof fn law_a_control_sequence_is_one_thing(t: Terminal, params: Seq<u8>, fin: u8)
    requires
        t.mode is Ground,
        params.len() <= 32,
        forall|i: int| 0 <= i < params.len() ==> 0x20 <= #[trigger] params[i] <= 0x3f,
        0x40 <= fin <= 0x7e,
    ensures
        !(t.fed(seq![0x1bu8]).mode is Ground),
        !(t.fed(seq![0x1bu8, 0x5b] + params).mode is Ground),
        t.fed(seq![0x1bu8, 0x5b] + params + seq![fin]).mode is Ground,
        fin != 0x68 && fin != 0x6c ==> t.fed(seq![0x1bu8, 0x5b] + params + seq![fin]) == t,
        t.fed(seq![0x1bu8, 0x5b] + params + seq![fin]).saved == t.saved,
{
    lemma_params_are_kept(t, params);
    lemma_fed_one(t, seq![0x1bu8, 0x5b] + params, fin);
    assert(Seq::<u8>::empty() + seq![0x1bu8] =~= seq![0x1bu8]);
    lemma_fed_one(t, Seq::empty(), 0x1b);
    assert(t.fed(Seq::empty()) == t);
}

/// A synchronized update that begins is one more that is open, and one that ends one fewer; and
/// from there on the session is known to use them.
pub proof fn law_a_synchronized_update_opens_and_closes(t: Terminal)
    requires
        t.mode is Ground,
    ensures
        t.sync < u32::MAX ==> t.fed(seq![0x1bu8, 0x5b, 0x3f, 0x32, 0x30, 0x32, 0x36, 0x68]) == (
        Terminal { sync: (t.sync + 1) as u32, seen_sync: true, ..t }),
        t.sync > 0 ==> t.fed(seq![0x1bu8, 0x5b, 0x3f, 0x32, 0x30, 0x32, 0x36, 0x6c]) == (Terminal {
            sync: (t.sync - 1) as u32,
            seen_sync: true,
            ..t
        }),
        t.sync == 0 ==> t.fed(seq![0x1bu8, 0x5b, 0x3f, 0x32, 0x30, 0x32, 0x36, 0x6c]) == (Terminal {
            seen_sync: true,
            ..t
        }),
{
    let params = seq![0x3fu8, 0x32, 0x30, 0x32, 0x36];
    let head = seq![0x1bu8, 0x5b] + params;
    lemma_params_are_kept(t, params);
    lemma_fed_one(t, head, 0x68);
    lemma_fed_one(t, head, 0x6c);
    assert(head + seq![0x68u8] =~= seq![0x1bu8, 0x5b, 0x3f, 0x32, 0x30, 0x32, 0x36, 0x68]);
    assert(head + seq![0x6cu8] =~= seq![0x1bu8, 0x5b, 0x3f, 0x32, 0x30, 0x32, 0x36, 0x6c]);
    crate::bytes::lemma_first_at(params, 0x3b, 1);
    assert(crate::bytes::first_at(params, 0x3b, 1) == 5) by {
        reveal_with_fuel(crate::bytes::first_at, 6);
    }
    assert(params.subrange(1, 5) =~= seq![0x32u8, 0x30, 0x32, 0x36]);
    assert(names_sync(params));
}

/// A cursor that is saved is one more that is owed back, and one that is restored one fewer; and
/// each is a whole sequence.
pub proof fn law_a_saved_cursor_is_owed_back(t: Terminal)
    requires
        t.mode is Ground,
        t.saved < u32::MAX,
    ensures
        t.fed(seq![0x1bu8, 0x37]) == (Terminal { saved: (t.saved + 1) as u32, ..t }),
        t.fed(seq![0x1bu8, 0x37]).fed(seq![0x1bu8, 0x38]) == t,
        t.saved == 0 ==> t.fed(seq![0x1bu8, 0x38]) == t,
{
    let s = t.fed(seq![0x1bu8, 0x37]);
    lemma_two_bytes(t, 0x1b, 0x37);
    lemma_two_bytes(t, 0x1b, 0x38);
    lemma_two_bytes(s, 0x1b, 0x38);
}

proof fn lemma_two_bytes(t: Terminal, a: u8, b: u8)
    ensures
        t.fed(seq![a]) == t.on_byte(a),
        t.fed(seq![a, b]) == t.on_byte(a).on_byte(b),
{
    assert(t.fed(Seq::empty()) == t);
    assert(Seq::<u8>::empty() + seq![a] =~= seq![a]);
    lemma_fed_one(t, Seq::empty(), a);
    assert(seq![a] + seq![b] =~= seq![a, b]);
    lemma_fed_one(t, seq![a], b);
}

/// A character is whole only with its last byte: its first byte says how many follow, and until
/// they have come the terminal is in the middle of it.
pub proof fn law_a_character_is_whole_with_its_last_byte(t: Terminal, a: u8, b: u8, c: u8, d: u8)
    requires
        t.mode is Ground,
        0x80 <= b <= 0xbf,
        0x80 <= c <= 0xbf,
        0x80 <= d <= 0xbf,
    ensures
        0xc0 <= a <= 0xdf ==> !(t.fed(seq![a]).mode is Ground) && t.fed(seq![a, b]) == t,
        0xe0 <= a <= 0xef ==> !(t.fed(seq![a, b]).mode is Ground) && t.fed(seq![a, b, c]) == t,
        0xf0 <= a <= 0xf7 ==> !(t.fed(seq![a, b, c]).mode is Ground) && t.fed(seq![a, b, c, d])
            == t,
{
    lemma_two_bytes(t, a, b);
    assert(seq![a, b] + seq![c] =~= seq![a, b, c]);
    lemma_fed_one(t, seq![a, b], c);
    assert(seq![a, b, c] + seq![d] =~= seq![a, b, c, d]);
    lemma_fed_one(t, seq![a, b, c], d);
}

/// A command or a control string goes on to its terminator, and nothing in it opens anything: a
/// command ends at a bell or at `ESC \`, a string at `ESC \` alone.
pub proof fn law_a_string_goes_on_to_its_terminator(t: Terminal, text: Seq<u8>)
    requires
        t.mode is Ground,
        forall|i: int| 0 <= i < text.len() ==> 0x20 <= #[trigger] text[i],
    ensures
        !(t.fed(seq![0x1bu8, 0x5d] + text).mode is Ground),
        t.fed(seq![0x1bu8, 0x5d] + text + seq![0x07u8]) == t,
        t.fed(seq![0x1bu8, 0x5d] + text + seq![0x1bu8] + seq![0x5cu8]) == t,
        !(t.fed(seq![0x1bu8, 0x50] + text).mode is Ground),
        !(t.fed(seq![0x1bu8, 0x50] + text + seq![0x07u8]).mode is Ground),
        t.fed(seq![0x1bu8, 0x50] + text + seq![0x1bu8] + seq![0x5cu8]) == t,
{
    lemma_string_goes_on(t, 0x5d, text);
    lemma_string_goes_on(t, 0x50, text);
    let a = seq![0x1bu8, 0x5d] + text;
    let b = seq![0x1bu8, 0x50] + text;
    lemma_fed_one(t, a, 0x07);
    lemma_fed_one(t, a, 0x1b);
    lemma_fed_one(t, a + seq![0x1bu8], 0x5c);
    lemma_fed_one(t, b, 0x07);
    lemma_fed_one(t, b, 0x1b);
    lemma_fed_one(t, b + seq![0x1bu8], 0x5c);
}

proof fn lemma_string_goes_on(t: Terminal, kind: u8, text: Seq<u8>)
    requires
        t.mode is Ground,
        kind == 0x5d || kind == 0x50,
        forall|i: int| 0 <= i < text.len() ==> 0x20 <= #[trigger] text[i],
    ensures
        t.fed(seq![0x1bu8, kind] + text) == t.now(
            if kind == 0x5d {
                Mode::Osc
            } else {
                Mode::Text
            },
        ),
    decreases text.len(),
{
    let head = seq![0x1bu8, kind];
    if text.len() == 0 {
        assert(head + text =~= head);
        lemma_two_bytes(t, 0x1b, kind);
    } else {
        let shorter = text.drop_last();
        assert forall|i: int| 0 <= i < shorter.len() implies 0x20 <= #[trigger] shorter[i] by {
            assert(shorter[i] == text[i]);
        }
        lemma_string_goes_on(t, kind, shorter);
        assert(text.last() == text[text.len() - 1]);
        assert(head + text =~= (head + shorter) + seq![text.last()]);
        lemma_fed_one(t, head + shorter, text.last());
    }
}

/// A session's frame close is held as soon as it is there: wherever one ends among the bytes,
/// nothing from the first one on goes out, and everything in front of it does.
pub proof fn law_the_first_close_is_held(h: Held, chunk: Seq<u8>, now: Instant, end: int)
    requires
        0 < end <= (h.kept + chunk).len(),
        h.terminal.closes((h.kept + chunk).take(end)),
    ensures
        ({
            let (next, cut) = h.relayed(chunk, now);
            &&& next.closing matches Some(n) && cut + n <= end
            &&& next.kept == (h.kept + chunk).skip(cut)
        }),
{
    let all = h.kept + chunk;
    lemma_a_close_is_found(h.terminal, all, end);
    assert(h.relayed(chunk, now).0.kept =~= all.skip(h.relayed(chunk, now).1));
}

proof fn lemma_a_close_is_found(t: Terminal, bytes: Seq<u8>, end: int)
    requires
        0 < end <= bytes.len(),
        t.closes(bytes.take(end)),
    ensures
        t.first_close(bytes) matches Some((starts, ends)) && ends <= end,
    decreases bytes.len(),
{
    if end == bytes.len() {
        assert(bytes.take(end) =~= bytes);
        lemma_close_ends_within(t, bytes.drop_last());
    } else {
        let shorter = bytes.drop_last();
        assert(shorter.take(end) =~= bytes.take(end));
        lemma_a_close_is_found(t, shorter, end);
    }
}

proof fn lemma_close_ends_within(t: Terminal, bytes: Seq<u8>)
    ensures
        t.first_close(bytes) matches Some((starts, ends)) ==> ends <= bytes.len(),
    decreases bytes.len(),
{
    if bytes.len() > 0 {
        lemma_close_ends_within(t, bytes.drop_last());
    }
}

/// What is kept goes out once it is 65536 bytes, or once its oldest byte has been kept for its
/// time, and no sooner.
pub proof fn law_what_is_kept_has_its_time(h: Held, now: Instant)
    ensures
        h.out_of_patience(now) <==> h.kept.len() >= 65536 || (h.since matches Some(since) && now
            >= since && now - since >= 16_000_000),
{
}

/// A held close goes out whole and alone: what follows it stays, and the terminal has read
/// exactly it.
pub proof fn law_a_released_close_is_all_that_goes(h: Held)
    requires
        h.wf(),
    ensures
        h.closing matches Some(n) ==> {
            let (next, out) = h.released();
            &&& out == n
            &&& next.closing is None
            &&& next.kept == h.kept.skip(n)
            &&& next.terminal == h.terminal.fed(h.kept.take(n))
        },
        h.closing is None ==> h.released() == (h, 0int),
{
}

/// A tail is due exactly when its patience runs out: at the moment it says, and not before. With
/// nothing kept, or with a frame close held, nothing is due.
pub proof fn law_a_tail_is_due_when_patience_runs_out(h: Held, now: Instant)
    requires
        h.wf(),
    ensures
        h.kept.len() == 0 ==> h.due() is None,
        h.closing is Some ==> h.due() is None,
        h.closing is None && h.kept.len() > 0 ==> h.due() is Some,
        h.due() is Some && h.kept.len() < 65536 && h.since->0 + 16_000_000 <= u64::MAX ==> (now
            >= h.due()->0 <==> h.out_of_patience(now)),
{
}

/// An escape begins a sequence anew wherever it comes, but in a command or a string, where it
/// may be the first half of the terminator; and a cancel ends what it comes in.
pub proof fn law_an_escape_begins_anew(t: Terminal)
    ensures
        !(t.mode is Osc) && !(t.mode is Text) ==> t.on_byte(0x1b).mode is Escape,
        t.mode is Osc || t.mode is Text ==> t.on_byte(0x1b).mode is TextEscape,
        t.mode is TextEscape ==> t.on_byte(0x5c).mode is Ground,
        t.mode is Csi || t.mode is Osc || t.mode is Text ==> t.on_byte(0x18).mode is Ground
            && t.on_byte(0x1a).mode is Ground,
        t.on_byte(0x1b).sync == t.sync && t.on_byte(0x1b).saved == t.saved,
{
}

/// A terminal starts between sequences with nothing open, and something of the session's is
/// open exactly while an update or a saved cursor is.
pub proof fn law_a_terminal_starts_at_rest(t: Terminal)
    ensures
        Terminal::start().at_rest(),
        !Terminal::start().seen_sync,
        t.at_rest() <==> t.mode is Ground && t.sync == 0 && t.saved == 0,
{
}

} // verus!
