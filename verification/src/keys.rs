//! The `<prefix>` state machine.
//!
//! It sits between the user's terminal and the editor and is the only thing that reads
//! the bytes on their way there. It is pure: timing is the caller's job, through
//! [`Prefix::wait`] and [`Prefix::timeout`].
//!
//! # How the prefix is spelled
//!
//! The prefix is a `Ctrl` chord, and a terminal has three ways of spelling one: the
//! control byte, or one of the escape sequences that [`crate::keyseq`] knows. The machine
//! treats all of them as the same key. An unfinished sequence is held back until the rest
//! arrives or the caller's short [`Wait::Sequence`] passes, and whatever spelled the
//! prefix is what a literal `<prefix>` replays, byte for byte.
//!
//! Not everything that arrives is a keystroke. Release reports and the terminal's replies
//! change nothing and go through as they came, except the release of the prefix itself
//! while its press is still held back: it stays with that press and shares its fate.
//!
//! # Digits
//!
//! `<prefix> 1` through `<prefix> 9` select a session by its number, and a number may run
//! to several digits. A further digit is waited for only where it could still name a live
//! session.

use vstd::prelude::*;

use crate::keyseq::{classified, classify, lemma_other_leaves_one, Sequence, ESC, MAX_LEN};
use crate::text::{
    chars_of, debug_text, lower, lowered, quoted, same, starts, starts_with, to_lower, trim,
    trimmed,
};

verus! {

/// The byte `Ctrl-Space` sends: `NUL`.
pub const CTRL_SPACE: u8 = 0x00;

/// `Ctrl-Space`.
pub const PREFIX: u8 = 0x00;

/// How the prefix is spelled for people.
pub const PREFIX_LABEL: &'static str = "Ctrl-Space";

/// Carriage return, which is what Enter is in raw mode. Ends a number early.
pub const ENTER: u8 = 0x0d;

/// Which way `<prefix> n` and `<prefix> p` step through the session list.
#[derive(Debug, Clone, Copy, PartialEq, Eq, Structural)]
pub enum Direction {
    Next,
    Prev,
}

/// Something the caller must do instead of forwarding bytes.
#[derive(Debug, Clone, Copy, PartialEq, Eq, Structural)]
pub enum Action {
    /// Suspend the relay and show the picker.
    Picker,
    /// Leave the session running and exit.
    Detach,
    /// Create a new session and attach to it.
    Create,
    /// Show the key bindings.
    Help,
    /// Attach to the session with that number.
    Switch(u32),
    /// Attach to the session either side of this one, wrapping at both ends.
    Cycle(Direction),
}

/// One instruction from the machine, in order.
#[derive(Debug, Clone, PartialEq, Eq)]
pub enum Step {
    /// Write these bytes on, verbatim.
    Forward(Vec<u8>),
    /// Do this.
    Act(Action),
}

/// One `<prefix>` command: the byte that selects it, what it does, and how it is described.
#[derive(Debug, Clone, Copy, PartialEq, Eq)]
pub struct Binding {
    /// The byte typed after the prefix. Printable ASCII.
    pub key: u8,
    pub action: Action,
    /// One line, in terms of what happens to the user.
    pub help: &'static str,
    /// The same thing in one lowercase word, for the hint bar.
    pub hint: &'static str,
}

/// Every command, in the order the help screen lists them.
pub open spec fn table() -> Seq<Binding> {
    seq![
        Binding {
            key: 0x20,
            action: Action::Picker,
            help: "back to the picker, session still attached",
            hint: "picker",
        },
        Binding {
            key: 0x64,
            action: Action::Detach,
            help: "detach and exit, session still running",
            hint: "detach",
        },
        Binding {
            key: 0x63,
            action: Action::Create,
            help: "start a new session and attach to it",
            hint: "new",
        },
        Binding {
            key: 0x6e,
            action: Action::Cycle(Direction::Next),
            help: "attach to the next session, wrapping",
            hint: "next",
        },
        Binding {
            key: 0x70,
            action: Action::Cycle(Direction::Prev),
            help: "attach to the previous session, wrapping",
            hint: "prev",
        },
        Binding { key: 0x3f, action: Action::Help, help: "show this help", hint: "help" },
    ]
}

/// Every command, in the order the help screen lists them.
pub fn bindings() -> (r: Vec<Binding>)
    ensures
        r@ == table(),
{
    let rows: Vec<Binding> = vec![
        Binding {
            key: 0x20,
            action: Action::Picker,
            help: "back to the picker, session still attached",
            hint: "picker",
        },
        Binding {
            key: 0x64,
            action: Action::Detach,
            help: "detach and exit, session still running",
            hint: "detach",
        },
        Binding {
            key: 0x63,
            action: Action::Create,
            help: "start a new session and attach to it",
            hint: "new",
        },
        Binding {
            key: 0x6e,
            action: Action::Cycle(Direction::Next),
            help: "attach to the next session, wrapping",
            hint: "next",
        },
        Binding {
            key: 0x70,
            action: Action::Cycle(Direction::Prev),
            help: "attach to the previous session, wrapping",
            hint: "prev",
        },
        Binding { key: 0x3f, action: Action::Help, help: "show this help", hint: "help" },
    ];
    assert(rows@ =~= table());
    rows
}

/// The action of the first row from `i` on whose key this is.
pub open spec fn row_action(rows: Seq<Binding>, byte: u8, i: int) -> Option<Action>
    decreases rows.len() - i,
{
    if i >= rows.len() {
        None
    } else if rows[i].key == byte {
        Some(rows[i].action)
    } else {
        row_action(rows, byte, i + 1)
    }
}

/// The command a second byte selects, if any.
pub open spec fn command_of(byte: u8) -> Option<Action> {
    row_action(table(), byte, 0)
}

/// The command a second byte selects, if any.
pub fn command(byte: u8) -> (r: Option<Action>)
    ensures
        r == command_of(byte),
{
    let rows: Vec<Binding> = bindings();
    let mut i: usize = 0;
    while i < rows.len()
        invariant
            rows@ == table(),
            i <= rows@.len(),
            command_of(byte) == row_action(rows@, byte, i as int),
        decreases rows@.len() - i,
    {
        if rows[i].key == byte {
            return Some(rows[i].action);
        }
        i += 1;
    }
    None
}

/// Where the machine is between keystrokes.
#[derive(Debug, Clone, Copy, PartialEq, Eq, Structural)]
pub enum State {
    /// Ordinary bytes, passing straight through.
    Idle,
    /// A `<prefix>` is held back until what follows it is known.
    Armed,
    /// Digits are accumulating into a session number.
    Number(u32),
}

/// What the caller must put a clock on, if anything.
#[derive(Debug, Clone, Copy, PartialEq, Eq, Structural)]
pub enum Wait {
    /// A lone `<prefix>` or a half-typed number: give the user time to finish it.
    Command,
    /// An escape sequence the last read cut short: give the rest of it a moment to arrive.
    Sequence,
}

/// What the user has half-typed, for something that wants to say so on the screen.
#[derive(Debug, Clone, Copy, PartialEq, Eq, Structural)]
pub enum Pending {
    /// A lone `<prefix>`: the next key picks a command.
    Command,
    /// The digits typed so far, waiting to see whether another follows.
    Number(u32),
}

/// The prefix state machine.
#[derive(Debug)]
pub struct Prefix {
    state: State,
    /// The highest live session number, used only to decide whether a further digit could
    /// still change the answer.
    highest: u32,
    /// The byte that arms the machine.
    prefix: u8,
    /// The bytes that armed the machine and that key's release report if one has arrived
    /// since, replayed verbatim when the prefix turns out to be meant literally. Empty
    /// unless the state is [`State::Armed`].
    armed: Vec<u8>,
    /// An escape sequence still being read, held back until it is complete or clearly
    /// something else; empty between sequences.
    seq: Vec<u8>,
}

/// The machine as a value.
#[verifier::ext_equal]
pub struct Machine {
    pub state: State,
    pub highest: u32,
    pub prefix: u8,
    pub armed: Seq<u8>,
    pub seq: Seq<u8>,
}

/// One thing the machine hands out: a byte to forward, or something to do.
pub enum Token {
    Byte(u8),
    Act(Action),
}

/// These bytes, one token each.
pub open spec fn tokens_of(bytes: Seq<u8>) -> Seq<Token> {
    bytes.map_values(|b: u8| Token::Byte(b))
}

/// A single instruction as tokens.
pub open spec fn step_tokens(step: Step) -> Seq<Token> {
    match step {
        Step::Forward(bytes) => tokens_of(bytes@),
        Step::Act(action) => seq![Token::Act(action)],
    }
}

/// Instructions as tokens, in order.
pub open spec fn flat(steps: Seq<Step>) -> Seq<Token>
    decreases steps.len(),
{
    if steps.len() == 0 {
        Seq::empty()
    } else {
        flat(steps.drop_last()) + step_tokens(steps.last())
    }
}

/// No write is empty, and no two writes follow each other: a run of bytes is one write.
pub open spec fn coalesced(steps: Seq<Step>) -> bool {
    &&& forall|i: int|
        0 <= i < steps.len() ==> (#[trigger] steps[i] matches Step::Forward(b) ==> b@.len() > 0)
    &&& forall|i: int, j: int|
        #![trigger steps[i], steps[j]]
        0 <= i < steps.len() && j == i + 1 && j < steps.len() ==> !(steps[i] is Forward
            && steps[j] is Forward)
}

/// The key code a terminal reports the prefix chord under.
pub open spec fn code_of(byte: u8) -> u8 {
    if byte == CTRL_SPACE {
        0x20
    } else {
        byte | 0x60
    }
}

impl Machine {
    /// What a machine can be: the armed bytes are there exactly while it is armed, and a
    /// held sequence is one that is still undecided.
    pub open spec fn wf(self) -> bool {
        &&& self.state is Armed <==> self.armed.len() > 0
        &&& self.seq.len() > 0 ==> {
            &&& self.seq[0] == ESC
            &&& self.seq.len() < MAX_LEN
            &&& classified(self.seq, code_of(self.prefix)) == Sequence::Partial
        }
    }

    /// Everything that has been taken in and could still be handed out.
    pub open spec fn held(self) -> Seq<u8> {
        self.armed + self.seq
    }

    /// Back to passing bytes through, with nothing armed.
    pub open spec fn idle(self) -> Machine {
        Machine { state: State::Idle, armed: Seq::empty(), ..self }
    }

    /// The prefix has been pressed, spelled this way.
    pub open spec fn on_prefix(self, spelled: Seq<u8>) -> (Machine, Seq<Token>) {
        let next = Machine { state: State::Armed, armed: spelled, ..self };
        match self.state {
            State::Idle => (next, Seq::empty()),
            State::Armed => (self.idle(), tokens_of(self.armed)),
            State::Number(n) => (next, seq![Token::Act(Action::Switch(n))]),
        }
    }

    /// A whole key that is not the prefix, or bytes that are no key at all: what is
    /// pending is settled, and the bytes go through.
    pub open spec fn on_key(self, key: Seq<u8>) -> (Machine, Seq<Token>) {
        match self.state {
            State::Idle => (self, tokens_of(key)),
            State::Armed => (self.idle(), tokens_of(self.armed + key)),
            State::Number(n) => (
                self.idle(),
                seq![Token::Act(Action::Switch(n))] + tokens_of(key),
            ),
        }
    }

    /// A number, typed so far: wait for another digit only where one could still name a
    /// live session.
    pub open spec fn on_number(self, n: u32) -> (Machine, Seq<Token>) {
        if n * 10 <= self.highest {
            (Machine { state: State::Number(n), armed: Seq::empty(), ..self }, Seq::empty())
        } else {
            (self.idle(), seq![Token::Act(Action::Switch(n))])
        }
    }

    /// An ordinary byte: neither the prefix nor part of an escape sequence.
    pub open spec fn on_plain(self, b: u8) -> (Machine, Seq<Token>) {
        match self.state {
            State::Idle => (self, seq![Token::Byte(b)]),
            State::Armed => if 0x31 <= b <= 0x39 {
                self.on_number((b - 0x30) as u32)
            } else {
                match command_of(b) {
                    Some(action) => (self.idle(), seq![Token::Act(action)]),
                    None => (self.idle(), tokens_of(self.armed.push(b))),
                }
            },
            State::Number(n) => if 0x30 <= b <= 0x39 {
                self.on_number(wider(n, b))
            } else if b == ENTER {
                (self.idle(), seq![Token::Act(Action::Switch(n))])
            } else {
                (self.idle(), seq![Token::Act(Action::Switch(n)), Token::Byte(b)])
            },
        }
    }

    /// A byte that arrives between sequences.
    pub open spec fn on_fresh(self, b: u8) -> (Machine, Seq<Token>) {
        if b == ESC {
            (Machine { seq: seq![b], ..self }, Seq::empty())
        } else if b == self.prefix {
            self.on_prefix(seq![b])
        } else {
            self.on_plain(b)
        }
    }

    /// A sequence has been decided, up to and including the byte that just arrived.
    pub open spec fn on_sequence(self, seq: Seq<u8>, what: Sequence) -> (Machine, Seq<Token>) {
        let rid = Machine { seq: Seq::empty(), ..self };
        match what {
            Sequence::Partial => (Machine { seq, ..self }, Seq::empty()),
            Sequence::Prefix => rid.on_prefix(seq),
            Sequence::Release(code) => if self.state is Armed && code == code_of(self.prefix) {
                (Machine { armed: self.armed + seq, ..rid }, Seq::empty())
            } else {
                (rid, tokens_of(seq))
            },
            Sequence::Reply => (rid, tokens_of(seq)),
            Sequence::Other(n) => {
                let (settled, out) = rid.on_key(seq.take(n as int));
                if n < seq.len() {
                    let (next, more) = settled.on_fresh(seq[n as int]);
                    (next, out + more)
                } else {
                    (settled, out)
                }
            },
        }
    }

    /// One byte.
    pub open spec fn on_byte(self, b: u8) -> (Machine, Seq<Token>) {
        if self.seq.len() > 0 {
            let seq = self.seq.push(b);
            self.on_sequence(seq, classified(seq, code_of(self.prefix)))
        } else {
            self.on_fresh(b)
        }
    }

    /// A run of bytes, one after the other.
    pub open spec fn run(self, input: Seq<u8>) -> (Machine, Seq<Token>)
        decreases input.len(),
    {
        if input.len() == 0 {
            (self, Seq::empty())
        } else {
            let (before, out) = self.run(input.drop_last());
            let (after, more) = before.on_byte(input.last());
            (after, out + more)
        }
    }

    /// The wait it asked for has passed with no further byte: a held sequence is the key
    /// it was, a lone prefix a literal one, a half-typed number the session it names.
    pub open spec fn expired(self) -> (Machine, Seq<Token>) {
        (Machine { seq: Seq::empty(), ..self }).on_key(self.seq)
    }
}

impl Machine {
    /// What has to be timed, if anything. An unfinished sequence comes first.
    pub open spec fn waits(self) -> Option<Wait> {
        if self.seq.len() > 0 {
            Some(Wait::Sequence)
        } else if self.state != State::Idle {
            Some(Wait::Command)
        } else {
            None
        }
    }

    /// What the user has half typed, if anything.
    pub open spec fn half_typed(self) -> Option<Pending> {
        match self.state {
            State::Idle => None,
            State::Armed => Some(Pending::Command),
            State::Number(n) => Some(Pending::Number(n)),
        }
    }
}

/// The number with one more digit, held at the top of its range.
pub open spec fn wider(n: u32, b: u8) -> u32 {
    let w = n * 10 + (b - 0x30);
    if w <= u32::MAX {
        w as u32
    } else {
        u32::MAX
    }
}

/// What has been handed out so far: the instructions, and the run of bytes that is still
/// being gathered behind them.
spec fn gathered(steps: Seq<Step>, run: Seq<u8>) -> Seq<Token> {
    flat(steps) + tokens_of(run)
}

/// The instructions so far are coalesced, and a run may be put behind them.
spec fn open_ended(steps: Seq<Step>) -> bool {
    coalesced(steps) && (steps.len() > 0 ==> steps.last() is Act)
}

proof fn lemma_tokens_concat(a: Seq<u8>, b: Seq<u8>)
    ensures
        tokens_of(a + b) == tokens_of(a) + tokens_of(b),
{
    assert(tokens_of(a + b) =~= tokens_of(a) + tokens_of(b));
}

/// Puts the gathered run of bytes behind the instructions.
fn flush(steps: &mut Vec<Step>, pending: &mut Vec<u8>)
    requires
        open_ended(old(steps)@),
    ensures
        final(pending)@.len() == 0,
        coalesced(final(steps)@),
        flat(final(steps)@) == gathered(old(steps)@, old(pending)@),
{
    if pending.len() > 0 {
        let ghost before = steps@;
        let ghost run = pending@;
        let mut taken: Vec<u8> = Vec::new();
        core::mem::swap(&mut taken, pending);
        steps.push(Step::Forward(taken));
        assert(steps@.drop_last() =~= before);
        assert(flat(steps@) == gathered(before, run));
    } else {
        assert(tokens_of(pending@) =~= Seq::<Token>::empty());
        assert(flat(steps@) =~= gathered(steps@, pending@));
    }
}

/// Puts the gathered run of bytes and then an action behind the instructions.
fn act(steps: &mut Vec<Step>, pending: &mut Vec<u8>, action: Action)
    requires
        open_ended(old(steps)@),
    ensures
        final(pending)@.len() == 0,
        open_ended(final(steps)@),
        gathered(final(steps)@, final(pending)@) == gathered(old(steps)@, old(pending)@).push(
            Token::Act(action),
        ),
{
    let ghost first = gathered(steps@, pending@);
    flush(steps, pending);
    let ghost before = steps@;
    steps.push(Step::Act(action));
    assert(steps@.drop_last() =~= before);
    assert(tokens_of(pending@) =~= Seq::<Token>::empty());
    assert(gathered(steps@, pending@) =~= first.push(Token::Act(action)));
}

/// The default machine arms on [`PREFIX`].
impl Default for Prefix {
    fn default() -> (r: Self)
        ensures
            r@ == (Machine {
                state: State::Idle,
                highest: 0,
                prefix: PREFIX,
                armed: Seq::empty(),
                seq: Seq::empty(),
            }),
    {
        Self::new(0)
    }
}

impl View for Prefix {
    type V = Machine;

    closed spec fn view(&self) -> Machine {
        Machine {
            state: self.state,
            highest: self.highest,
            prefix: self.prefix,
            armed: self.armed@,
            seq: self.seq@,
        }
    }
}

impl Prefix {
    /// A machine armed by the standard [`PREFIX`].
    pub fn new(highest: u32) -> (r: Self)
        ensures
            r@.wf(),
            r@ == (Machine {
                state: State::Idle,
                highest,
                prefix: PREFIX,
                armed: Seq::empty(),
                seq: Seq::empty(),
            }),
    {
        Self::with_prefix(highest, PREFIX)
    }

    /// A machine armed by `prefix`.
    pub fn with_prefix(highest: u32, prefix: u8) -> (r: Self)
        ensures
            r@.wf(),
            r@ == (Machine {
                state: State::Idle,
                highest,
                prefix,
                armed: Seq::empty(),
                seq: Seq::empty(),
            }),
    {
        Self { state: State::Idle, highest, prefix, armed: Vec::new(), seq: Vec::new() }
    }

    /// True if the machine is in the middle of something and a timeout must be armed.
    pub fn is_armed(&self) -> (r: bool)
        ensures
            r == (self@.waits() is Some),
    {
        self.wait().is_some()
    }

    /// What the caller must time, if anything. An unfinished sequence takes precedence:
    /// settling it settles whatever else was pending too.
    pub fn wait(&self) -> (r: Option<Wait>)
        ensures
            r == self@.waits(),
    {
        if self.seq.len() > 0 {
            Some(Wait::Sequence)
        } else if self.state != State::Idle {
            Some(Wait::Command)
        } else {
            None
        }
    }

    /// What the user has half-typed, if anything.
    pub fn pending(&self) -> (r: Option<Pending>)
        ensures
            r == self@.half_typed(),
    {
        match self.state {
            State::Idle => None,
            State::Armed => Some(Pending::Command),
            State::Number(n) => Some(Pending::Number(n)),
        }
    }

    /// Whether another digit could still extend `n` into a live session number.
    fn can_extend(&self, n: u32) -> (r: bool)
        ensures
            r == (n * 10 <= self@.highest),
    {
        match n.checked_mul(10) {
            Some(wider) => wider <= self.highest,
            None => false,
        }
    }

    /// Feed a chunk of bytes read from the user's terminal.
    ///
    /// Runs of ordinary bytes are coalesced into a single [`Step::Forward`].
    pub fn feed(&mut self, input: &[u8]) -> (steps: Vec<Step>)
        requires
            old(self)@.wf(),
        ensures
            final(self)@.wf(),
            final(self)@ == old(self)@.run(input@).0,
            flat(steps@) == old(self)@.run(input@).1,
            coalesced(steps@),
    {
        let ghost first = self@;
        let mut steps: Vec<Step> = Vec::new();
        let mut pending: Vec<u8> = Vec::new();
        let mut i: usize = 0;
        assert(input@.take(0) =~= Seq::<u8>::empty());
        assert(gathered(steps@, pending@) =~= Seq::<Token>::empty());
        while i < input.len()
            invariant
                i <= input@.len(),
                self@.wf(),
                open_ended(steps@),
                self@ == first.run(input@.take(i as int)).0,
                gathered(steps@, pending@) == first.run(input@.take(i as int)).1,
            decreases input@.len() - i,
        {
            assert(input@.take(i + 1).drop_last() =~= input@.take(i as int));
            self.byte(input[i], &mut steps, &mut pending);
            i += 1;
        }
        assert(input@.take(i as int) =~= input@);
        flush(&mut steps, &mut pending);
        steps
    }

    /// One byte, in whatever state the machine is in.
    fn byte(&mut self, b: u8, steps: &mut Vec<Step>, pending: &mut Vec<u8>)
        requires
            old(self)@.wf(),
            open_ended(old(steps)@),
        ensures
            final(self)@.wf(),
            open_ended(final(steps)@),
            final(self)@ == old(self)@.on_byte(b).0,
            gathered(final(steps)@, final(pending)@) == gathered(old(steps)@, old(pending)@)
                + old(self)@.on_byte(b).1,
    {
        let ghost first = self@;
        let ghost before = gathered(steps@, pending@);
        if self.seq.len() == 0 {
            self.fresh(b, steps, pending);
            return ;
        }
        self.seq.push(b);
        let ghost seq = self.seq@;
        let code: u8 = prefix_code(self.prefix);
        proof {
            assert(seq.drop_last() =~= first.seq);
            lemma_other_leaves_one(seq, code);
        }
        match classify(&self.seq, code) {
            Sequence::Partial => {
                assert(gathered(steps@, pending@) =~= before + Seq::<Token>::empty());
                proof {
                    crate::keyseq::lemma_stop(seq, 2);
                }
            },
            Sequence::Prefix => {
                let mut bytes: Vec<u8> = Vec::new();
                core::mem::swap(&mut bytes, &mut self.seq);
                assert(self@ == (Machine { seq: Seq::empty(), ..first }));
                self.prefix_key(bytes, steps, pending);
            },
            Sequence::Release(released) => {
                let mut report: Vec<u8> = Vec::new();
                core::mem::swap(&mut report, &mut self.seq);
                if self.state == State::Armed && released == code as u32 {
                    self.armed.append(&mut report);
                    assert(gathered(steps@, pending@) =~= before + Seq::<Token>::empty());
                } else {
                    let ghost run = pending@;
                    pending.append(&mut report);
                    proof {
                        lemma_tokens_concat(run, seq);
                    }
                    assert(gathered(steps@, pending@) =~= before + tokens_of(seq));
                }
                assert(self.seq@ =~= Seq::<u8>::empty());
            },
            Sequence::Reply => {
                let ghost run = pending@;
                pending.append(&mut self.seq);
                proof {
                    lemma_tokens_concat(run, seq);
                }
                assert(self.seq@ =~= Seq::<u8>::empty());
                assert(gathered(steps@, pending@) =~= before + tokens_of(seq));
            },
            Sequence::Other(n) => {
                let mut key: Vec<u8> = Vec::new();
                core::mem::swap(&mut key, &mut self.seq);
                let rest: Vec<u8> = key.split_off(n);
                assert(self@ == (Machine { seq: Seq::empty(), ..first }));
                assert(key@ =~= seq.take(n as int));
                self.other_key(key, steps, pending);
                if rest.len() > 0 {
                    let ghost middle = gathered(steps@, pending@);
                    let ghost settled = self@;
                    assert(rest@[0] == seq[n as int]);
                    self.fresh(rest[0], steps, pending);
                    assert(gathered(steps@, pending@) =~= before + (first.on_byte(b).1));
                }
            },
        }
    }

    /// A byte that arrives between sequences.
    fn fresh(&mut self, b: u8, steps: &mut Vec<Step>, pending: &mut Vec<u8>)
        requires
            old(self)@.wf(),
            old(self)@.seq.len() == 0,
            open_ended(old(steps)@),
        ensures
            final(self)@.wf(),
            open_ended(final(steps)@),
            final(self)@ == old(self)@.on_fresh(b).0,
            gathered(final(steps)@, final(pending)@) == gathered(old(steps)@, old(pending)@)
                + old(self)@.on_fresh(b).1,
    {
        if b == ESC {
            self.seq.push(b);
            assert(self.seq@ =~= seq![b]);
            assert(gathered(steps@, pending@) =~= gathered(steps@, pending@)
                + Seq::<Token>::empty());
        } else if b == self.prefix {
            let mut spelled: Vec<u8> = Vec::new();
            spelled.push(b);
            assert(spelled@ =~= seq![b]);
            self.prefix_key(spelled, steps, pending);
        } else {
            self.plain_byte(b, steps, pending);
        }
    }

    /// The prefix, spelled as `bytes`.
    fn prefix_key(&mut self, bytes: Vec<u8>, steps: &mut Vec<Step>, pending: &mut Vec<u8>)
        requires
            old(self)@.wf(),
            old(self)@.seq.len() == 0,
            bytes@.len() > 0,
            open_ended(old(steps)@),
        ensures
            final(self)@.wf(),
            final(self)@.seq.len() == 0,
            open_ended(final(steps)@),
            final(self)@ == old(self)@.on_prefix(bytes@).0,
            gathered(final(steps)@, final(pending)@) == gathered(old(steps)@, old(pending)@)
                + old(self)@.on_prefix(bytes@).1,
    {
        let ghost before = gathered(steps@, pending@);
        match self.state {
            State::Idle => {
                self.state = State::Armed;
                self.armed = bytes;
                assert(gathered(steps@, pending@) =~= before + Seq::<Token>::empty());
            },
            State::Armed => {
                // One literal prefix: the one that was held back, in the terminal's own
                // spelling.
                self.state = State::Idle;
                let ghost run = pending@;
                let ghost armed = self.armed@;
                pending.append(&mut self.armed);
                proof {
                    lemma_tokens_concat(run, armed);
                }
                assert(self.armed@ =~= Seq::<u8>::empty());
                assert(gathered(steps@, pending@) =~= before + tokens_of(armed));
            },
            State::Number(n) => {
                // The digits already typed were a complete command, and this prefix starts
                // the next one.
                act(steps, pending, Action::Switch(n));
                self.state = State::Armed;
                self.armed = bytes;
                assert(gathered(steps@, pending@) =~= before + seq![
                    Token::Act(Action::Switch(n)),
                ]);
            },
        }
    }

    /// A whole key that is not the prefix, or a sequence that turned out to be no key at
    /// all: the pending business is settled and the bytes go through unchanged.
    fn other_key(&mut self, bytes: Vec<u8>, steps: &mut Vec<Step>, pending: &mut Vec<u8>)
        requires
            old(self)@.wf(),
            old(self)@.seq.len() == 0,
            open_ended(old(steps)@),
        ensures
            final(self)@.wf(),
            final(self)@.seq.len() == 0,
            final(self)@.state == State::Idle,
            open_ended(final(steps)@),
            final(self)@ == old(self)@.on_key(bytes@).0,
            gathered(final(steps)@, final(pending)@) == gathered(old(steps)@, old(pending)@)
                + old(self)@.on_key(bytes@).1,
    {
        let ghost first = self@;
        let ghost before = gathered(steps@, pending@);
        let mut bytes: Vec<u8> = bytes;
        let ghost key = bytes@;
        match self.state {
            State::Idle => {},
            State::Armed => {
                self.state = State::Idle;
                let ghost run = pending@;
                pending.append(&mut self.armed);
                proof {
                    lemma_tokens_concat(run, first.armed);
                    lemma_tokens_concat(first.armed, key);
                }
                assert(self.armed@ =~= Seq::<u8>::empty());
                assert(gathered(steps@, pending@) =~= before + tokens_of(first.armed));
            },
            State::Number(n) => {
                self.state = State::Idle;
                act(steps, pending, Action::Switch(n));
                assert(self.armed@ =~= Seq::<u8>::empty());
            },
        }
        let ghost run = pending@;
        let ghost middle = gathered(steps@, pending@);
        pending.append(&mut bytes);
        proof {
            lemma_tokens_concat(run, key);
        }
        assert(gathered(steps@, pending@) =~= middle + tokens_of(key));
        assert(gathered(steps@, pending@) =~= before + first.on_key(key).1);
    }

    /// An ordinary byte: neither the prefix nor part of an escape sequence.
    fn plain_byte(&mut self, b: u8, steps: &mut Vec<Step>, pending: &mut Vec<u8>)
        requires
            old(self)@.wf(),
            old(self)@.seq.len() == 0,
            open_ended(old(steps)@),
        ensures
            final(self)@.wf(),
            final(self)@.seq.len() == 0,
            open_ended(final(steps)@),
            final(self)@ == old(self)@.on_plain(b).0,
            gathered(final(steps)@, final(pending)@) == gathered(old(steps)@, old(pending)@)
                + old(self)@.on_plain(b).1,
    {
        let ghost first = self@;
        let ghost before = gathered(steps@, pending@);
        let ghost run = pending@;
        match self.state {
            State::Idle => {
                pending.push(b);
                assert(gathered(steps@, pending@) =~= before + seq![Token::Byte(b)]);
            },
            State::Armed => {
                self.state = State::Idle;
                let mut armed: Vec<u8> = Vec::new();
                core::mem::swap(&mut armed, &mut self.armed);
                assert(self@ =~= first.idle());
                if 0x31 <= b && b <= 0x39 {
                    // A number never starts with 0.
                    self.start_number((b - 0x30) as u32, steps, pending);
                } else if let Some(action) = command(b) {
                    act(steps, pending, action);
                    assert(gathered(steps@, pending@) =~= before + seq![Token::Act(action)]);
                } else {
                    // Not a command, so the original keystrokes are replayed in order.
                    armed.push(b);
                    let ghost replay = armed@;
                    pending.append(&mut armed);
                    proof {
                        lemma_tokens_concat(run, replay);
                    }
                    assert(gathered(steps@, pending@) =~= before + tokens_of(replay));
                }
            },
            State::Number(n) => {
                self.state = State::Idle;
                assert(self@ =~= first.idle());
                if 0x30 <= b && b <= 0x39 {
                    // Held at the top of the range: a digit key held down must not wrap a
                    // huge number back onto a live one.
                    let digit: u32 = (b - 0x30) as u32;
                    let tens: u32 = match n.checked_mul(10) {
                        Some(tens) => tens,
                        None => u32::MAX,
                    };
                    self.start_number(tens.saturating_add(digit), steps, pending);
                } else if b == ENTER {
                    act(steps, pending, Action::Switch(n));
                    assert(gathered(steps@, pending@) =~= before + seq![
                        Token::Act(Action::Switch(n)),
                    ]);
                } else {
                    // The digits already typed were a complete command, and this byte is
                    // simply the next key.
                    act(steps, pending, Action::Switch(n));
                    pending.push(b);
                    assert(gathered(steps@, pending@) =~= before + seq![
                        Token::Act(Action::Switch(n)),
                        Token::Byte(b),
                    ]);
                }
            },
        }
    }

    /// Begin, or extend, a session number: wait for another digit only when one could
    /// still change which session is meant.
    fn start_number(&mut self, n: u32, steps: &mut Vec<Step>, pending: &mut Vec<u8>)
        requires
            old(self)@.wf(),
            old(self)@.seq.len() == 0,
            old(self)@.state == State::Idle,
            open_ended(old(steps)@),
        ensures
            final(self)@.wf(),
            final(self)@.seq.len() == 0,
            open_ended(final(steps)@),
            final(self)@ == old(self)@.on_number(n).0,
            gathered(final(steps)@, final(pending)@) == gathered(old(steps)@, old(pending)@)
                + old(self)@.on_number(n).1,
    {
        let ghost before = gathered(steps@, pending@);
        assert(self.armed@ =~= Seq::<u8>::empty());
        if self.can_extend(n) {
            self.state = State::Number(n);
            assert(gathered(steps@, pending@) =~= before + Seq::<Token>::empty());
        } else {
            self.state = State::Idle;
            act(steps, pending, Action::Switch(n));
            assert(gathered(steps@, pending@) =~= before + seq![Token::Act(Action::Switch(n))]);
        }
    }

    /// Called when the [`wait`](Self::wait) the machine asked for has passed with no
    /// further byte. A timer that fires when nothing is pending does no harm.
    pub fn timeout(&mut self) -> (steps: Vec<Step>)
        requires
            old(self)@.wf(),
        ensures
            final(self)@.wf(),
            final(self)@ == old(self)@.expired().0,
            flat(steps@) == old(self)@.expired().1,
            coalesced(steps@),
    {
        let mut steps: Vec<Step> = Vec::new();
        let mut pending: Vec<u8> = Vec::new();
        // A cut-off sequence was some other key; with none, the key that never came is empty.
        let mut held: Vec<u8> = Vec::new();
        core::mem::swap(&mut held, &mut self.seq);
        assert(gathered(steps@, pending@) =~= Seq::<Token>::empty());
        self.other_key(held, &mut steps, &mut pending);
        assert(gathered(steps@, pending@) =~= old(self)@.expired().1);
        flush(&mut steps, &mut pending);
        steps
    }
}

/// The key code a terminal reports the prefix chord under: the letter of a `Ctrl-<letter>`
/// control byte, and for `Ctrl-Space` the space bar's own code.
pub fn prefix_code(byte: u8) -> (r: u8)
    ensures
        r == code_of(byte),
{
    if byte == CTRL_SPACE {
        0x20
    } else {
        byte | 0x60
    }
}

/// How a key is spelled for people: itself, and a name for the space bar.
pub open spec fn key_name(byte: u8) -> Seq<char> {
    if byte == 0x20 {
        "Space"@
    } else {
        seq![byte as char]
    }
}

/// The space bar on a row of hints.
pub const SPACE_GLYPH: &'static str = "␣";

/// How a key is spelled on a row of hints: itself, and one glyph for the space bar.
pub open spec fn glyph(byte: u8) -> Seq<char> {
    if byte == 0x20 {
        SPACE_GLYPH@
    } else {
        seq![byte as char]
    }
}

/// Spell a key for a row of hints.
pub fn key_glyph(byte: u8) -> (r: String)
    ensures
        r@ == glyph(byte),
{
    if byte == 0x20 {
        String::from_str(SPACE_GLYPH)
    } else {
        let mut label: String = String::new();
        label.push(byte as char);
        assert(label@ =~= seq![byte as char]);
        label
    }
}

/// How a prefix byte is spelled for people.
pub open spec fn prefix_name(byte: u8) -> Seq<char> {
    "Ctrl-"@ + key_name(code_of(byte))
}

/// Spell a key the way people read it: itself for a printable character, and a name for
/// the space bar, which would otherwise be an invisible cell.
pub fn key_label(byte: u8) -> (r: String)
    ensures
        r@ == key_name(byte),
{
    if byte == 0x20 {
        String::from_str("Space")
    } else {
        let mut label: String = String::new();
        label.push(byte as char);
        assert(label@ =~= seq![byte as char]);
        label
    }
}

/// Spell a prefix byte the way people read it: `0x00` is `"Ctrl-Space"`, `0x14` is
/// `"Ctrl-t"`.
pub fn prefix_label(byte: u8) -> (r: String)
    ensures
        r@ == prefix_name(byte),
{
    let mut label: String = String::from_str("Ctrl-");
    label.append(key_label(prefix_code(byte)).as_str());
    label
}

/// What stands behind `ctrl-` or `c-`, if one of them is there.
pub open spec fn after_ctrl(spelled: Seq<char>) -> Option<Seq<char>> {
    if starts(spelled, "ctrl-"@) {
        Some(spelled.skip("ctrl-"@.len() as int))
    } else if starts(spelled, "c-"@) {
        Some(spelled.skip("c-"@.len() as int))
    } else {
        None
    }
}

/// What a spelling of the prefix means: its control byte, or why it is refused.
pub open spec fn prefix_meant(s: Seq<char>) -> Result<u8, Seq<char>> {
    match after_ctrl(lowered(trimmed(s))) {
        None => Err(
            "prefix "@ + debug_text(s) + " must look like \"C-Space\" or \"Ctrl-a\""@,
        ),
        Some(key) => if key == "space"@ {
            Ok(CTRL_SPACE)
        } else if key.len() != 1 || key[0] as u32 >= 0x80 {
            Err(
                "prefix "@ + debug_text(s)
                    + " must be Ctrl and a single ASCII letter, like \"C-t\", or \"C-Space\""@,
            )
        } else if !('a' <= key[0] && key[0] <= 'z') {
            Err("prefix "@ + debug_text(s) + " must be Ctrl and an ASCII letter a-z, or Space"@)
        } else if key[0] == 'h' {
            Err("C-h is Backspace and would never reach the prefix machine"@)
        } else if key[0] == 'i' {
            Err("C-i is Tab and would never reach the prefix machine"@)
        } else if key[0] == 'j' {
            Err("C-j is a line feed and would never reach the prefix machine"@)
        } else if key[0] == 'm' {
            Err("C-m is Enter and would collide with number entry"@)
        } else {
            Ok((key[0] as u8 - 0x60) as u8)
        },
    }
}

/// The refusal `prefix "..." <why>`.
fn refused(s: &str, why: &str) -> (r: String)
    ensures
        r@ == "prefix "@ + debug_text(s@) + why@,
{
    let mut message: String = String::from_str("prefix ");
    message.append(quoted(s).as_str());
    message.append(why);
    message
}

/// Parse a human prefix spelling like `"C-Space"`, `"C-t"` or `"Ctrl-a"` into its control
/// byte. Upper and lower case mean the same.
///
/// Only a `Ctrl-<letter>` chord or `Ctrl-Space` is accepted, and a few of the letters are
/// refused: they already mean something else on the wire.
pub fn parse_prefix(s: &str) -> (r: Result<u8, String>)
    ensures
        match r {
            Ok(byte) => prefix_meant(s@) == Ok::<u8, Seq<char>>(byte),
            Err(message) => prefix_meant(s@) == Err::<u8, Seq<char>>(message@),
        },
{
    let all: Vec<char> = chars_of(s);
    let lower: Vec<char> = to_lower(trim(&all));
    let key: &[char] = if starts_with(&lower, "ctrl-") {
        vstd::slice::slice_subrange(&lower, "ctrl-".unicode_len(), lower.len())
    } else if starts_with(&lower, "c-") {
        vstd::slice::slice_subrange(&lower, "c-".unicode_len(), lower.len())
    } else {
        return Err(refused(s, " must look like \"C-Space\" or \"Ctrl-a\""));
    };
    assert(after_ctrl(lower@) == Some(key@)) by {
        if starts(lower@, "ctrl-"@) {
            assert(key@ =~= lower@.skip("ctrl-"@.len() as int));
        } else {
            assert(key@ =~= lower@.skip("c-"@.len() as int));
        }
    }
    if same(key, "space") {
        return Ok(CTRL_SPACE);
    }
    if key.len() != 1 || key[0] as u32 >= 0x80 {
        return Err(
            refused(s, " must be Ctrl and a single ASCII letter, like \"C-t\", or \"C-Space\""),
        );
    }
    let letter: char = key[0];
    if !('a' <= letter && letter <= 'z') {
        return Err(refused(s, " must be Ctrl and an ASCII letter a-z, or Space"));
    }
    if letter == 'h' {
        Err(String::from_str("C-h is Backspace and would never reach the prefix machine"))
    } else if letter == 'i' {
        Err(String::from_str("C-i is Tab and would never reach the prefix machine"))
    } else if letter == 'j' {
        Err(String::from_str("C-j is a line feed and would never reach the prefix machine"))
    } else if letter == 'm' {
        Err(String::from_str("C-m is Enter and would collide with number entry"))
    } else {
        Ok(letter as u8 - 0x60)
    }
}

/// The bytes that some spelling of a prefix means: `Ctrl-Space`, and every `Ctrl-<letter>`
/// that is not Backspace, Tab, line feed or Enter.
pub open spec fn is_prefix_byte(byte: u8) -> bool {
    byte == CTRL_SPACE || (1 <= byte <= 26 && byte != 0x08 && byte != 0x09 && byte != 0x0a && byte
        != 0x0d)
}

/// Only prefix bytes are ever parsed.
pub proof fn law_parsed_prefixes_are_prefix_bytes(s: Seq<char>)
    ensures
        prefix_meant(s) matches Ok(byte) ==> is_prefix_byte(byte),
{
}

/// Parsing a label gives the byte back: every byte that can be a prefix is described by a
/// spelling that means it.
pub proof fn law_label_parses_back(byte: u8)
    requires
        is_prefix_byte(byte),
    ensures
        prefix_meant(prefix_name(byte)) == Ok::<u8, Seq<char>>(byte),
{
    let name = prefix_name(byte);
    reveal_strlit("Ctrl-");
    reveal_strlit("ctrl-");
    reveal_strlit("c-");
    reveal_strlit("Space");
    reveal_strlit("space");
    assert(1 <= byte <= 26 ==> byte | 0x60 == byte + 0x60) by (bit_vector);
    assert(name[0] == 'C');
    assert(!crate::text::white_space(name.last()));
    crate::text::lemma_trimmed_is_itself(name);
    let low = lowered(name);
    assert(low.take(5) =~= "ctrl-"@);
    let key = low.skip(5);
    if byte == CTRL_SPACE {
        assert(key =~= "space"@);
    } else {
        assert(key.len() == 1);
        assert(key[0] == (byte + 0x60) as char);
        assert("space"@.len() == 5);
    }
}

/// The bytes among the tokens, in order.
pub open spec fn bytes_in(tokens: Seq<Token>) -> Seq<u8>
    decreases tokens.len(),
{
    if tokens.len() == 0 {
        Seq::empty()
    } else {
        let rest = bytes_in(tokens.drop_last());
        match tokens.last() {
            Token::Byte(b) => rest.push(b),
            Token::Act(_) => rest,
        }
    }
}

/// Nothing among the tokens is an action.
pub open spec fn no_action(tokens: Seq<Token>) -> bool {
    forall|i: int| 0 <= i < tokens.len() ==> #[trigger] tokens[i] is Byte
}

proof fn lemma_bytes_in_concat(a: Seq<Token>, b: Seq<Token>)
    ensures
        bytes_in(a + b) == bytes_in(a) + bytes_in(b),
    decreases b.len(),
{
    if b.len() == 0 {
        assert(a + b =~= a);
        assert(bytes_in(a) + bytes_in(b) =~= bytes_in(a));
    } else {
        lemma_bytes_in_concat(a, b.drop_last());
        assert((a + b).drop_last() =~= a + b.drop_last());
        assert(bytes_in(a + b) =~= bytes_in(a) + bytes_in(b));
    }
}

proof fn lemma_bytes_of_tokens(s: Seq<u8>)
    ensures
        bytes_in(tokens_of(s)) == s,
        no_action(tokens_of(s)),
    decreases s.len(),
{
    if s.len() > 0 {
        lemma_bytes_of_tokens(s.drop_last());
        assert(tokens_of(s).drop_last() =~= tokens_of(s.drop_last()));
        assert(bytes_in(tokens_of(s)) =~= s);
    } else {
        assert(bytes_in(tokens_of(s)) =~= s);
    }
}

proof fn lemma_bytes_in_small(a: Token, b: Token)
    ensures
        bytes_in(seq![a]) == match a {
            Token::Byte(x) => seq![x],
            Token::Act(_) => Seq::empty(),
        },
        bytes_in(seq![a, b]) == bytes_in(seq![a]) + bytes_in(seq![b]),
{
    assert(seq![a].drop_last() =~= Seq::<Token>::empty());
    assert(bytes_in(Seq::<Token>::empty()) =~= Seq::<u8>::empty());
    assert(bytes_in(seq![a]) =~= match a {
        Token::Byte(x) => seq![x],
        Token::Act(_) => Seq::empty(),
    });
    assert(seq![a, b] =~= seq![a] + seq![b]);
    lemma_bytes_in_concat(seq![a], seq![b]);
}

/// A machine stays one, whatever byte arrives.
pub proof fn law_machine_stays_well_formed(m: Machine, b: u8)
    requires
        m.wf(),
    ensures
        m.on_byte(b).0.wf(),
        m.on_byte(b).0.prefix == m.prefix,
        m.on_byte(b).0.highest == m.highest,
{
    if m.seq.len() > 0 {
        let seq = m.seq.push(b);
        assert(seq.drop_last() =~= m.seq);
        lemma_other_leaves_one(seq, code_of(m.prefix));
    }
}

proof fn lemma_run_wf(m: Machine, input: Seq<u8>)
    requires
        m.wf(),
    ensures
        m.run(input).0.wf(),
        m.run(input).0.prefix == m.prefix,
        m.run(input).0.highest == m.highest,
    decreases input.len(),
{
    if input.len() > 0 {
        lemma_run_wf(m, input.drop_last());
        law_machine_stays_well_formed(m.run(input.drop_last()).0, input.last());
    }
}

/// Where a read cuts the input makes no difference: two chunks leave the machine as their
/// concatenation does, and hand out the same bytes and actions in the same order.
pub proof fn law_chunk_boundaries_do_not_matter(m: Machine, a: Seq<u8>, b: Seq<u8>)
    ensures
        m.run(a + b).0 == m.run(a).0.run(b).0,
        m.run(a + b).1 == m.run(a).1 + m.run(a).0.run(b).1,
    decreases b.len(),
{
    if b.len() == 0 {
        assert(a + b =~= a);
        assert(m.run(a + b).1 =~= m.run(a).1 + m.run(a).0.run(b).1);
    } else {
        law_chunk_boundaries_do_not_matter(m, a, b.drop_last());
        assert((a + b).drop_last() =~= a + b.drop_last());
        assert(m.run(a + b).1 =~= m.run(a).1 + m.run(a).0.run(b).1);
    }
}

/// Once a number is being typed, only an action ends it.
proof fn lemma_number_ends_in_an_action(m: Machine, b: u8)
    requires
        m.wf(),
        m.state is Number,
        no_action(m.on_byte(b).1),
    ensures
        m.on_byte(b).0.state is Number,
{
    let (after, out) = m.on_byte(b);
    if m.seq.len() > 0 {
        let seq = m.seq.push(b);
        assert(seq.drop_last() =~= m.seq);
        lemma_other_leaves_one(seq, code_of(m.prefix));
        match classified(seq, code_of(m.prefix)) {
            Sequence::Prefix => {
                assert(out[0] is Act);
            },
            Sequence::Other(n) => {
                assert(out[0] is Act);
            },
            _ => {},
        }
    } else if b != ESC {
        if !(after.state is Number) {
            assert(out[0] is Act);
        }
    }
}

/// How often `x` occurs.
pub open spec fn times(s: Seq<u8>, x: u8) -> nat
    decreases s.len(),
{
    if s.len() == 0 {
        0
    } else if s.last() == x {
        times(s.drop_last(), x) + 1
    } else {
        times(s.drop_last(), x)
    }
}

proof fn lemma_times_concat(a: Seq<u8>, b: Seq<u8>, x: u8)
    ensures
        times(a + b, x) == times(a, x) + times(b, x),
    decreases b.len(),
{
    if b.len() == 0 {
        assert(a + b =~= a);
    } else {
        lemma_times_concat(a, b.drop_last(), x);
        assert((a + b).drop_last() =~= a + b.drop_last());
    }
}

proof fn lemma_times_push(s: Seq<u8>, b: u8, x: u8)
    ensures
        times(s.push(b), x) == times(s, x) + times(seq![b], x),
{
    assert(s.push(b) =~= s + seq![b]);
    lemma_times_concat(s, seq![b], x);
}

/// This byte completes a second prefix behind a held one: the one key that is swallowed
/// without an action.
pub open spec fn doubles(m: Machine, b: u8) -> bool {
    m.state is Armed && if m.seq.len() > 0 {
        classified(m.seq.push(b), code_of(m.prefix)) == Sequence::Prefix
    } else {
        b == m.prefix && b != ESC
    }
}

/// How often `x` is on its way through: handed out, or still held.
spec fn through(m: Machine, out: Seq<Token>, x: u8) -> nat {
    times(bytes_in(out), x) + times(m.held(), x)
}

proof fn lemma_key_keeps_bytes(m: Machine, key: Seq<u8>, x: u8)
    requires
        m.wf(),
        m.seq.len() == 0,
    ensures
        through(m.on_key(key).0, m.on_key(key).1, x) == times(m.held(), x) + times(key, x),
        m.on_key(key).0.held() =~= Seq::<u8>::empty(),
        m.on_key(key).0.wf(),
        m.on_key(key).0.state == State::Idle,
        no_action(m.on_key(key).1) <==> !(m.state is Number),
{
    let (after, out) = m.on_key(key);
    assert(m.held() =~= m.armed);
    assert(after.held() =~= Seq::<u8>::empty());
    lemma_bytes_of_tokens(key);
    lemma_bytes_of_tokens(m.armed + key);
    lemma_times_concat(m.armed, key, x);
    if let State::Number(n) = m.state {
        let act = Token::Act(Action::Switch(n));
        lemma_bytes_in_small(act, act);
        lemma_bytes_in_concat(seq![act], tokens_of(key));
        assert(bytes_in(out) =~= key);
        assert(out[0] is Act);
    }
}

proof fn lemma_fresh_keeps_bytes(m: Machine, b: u8, x: u8)
    requires
        m.wf(),
        m.seq.len() == 0,
    ensures
        through(m.on_fresh(b).0, m.on_fresh(b).1, x) <= times(m.held(), x) + times(seq![b], x),
        no_action(m.on_fresh(b).1) && !doubles(m, b) && !(m.state is Number) && !(m.on_fresh(
            b,
        ).0.state is Number)
            ==> through(m.on_fresh(b).0, m.on_fresh(b).1, x) == times(m.held(), x) + times(
            seq![b],
            x,
        ),
{
    let (after, out) = m.on_fresh(b);
    let none = Seq::<u8>::empty();
    assert(m.held() =~= m.armed);
    assert(bytes_in(Seq::<Token>::empty()) =~= none);
    lemma_times_push(m.armed, b, x);
    lemma_bytes_of_tokens(m.armed);
    lemma_bytes_of_tokens(m.armed.push(b));
    lemma_bytes_in_small(Token::Byte(b), Token::Byte(b));
    if b == ESC {
        assert(after.held() =~= m.armed.push(b));
    } else {
        assert(after.held() =~= after.armed);
        if m.state is Armed && !(0x31 <= b <= 0x39) {
            if let Some(action) = command_of(b) {
                lemma_bytes_in_small(Token::Act(action), Token::Byte(b));
                assert(b != m.prefix ==> out[0] is Act);
            }
        }
        if m.state is Armed && 0x31 <= b <= 0x39 {
            let act = Token::Act(Action::Switch((b - 0x30) as u32));
            lemma_bytes_in_small(act, Token::Byte(b));
            if b != m.prefix && !(after.state is Number) {
                assert(out[0] is Act);
            }
        }
        if let State::Number(n) = m.state {
            lemma_bytes_in_small(Token::Act(Action::Switch(n)), Token::Byte(b));
            lemma_bytes_in_small(Token::Act(Action::Switch(wider(n, b))), Token::Byte(b));
        }
    }
}

/// What one byte does to the bytes on either side.
proof fn lemma_byte_keeps_bytes(m: Machine, b: u8, x: u8)
    requires
        m.wf(),
    ensures
        through(m.on_byte(b).0, m.on_byte(b).1, x) <= times(m.held(), x) + times(seq![b], x),
        no_action(m.on_byte(b).1) && !doubles(m, b) && !(m.state is Number) && !(m.on_byte(
            b,
        ).0.state is Number)
            ==> through(m.on_byte(b).0, m.on_byte(b).1, x) == times(m.held(), x) + times(
            seq![b],
            x,
        ),
{
    if m.seq.len() == 0 {
        lemma_fresh_keeps_bytes(m, b, x);
        return ;
    }
    let (after, out) = m.on_byte(b);
    let code = code_of(m.prefix);
    let none = Seq::<u8>::empty();
    let seq = m.seq.push(b);
    let rid = Machine { seq: none, ..m };
    assert(seq.drop_last() =~= m.seq);
    assert(rid.held() =~= m.armed);
    assert(bytes_in(Seq::<Token>::empty()) =~= none);
    lemma_other_leaves_one(seq, code);
    lemma_times_concat(m.armed, m.seq, x);
    lemma_times_push(m.seq, b, x);
    lemma_bytes_of_tokens(seq);
    lemma_bytes_of_tokens(m.armed);
    match classified(seq, code) {
        Sequence::Partial => {
            assert(after.held() =~= m.armed + seq);
            lemma_times_concat(m.armed, seq, x);
        },
        Sequence::Prefix => {
            assert(after.held() =~= after.armed);
            if let State::Number(n) = m.state {
                let act = Token::Act(Action::Switch(n));
                lemma_bytes_in_small(act, act);
                assert(out[0] is Act);
            }
        },
        Sequence::Release(c) => {
            assert(after.held() =~= after.armed);
            lemma_times_concat(m.armed, seq, x);
        },
        Sequence::Reply => {
            assert(after.held() =~= after.armed);
        },
        Sequence::Other(n) => {
            let key = seq.take(n as int);
            let (settled, first) = rid.on_key(key);
            lemma_key_keeps_bytes(rid, key, x);
            if n < seq.len() {
                assert(seq[n as int] == b);
                assert(key =~= m.seq);
                let (next, more) = settled.on_fresh(b);
                lemma_fresh_keeps_bytes(settled, b, x);
                lemma_bytes_in_concat(first, more);
                lemma_times_concat(bytes_in(first), bytes_in(more), x);
                if no_action(out) {
                    assert forall|i: int| 0 <= i < first.len() implies #[trigger] first[i]
                        is Byte by {
                        assert(out[i] == first[i]);
                    }
                    assert forall|i: int| 0 <= i < more.len() implies #[trigger] more[i]
                        is Byte by {
                        assert(out[first.len() + i] == more[i]);
                    }
                }
            } else {
                assert(key =~= seq);
            }
        },
    }
}

/// The machine invents nothing: whatever byte it hands out or still holds, it has been
/// given at least as often.
pub proof fn law_nothing_is_invented(m: Machine, input: Seq<u8>, x: u8)
    requires
        m.wf(),
    ensures
        times(bytes_in(m.run(input).1), x) + times(m.run(input).0.held(), x) <= times(m.held(), x)
            + times(input, x),
    decreases input.len(),
{
    if input.len() == 0 {
        assert(bytes_in(Seq::<Token>::empty()) =~= Seq::<u8>::empty());
    } else {
        let (before, out) = m.run(input.drop_last());
        let (after, more) = before.on_byte(input.last());
        law_nothing_is_invented(m, input.drop_last(), x);
        lemma_run_wf(m, input.drop_last());
        lemma_byte_keeps_bytes(before, input.last(), x);
        lemma_bytes_in_concat(out, more);
        lemma_times_concat(bytes_in(out), bytes_in(more), x);
        assert(input.drop_last().push(input.last()) =~= input);
        lemma_times_push(input.drop_last(), input.last(), x);
    }
}

/// Nothing is eaten: where no action came of the input, no number is being typed and no
/// prefix was doubled, every byte is handed out or still held.
pub proof fn law_nothing_is_eaten(m: Machine, input: Seq<u8>, x: u8)
    requires
        m.wf(),
        !(m.state is Number),
        !(m.run(input).0.state is Number),
        no_action(m.run(input).1),
        forall|i: int|
            0 <= i < input.len() ==> !doubles(m.run(#[trigger] input.take(i)).0, input[i]),
    ensures
        times(bytes_in(m.run(input).1), x) + times(m.run(input).0.held(), x) == times(m.held(), x)
            + times(input, x),
    decreases input.len(),
{
    if input.len() == 0 {
        assert(bytes_in(Seq::<Token>::empty()) =~= Seq::<u8>::empty());
    } else {
        let (before, out) = m.run(input.drop_last());
        let (after, more) = before.on_byte(input.last());
        let all = m.run(input).1;
        lemma_run_wf(m, input.drop_last());
        assert forall|i: int| 0 <= i < out.len() implies #[trigger] out[i] is Byte by {
            assert(all[i] == out[i]);
        }
        assert forall|i: int| 0 <= i < more.len() implies #[trigger] more[i] is Byte by {
            assert(all[out.len() + i] == more[i]);
        }
        if before.state is Number {
            lemma_number_ends_in_an_action(before, input.last());
        }
        let shorter = input.drop_last();
        assert forall|i: int| 0 <= i < shorter.len() implies !doubles(
            m.run(#[trigger] shorter.take(i)).0,
            shorter[i],
        ) by {
            assert(shorter.take(i) =~= input.take(i));
            assert(!doubles(m.run(input.take(i)).0, input[i]));
        }
        assert(input.take(input.len() - 1) =~= shorter);
        assert(!doubles(m.run(input.take(input.len() - 1)).0, input[input.len() - 1]));
        law_nothing_is_eaten(m, shorter, x);
        lemma_byte_keeps_bytes(before, input.last(), x);
        lemma_bytes_in_concat(out, more);
        lemma_times_concat(bytes_in(out), bytes_in(more), x);
        assert(input.drop_last().push(input.last()) =~= input);
        lemma_times_push(input.drop_last(), input.last(), x);
    }
}

/// This byte completes something that is no keystroke while the prefix is held back, so it
/// goes out ahead of the prefix: a reply, or the release of another key.
pub open spec fn overtakes(m: Machine, b: u8) -> bool {
    m.state is Armed && m.seq.len() > 0 && match classified(m.seq.push(b), code_of(m.prefix)) {
        Sequence::Reply => true,
        Sequence::Release(code) => code != code_of(m.prefix),
        _ => false,
    }
}

proof fn lemma_byte_keeps_order(m: Machine, b: u8)
    requires
        m.wf(),
        !overtakes(m, b),
        !doubles(m, b),
        !(m.state is Number),
        !(m.on_byte(b).0.state is Number),
        no_action(m.on_byte(b).1),
    ensures
        bytes_in(m.on_byte(b).1) + m.on_byte(b).0.held() == m.held().push(b),
{
    let (after, out) = m.on_byte(b);
    let code = code_of(m.prefix);
    let none = Seq::<u8>::empty();
    assert(bytes_in(Seq::<Token>::empty()) =~= none);
    lemma_bytes_of_tokens(m.armed);
    lemma_bytes_of_tokens(m.armed.push(b));
    lemma_bytes_in_small(Token::Byte(b), Token::Byte(b));
    if m.seq.len() == 0 {
        if b != ESC && b != m.prefix && m.state is Armed {
            assert(out.len() > 0 ==> out[0] is Byte);
        }
        assert(bytes_in(out) + after.held() =~= m.held().push(b));
    } else {
        let seq = m.seq.push(b);
        assert(seq.drop_last() =~= m.seq);
        lemma_other_leaves_one(seq, code);
        lemma_bytes_of_tokens(seq);
        if let Sequence::Other(n) = classified(seq, code) {
            let rid = Machine { seq: none, ..m };
            let key = seq.take(n as int);
            let (settled, first) = rid.on_key(key);
            lemma_bytes_of_tokens(key);
            lemma_bytes_of_tokens(m.armed + key);
            if n < seq.len() {
                assert(seq[n as int] == b);
                assert(key =~= m.seq);
                let (next, more) = settled.on_fresh(b);
                lemma_bytes_in_concat(first, more);
                assert(settled.armed =~= none);
                assert(bytes_in(more) + next.held() =~= seq![b]);
            } else {
                assert(key =~= seq);
            }
        }
        assert(bytes_in(out) + after.held() =~= m.held().push(b));
    }
}

/// Order is kept: where nothing overtakes a held prefix or doubles it, no action came of
/// the input and no number is being typed, what is handed out and what is still held is, in
/// order, what was held and what came in.
pub proof fn law_order_is_kept(m: Machine, input: Seq<u8>)
    requires
        m.wf(),
        !(m.state is Number),
        !(m.run(input).0.state is Number),
        no_action(m.run(input).1),
        forall|i: int|
            0 <= i < input.len() ==> !overtakes(m.run(#[trigger] input.take(i)).0, input[i])
                && !doubles(m.run(input.take(i)).0, input[i]),
    ensures
        bytes_in(m.run(input).1) + m.run(input).0.held() == m.held() + input,
    decreases input.len(),
{
    if input.len() == 0 {
        assert(bytes_in(Seq::<Token>::empty()) =~= Seq::<u8>::empty());
        assert(bytes_in(m.run(input).1) + m.run(input).0.held() =~= m.held() + input);
    } else {
        let shorter = input.drop_last();
        let (before, out) = m.run(shorter);
        let (after, more) = before.on_byte(input.last());
        let all = m.run(input).1;
        lemma_run_wf(m, shorter);
        assert forall|i: int| 0 <= i < out.len() implies #[trigger] out[i] is Byte by {
            assert(all[i] == out[i]);
        }
        assert forall|i: int| 0 <= i < more.len() implies #[trigger] more[i] is Byte by {
            assert(all[out.len() + i] == more[i]);
        }
        if before.state is Number {
            lemma_number_ends_in_an_action(before, input.last());
        }
        assert forall|i: int| 0 <= i < shorter.len() implies !overtakes(
            m.run(#[trigger] shorter.take(i)).0,
            shorter[i],
        ) && !doubles(m.run(shorter.take(i)).0, shorter[i]) by {
            assert(shorter.take(i) =~= input.take(i));
            assert(!overtakes(m.run(input.take(i)).0, input[i]));
        }
        law_order_is_kept(m, shorter);
        assert(input.take(input.len() - 1) =~= shorter);
        assert(!overtakes(m.run(input.take(input.len() - 1)).0, input[input.len() - 1]));
        lemma_byte_keeps_order(before, input.last());
        lemma_bytes_in_concat(out, more);
        assert(bytes_in(all) + after.held() =~= bytes_in(out) + (bytes_in(more) + after.held()));
        assert(bytes_in(out) + before.held().push(input.last()) =~= (bytes_in(out)
            + before.held()).push(input.last()));
        assert(bytes_in(all) + after.held() =~= m.held() + input);
    }
}

/// Text passes straight through: without the prefix byte and without `ESC`, an idle machine
/// hands out exactly what came in, and stays as it was.
pub proof fn law_ordinary_bytes_pass_through(m: Machine, input: Seq<u8>)
    requires
        m.state == State::Idle,
        m.seq.len() == 0,
        forall|i: int| 0 <= i < input.len() ==> input[i] != ESC && input[i] != m.prefix,
    ensures
        m.run(input) == (m, tokens_of(input)),
    decreases input.len(),
{
    if input.len() == 0 {
        assert(tokens_of(input) =~= Seq::<Token>::empty());
    } else {
        let shorter = input.drop_last();
        assert forall|i: int| 0 <= i < shorter.len() implies shorter[i] != ESC && shorter[i]
            != m.prefix by {
            assert(shorter[i] == input[i]);
        }
        law_ordinary_bytes_pass_through(m, shorter);
        assert(input[input.len() - 1] == input.last());
        assert(m.run(input).1 =~= tokens_of(input));
    }
}

/// The prefix twice is one literal prefix: the first one, in the spelling it came in, the
/// reports that joined it and all; the second is swallowed.
pub proof fn law_doubled_prefix_is_one_literal_prefix(
    m: Machine,
    first: Seq<u8>,
    second: Seq<u8>,
)
    requires
        m.state == State::Idle,
    ensures
        m.on_prefix(first).1 == Seq::<Token>::empty(),
        m.on_prefix(first).0.on_prefix(second) == (m.idle(), tokens_of(first)),
{
}

/// A command reaches nobody but the caller: after the prefix, its key gives the action and
/// no byte, and the machine is idle again.
pub proof fn law_commands_forward_nothing(m: Machine, b: u8)
    requires
        m.state == State::Armed,
        m.seq.len() == 0,
        b != ESC,
        b != m.prefix,
        !(0x31 <= b <= 0x39),
        command_of(b) is Some,
    ensures
        m.on_byte(b) == (m.idle(), seq![Token::Act(command_of(b)->0)]),
{
}

/// A timeout settles everything: nothing is pending after it, everything that was held has
/// been handed out in order, and a second one does nothing.
pub proof fn law_timeout_settles_everything(m: Machine)
    requires
        m.wf(),
    ensures
        m.expired().0.state == State::Idle,
        m.expired().0.held() == Seq::<u8>::empty(),
        bytes_in(m.expired().1) == m.held(),
        m.expired().0.expired() == (m.expired().0, Seq::<Token>::empty()),
{
    let rid = Machine { seq: Seq::empty(), ..m };
    let (after, out) = m.expired();
    lemma_key_keeps_bytes(rid, m.seq, 0);
    lemma_bytes_of_tokens(m.seq);
    lemma_bytes_of_tokens(m.held());
    assert(after.held() =~= Seq::<u8>::empty());
    assert(after.armed =~= Seq::<u8>::empty());
    if let State::Number(n) = m.state {
        let act = Token::Act(Action::Switch(n));
        lemma_bytes_in_small(act, act);
        lemma_bytes_in_concat(seq![act], tokens_of(m.seq));
    }
    assert(bytes_in(out) =~= m.held());
    assert(after.seq =~= Seq::<u8>::empty());
    assert(tokens_of(after.seq) =~= Seq::<Token>::empty());
    assert(after.expired().0 =~= after);
}

/// Instructions and tokens say the same: instructions that are coalesced are determined by
/// the tokens they flatten to.
pub proof fn law_coalesced_steps_are_unique(a: Seq<Step>, b: Seq<Step>)
    requires
        coalesced(a),
        coalesced(b),
        flat(a) == flat(b),
    ensures
        a.len() == b.len(),
        forall|i: int|
            0 <= i < a.len() ==> #[trigger] step_tokens(a[i]) == step_tokens(b[i]),
    decreases a.len(),
{
    lemma_flat_len(a);
    lemma_flat_len(b);
    if a.len() > 0 && b.len() > 0 {
        lemma_last_steps_agree(a, b);
        let a0 = a.drop_last();
        let b0 = b.drop_last();
        let n = flat(a).len() - step_tokens(a.last()).len();
        assert(flat(a0) =~= flat(a).take(n));
        assert(flat(b0) =~= flat(b).take(n));
        assert(coalesced(a0)) by {
            assert forall|i: int| 0 <= i < a0.len() implies (#[trigger] a0[i] matches Step::Forward(
                x,
            ) ==> x@.len() > 0) by {
                assert(a0[i] == a[i]);
            }
        }
        assert(coalesced(b0)) by {
            assert forall|i: int| 0 <= i < b0.len() implies (#[trigger] b0[i] matches Step::Forward(
                x,
            ) ==> x@.len() > 0) by {
                assert(b0[i] == b[i]);
            }
        }
        law_coalesced_steps_are_unique(a0, b0);
        assert forall|i: int| 0 <= i < a.len() implies #[trigger] step_tokens(a[i]) == step_tokens(
            b[i],
        ) by {
            if i < a0.len() {
                assert(step_tokens(a0[i]) == step_tokens(b0[i]));
            }
        }
    }
}

proof fn lemma_flat_len(a: Seq<Step>)
    requires
        coalesced(a),
    ensures
        a.len() > 0 ==> flat(a).len() > 0,
{
    if a.len() > 0 {
        let last = a[a.len() - 1];
        assert(a.last() == last);
        assert(step_tokens(last).len() > 0);
    }
}

/// Where the last write begins: the tokens behind the last action are the bytes of one write.
proof fn lemma_last_steps_agree(a: Seq<Step>, b: Seq<Step>)
    requires
        a.len() > 0,
        b.len() > 0,
        coalesced(a),
        coalesced(b),
        flat(a) == flat(b),
    ensures
        step_tokens(a.last()) == step_tokens(b.last()),
{
    let t = flat(a);
    let la = step_tokens(a.last());
    let lb = step_tokens(b.last());
    assert(a.last() == a[a.len() - 1] && b.last() == b[b.len() - 1]);
    assert(la.len() > 0 && lb.len() > 0);
    assert(t.last() == la.last());
    assert(t.last() == lb.last());
    if a.last() is Forward {
        assert(la.last() is Byte);
        assert(b.last() is Forward);
        if la.len() < lb.len() {
            lemma_before_last_write(a);
            assert(t[t.len() - la.len() - 1] == lb[lb.len() - la.len() - 1]);
        } else if lb.len() < la.len() {
            lemma_before_last_write(b);
            assert(t[t.len() - lb.len() - 1] == la[la.len() - lb.len() - 1]);
        }
        assert(la =~= t.skip(t.len() - la.len()));
        assert(lb =~= t.skip(t.len() - lb.len()));
    } else {
        assert(lb.last() is Act);
        assert(b.last() is Act);
        assert(la =~= lb);
    }
}

proof fn lemma_before_last_write(a: Seq<Step>)
    requires
        a.len() > 0,
        coalesced(a),
        a.last() is Forward,
        flat(a).len() > step_tokens(a.last()).len(),
    ensures
        flat(a)[flat(a).len() - step_tokens(a.last()).len() - 1] is Act,
{
    let before = a.drop_last();
    assert(flat(before).len() > 0);
    assert(before.len() > 0);
    assert(before.last() == a[a.len() - 2]);
    assert(a.last() == a[a.len() - 1]);
    assert(before.last() is Act);
    assert(flat(before).last() is Act);
}

/// The number that these bytes, read as decimal digits, spell.
pub open spec fn digits_spell(digits: Seq<u8>) -> nat
    decreases digits.len(),
{
    if digits.len() == 0 {
        0
    } else {
        digits_spell(digits.drop_last()) * 10 + (digits.last() - 0x30) as nat
    }
}

/// The bytes of a number as it is typed: decimal digits, at least one, the first not zero.
pub open spec fn typed_number(digits: Seq<u8>) -> bool {
    &&& digits.len() > 0
    &&& digits[0] != 0x30
    &&& forall|i: int| 0 <= i < digits.len() ==> 0x30 <= #[trigger] digits[i] <= 0x39
}

proof fn lemma_digits_spell_something(digits: Seq<u8>)
    requires
        typed_number(digits),
    ensures
        digits_spell(digits) > 0,
    decreases digits.len(),
{
    let shorter = digits.drop_last();
    assert(digits.last() == digits[digits.len() - 1]);
    if shorter.len() > 0 {
        assert forall|i: int| 0 <= i < shorter.len() implies 0x30 <= #[trigger] shorter[i]
            <= 0x39 by {
            assert(shorter[i] == digits[i]);
        }
        assert(shorter[0] == digits[0]);
        lemma_digits_spell_something(shorter);
    } else {
        assert(digits_spell(shorter) == 0);
    }
}

/// Digits typed after the prefix read as the decimal number they spell. For a number up to the
/// highest, exactly the switch to that session comes of them: at once where no longer number
/// could name a session, and otherwise when Enter comes or the wait passes.
pub proof fn law_digits_reach_the_session_they_spell(m: Machine, digits: Seq<u8>)
    requires
        m.state == State::Armed,
        m.seq.len() == 0,
        !(0x30 <= m.prefix <= 0x39),
        m.prefix != 0x0d,
        typed_number(digits),
        digits_spell(digits) <= m.highest,
    ensures
        ({
            let switch = seq![Token::Act(Action::Switch(digits_spell(digits) as u32))];
            let (end, out) = m.run(digits);
            if digits_spell(digits) * 10 > m.highest {
                out == switch && end == m.idle()
            } else {
                &&& out == Seq::<Token>::empty()
                &&& end.state == State::Number(digits_spell(digits) as u32)
                &&& end.on_byte(0x0d) == (m.idle(), switch)
                &&& end.expired().1 == switch
                &&& end.expired().0 == m.idle()
            }
        }),
    decreases digits.len(),
{
    let n = digits_spell(digits);
    let shorter = digits.drop_last();
    let b = digits.last();
    assert(b == digits[digits.len() - 1]);
    lemma_digits_spell_something(digits);
    let switch = seq![Token::Act(Action::Switch(n as u32))];
    let (end, out) = m.run(digits);
    assert(m.run(Seq::empty()) == (m, Seq::<Token>::empty()));
    if shorter.len() == 0 {
        assert(shorter =~= Seq::<u8>::empty());
        assert(digits_spell(shorter) == 0);
        assert(n == b - 0x30);
    } else {
        assert forall|i: int| 0 <= i < shorter.len() implies 0x30 <= #[trigger] shorter[i]
            <= 0x39 by {
            assert(shorter[i] == digits[i]);
        }
        assert(shorter[0] == digits[0]);
        law_digits_reach_the_session_they_spell(m, shorter);
        assert(digits_spell(shorter) * 10 <= n);
    }
    assert(tokens_of(Seq::<u8>::empty()) =~= Seq::<Token>::empty());
    if n * 10 > m.highest {
        assert(out =~= switch);
        assert(end =~= m.idle());
    } else {
        assert(out =~= Seq::<Token>::empty());
        assert(end.seq =~= Seq::<u8>::empty());
        assert(end.on_byte(0x0d).0 =~= m.idle());
        assert(end.on_byte(0x0d).1 =~= switch);
        assert(end.expired().1 =~= switch);
        assert(end.expired().0 =~= m.idle());
    }
}

/// A further digit makes a number ten times what it was and the digit, and where no longer one
/// could name a session that session is switched to at once.
pub proof fn law_a_number_past_the_highest_is_taken_at_once(m: Machine, n: u32, b: u8)
    requires
        m.state == State::Number(n),
        m.seq.len() == 0,
        0x30 <= b <= 0x39,
        b != m.prefix,
        n * 10 + (b - 0x30) <= u32::MAX,
        (n * 10 + (b - 0x30)) * 10 > m.highest,
    ensures
        m.on_byte(b).1 == seq![Token::Act(Action::Switch((n * 10 + (b - 0x30)) as u32))],
        m.on_byte(b).0.state == State::Idle,
{
    assert(m.on_byte(b).1 =~= seq![Token::Act(Action::Switch((n * 10 + (b - 0x30)) as u32))]);
}

/// The keys after the prefix do what the help says: space opens the picker, `d` detaches, `c`
/// creates, `n` and `p` step on and back, `?` shows the help, a digit from 1 begins a number,
/// and every other key is no command: it goes through behind the prefix that was held back.
pub proof fn law_the_keys_after_the_prefix(m: Machine, b: u8)
    requires
        m.state == State::Armed,
        m.seq.len() == 0,
        b != 0x1b,
        b != m.prefix,
    ensures
        ({
            let out = m.on_byte(b).1;
            &&& b == 0x20 ==> out == seq![Token::Act(Action::Picker)]
            &&& b == 0x64 ==> out == seq![Token::Act(Action::Detach)]
            &&& b == 0x63 ==> out == seq![Token::Act(Action::Create)]
            &&& b == 0x6e ==> out == seq![Token::Act(Action::Cycle(Direction::Next))]
            &&& b == 0x70 ==> out == seq![Token::Act(Action::Cycle(Direction::Prev))]
            &&& b == 0x3f ==> out == seq![Token::Act(Action::Help)]
            &&& 0x31 <= b <= 0x39 ==> bytes_in(out) == Seq::<u8>::empty()
            &&& !(b == 0x20 || b == 0x64 || b == 0x63 || b == 0x6e || b == 0x70 || b == 0x3f || (
            0x31 <= b <= 0x39)) ==> no_action(out) && bytes_in(out) == m.armed.push(b)
                && m.on_byte(b).0 == m.idle()
        }),
{
    reveal_with_fuel(row_action, 7);
    let out = m.on_byte(b).1;
    lemma_bytes_of_tokens(m.armed.push(b));
    if 0x31 <= b <= 0x39 {
        let act = Token::Act(Action::Switch((b - 0x30) as u32));
        lemma_bytes_in_small(act, act);
        assert(bytes_in(Seq::<Token>::empty()) =~= Seq::<u8>::empty());
    }
}

/// A key that is no digit and not Enter ends a number and is then a key like any other: the
/// switch comes first, and after it exactly what an idle machine makes of the key.
pub proof fn law_a_key_behind_a_number_is_its_own(m: Machine, n: u32, b: u8)
    requires
        m.wf(),
        m.state == State::Number(n),
        m.seq.len() == 0,
        !(0x30 <= b <= 0x39),
        b != 0x0d,
        b != 0x1b,
    ensures
        m.on_byte(b).0 == m.idle().on_byte(b).0,
        m.on_byte(b).1 == seq![Token::Act(Action::Switch(n))] + m.idle().on_byte(b).1,
{
    assert(m.armed =~= Seq::<u8>::empty());
    assert(m.on_byte(b).0 =~= m.idle().on_byte(b).0);
    assert(m.on_byte(b).1 =~= seq![Token::Act(Action::Switch(n))] + m.idle().on_byte(b).1);
}

/// A prefix that nothing follows is a literal one: once the wait has passed, its bytes have
/// gone through as they came.
pub proof fn law_a_lone_prefix_is_typed(m: Machine)
    requires
        m.state == State::Idle,
        m.seq.len() == 0,
        m.prefix != 0x1b,
    ensures
        ({
            let (armed, out) = m.on_byte(m.prefix);
            &&& out == Seq::<Token>::empty()
            &&& armed.state == State::Armed
            &&& no_action(armed.expired().1)
            &&& bytes_in(armed.expired().1) == seq![m.prefix]
            &&& armed.expired().0.state == State::Idle
        }),
{
    let (armed, out) = m.on_byte(m.prefix);
    assert(armed.armed + armed.seq =~= seq![m.prefix]);
    lemma_bytes_of_tokens(seq![m.prefix]);
}

/// A letter with `C-` or `Ctrl-` in front, in either case, is the control byte of its place in
/// the alphabet, unless it is one of the four that mean something else; those are refused.
pub proof fn law_a_letter_means_its_control_byte(place: u8)
    requires
        1 <= place <= 26,
    ensures
        ({
            let small = (0x60 + place) as char;
            let large = (0x40 + place) as char;
            let taken = place == 8 || place == 9 || place == 10 || place == 13;
            let means = |s: Seq<char>|
                if taken {
                    prefix_meant(s) is Err
                } else {
                    prefix_meant(s) == Ok::<u8, Seq<char>>(place)
                };
            &&& means(seq!['C', '-', small])
            &&& means(seq!['c', '-', large])
            &&& means(seq!['C', 't', 'r', 'l', '-', small])
            &&& means(seq!['c', 't', 'r', 'l', '-', large])
        }),
{
    reveal_strlit("ctrl-");
    reveal_strlit("c-");
    reveal_strlit("space");
    let small = (0x60 + place) as char;
    let large = (0x40 + place) as char;
    assert(lower(large) == small);
    let a = seq!['C', '-', small];
    let b = seq!['c', '-', large];
    let c = seq!['C', 't', 'r', 'l', '-', small];
    let d = seq!['c', 't', 'r', 'l', '-', large];
    crate::text::lemma_trimmed_is_itself(a);
    crate::text::lemma_trimmed_is_itself(b);
    crate::text::lemma_trimmed_is_itself(c);
    crate::text::lemma_trimmed_is_itself(d);
    assert(lowered(a)[1] == '-' && lowered(b)[1] == '-');
    assert(lowered(a).take(2) =~= "c-"@ && lowered(b).take(2) =~= "c-"@);
    assert(lowered(c).take(5) =~= "ctrl-"@ && lowered(d).take(5) =~= "ctrl-"@);
    assert(lowered(a).skip(2) =~= seq![small] && lowered(b).skip(2) =~= seq![small]);
    assert(lowered(c).skip(5) =~= seq![small] && lowered(d).skip(5) =~= seq![small]);
    assert(seq![small].len() == 1);
}

/// There is something to wait for exactly while something is held back or half typed: after the
/// prefix a command, after an escape the rest of its sequence, and after a timeout nothing. What
/// is half typed is a command behind the prefix, and behind digits the number they spell.
pub proof fn law_a_wait_is_for_what_is_unfinished(m: Machine, b: u8)
    requires
        m.wf(),
    ensures
        m.waits() is None <==> m.state == State::Idle && m.seq.len() == 0,
        m.expired().0.waits() is None && m.expired().0.half_typed() is None,
        m.half_typed() is None <==> m.state == State::Idle,
        m.seq.len() == 0 ==> m.on_byte(0x1b).0.waits() == Some(Wait::Sequence),
        m.waits() is None && m.prefix != 0x1b ==> {
            let armed = m.on_byte(m.prefix).0;
            &&& armed.waits() == Some(Wait::Command)
            &&& armed.half_typed() == Some(Pending::Command)
            &&& 0x31 <= b <= 0x39 && b != m.prefix && (b - 0x30) * 10 <= m.highest
                ==> armed.on_byte(b).0.half_typed() == Some(Pending::Number((b - 0x30) as u32))
                && armed.on_byte(b).0.waits() == Some(Wait::Command)
        },
        m.waits() is None && b != m.prefix && b != 0x1b ==> m.on_byte(b).0.waits() is None,
{
    law_timeout_settles_everything(m);
    let after = m.expired().0;
    assert(after.held() =~= after.armed + after.seq);
    assert(after.seq.len() <= after.held().len());
}

/// However the prefix is spelled, it is the prefix: a sequence that reports it does what its
/// control byte does, and the spelling it came in is what is held.
pub proof fn law_every_spelling_is_the_prefix(m: Machine, b: u8)
    requires
        m.wf(),
        m.seq.len() > 0,
        classified(m.seq.push(b), code_of(m.prefix)) == Sequence::Prefix,
    ensures
        ({
            let spelled = m.seq.push(b);
            let (next, out) = m.on_byte(b);
            &&& next.seq == Seq::<u8>::empty()
            &&& m.state == State::Idle ==> next.state == State::Armed && next.armed == spelled
                && out == Seq::<Token>::empty()
            &&& m.state == State::Armed ==> next.state == State::Idle && no_action(out)
                && bytes_in(out) == m.armed
            &&& m.state matches State::Number(n) ==> next.state == State::Armed && next.armed
                == spelled && out == seq![Token::Act(Action::Switch(n))]
        }),
{
    lemma_bytes_of_tokens(m.armed);
}

/// Reports that are no keystrokes change nothing and go through as they came: replies, and
/// releases but for that of a prefix that is held back, which stays with its press.
pub proof fn law_reports_are_no_keystrokes(m: Machine, b: u8)
    requires
        m.wf(),
        m.seq.len() > 0,
    ensures
        ({
            let report = m.seq.push(b);
            let (next, out) = m.on_byte(b);
            match classified(report, code_of(m.prefix)) {
                Sequence::Reply => next == (Machine { seq: Seq::empty(), ..m }) && no_action(out)
                    && bytes_in(out) == report,
                Sequence::Release(code) => if m.state == State::Armed && code == code_of(m.prefix) {
                    &&& next == Machine { seq: Seq::empty(), armed: m.armed + report, ..m }
                    &&& out == Seq::<Token>::empty()
                } else {
                    &&& next == Machine { seq: Seq::empty(), ..m }
                    &&& no_action(out) && bytes_in(out) == report
                },
                _ => true,
            }
        }),
{
    lemma_bytes_of_tokens(m.seq.push(b));
}

/// A terminal reports a chord under the code of its letter, and `Ctrl-Space` under that of the
/// space bar.
pub proof fn law_a_chord_is_reported_under_its_letter(byte: u8)
    requires
        byte <= 26,
    ensures
        byte == 0 ==> code_of(byte) == 0x20,
        1 <= byte <= 26 ==> code_of(byte) == 0x60 + byte,
{
    assert(1 <= byte <= 26 ==> byte | 0x60 == byte + 0x60) by (bit_vector);
}

/// A key is spelled as itself, but for the space bar, which has a name and, on a row of hints, a
/// glyph.
pub proof fn law_a_key_is_spelled_as_itself(byte: u8)
    ensures
        byte == 0x20 ==> key_name(byte) == "Space"@ && glyph(byte) == "␣"@,
        byte != 0x20 ==> key_name(byte) == seq![byte as char] && glyph(byte) == seq![byte as char],
{
}

/// Every command has a key of its own that can be typed, and no digit is one.
pub proof fn law_every_command_has_its_own_key(i: int, j: int)
    requires
        0 <= i < table().len(),
        0 <= j < table().len(),
    ensures
        table().len() == 6,
        table()[i].key == table()[j].key ==> i == j,
        0x20 <= table()[i].key <= 0x7e,
        !(0x30 <= table()[i].key <= 0x39),
        command_of(table()[i].key) == Some(table()[i].action),
{
    reveal_with_fuel(row_action, 7);
    assert(i == 0 || i == 1 || i == 2 || i == 3 || i == 4 || i == 5);
    assert(j == 0 || j == 1 || j == 2 || j == 3 || j == 4 || j == 5);
}

} // verus!
