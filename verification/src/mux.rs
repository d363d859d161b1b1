//! One connection carrying many streams: the near end of the relay.
//!
//! A frame is a kind (one byte), a channel (four bytes, the most significant first), a length
//! (four more) and that many bytes. This end opens every channel and picks its number; the
//! relay answers [`OPENED`] or [`REFUSED`]. [`DATA`] goes both ways; [`STDERR`], [`EOF`] and
//! [`EXIT`] only come back, from shells. [`CLOSE`] from either side ends a channel.
//!
//! Each channel's traffic, each way, is bounded by [`WINDOW`]: a side may have that many bytes
//! of a channel sent and not yet taken, and a [`CREDIT`] frame hands more back as they are.

use vstd::prelude::*;

use crate::bytes::{equal, extend};
use crate::clock::{elapsed, passed, Duration, Instant};
use crate::error::{signed, signed_text, NvimError, NvmuxError, SessionError, SshError};
use crate::nvim::{check_banner, version_in, MIN_VERSION};
use crate::proc::{Ready, Streams};
use crate::text::{
    after_last, chars_of, decimal, decoded, equal_text, find_after_last, first_word, int32,
    law_the_first_word_ends_at_white_space, law_whole_numbers_read_back, lemma_after_last,
    lemma_decimal_reads_back, lemma_trimmed_is_itself, lossy, lossy_text, next_word, parse_integer,
    parse_number, spelled_number, starts, starts_with, string_of, trim, trim_end, trim_tail,
    trimmed, utf8, white_space,
};

verus! {

/// The protocol's version, which the relay's first line carries.
pub const VERSION: u32 = 1;

/// The version as that line spells it.
pub const VERSION_TEXT: &'static str = "1";

/// Opens a connection to a socket on the far side.
pub const OPEN_SOCKET: u8 = 1;

/// Starts a shell on the far side.
pub const OPEN_SHELL: u8 = 2;

/// A channel was opened; a shell's process number follows.
pub const OPENED: u8 = 3;

/// A channel was not opened; the reason follows.
pub const REFUSED: u8 = 4;

/// Bytes of a channel.
pub const DATA: u8 = 5;

/// Bytes of a shell's error stream.
pub const STDERR: u8 = 6;

/// The end of one direction.
pub const EOF: u8 = 7;

/// The end of a channel.
pub const CLOSE: u8 = 8;

/// How a shell ended.
pub const EXIT: u8 = 9;

/// Room for more bytes.
pub const CREDIT: u8 = 10;

/// A signal for a shell.
pub const KILL: u8 = 11;

/// How many bytes of one channel may be on their way, one way, without having been taken yet.
pub const WINDOW: u64 = 262144;

/// How much has to have been taken before it is credited back.
pub const CREDIT_DUE: u64 = 131072;

/// The most one [`DATA`] frame carries from this end.
pub const MAX_CHUNK: usize = 32768;

/// The largest payload accepted from the relay.
pub const MAX_FRAME: usize = 1048576;

/// How long a channel waits to be opened.
pub const OPEN_TIMEOUT: Duration = 10_000_000_000;

/// How long a shell that has been told to go gets to report its exit.
pub const EXIT_WAIT: Duration = 2_000_000_000;

/// How much of what the connection says on its error stream is kept: the end of it.
pub const STDERR_TAIL: usize = 16384;

/// The bytes of a number, the most significant first.
pub open spec fn big_endian(n: u32) -> Seq<u8> {
    seq![
        (n as int / 0x100_0000) as u8,
        (n as int / 0x1_0000 % 0x100) as u8,
        (n as int / 0x100 % 0x100) as u8,
        (n as int % 0x100) as u8,
    ]
}

/// The number four bytes spell, the most significant first.
pub open spec fn number_in(b: Seq<u8>, at: int) -> u32 {
    (b[at] * 0x100_0000 + b[at + 1] * 0x1_0000 + b[at + 2] * 0x100 + b[at + 3]) as u32
}

/// A frame, as it goes over the connection.
pub open spec fn framed(kind: u8, id: u32, payload: Seq<u8>) -> Seq<u8> {
    seq![kind] + big_endian(id) + big_endian(payload.len() as u32) + payload
}

/// Puts the bytes of a number behind `out`.
fn put_big_endian(out: &mut Vec<u8>, n: u32)
    ensures
        final(out)@ == old(out)@ + big_endian(n),
{
    let ghost before = out@;
    out.push((n / 0x100_0000) as u8);
    out.push((n / 0x1_0000 % 0x100) as u8);
    out.push((n / 0x100 % 0x100) as u8);
    out.push((n % 0x100) as u8);
    assert(out@ =~= before + big_endian(n));
}

/// One frame, to be written whole so that frames never interleave.
pub fn frame(kind: u8, id: u32, payload: &[u8]) -> (r: Vec<u8>)
    requires
        payload@.len() <= u32::MAX,
    ensures
        r@ == framed(kind, id, payload@),
{
    let mut out: Vec<u8> = Vec::new();
    out.push(kind);
    put_big_endian(&mut out, id);
    put_big_endian(&mut out, payload.len() as u32);
    extend(&mut out, payload);
    assert(out@ =~= framed(kind, id, payload@));
    out
}

/// What a [`CREDIT`] frame for this many bytes carries.
pub fn credit(n: u32) -> (r: Vec<u8>)
    ensures
        r@ == big_endian(n),
{
    let mut out: Vec<u8> = Vec::new();
    put_big_endian(&mut out, n);
    assert(out@ =~= big_endian(n));
    out
}

/// The front of a frame.
#[derive(Clone, Copy, Debug, PartialEq, Eq, Structural)]
pub struct Header {
    pub kind: u8,
    pub id: u32,
    pub len: u32,
}

/// What nine bytes say as the front of a frame.
pub open spec fn header_in(b: Seq<u8>) -> Header {
    Header { kind: b[0], id: number_in(b, 1), len: number_in(b, 5) }
}

fn read_number(b: &[u8; 9], at: usize) -> (r: u32)
    requires
        at <= 5,
    ensures
        r == number_in(b@, at as int),
{
    let n: u64 = b[at] as u64 * 0x100_0000 + b[at + 1] as u64 * 0x1_0000 + b[at + 2] as u64 * 0x100
        + b[at + 3] as u64;
    n as u32
}

/// The front of a frame, or nothing if its payload is too large to be the relay's: the
/// connection is then not the relay's at all.
pub fn header(bytes: &[u8; 9]) -> (r: Option<Header>)
    ensures
        r == if header_in(bytes@).len > MAX_FRAME {
            None
        } else {
            Some(header_in(bytes@))
        },
{
    let front: Header = Header {
        kind: bytes[0],
        id: read_number(bytes, 1),
        len: read_number(bytes, 5),
    };
    if front.len > MAX_FRAME as u32 {
        None
    } else {
        Some(front)
    }
}

proof fn lemma_number_reads_back(n: u32, b: Seq<u8>, at: int)
    requires
        0 <= at,
        at + 4 <= b.len(),
        b.subrange(at, at + 4) == big_endian(n),
    ensures
        number_in(b, at) == n,
{
    let s = b.subrange(at, at + 4);
    assert(s[0] == b[at] && s[1] == b[at + 1] && s[2] == b[at + 2] && s[3] == b[at + 3]);
}

/// A frame reads back as it was written: its front gives the kind, the channel and the length,
/// and the payload follows.
pub proof fn law_a_frame_reads_back(kind: u8, id: u32, payload: Seq<u8>)
    requires
        payload.len() <= u32::MAX,
    ensures
        framed(kind, id, payload).len() == 9 + payload.len(),
        header_in(framed(kind, id, payload).take(9)) == (Header {
            kind,
            id,
            len: payload.len() as u32,
        }),
        framed(kind, id, payload).skip(9) == payload,
{
    let all = framed(kind, id, payload);
    let front = all.take(9);
    assert(front.subrange(1, 5) =~= big_endian(id));
    assert(front.subrange(5, 9) =~= big_endian(payload.len() as u32));
    lemma_number_reads_back(id, front, 1);
    lemma_number_reads_back(payload.len() as u32, front, 5);
    assert(all.skip(9) =~= payload);
}

/// What `"<code> <signal>"` says of how a shell ended: the code, or -1 for one that a signal
/// ended or that says nothing readable.
pub open spec fn exit_in(text: Seq<char>) -> i32 {
    match first_word(text) {
        None => -1i32,
        Some((word, rest)) => {
            let signal = match first_word(rest) {
                Some((second, _)) => match int32(second) {
                    Some(n) => n,
                    None => 0i32,
                },
                None => 0i32,
            };
            match int32(word) {
                Some(code) => if signal == 0 {
                    code
                } else {
                    -1i32
                },
                None => -1i32,
            }
        },
    }
}

/// What a text says of how a shell ended.
pub fn exit_text(text: &str) -> (r: i32)
    ensures
        r == exit_in(text@),
{
    let s: Vec<char> = chars_of(text);
    assert(s@.skip(0) =~= s@);
    match next_word(&s, 0) {
        None => -1,
        Some((start, end)) => {
            let word: &[char] = vstd::slice::slice_subrange(&s, start, end);
            let signal: i32 = match next_word(&s, end) {
                Some((start, end)) => match parse_integer(
                    vstd::slice::slice_subrange(&s, start, end),
                ) {
                    Some(n) => n,
                    None => 0,
                },
                None => 0,
            };
            match parse_integer(word) {
                Some(code) => if signal == 0 {
                    code
                } else {
                    -1
                },
                None => -1,
            }
        },
    }
}

/// `"<code> <signal>"`, as the relay reports an exit: the code, or -1 for a shell a signal
/// ended, as a child here reports one.
pub fn exit_status(payload: &[u8]) -> (r: i32)
    ensures
        r == exit_in(lossy_text(payload@)),
{
    let text: String = lossy(payload);
    exit_text(text.as_str())
}

/// The process number an [`OPENED`] frame carries; 0 where it carries none.
pub open spec fn pid_in(payload: Seq<u8>) -> u32 {
    if vstd::utf8::valid_utf8(payload) {
        match spelled_number(trimmed(vstd::utf8::decode_utf8(payload))) {
            Some(n) => if n <= u32::MAX {
                n as u32
            } else {
                0
            },
            None => 0,
        }
    } else {
        0
    }
}

fn read_pid(payload: &[u8]) -> (r: u32)
    ensures
        r == pid_in(payload@),
{
    match decoded(payload) {
        None => 0,
        Some(text) => {
            let s: Vec<char> = chars_of(text.as_str());
            match parse_number(trim(&s)) {
                Some(n) => if n <= u32::MAX as u64 {
                    n as u32
                } else {
                    0
                },
                None => 0,
            }
        },
    }
}

/// The name of a shell's error stream: `err`.
pub open spec fn error_stream() -> Seq<u8> {
    seq![101u8, 114u8, 114u8]
}

/// The sum, or the largest number where it does not fit.
pub open spec fn plus(a: u64, b: int) -> u64 {
    if a + b > u64::MAX {
        u64::MAX
    } else {
        (a + b) as u64
    }
}

/// One channel's state, as a value.
#[verifier::ext_equal]
pub struct Wire {
    pub opened: Option<Result<u32, Seq<char>>>,
    pub out: Seq<u8>,
    pub out_eof: bool,
    pub err: Seq<u8>,
    pub err_eof: bool,
    pub exit: Option<i32>,
    pub closed: bool,
    pub window: u64,
    pub unacked: u64,
}

/// One channel's state.
struct ChanState {
    /// Nothing while the relay has not answered the open; then what it said.
    opened: Option<Result<u32, String>>,
    out: Vec<u8>,
    out_eof: bool,
    err: Vec<u8>,
    err_eof: bool,
    /// A shell's exit status, -1 for a signal.
    exit: Option<i32>,
    /// The channel is over: the relay closed it, refused it, or the link went.
    closed: bool,
    /// What may still be sent before a credit comes back.
    window: u64,
    /// What has been taken here and not yet credited back to the relay.
    unacked: u64,
}

impl View for ChanState {
    type V = Wire;

    closed spec fn view(&self) -> Wire {
        Wire {
            opened: match self.opened {
                None => None,
                Some(Ok(pid)) => Some(Ok(pid)),
                Some(Err(why)) => Some(Err(why@)),
            },
            out: self.out@,
            out_eof: self.out_eof,
            err: self.err@,
            err_eof: self.err_eof,
            exit: self.exit,
            closed: self.closed,
            window: self.window,
            unacked: self.unacked,
        }
    }
}

/// Which of a channel's two incoming streams a read takes from.
#[derive(Clone, Copy, Debug, PartialEq, Eq, Structural)]
pub enum Stream {
    Output,
    Errors,
}

impl Wire {
    /// A channel that was just asked for.
    pub open spec fn fresh() -> Wire {
        Wire {
            opened: None,
            out: Seq::empty(),
            out_eof: false,
            err: Seq::empty(),
            err_eof: false,
            exit: None,
            closed: false,
            window: WINDOW,
            unacked: 0,
        }
    }

    /// Over: nothing more will arrive, and nothing more may be sent. An open that was not
    /// answered is answered with the reason.
    pub open spec fn ended(self, why: Seq<char>) -> Wire {
        Wire {
            opened: match self.opened {
                None => Some(Err(why)),
                answered => answered,
            },
            closed: true,
            out_eof: true,
            err_eof: true,
            ..self
        }
    }

    /// After a frame of the relay's.
    pub open spec fn delivered(self, kind: u8, payload: Seq<u8>) -> Wire {
        if kind == OPENED {
            Wire { opened: Some(Ok(pid_in(payload))), ..self }
        } else if kind == REFUSED {
            Wire {
                opened: Some(Err(lossy_text(payload))),
                closed: true,
                out_eof: true,
                err_eof: true,
                ..self
            }
        } else if kind == DATA {
            Wire { out: self.out + payload, ..self }
        } else if kind == STDERR {
            Wire { err: self.err + payload, ..self }
        } else if kind == EOF {
            if payload == error_stream() {
                Wire { err_eof: true, ..self }
            } else {
                Wire { out_eof: true, ..self }
            }
        } else if kind == EXIT {
            Wire { exit: Some(exit_in(lossy_text(payload))), ..self }
        } else if kind == CLOSE {
            self.ended("the relay closed the channel"@)
        } else if kind == CREDIT && payload.len() == 4 {
            Wire { window: plus(self.window, number_in(payload, 0) as int), ..self }
        } else {
            self
        }
    }

    /// How much of `len` bytes may go in the next frame.
    pub open spec fn sendable(self, len: nat) -> nat {
        let n = if len < MAX_CHUNK {
            len
        } else {
            MAX_CHUNK as nat
        };
        if n < self.window {
            n
        } else {
            self.window as nat
        }
    }

    /// After that much was sent.
    pub open spec fn sent(self, n: nat) -> Wire {
        Wire { window: (self.window - n) as u64, ..self }
    }

    pub open spec fn queue(self, which: Stream) -> Seq<u8> {
        match which {
            Stream::Output => self.out,
            Stream::Errors => self.err,
        }
    }

    /// How many bytes a read with this much room takes.
    pub open spec fn takable(self, which: Stream, room: nat) -> nat {
        if self.queue(which).len() < room {
            self.queue(which).len()
        } else {
            room
        }
    }

    /// Whether what a read takes is credited back with it.
    pub open spec fn credits(self, n: nat) -> bool {
        plus(self.unacked, n as int) >= CREDIT_DUE && !self.closed
    }

    /// The credit that goes back with a read, if any does: everything that is owed.
    pub open spec fn credit_back(self, n: nat) -> Option<u32> {
        if self.credits(n) {
            Some((plus(self.unacked, n as int) % 0x1_0000_0000) as u32)
        } else {
            None
        }
    }

    /// What a write of `len` bytes may do next.
    pub open spec fn next_send(self, len: nat) -> Sending {
        if self.closed {
            Sending::Closed
        } else if self.window == 0 {
            Sending::Wait
        } else {
            Sending::Send(self.sendable(len) as usize)
        }
    }

    /// What a wait for these streams does next.
    pub open spec fn wait_for(
        self,
        which: Streams,
        now: Instant,
        deadline: Option<Instant>,
    ) -> Waiting {
        let ready = self.ready(which);
        if ready.out || ready.err {
            Waiting::Done(ready)
        } else {
            match deadline {
                None => Waiting::Wait(None),
                Some(at) => if left(at, now) == 0 {
                    Waiting::Done(ready)
                } else {
                    Waiting::Wait(Some(left(at, now)))
                },
            }
        }
    }

    /// After a read.
    pub open spec fn taken(self, which: Stream, n: nat) -> Wire {
        let unacked = if self.credits(n) {
            0u64
        } else {
            plus(self.unacked, n as int)
        };
        match which {
            Stream::Output => Wire { out: self.out.skip(n as int), unacked, ..self },
            Stream::Errors => Wire { err: self.err.skip(n as int), unacked, ..self },
        }
    }

    /// Which of the streams asked for have something to take.
    pub open spec fn ready(self, which: Streams) -> Ready {
        Ready {
            out: which.out && (self.out.len() > 0 || self.out_eof),
            err: which.err && (self.err.len() > 0 || self.err_eof),
        }
    }

    /// Closed from this side.
    pub open spec fn shut(self) -> Wire {
        Wire { closed: true, out_eof: true, err_eof: true, ..self }
    }
}

/// The frames that end a channel.
pub open spec fn ends_channel(kind: u8) -> bool {
    kind == REFUSED || kind == CLOSE
}

/// What became of an open.
#[derive(Debug, PartialEq, Eq)]
pub enum Opening {
    /// It is open; a shell's process number, 0 for a socket.
    Opened(u32),
    /// It was refused, or ended before it was answered.
    Refused(String),
    /// The relay did not answer in time.
    TimedOut,
    /// Wait this long for more.
    Wait(Duration),
}

/// What a write may do next.
#[derive(Clone, Copy, Debug, PartialEq, Eq, Structural)]
pub enum Sending {
    /// The channel has closed.
    Closed,
    /// Wait for credit.
    Wait,
    /// Send this many bytes.
    Send(usize),
}

/// How long until a deadline.
pub open spec fn left(deadline: Instant, now: Instant) -> Duration {
    passed(deadline, now)
}

impl ChanState {
    /// A channel that was just asked for.
    fn fresh() -> (r: ChanState)
        ensures
            r@ == Wire::fresh(),
    {
        ChanState {
            opened: None,
            out: Vec::new(),
            out_eof: false,
            err: Vec::new(),
            err_eof: false,
            exit: None,
            closed: false,
            window: WINDOW,
            unacked: 0,
        }
    }

    fn end(&mut self, why: &str)
        ensures
            final(self)@ == old(self)@.ended(why@),
    {
        if self.opened.is_none() {
            self.opened = Some(Err(String::from_str(why)));
        }
        self.closed = true;
        self.out_eof = true;
        self.err_eof = true;
    }

    /// Take in a frame of the relay's.
    fn deliver(&mut self, kind: u8, payload: &[u8])
        ensures
            final(self)@ == old(self)@.delivered(kind, payload@),
    {
        let ghost before = self@;
        if kind == OPENED {
            self.opened = Some(Ok(read_pid(payload)));
        } else if kind == REFUSED {
            self.opened = Some(Err(lossy(payload)));
            self.closed = true;
            self.out_eof = true;
            self.err_eof = true;
        } else if kind == DATA {
            extend(&mut self.out, payload);
        } else if kind == STDERR {
            extend(&mut self.err, payload);
        } else if kind == EOF {
            let name: [u8; 3] = [101, 114, 114];
            assert(name@ =~= error_stream());
            if equal(payload, &name) {
                self.err_eof = true;
            } else {
                self.out_eof = true;
            }
        } else if kind == EXIT {
            self.exit = Some(exit_status(payload));
        } else if kind == CLOSE {
            self.end("the relay closed the channel");
        } else if kind == CREDIT && payload.len() == 4 {
            let n: u64 = payload[0] as u64 * 0x100_0000 + payload[1] as u64 * 0x1_0000
                + payload[2] as u64 * 0x100 + payload[3] as u64;
            self.window = self.window.saturating_add(n);
        }
        assert(self@ =~= before.delivered(kind, payload@));
    }

    /// Claim room for the next frame of `len` bytes.
    fn sending(&mut self, len: usize) -> (r: Sending)
        ensures
            r == old(self)@.next_send(len as nat),
            match r {
                Sending::Send(n) => n == old(self)@.sendable(len as nat) && final(self)@ == old(
                    self,
                )@.sent(n as nat),
                _ => final(self)@ == old(self)@,
            },
    {
        if self.closed {
            return Sending::Closed;
        }
        if self.window == 0 {
            return Sending::Wait;
        }
        let mut n: usize = if len < MAX_CHUNK {
            len
        } else {
            MAX_CHUNK
        };
        if n as u64 >= self.window {
            n = self.window as usize;
        }
        self.window = self.window - n as u64;
        Sending::Send(n)
    }

    /// Take what has arrived on one stream, and the credit to send back for it once enough has
    /// been taken to be worth a frame.
    fn take(&mut self, which: Stream, room: usize) -> (r: (Vec<u8>, Option<u32>))
        ensures
            ({
                let n = old(self)@.takable(which, room as nat);
                &&& r.0@ == old(self)@.queue(which).take(n as int)
                &&& final(self)@ == old(self)@.taken(which, n)
                &&& r.1 == old(self)@.credit_back(n)
            }),
    {
        let ghost before = self@;
        let (bytes, rest): (Vec<u8>, Vec<u8>) = match which {
            Stream::Output => parted(&self.out, room),
            Stream::Errors => parted(&self.err, room),
        };
        let n: usize = bytes.len();
        match which {
            Stream::Output => {
                self.out = rest;
            },
            Stream::Errors => {
                self.err = rest;
            },
        }
        self.unacked = self.unacked.saturating_add(n as u64);
        let mut credit: Option<u32> = None;
        if self.unacked >= CREDIT_DUE && !self.closed {
            credit = Some((self.unacked % 0x1_0000_0000) as u32);
            self.unacked = 0;
        }
        assert(self@ =~= before.taken(which, n as nat));
        (bytes, credit)
    }

    fn ready(&self, which: Streams) -> (r: Ready)
        ensures
            r == self@.ready(which),
    {
        Ready {
            out: which.out && (self.out.len() > 0 || self.out_eof),
            err: which.err && (self.err.len() > 0 || self.err_eof),
        }
    }

    fn opening(&self, now: Instant, deadline: Instant) -> (r: Opening)
        ensures
            match r {
                Opening::Opened(pid) => self@.opened == Some(Ok::<u32, Seq<char>>(pid)),
                Opening::Refused(why) => self@.opened == Some(Err::<u32, Seq<char>>(why@)),
                Opening::TimedOut => self@.opened is None && left(deadline, now) == 0,
                Opening::Wait(time) => self@.opened is None && time == left(deadline, now) && time
                    > 0,
            },
    {
        match &self.opened {
            Some(Ok(pid)) => Opening::Opened(*pid),
            Some(Err(why)) => Opening::Refused(String::from_str(why.as_str())),
            None => {
                let time: Duration = elapsed(deadline, now);
                if time == 0 {
                    Opening::TimedOut
                } else {
                    Opening::Wait(time)
                }
            },
        }
    }
}

/// The front of a queue, as much of it as there is room for, and the rest.
fn parted(queue: &Vec<u8>, room: usize) -> (r: (Vec<u8>, Vec<u8>))
    ensures
        ({
            let n = if queue@.len() < room {
                queue@.len() as int
            } else {
                room as int
            };
            r.0@ == queue@.take(n) && r.1@ == queue@.skip(n)
        }),
{
    let n: usize = if queue.len() < room {
        queue.len()
    } else {
        room
    };
    let mut front: Vec<u8> = Vec::new();
    let mut rest: Vec<u8> = Vec::new();
    extend(&mut front, vstd::slice::slice_subrange(queue.as_slice(), 0, n));
    extend(&mut rest, vstd::slice::slice_subrange(queue.as_slice(), n, queue.len()));
    assert(front@ =~= queue@.take(n as int));
    assert(rest@ =~= queue@.skip(n as int));
    (front, rest)
}

/// A channel as its holder sees it, as a value: its number, whether the relay's frames still
/// reach it, and its state.
#[verifier::ext_equal]
pub struct Line {
    pub id: u32,
    pub live: bool,
    pub wire: Wire,
}

/// Every channel of a connection, by the handle its holder has.
#[verifier::ext_equal]
pub struct Board {
    pub lines: Map<usize, Line>,
    /// The number the next channel gets.
    pub next: u32,
    /// Why the connection went down, once it has: the exit status and the last words.
    pub down: Option<(i32, Seq<char>)>,
}

struct Entry {
    id: u32,
    live: bool,
    state: ChanState,
}

impl Entry {
    spec fn line(self) -> Line {
        Line { id: self.id, live: self.live, wire: self.state@ }
    }
}

/// Every channel of one connection. It is up until [`Channels::went_down`], and then it is
/// down for good.
pub struct Channels {
    slots: Vec<Option<Entry>>,
    next: u32,
    down: Option<(i32, String)>,
}

impl View for Channels {
    type V = Board;

    closed spec fn view(&self) -> Board {
        Board {
            lines: Map::new(
                |h: usize| h < self.slots@.len() && self.slots@[h as int] is Some,
                |h: usize| self.slots@[h as int]->0.line(),
            ),
            next: self.next,
            down: match self.down {
                Some((status, said)) => Some((status, said@)),
                None => None,
            },
        }
    }
}

impl Board {
    /// The channel that frames with this number reach.
    pub open spec fn owns(self, h: usize, id: u32) -> bool {
        self.lines.dom().contains(h) && self.lines[h].live && self.lines[h].id == id
    }

    /// No two channels that frames still reach have one number.
    pub open spec fn inv(self) -> bool {
        forall|a: usize, b: usize, id: u32|
            #![trigger self.owns(a, id), self.owns(b, id)]
            self.owns(a, id) && self.owns(b, id) ==> a == b
    }

    /// With one channel changed.
    pub open spec fn with(self, h: usize, line: Line) -> Board {
        Board { lines: self.lines.insert(h, line), ..self }
    }

    /// With one channel's state changed.
    pub open spec fn at(self, h: usize, wire: Wire) -> Board {
        self.with(h, Line { wire, ..self.lines[h] })
    }

    /// Without whichever channel frames with this number reach: its holder keeps it, and
    /// frames do not find it any more.
    pub open spec fn forgot(self, id: u32) -> Map<usize, Line> {
        self.lines.map_values(|line: Line| Line { live: line.live && line.id != id, ..line })
    }

    /// After the connection went down: every channel that frames reached has ended.
    pub open spec fn after_the_end(self, status: i32, said: Seq<char>) -> Board {
        Board {
            lines: self.lines.map_values(
                |line: Line|
                    if line.live {
                        Line {
                            live: false,
                            wire: line.wire.ended("the relay's connection went down"@),
                            ..line
                        }
                    } else {
                        line
                    },
            ),
            next: self.next,
            down: Some((status, said)),
        }
    }
}

impl Channels {
    /// A connection that just came up.
    pub fn new() -> (r: Channels)
        ensures
            r@ == (Board { lines: Map::empty(), next: 1, down: None }),
            r@.inv(),
    {
        let r: Channels = Channels { slots: Vec::new(), next: 1, down: None };
        assert(r@.lines =~= Map::empty());
        r
    }

    /// Whether the connection is still up. One that is down stays down.
    pub fn is_up(&self) -> (r: bool)
        ensures
            r == (self@.down is None),
    {
        self.down.is_none()
    }

    /// The number of a channel.
    pub fn id(&self, h: usize) -> (r: u32)
        requires
            self@.lines.dom().contains(h),
        ensures
            r == self@.lines[h].id,
    {
        match &self.slots[h] {
            Some(entry) => entry.id,
            None => 0,
        }
    }

    /// Who receives the frames with this number.
    fn owner(&self, id: u32) -> (r: Option<usize>)
        requires
            self@.inv(),
        ensures
            match r {
                Some(h) => self@.owns(h, id),
                None => forall|h: usize| !self@.owns(h, id),
            },
    {
        let mut i: usize = 0;
        while i < self.slots.len()
            invariant
                i <= self.slots@.len(),
                forall|h: usize| h < i ==> !self@.owns(h, id),
            decreases self.slots@.len() - i,
        {
            if let Some(entry) = &self.slots[i] {
                if entry.live && entry.id == id {
                    return Some(i);
                }
            }
            i += 1;
        }
        None
    }

    /// A slot no channel is in.
    fn free_slot(&mut self) -> (r: usize)
        ensures
            r < final(self).slots@.len(),
            !final(self)@.lines.dom().contains(r),
            final(self)@ == old(self)@,
    {
        let mut i: usize = 0;
        while i < self.slots.len()
            invariant
                i <= self.slots@.len(),
                *self == *old(self),
            decreases self.slots@.len() - i,
        {
            if self.slots[i].is_none() {
                return i;
            }
            i += 1;
        }
        let ghost before = self@;
        self.slots.push(None);
        assert(self@.lines =~= before.lines);
        i
    }

    /// Start a channel, or nothing where the connection is down. Its number is the next one;
    /// where that has come round and an older channel still has it, frames stop reaching the
    /// older one.
    pub fn open(&mut self) -> (r: Option<usize>)
        requires
            old(self)@.inv(),
        ensures
            final(self)@.inv(),
            match r {
                None => old(self)@.down is Some && final(self)@ == old(self)@,
                Some(h) => {
                    &&& old(self)@.down is None
                    &&& !old(self)@.lines.dom().contains(h)
                    &&& final(self)@ == old(self)@.opened_as(h)
                },
            },
    {
        if self.down.is_some() {
            return None;
        }
        let ghost before = self@;
        let id: u32 = self.next;
        if let Some(h) = self.owner(id) {
            if let Some(entry) = &mut self.slots[h] {
                entry.live = false;
            }
        }
        proof {
            assert forall|a: usize| before.lines.dom().contains(a) implies self@.lines[a]
                == before.forgot(id)[a] by {
                let mine = before.owns(a, id);
            }
            assert(self@.lines =~= before.forgot(id));
        }
        let h: usize = self.free_slot();
        self.slots.set(h, Some(Entry { id, live: true, state: ChanState::fresh() }));
        self.next = if id == u32::MAX {
            0
        } else {
            id + 1
        };
        assert(self@.lines =~= before.forgot(id).insert(
            h,
            Line { id, live: true, wire: Wire::fresh() },
        ));
        proof {
            assert forall|a: usize, b: usize, n: u32|
                self@.owns(a, n) && self@.owns(b, n) implies a == b by {
                assert(a != h ==> before.owns(a, n));
                assert(b != h ==> before.owns(b, n));
            }
        }
        Some(h)
    }

    /// Take in a frame of the relay's. It reaches the channel with its number and no other, and
    /// a frame that ends that channel is the last to; a number nobody has any more is one this
    /// end has already let go of.
    pub fn deliver(&mut self, kind: u8, id: u32, payload: &[u8]) -> (r: Option<usize>)
        requires
            old(self)@.inv(),
        ensures
            final(self)@.inv(),
            match r {
                Some(h) => {
                    &&& old(self)@.owns(h, id)
                    &&& final(self)@ == old(self)@.delivered_to(h, kind, id, payload@)
                },
                None => (forall|h: usize| !old(self)@.owns(h, id)) && final(self)@ == old(self)@,
            },
    {
        let ghost before = self@;
        match self.owner(id) {
            None => None,
            Some(h) => {
                if let Some(entry) = &mut self.slots[h] {
                    entry.state.deliver(kind, payload);
                    if kind == REFUSED || kind == CLOSE {
                        entry.live = false;
                    }
                }
                proof {
                    let line = Line {
                        id,
                        live: !ends_channel(kind),
                        wire: before.lines[h].wire.delivered(kind, payload@),
                    };
                    assert(self@.lines =~= before.lines.insert(h, line));
                    lemma_one_changed(before, self@, h, line);
                }
                Some(h)
            },
        }
    }

    /// The connection has gone: remember why, and end every channel that frames reach.
    pub fn went_down(&mut self, status: i32, said: &str)
        requires
            old(self)@.inv(),
        ensures
            final(self)@ == old(self)@.after_the_end(status, said@),
            final(self)@.inv(),
    {
        let ghost before = self@;
        let mut i: usize = 0;
        while i < self.slots.len()
            invariant
                i <= self.slots@.len(),
                self.slots@.len() == old(self).slots@.len(),
                self.next == old(self).next,
                forall|j: int| i <= j < self.slots@.len() ==> self.slots@[j] == old(self).slots@[j],
                forall|j: int|
                    #![trigger self.slots@[j]]
                    0 <= j < i ==> match old(self).slots@[j] {
                        None => self.slots@[j] is None,
                        Some(entry) => self.slots@[j] is Some && self.slots@[j]->0.line()
                            == over(entry.line()),
                    },
            decreases self.slots@.len() - i,
        {
            if let Some(entry) = &mut self.slots[i] {
                if entry.live {
                    entry.live = false;
                    entry.state.end("the relay's connection went down");
                }
            }
            i += 1;
        }
        self.down = Some((status, String::from_str(said)));
        assert(self@.lines =~= before.after_the_end(status, said@).lines);
    }

    /// What became of an open.
    pub fn opening(&self, h: usize, now: Instant, deadline: Instant) -> (r: Opening)
        requires
            self@.lines.dom().contains(h),
        ensures
            match r {
                Opening::Opened(pid) => self@.lines[h].wire.opened == Some(
                    Ok::<u32, Seq<char>>(pid),
                ),
                Opening::Refused(why) => self@.lines[h].wire.opened == Some(
                    Err::<u32, Seq<char>>(why@),
                ),
                Opening::TimedOut => self@.lines[h].wire.opened is None && left(deadline, now)
                    == 0,
                Opening::Wait(time) => self@.lines[h].wire.opened is None && time == left(
                    deadline,
                    now,
                ) && time > 0,
            },
    {
        match &self.slots[h] {
            Some(entry) => entry.state.opening(now, deadline),
            None => Opening::TimedOut,
        }
    }

    /// Claim room for the next frame of a write of `len` bytes.
    pub fn sending(&mut self, h: usize, len: usize) -> (r: Sending)
        requires
            old(self)@.lines.dom().contains(h),
            old(self)@.inv(),
        ensures
            final(self)@.inv(),
            ({
                let wire = old(self)@.lines[h].wire;
                &&& r == wire.next_send(len as nat)
                &&& match r {
                    Sending::Send(n) => n == wire.sendable(len as nat) && final(self)@ == old(
                        self,
                    )@.at(h, wire.sent(n as nat)),
                    _ => final(self)@ == old(self)@,
                }
            }),
    {
        let ghost before = self@;
        let mut r: Sending = Sending::Closed;
        if let Some(entry) = &mut self.slots[h] {
            r = entry.state.sending(len);
        }
        proof {
            let line = self@.lines[h];
            assert(self@.lines =~= before.lines.insert(h, line));
            assert(before.lines.insert(h, before.lines[h]) =~= before.lines);
            lemma_one_changed(before, self@, h, line);
        }
        r
    }

    /// Take what has arrived on one stream, with the credit to send back for it, if it is due.
    pub fn take(&mut self, h: usize, which: Stream, room: usize) -> (r: (Vec<u8>, Option<u32>))
        requires
            old(self)@.lines.dom().contains(h),
            old(self)@.inv(),
        ensures
            final(self)@.inv(),
            ({
                let wire = old(self)@.lines[h].wire;
                let n = wire.takable(which, room as nat);
                &&& r.0@ == wire.queue(which).take(n as int)
                &&& final(self)@ == old(self)@.at(h, wire.taken(which, n))
                &&& r.1 == wire.credit_back(n)
            }),
    {
        let ghost before = self@;
        let mut r: (Vec<u8>, Option<u32>) = (Vec::new(), None);
        if let Some(entry) = &mut self.slots[h] {
            r = entry.state.take(which, room);
        }
        proof {
            let line = self@.lines[h];
            assert(self@.lines =~= before.lines.insert(h, line));
            lemma_one_changed(before, self@, h, line);
        }
        r
    }

    /// Wait for one of the streams asked for to have something to take, until the deadline if
    /// there is one.
    pub fn waiting(
        &self,
        h: usize,
        which: Streams,
        now: Instant,
        deadline: Option<Instant>,
    ) -> (r: Waiting)
        requires
            self@.lines.dom().contains(h),
        ensures
            r == self@.lines[h].wire.wait_for(which, now, deadline),
    {
        let ready: Ready = match &self.slots[h] {
            Some(entry) => entry.state.ready(which),
            None => Ready { out: false, err: false },
        };
        if ready.out || ready.err {
            return Waiting::Done(ready);
        }
        match deadline {
            None => Waiting::Wait(None),
            Some(at) => {
                let time: Duration = elapsed(at, now);
                if time == 0 {
                    Waiting::Done(ready)
                } else {
                    Waiting::Wait(Some(time))
                }
            },
        }
    }

    /// A shell's exit status, once it has one. A shell whose link went down without saying is as
    /// gone as one that did, and has no status to give.
    pub fn exit(&self, h: usize) -> (r: Option<i32>)
        requires
            self@.lines.dom().contains(h),
        ensures
            r == self@.exit(h),
    {
        match &self.slots[h] {
            Some(entry) => match entry.state.exit {
                Some(status) => Some(status),
                None => if entry.state.closed && self.down.is_some() {
                    Some(-1)
                } else {
                    None
                },
            },
            None => None,
        }
    }

    /// Wait for a shell that has been told to go to report its exit: -1 for one that closed
    /// without saying how it ended, or that the deadline passed over.
    pub fn exiting(&self, h: usize, now: Instant, deadline: Instant) -> (r: Exiting)
        requires
            self@.lines.dom().contains(h),
        ensures
            r == self@.exiting(h, now, deadline),
    {
        if let Some(status) = self.exit(h) {
            return Exiting::Exited(status);
        }
        let time: Duration = elapsed(deadline, now);
        let closed: bool = match &self.slots[h] {
            Some(entry) => entry.state.closed,
            None => true,
        };
        if time == 0 || closed {
            Exiting::Exited(-1)
        } else {
            Exiting::Wait(time)
        }
    }

    /// Whether the end of what this side writes can still be said.
    pub fn may_finish(&self, h: usize) -> (r: bool)
        requires
            self@.lines.dom().contains(h),
        ensures
            r == !self@.lines[h].wire.closed,
    {
        match &self.slots[h] {
            Some(entry) => !entry.state.closed,
            None => false,
        }
    }

    /// End a channel now, from here: nothing more is read or written. Says whether the far side
    /// is to be told.
    pub fn shutdown(&mut self, h: usize) -> (r: bool)
        requires
            old(self)@.lines.dom().contains(h),
            old(self)@.inv(),
        ensures
            final(self)@.inv(),
            r == !old(self)@.lines[h].wire.closed,
            final(self)@ == old(self)@.with(
                h,
                Line { live: false, wire: old(self)@.lines[h].wire.shut(), ..old(self)@.lines[h] },
            ),
    {
        let ghost before = self@;
        let mut was_open: bool = false;
        if let Some(entry) = &mut self.slots[h] {
            was_open = !entry.state.closed;
            entry.state.closed = true;
            entry.state.out_eof = true;
            entry.state.err_eof = true;
            entry.live = false;
        }
        proof {
            let line = Line {
                live: false,
                wire: before.lines[h].wire.shut(),
                ..before.lines[h]
            };
            assert(self@.lines =~= before.lines.insert(h, line));
            lemma_one_changed(before, self@, h, line);
        }
        was_open
    }

    /// Let go of a channel, which closes it. Says whether the far side is to be told.
    pub fn release(&mut self, h: usize) -> (r: bool)
        requires
            old(self)@.lines.dom().contains(h),
            old(self)@.inv(),
        ensures
            final(self)@.inv(),
            r == !old(self)@.lines[h].wire.closed,
            final(self)@ == (Board { lines: old(self)@.lines.remove(h), ..old(self)@ }),
    {
        let ghost before = self@;
        let was_open: bool = self.may_finish(h);
        self.slots.set(h, None);
        assert(self@.lines =~= before.lines.remove(h));
        proof {
            assert forall|a: usize, b: usize, n: u32|
                self@.owns(a, n) && self@.owns(b, n) implies a == b by {
                assert(before.owns(a, n) && before.owns(b, n));
            }
        }
        was_open
    }
}

impl Board {
    /// How a shell ended, as far as is known.
    pub open spec fn exit(self, h: usize) -> Option<i32> {
        match self.lines[h].wire.exit {
            Some(status) => Some(status),
            None => if self.lines[h].wire.closed && self.down is Some {
                Some(-1i32)
            } else {
                None
            },
        }
    }
}

impl Board {
    /// What a wait for a shell's exit does next.
    pub open spec fn exiting(self, h: usize, now: Instant, deadline: Instant) -> Exiting {
        match self.exit(h) {
            Some(status) => Exiting::Exited(status),
            None => if left(deadline, now) == 0 || self.lines[h].wire.closed {
                Exiting::Exited(-1i32)
            } else {
                Exiting::Wait(left(deadline, now))
            },
        }
    }

    /// With one more channel, under this handle: it has the next number, and frames with that
    /// number reach it alone.
    pub open spec fn opened_as(self, h: usize) -> Board {
        Board {
            lines: self.forgot(self.next).insert(
                h,
                Line { id: self.next, live: true, wire: Wire::fresh() },
            ),
            next: if self.next == u32::MAX {
                0u32
            } else {
                (self.next + 1) as u32
            },
            down: self.down,
        }
    }

    /// With a frame taken in by one channel, which a frame that ends it is the last to reach.
    pub open spec fn delivered_to(self, h: usize, kind: u8, id: u32, payload: Seq<u8>) -> Board {
        self.with(
            h,
            Line {
                id,
                live: !ends_channel(kind),
                wire: self.lines[h].wire.delivered(kind, payload),
            },
        )
    }
}

/// What a wait for a channel's streams does next.
#[derive(Clone, Copy, Debug, PartialEq, Eq, Structural)]
pub enum Waiting {
    /// Return this.
    Done(Ready),
    /// Wait for a change: this long, or as long as it takes.
    Wait(Option<Duration>),
}

/// What a wait for a shell's exit does next.
#[derive(Clone, Copy, Debug, PartialEq, Eq, Structural)]
pub enum Exiting {
    Exited(i32),
    Wait(Duration),
}

/// A channel after its connection went down.
spec fn over(line: Line) -> Line {
    if line.live {
        Line {
            live: false,
            wire: line.wire.ended("the relay's connection went down"@),
            ..line
        }
    } else {
        line
    }
}

proof fn lemma_one_changed(before: Board, after: Board, h: usize, line: Line)
    requires
        before.inv(),
        before.lines.dom().contains(h),
        line.id == before.lines[h].id,
        line.live ==> before.lines[h].live,
        after.lines == before.lines.insert(h, line),
    ensures
        after.inv(),
{
    assert forall|a: usize, b: usize, n: u32| after.owns(a, n) && after.owns(b, n) implies a
        == b by {
        assert(before.owns(a, n) && before.owns(b, n));
    }
}

/// What a sender does, and what it hears: a frame of as many of `len` bytes as may go, or a
/// credit.
pub enum Traffic {
    Sends(nat),
    Hears(u32),
}

/// A channel after a run of them.
pub open spec fn ran(wire: Wire, run: Seq<Traffic>) -> Wire
    decreases run.len(),
{
    if run.len() == 0 {
        wire
    } else {
        let before = ran(wire, run.drop_last());
        match run.last() {
            Traffic::Sends(len) => before.sent(before.sendable(len)),
            Traffic::Hears(n) => before.delivered(CREDIT, big_endian(n)),
        }
    }
}

/// How many bytes were sent in a run.
pub open spec fn total_sent(wire: Wire, run: Seq<Traffic>) -> nat
    decreases run.len(),
{
    if run.len() == 0 {
        0
    } else {
        total_sent(wire, run.drop_last()) + match run.last() {
            Traffic::Sends(len) => ran(wire, run.drop_last()).sendable(len),
            Traffic::Hears(_) => 0,
        }
    }
}

/// How many bytes were credited in a run.
pub open spec fn total_credited(run: Seq<Traffic>) -> nat
    decreases run.len(),
{
    if run.len() == 0 {
        0
    } else {
        total_credited(run.drop_last()) + match run.last() {
            Traffic::Sends(_) => 0,
            Traffic::Hears(n) => n as nat,
        }
    }
}

/// Whatever is sent and whatever is credited, a channel never has more than a window's worth of
/// bytes sent and not yet credited back.
pub proof fn law_the_window_bounds_what_is_on_its_way(run: Seq<Traffic>)
    ensures
        total_sent(Wire::fresh(), run) <= WINDOW + total_credited(run),
        ran(Wire::fresh(), run).window + total_sent(Wire::fresh(), run) <= WINDOW + total_credited(
            run,
        ),
    decreases run.len(),
{
    if run.len() > 0 {
        law_the_window_bounds_what_is_on_its_way(run.drop_last());
        if let Traffic::Hears(n) = run.last() {
            let payload = big_endian(n);
            assert(payload.subrange(0, 4) =~= payload);
            lemma_number_reads_back(n, payload, 0);
        }
    }
}

/// A write makes progress while the channel has room, within a frame's size and its window.
pub proof fn law_a_write_with_room_moves(wire: Wire, len: nat)
    ensures
        wire.sendable(len) <= len,
        wire.sendable(len) <= MAX_CHUNK,
        wire.sendable(len) <= wire.window,
        len > 0 && wire.window > 0 ==> wire.sendable(len) > 0,
{
}

/// A credit for what was sent puts the window back where it was.
pub proof fn law_a_credit_undoes_a_send(wire: Wire, n: u32)
    requires
        n <= wire.window,
    ensures
        wire.sent(n as nat).delivered(CREDIT, big_endian(n)) == wire,
{
    let payload = big_endian(n);
    assert(payload.subrange(0, 4) =~= payload);
    lemma_number_reads_back(n, payload, 0);
    assert(wire.sent(n as nat).delivered(CREDIT, big_endian(n)) =~= wire);
}

/// Nothing that is taken is lost to the other side: it is credited now, or still counted.
pub proof fn law_what_is_taken_is_credited(wire: Wire, which: Stream, room: nat)
    requires
        wire.unacked + wire.takable(which, room) <= u32::MAX,
    ensures
        ({
            let n = wire.takable(which, room);
            let credited = match wire.credit_back(n) {
                Some(credit) => credit as int,
                None => 0,
            };
            &&& credited + wire.taken(which, n).unacked == wire.unacked + n
            &&& wire.taken(which, n).queue(which).len() + n == wire.queue(which).len()
            &&& !wire.closed ==> wire.taken(which, n).unacked < CREDIT_DUE
        }),
{
}

/// Bytes come out in the order in which they arrived, however the frames and the reads cut
/// them.
pub proof fn law_bytes_come_out_in_order(wire: Wire, a: Seq<u8>, b: Seq<u8>, n: nat, m: nat)
    requires
        n + m <= wire.out.len(),
    ensures
        wire.delivered(DATA, a).delivered(DATA, b) == wire.delivered(DATA, a + b),
        wire.delivered(STDERR, a).delivered(STDERR, b) == wire.delivered(STDERR, a + b),
        wire.out.take(n as int) + wire.taken(Stream::Output, n).out.take(m as int)
            == wire.out.take((n + m) as int),
{
    assert(wire.delivered(DATA, a).delivered(DATA, b) =~= wire.delivered(DATA, a + b));
    assert(wire.delivered(STDERR, a).delivered(STDERR, b) =~= wire.delivered(STDERR, a + b));
    assert(wire.out.take(n as int) + wire.taken(Stream::Output, n).out.take(m as int)
        =~= wire.out.take((n + m) as int));
}

/// A channel that has ended stays ended, whatever arrives for it, and so does each stream.
pub proof fn law_an_ended_channel_stays_ended(wire: Wire, kind: u8, payload: Seq<u8>)
    ensures
        wire.closed ==> wire.delivered(kind, payload).closed,
        wire.out_eof ==> wire.delivered(kind, payload).out_eof,
        wire.err_eof ==> wire.delivered(kind, payload).err_eof,
        ends_channel(kind) ==> {
            let after = wire.delivered(kind, payload);
            after.closed && after.out_eof && after.err_eof && after.opened is Some
        },
{
}

/// A connection that went down reaches nobody any more, and leaves nobody waiting: each
/// channel it still reached is closed, at the end of both streams, with its open answered.
pub proof fn law_a_connection_that_goes_down_ends_its_channels(
    board: Board,
    status: i32,
    said: Seq<char>,
)
    ensures
        board.after_the_end(status, said).down is Some,
        forall|h: usize, id: u32| !board.after_the_end(status, said).owns(h, id),
        forall|h: usize|
            #![trigger board.lines[h]]
            board.lines.dom().contains(h) && board.lines[h].live ==> {
                let wire = board.after_the_end(status, said).lines[h].wire;
                wire.closed && wire.out_eof && wire.err_eof && wire.opened is Some
            },
{
}

/// A shell on the far side, as far as its own ends go: whether its input was closed, and
/// whether its error stream was read to its end.
#[derive(Debug, PartialEq, Eq, Structural)]
pub struct ShellPipes {
    pub finished: bool,
    pub err_done: bool,
}

impl ShellPipes {
    pub fn new() -> (r: ShellPipes)
        ensures
            !r.finished,
            !r.err_done,
    {
        ShellPipes { finished: false, err_done: false }
    }

    /// Whether its input may still be written to.
    pub fn write_in(&self) -> (r: Result<(), &'static str>)
        ensures
            r is Ok == !self.finished,
            r matches Err(why) ==> why@ == "stdin already closed"@,
    {
        if self.finished {
            Err("stdin already closed")
        } else {
            Ok(())
        }
    }

    /// Close its input. Says whether the channel is to be told: the first time only.
    pub fn close_in(&mut self) -> (r: bool)
        ensures
            r == !old(self).finished,
            *final(self) == (ShellPipes { finished: true, ..*old(self) }),
    {
        let first: bool = !self.finished;
        self.finished = true;
        first
    }

    /// Which streams to wait for, of those asked for: the error stream not once it has ended.
    pub fn wanted(&self, which: Streams) -> (r: Streams)
        ensures
            r == (Streams { out: which.out, err: which.err && !self.err_done }),
    {
        Streams { out: which.out, err: which.err && !self.err_done }
    }

    /// Its error stream was read, and this many bytes came.
    pub fn read_err(&mut self, n: usize)
        ensures
            *final(self) == (ShellPipes {
                err_done: old(self).err_done || n == 0,
                ..*old(self)
            }),
    {
        if n == 0 {
            self.err_done = true;
        }
    }

    /// Whether its error stream may still have something to say.
    pub fn err_open(&self) -> (r: bool)
        ensures
            r == !self.err_done,
    {
        !self.err_done
    }
}

/// The end of what has been said, and no more of it than is kept.
pub open spec fn tail_of(said: Seq<u8>) -> Seq<u8> {
    if said.len() > STDERR_TAIL {
        said.skip(said.len() - STDERR_TAIL)
    } else {
        said
    }
}

/// Keep the end of what the connection says on its error stream.
pub fn keep_tail(tail: &mut Vec<u8>, said: &[u8])
    ensures
        final(tail)@ == tail_of(old(tail)@ + said@),
{
    extend(tail, said);
    if tail.len() > STDERR_TAIL {
        let excess: usize = tail.len() - STDERR_TAIL;
        let (_, rest): (Vec<u8>, Vec<u8>) = parted(tail, excess);
        *tail = rest;
    }
}

/// What was kept of the connection's error stream, as text.
pub fn stderr_text(tail: &[u8]) -> (r: String)
    ensures
        r@ == lossy_text(tail@),
{
    lossy(tail)
}

/// What follows a marker on a line, if the line is that marker's.
pub open spec fn stripped(line: Seq<u8>, mark: Seq<char>) -> Option<Seq<u8>> {
    if utf8(mark).len() <= line.len() && line.take(utf8(mark).len() as int) == utf8(mark) {
        Some(line.skip(utf8(mark).len() as int))
    } else {
        None
    }
}

/// What follows `mark` on `line`, if the line is that marker's.
fn strip<'a>(line: &'a [u8], mark: &str) -> (r: Option<&'a [u8]>)
    ensures
        match r {
            Some(rest) => stripped(line@, mark@) == Some(rest@),
            None => stripped(line@, mark@) is None,
        },
{
    let want: &[u8] = mark.as_bytes();
    if want.len() > line.len() {
        return None;
    }
    let front: &[u8] = vstd::slice::slice_subrange(line, 0, want.len());
    assert(front@ =~= line@.take(want@.len() as int));
    if !equal(front, want) {
        return None;
    }
    let rest: &[u8] = vstd::slice::slice_subrange(line, want.len(), line.len());
    assert(rest@ =~= line@.skip(want@.len() as int));
    Some(rest)
}

/// What the far side has got as far as, as a value.
#[verifier::ext_equal]
pub struct Heard {
    pub secret: Seq<char>,
    /// What the login shell printed before the marker.
    pub said: Seq<Seq<u8>>,
    /// What the far side's Neovim calls itself, once the marker has come.
    pub banner: Option<Seq<char>>,
}

/// What a line of the far side's means.
#[derive(Debug, PartialEq, Eq)]
pub enum Booting {
    /// Read on.
    More,
    /// The relay is up: what follows is frames.
    Up,
    /// There is no Neovim there.
    Without,
    /// The relay speaks another version.
    Speaks(String),
}

/// What a line of the far side's means, as a value.
pub enum Meaning {
    More,
    Up,
    Without,
    Speaks(Seq<char>),
}

impl Booting {
    pub open spec fn meaning(self) -> Meaning {
        match self {
            Booting::More => Meaning::More,
            Booting::Up => Meaning::Up,
            Booting::Without => Meaning::Without,
            Booting::Speaks(version) => Meaning::Speaks(version@),
        }
    }
}

impl Heard {
    /// What the text behind a marker says.
    pub open spec fn text_behind(rest: Seq<u8>) -> Seq<char> {
        trimmed(lossy_text(rest))
    }

    /// After one more line.
    pub open spec fn then_heard(self, line: Seq<u8>) -> Heard {
        match self.banner {
            Some(_) => self,
            None => match stripped(line, "NVMUX_BOOT_"@ + self.secret) {
                Some(rest) => Heard { banner: Some(Heard::text_behind(rest)), ..self },
                None => Heard { said: self.said.push(line), ..self },
            },
        }
    }

    /// What that line means: first the login shell's own lines, then the boot marker with the
    /// banner, then whatever Neovim prints, then the relay's marker with its version.
    pub open spec fn meaning(self, line: Seq<u8>) -> Meaning {
        match self.banner {
            Some(_) => match stripped(line, "NVMUX_RELAY_"@ + self.secret) {
                Some(rest) => if Heard::text_behind(rest) == VERSION_TEXT@ {
                    Meaning::Up
                } else {
                    Meaning::Speaks(Heard::text_behind(rest))
                },
                None => Meaning::More,
            },
            None => match stripped(line, "NVMUX_BOOT_"@ + self.secret) {
                Some(rest) => if Heard::text_behind(rest).len() == 0 {
                    Meaning::Without
                } else {
                    Meaning::More
                },
                None => Meaning::More,
            },
        }
    }
}

/// The far side's login shell on its way to becoming the relay, line by line.
pub struct Boot {
    secret: String,
    said: Vec<Vec<u8>>,
    banner: Option<String>,
}

impl View for Boot {
    type V = Heard;

    closed spec fn view(&self) -> Heard {
        Heard {
            secret: self.secret@,
            said: self.said@.map_values(|line: Vec<u8>| line@),
            banner: match self.banner {
                Some(banner) => Some(banner@),
                None => None,
            },
        }
    }
}

/// The text behind a marker.
fn behind(rest: &[u8]) -> (r: String)
    ensures
        r@ == Heard::text_behind(rest@),
{
    let text: String = lossy(rest);
    let s: Vec<char> = chars_of(text.as_str());
    string_of(trim(&s))
}

/// The reason a line gives for refusing, if it is a refusal.
pub open spec fn refusal_of(line: Seq<u8>) -> Option<Seq<char>> {
    let text = trim_end(lossy_text(line));
    if starts(text, "ERROR "@) {
        Some(text.skip("ERROR "@.len() as int))
    } else {
        None
    }
}

/// The first refusal among the lines.
pub open spec fn refusal_in(said: Seq<Seq<u8>>, from: int) -> Option<Seq<char>>
    decreases said.len() - from,
{
    if from >= said.len() {
        None
    } else {
        match refusal_of(said[from]) {
            Some(why) => Some(why),
            None => refusal_in(said, from + 1),
        }
    }
}

fn refusal(line: &[u8]) -> (r: Option<String>)
    ensures
        match r {
            Some(why) => refusal_of(line@) == Some(why@),
            None => refusal_of(line@) is None,
        },
{
    let text: String = lossy(line);
    let s: Vec<char> = chars_of(text.as_str());
    let t: &[char] = trim_tail(&s);
    proof {
        reveal_strlit("ERROR ");
    }
    if starts_with(t, "ERROR ") {
        let rest: &[char] = vstd::slice::slice_subrange(t, 6, t.len());
        assert(rest@ =~= t@.skip(6));
        Some(string_of(rest))
    } else {
        None
    }
}

/// The last thing that was said: the last line of it, or that nothing was.
pub open spec fn last_words(status: i32, stderr: Seq<char>) -> Seq<char> {
    let said = trimmed(stderr);
    if said.len() == 0 {
        "Neovim exited with status "@ + signed(status as int) + " and said nothing"@
    } else {
        said.skip(after_last(said, '\n'))
    }
}

fn last_line(status: i32, stderr: &str) -> (r: String)
    ensures
        r@ == last_words(status, stderr@),
{
    let s: Vec<char> = chars_of(stderr);
    let said: &[char] = trim(&s);
    if said.len() == 0 {
        let mut why: String = String::from_str("Neovim exited with status ");
        why.append(signed_text(status).as_str());
        why.append(" and said nothing");
        return why;
    }
    let at: usize = find_after_last(said, '\n');
    let line: &[char] = vstd::slice::slice_subrange(said, at, said.len());
    assert(line@ =~= said@.skip(at as int));
    string_of(line)
}

impl Boot {
    /// Nothing heard yet. The secret is what the markers carry.
    pub fn start(secret: &str) -> (r: Boot)
        ensures
            r@ == (Heard { secret: secret@, said: Seq::empty(), banner: None }),
    {
        let r: Boot = Boot { secret: String::from_str(secret), said: Vec::new(), banner: None };
        assert(r@.said =~= Seq::empty());
        r
    }

    /// A line the far side printed, its line feed and all.
    pub fn line(&mut self, line: &[u8]) -> (r: Booting)
        ensures
            final(self)@ == old(self)@.then_heard(line@),
            r.meaning() == old(self)@.meaning(line@),
    {
        let ghost before = self@;
        if self.banner.is_some() {
            let mut mark: String = String::from_str("NVMUX_RELAY_");
            mark.append(self.secret.as_str());
            return match strip(line, mark.as_str()) {
                Some(rest) => {
                    let version: String = behind(rest);
                    if equal_text(version.as_str(), VERSION_TEXT) {
                        Booting::Up
                    } else {
                        Booting::Speaks(version)
                    }
                },
                None => Booting::More,
            };
        }
        let mut mark: String = String::from_str("NVMUX_BOOT_");
        mark.append(self.secret.as_str());
        match strip(line, mark.as_str()) {
            Some(rest) => {
                let banner: String = behind(rest);
                let without: bool = equal_text(banner.as_str(), "");
                proof {
                    reveal_strlit("");
                    assert(banner@.len() == 0 ==> banner@ =~= ""@);
                }
                self.banner = Some(banner);
                if without {
                    Booting::Without
                } else {
                    Booting::More
                }
            },
            None => {
                let mut copy: Vec<u8> = Vec::new();
                extend(&mut copy, line);
                assert(copy@ =~= line@);
                self.said.push(copy);
                assert(self@.said =~= before.said.push(line@));
                Booting::More
            },
        }
    }

    /// Why the relay did not come up, from what the far side got as far as. `ssh` is what the
    /// connection's own exit reads as.
    ///
    /// Without the boot marker, the connection failed, or the script refused, which it says on
    /// its output. With the marker, an empty banner is no Neovim there at all, and a banner is a
    /// Neovim that could not run the relay: too old for it, most likely, which its version says.
    pub fn failure(&self, host: &str, status: i32, stderr: &str, ssh: SshError) -> (r: NvmuxError)
        ensures
            match self@.banner {
                None => match refusal_in(self@.said, 0) {
                    Some(why) => r matches NvmuxError::Session(SessionError::ScriptFailed(w)) && w@
                        == why,
                    None => r == NvmuxError::Ssh(ssh),
                },
                Some(banner) => if banner.len() == 0 {
                    r matches NvmuxError::Nvim(NvimError::NotFound { where_, min }) && where_@
                        == host@ && min@ == MIN_VERSION@
                } else {
                    match version_in(banner) {
                        None => r matches NvmuxError::Nvim(
                            NvimError::UnparsableVersion { where_, raw },
                        ) && where_@ == host@ && raw@ == match crate::text::first_line(banner) {
                            Some(line) => line,
                            None => ""@,
                        },
                        Some(release) => if release.supported() {
                            r matches NvmuxError::Ssh(SshError::RelayFailed { host: h, why }) && h@
                                == host@ && why@ == last_words(status, stderr@)
                        } else {
                            r matches NvmuxError::Nvim(NvimError::TooOld { where_, found, min })
                                && where_@ == host@ && found@ == release.text() && min@
                                == MIN_VERSION@
                        },
                    }
                },
            },
    {
        match &self.banner {
            None => {
                let mut i: usize = 0;
                while i < self.said.len()
                    invariant
                        i <= self.said@.len(),
                        refusal_in(self@.said, 0) == refusal_in(self@.said, i as int),
                        self.banner is None,
                    decreases self.said@.len() - i,
                {
                    assert(self@.said[i as int] == self.said@[i as int]@);
                    if let Some(why) = refusal(self.said[i].as_slice()) {
                        return NvmuxError::Session(SessionError::ScriptFailed(why));
                    }
                    i += 1;
                }
                NvmuxError::Ssh(ssh)
            },
            Some(banner) => {
                let empty: bool = equal_text(banner.as_str(), "");
                proof {
                    reveal_strlit("");
                    assert(banner@.len() == 0 ==> banner@ =~= ""@);
                }
                if empty {
                    return NvmuxError::Nvim(
                        NvimError::NotFound { where_: String::from_str(host), min: MIN_VERSION },
                    );
                }
                match check_banner(host, banner.as_str()) {
                    Err(e) => NvmuxError::Nvim(e),
                    Ok(_) => NvmuxError::Ssh(
                        SshError::RelayFailed {
                            host: String::from_str(host),
                            why: last_line(status, stderr),
                        },
                    ),
                }
            },
        }
    }
}

/// The version is spelled the way numbers are.
pub proof fn law_the_version_is_spelled_out()
    ensures
        VERSION_TEXT@ == crate::text::decimal(VERSION as nat),
{
    reveal_strlit("1");
    assert(VERSION_TEXT@ =~= crate::text::decimal(VERSION as nat));
}

/// A relay that speaks another version, refused rather than guessed at.
pub fn version_error(host: &str, version: &str) -> (r: SshError)
    ensures
        r matches SshError::RelayFailed { host: h, why } && h@ == host@ && why@
            == "it speaks protocol "@ + version@ + ", and this nvmux speaks "@ + VERSION_TEXT@,
{
    let mut why: String = String::from_str("it speaks protocol ");
    why.append(version);
    why.append(", and this nvmux speaks ");
    why.append(VERSION_TEXT);
    SshError::RelayFailed { host: String::from_str(host), why }
}

/// A connection that went down, given what its own exit reads as: one that was up and lost says
/// nothing readable more often than not, which is still a connection that died.
pub fn link_error(host: &str, ssh: SshError) -> (r: SshError)
    ensures
        match ssh {
            SshError::Failed { .. } => r matches SshError::MasterDied(h) && h@ == host@,
            other => r == other,
        },
{
    match ssh {
        SshError::Failed { .. } => SshError::MasterDied(String::from_str(host)),
        other => other,
    }
}

/// Why the connection's own process could not be started, given what the system said.
pub fn spawn_error(not_found: bool, what: &str, host: &str) -> (r: SshError)
    ensures
        if not_found {
            r is NotFound
        } else {
            r matches SshError::Failed { code, stderr } && code == -1 && stderr@
                == "running ssh for "@ + host@ + ": "@ + what@
        },
{
    if not_found {
        return SshError::NotFound;
    }
    let mut stderr: String = String::from_str("running ssh for ");
    stderr.append(host);
    stderr.append(": ");
    stderr.append(what);
    SshError::Failed { code: -1, stderr }
}

/// A stream that is asked for is ready exactly when a read of it would not have to wait: there
/// is a byte to take, or its end has been reached. One that is not asked for never is.
pub proof fn law_a_stream_is_ready_when_a_read_need_not_wait(wire: Wire, which: Streams)
    ensures
        wire.ready(which).out <==> which.out && (wire.takable(Stream::Output, 1) == 1
            || wire.out_eof),
        wire.ready(which).err <==> which.err && (wire.takable(Stream::Errors, 1) == 1
            || wire.err_eof),
{
}

/// A wait ends with what arrives for it: bytes on a stream that is asked for, its end, the end
/// of the channel from either side, and the end of the connection. A channel that was just
/// asked for has nothing to take.
pub proof fn law_what_arrives_ends_a_wait(
    wire: Wire,
    which: Streams,
    payload: Seq<u8>,
    why: Seq<char>,
)
    ensures
        which.out && payload.len() > 0 ==> wire.delivered(5, payload).ready(which).out,
        which.err && payload.len() > 0 ==> wire.delivered(6, payload).ready(which).err,
        wire.delivered(5, payload).ready(which).err == wire.ready(which).err,
        wire.delivered(6, payload).ready(which).out == wire.ready(which).out,
        which.err ==> wire.delivered(7, seq![0x65u8, 0x72, 0x72]).ready(which).err,
        which.out && payload != seq![0x65u8, 0x72, 0x72] ==> wire.delivered(7, payload).ready(
            which,
        ).out,
        which.out ==> wire.delivered(8, payload).ready(which).out && wire.shut().ready(which).out
            && wire.ended(why).ready(which).out,
        which.err ==> wire.delivered(8, payload).ready(which).err && wire.shut().ready(which).err
            && wire.ended(why).ready(which).err,
        !Wire::fresh().ready(which).out && !Wire::fresh().ready(which).err,
{
}

/// Each frame moves one thing and leaves the rest alone: bytes go behind those that wait on
/// their own stream, an end ends its own stream, an exit is recorded, a credit of four bytes
/// widens the window by what it says, and a frame of no kind known here does nothing.
pub proof fn law_each_frame_moves_one_thing(wire: Wire, kind: u8, payload: Seq<u8>, n: u32)
    ensures
        wire.delivered(5, payload) == (Wire { out: wire.out + payload, ..wire }),
        wire.delivered(6, payload) == (Wire { err: wire.err + payload, ..wire }),
        wire.delivered(7, seq![0x65u8, 0x72, 0x72]) == (Wire { err_eof: true, ..wire }),
        payload != seq![0x65u8, 0x72, 0x72] ==> wire.delivered(7, payload) == (Wire {
            out_eof: true,
            ..wire
        }),
        wire.delivered(3, payload).opened matches Some(Ok(_)),
        wire.delivered(3, payload) == (Wire { opened: wire.delivered(3, payload).opened, ..wire }),
        wire.delivered(4, payload).opened matches Some(Err(_)),
        wire.delivered(9, payload).exit is Some,
        wire.delivered(9, payload) == (Wire { exit: wire.delivered(9, payload).exit, ..wire }),
        wire.window + n <= u64::MAX ==> wire.delivered(10, big_endian(n)) == (Wire {
            window: (wire.window + n) as u64,
            ..wire
        }),
        payload.len() != 4 ==> wire.delivered(10, payload) == wire,
        !(3 <= kind <= 10) ==> wire.delivered(kind, payload) == wire,
        wire.delivered(8, payload).out == wire.out && wire.delivered(8, payload).err == wire.err,
        wire.delivered(4, payload).out == wire.out && wire.delivered(4, payload).err == wire.err,
        wire.delivered(8, payload).exit == wire.exit,
        wire.opened is Some ==> wire.delivered(8, payload).opened == wire.opened,
{
    assert(big_endian(n).subrange(0, 4) =~= big_endian(n));
    lemma_number_reads_back(n, big_endian(n), 0);
}

/// A number goes over the connection with its most significant byte first.
pub proof fn law_the_most_significant_byte_goes_first(n: u32)
    ensures
        big_endian(n).len() == 4,
        n == big_endian(n)[0] * 0x100_0000 + big_endian(n)[1] * 0x1_0000 + big_endian(n)[2] * 0x100
            + big_endian(n)[3],
{
}

/// A frame is its kind, its channel, its length and its payload, in that order.
pub proof fn law_a_frame_is_laid_out_in_order(kind: u8, id: u32, payload: Seq<u8>)
    requires
        payload.len() <= u32::MAX,
    ensures
        ({
            let f = framed(kind, id, payload);
            &&& f[0] == kind
            &&& f.subrange(1, 5) == big_endian(id)
            &&& f.subrange(5, 9) == big_endian(payload.len() as u32)
            &&& f.skip(9) == payload
        }),
{
    let f = framed(kind, id, payload);
    assert(f.subrange(1, 5) =~= big_endian(id));
    assert(f.subrange(5, 9) =~= big_endian(payload.len() as u32));
    assert(f.skip(9) =~= payload);
}

/// A write sends as much as it may: all of it, a whole frame's worth, or all the window has.
pub proof fn law_a_write_sends_as_much_as_it_may(wire: Wire, len: nat)
    ensures
        wire.sendable(len) == len || wire.sendable(len) == 32768 || wire.sendable(len)
            == wire.window,
        wire.sent(wire.sendable(len)).window + wire.sendable(len) == wire.window,
        wire.sent(wire.sendable(len)) == (Wire {
            window: wire.sent(wire.sendable(len)).window,
            ..wire
        }),
{
}

/// A read takes all there is or all it has room for, from the front of its own stream, and
/// leaves the other stream as it was.
pub proof fn law_a_read_takes_all_it_can(wire: Wire, which: Stream, room: nat)
    ensures
        ({
            let n = wire.takable(which, room);
            let after = wire.taken(which, n);
            &&& n <= room
            &&& n <= wire.queue(which).len()
            &&& n == room || n == wire.queue(which).len()
            &&& wire.queue(which).take(n as int) + after.queue(which) == wire.queue(which)
            &&& which == Stream::Output ==> after.err == wire.err
            &&& which == Stream::Errors ==> after.out == wire.out
            &&& after.window == wire.window
            &&& after.closed == wire.closed && after.out_eof == wire.out_eof && after.err_eof
                == wire.err_eof
            &&& after.opened == wire.opened && after.exit == wire.exit
        }),
{
    let n = wire.takable(which, room);
    let after = wire.taken(which, n);
    assert(wire.queue(which).take(n as int) + after.queue(which) =~= wire.queue(which));
}

/// A sender never stalls on what has been taken: once a whole window of a live channel has been
/// taken, what is owed for it goes back.
pub proof fn law_a_window_that_was_taken_is_given_back(wire: Wire, n: nat)
    requires
        !wire.closed,
        wire.unacked + n >= Wire::fresh().window,
        wire.unacked + n <= u64::MAX,
    ensures
        wire.credits(n),
        wire.taken(Stream::Output, n).unacked == 0,
        wire.taken(Stream::Errors, n).unacked == 0,
{
}

/// What is left until a deadline is nothing exactly when it has come.
pub proof fn law_a_deadline_is_waited_for(deadline: Instant, now: Instant)
    ensures
        left(deadline, now) == 0 <==> now >= deadline,
        now < deadline ==> now + left(deadline, now) == deadline,
{
}

/// The most recent part of what was said is kept, and no more than its limit; and keeping it
/// piece by piece keeps the same.
pub proof fn law_the_end_of_what_was_said_is_kept(a: Seq<u8>, b: Seq<u8>)
    ensures
        tail_of(a).len() == if a.len() <= 16384 {
            a.len()
        } else {
            16384
        },
        a.skip(a.len() - tail_of(a).len()) == tail_of(a),
        tail_of(tail_of(a) + b) == tail_of(a + b),
{
    assert(a.skip(a.len() - tail_of(a).len()) =~= tail_of(a));
    assert(tail_of(tail_of(a) + b) =~= tail_of(a + b));
}

/// An exit that was reported stands when the connection goes down; a shell that frames still
/// reached, and that had reported none, is gone with no status to give.
pub proof fn law_a_reported_exit_outlives_the_connection(
    board: Board,
    h: usize,
    status: i32,
    said: Seq<char>,
)
    requires
        board.lines.dom().contains(h),
        board.down is None,
    ensures
        board.lines[h].wire.exit matches Some(code) ==> {
            &&& board.exit(h) == Some(code)
            &&& board.after_the_end(status, said).exit(h) == Some(code)
        },
        board.lines[h].wire.exit is None ==> board.exit(h) is None,
        board.lines[h].wire.exit is None && board.lines[h].live ==> board.after_the_end(
            status,
            said,
        ).exit(h) == Some(-1i32),
        board.after_the_end(status, said).lines.dom() == board.lines.dom(),
        board.after_the_end(status, said).lines[h].wire.out == board.lines[h].wire.out,
        board.after_the_end(status, said).lines[h].wire.err == board.lines[h].wire.err,
        board.after_the_end(status, said).down == Some((status, said)),
{
    assert(board.after_the_end(status, said).lines.dom() =~= board.lines.dom());
}

/// What the relay reports of a shell is read back: the code it exited with where no signal ended
/// it, and -1 where one did.
pub proof fn law_an_exit_reads_back(code: nat, signal: nat)
    requires
        code <= i32::MAX,
        signal <= i32::MAX,
    ensures
        exit_in(decimal(code) + seq![' '] + decimal(signal)) == if signal == 0 {
            code as i32
        } else {
            -1i32
        },
        exit_in(decimal(code)) == code,
        exit_in(Seq::empty()) == -1,
{
    lemma_decimal_is_a_word(code);
    lemma_decimal_is_a_word(signal);
    let none = Seq::<char>::empty();
    let behind = seq![' '] + decimal(signal);
    assert(none + decimal(code) + behind =~= decimal(code) + seq![' '] + decimal(signal));
    assert(none + decimal(code) + none =~= decimal(code));
    assert(seq![' '] + decimal(signal) + none =~= behind);
    law_the_first_word_ends_at_white_space(none, decimal(code), behind);
    law_the_first_word_ends_at_white_space(none, decimal(code), none);
    law_the_first_word_ends_at_white_space(seq![' '], decimal(signal), none);
    law_whole_numbers_read_back(code as int);
    law_whole_numbers_read_back(signal as int);
}

proof fn lemma_decimal_is_a_word(n: nat)
    ensures
        decimal(n).len() > 0,
        forall|i: int| 0 <= i < decimal(n).len() ==> !white_space(#[trigger] decimal(n)[i]),
{
    let d = decimal(n);
    lemma_decimal_reads_back(n);
    assert forall|i: int| 0 <= i < d.len() implies !white_space(#[trigger] d[i]) by {
        assert('0' <= d[i] && d[i] <= '9');
    }
}

/// The process number of a shell that was opened is read back from the text that carries it.
pub proof fn law_a_process_number_reads_back(wire: Wire, pid: u32)
    ensures
        wire.delivered(3, utf8(decimal(pid as nat))).opened == Some(Ok::<u32, Seq<char>>(pid)),
        wire.delivered(3, Seq::empty()).opened == Some(Ok::<u32, Seq<char>>(0)),
{
    let d = decimal(pid as nat);
    lemma_decimal_is_a_word(pid as nat);
    lemma_decimal_reads_back(pid as nat);
    assert(!white_space(d[0]) && !white_space(d[d.len() - 1]));
    assert(d.last() == d[d.len() - 1]);
    lemma_trimmed_is_itself(d);
    vstd::utf8::encode_utf8_valid_utf8(d);
    vstd::utf8::encode_utf8_decode_utf8(d);
    let none = Seq::<char>::empty();
    vstd::utf8::encode_utf8_valid_utf8(none);
    vstd::utf8::encode_utf8_decode_utf8(none);
    assert(vstd::utf8::encode_utf8(none) =~= Seq::<u8>::empty());
}

/// The relay is up only once both markers have come, the boot marker and behind it the relay's,
/// each with the secret; a line without its marker is read over, and what it was is remembered
/// until the first one.
pub proof fn law_the_relay_comes_up_behind_both_markers(heard: Heard, line: Seq<u8>, rest: Seq<u8>)
    ensures
        heard.meaning(line) is Up ==> {
            let mark = utf8("NVMUX_RELAY_"@ + heard.secret);
            heard.banner is Some && mark.len() <= line.len() && line.take(mark.len() as int) == mark
        },
        heard.meaning(line) is Speaks ==> heard.banner is Some,
        heard.meaning(line) is Without ==> heard.banner is None,
        heard.banner is Some ==> heard.then_heard(line) == heard,
        ({
            let mark = utf8("NVMUX_BOOT_"@ + heard.secret);
            let next = heard.then_heard(mark + rest);
            heard.banner is None ==> {
                &&& next.banner == Some(trimmed(lossy_text(rest)))
                &&& next.said == heard.said
                &&& heard.meaning(mark + rest) is Without <==> trimmed(lossy_text(rest)).len() == 0
                &&& !(heard.meaning(mark + rest) is Up)
            }
        }),
        ({
            let mark = utf8("NVMUX_BOOT_"@ + heard.secret);
            heard.banner is None && !(mark.len() <= line.len() && line.take(mark.len() as int)
                == mark) ==> {
                &&& heard.meaning(line) is More
                &&& heard.then_heard(line).said == heard.said.push(line)
                &&& heard.then_heard(line).banner is None
            }
        }),
        ({
            let mark = utf8("NVMUX_RELAY_"@ + heard.secret);
            heard.banner is Some ==> {
                &&& heard.meaning(mark + rest) is Up <==> trimmed(lossy_text(rest)) == seq!['1']
                &&& !(heard.meaning(mark + rest) is Up) ==> heard.meaning(mark + rest)
                    == Meaning::Speaks(trimmed(lossy_text(rest)))
            }
        }),
{
    reveal_strlit("1");
    assert("1"@ =~= seq!['1']);
    let boot = utf8("NVMUX_BOOT_"@ + heard.secret);
    let relay = utf8("NVMUX_RELAY_"@ + heard.secret);
    assert((boot + rest).take(boot.len() as int) =~= boot);
    assert((boot + rest).skip(boot.len() as int) =~= rest);
    assert((relay + rest).take(relay.len() as int) =~= relay);
    assert((relay + rest).skip(relay.len() as int) =~= rest);
}

/// The first refusal among the lines is the one that is told, and none is told where there is
/// none.
pub proof fn law_the_first_refusal_is_told(said: Seq<Seq<u8>>, at: int, why: Seq<char>)
    requires
        0 <= at <= said.len(),
        forall|i: int|
            0 <= i < at ==> !starts(trim_end(lossy_text(#[trigger] said[i])), "ERROR "@),
    ensures
        at == said.len() ==> refusal_in(said, 0) is None,
        at < said.len() && trim_end(lossy_text(said[at])) == "ERROR "@ + why ==> refusal_in(said, 0)
            == Some(why),
{
    lemma_refusal_from(said, 0, at);
    if at < said.len() && trim_end(lossy_text(said[at])) == "ERROR "@ + why {
        assert(("ERROR "@ + why).take("ERROR "@.len() as int) =~= "ERROR "@);
        assert(("ERROR "@ + why).skip("ERROR "@.len() as int) =~= why);
    }
}

proof fn lemma_refusal_from(said: Seq<Seq<u8>>, from: int, at: int)
    requires
        0 <= from <= at <= said.len(),
        forall|i: int|
            0 <= i < at ==> !starts(trim_end(lossy_text(#[trigger] said[i])), "ERROR "@),
    ensures
        refusal_in(said, from) == refusal_in(said, at),
    decreases at - from,
{
    if from < at {
        assert(!starts(trim_end(lossy_text(said[from])), "ERROR "@));
        lemma_refusal_from(said, from + 1, at);
    }
}

/// The last words are the last line of what was said, white space round it all aside.
pub proof fn law_the_last_words_are_the_last_line(status: i32, before: Seq<char>, line: Seq<char>)
    requires
        line.len() > 0,
        !line.contains('\n'),
        trimmed(before + line) == before + line,
        before.len() > 0 ==> before.last() == '\n',
    ensures
        last_words(status, before + line) == line,
{
    let s = before + line;
    lemma_after_last(s, '\n');
    let at = after_last(s, '\n');
    if at > before.len() {
        assert(s[at - 1] == line[at - 1 - before.len()]);
        assert(line.contains(line[at - 1 - before.len()]));
    }
    if at < before.len() {
        assert(s[before.len() - 1] == before.last());
    }
    assert(s.skip(at) =~= line);
}

/// A wait is over as soon as a stream that is asked for is ready, and says which are; with none
/// ready it goes on, until the deadline where there is one and no longer.
pub proof fn law_a_wait_ends_when_it_should(
    wire: Wire,
    which: Streams,
    now: Instant,
    deadline: Option<Instant>,
    payload: Seq<u8>,
)
    ensures
        match wire.wait_for(which, now, deadline) {
            Waiting::Done(ready) => {
                &&& ready == wire.ready(which)
                &&& ready.out || ready.err || (deadline matches Some(at) && now >= at)
            },
            Waiting::Wait(None) => deadline is None,
            Waiting::Wait(Some(time)) => deadline matches Some(at) && time > 0 && now + time == at,
        },
        wire.wait_for(which, now, deadline) is Wait ==> !wire.ready(which).out && !wire.ready(
            which,
        ).err,
        which.out && payload.len() > 0 ==> (wire.delivered(5, payload).wait_for(
            which,
            now,
            deadline,
        ) matches Waiting::Done(ready) && ready.out),
        which.err && payload.len() > 0 ==> (wire.delivered(6, payload).wait_for(
            which,
            now,
            deadline,
        ) matches Waiting::Done(ready) && ready.err),
{
}

/// A write to a channel that is over is refused, one with no window waits, and any other sends
/// something.
pub proof fn law_a_write_waits_only_for_credit(wire: Wire, len: nat)
    requires
        len > 0,
    ensures
        wire.next_send(len) == Sending::Closed <==> wire.closed,
        wire.next_send(len) == Sending::Wait <==> !wire.closed && wire.window == 0,
        wire.next_send(len) matches Sending::Send(n) ==> 0 < n <= len && n <= 32768 && n
            <= wire.window,
{
}

/// A shell that has reported its exit has it; one that closed without saying, or that the
/// deadline passed over, is gone with -1; and any other is waited for until the deadline.
pub proof fn law_an_exit_is_waited_for(board: Board, h: usize, now: Instant, deadline: Instant)
    ensures
        board.lines[h].wire.exit matches Some(code) ==> board.exiting(h, now, deadline)
            == Exiting::Exited(board.lines[h].wire.exit->0),
        board.lines[h].wire.exit is None && (board.lines[h].wire.closed || now >= deadline)
            ==> board.exiting(h, now, deadline) == Exiting::Exited(-1i32),
        board.lines[h].wire.exit is None && !board.lines[h].wire.closed && now < deadline ==> (
        board.exiting(h, now, deadline) matches Exiting::Wait(time) && now + time == deadline),
{
}

/// A new channel has a number that no other that frames reach has, and is as new as any; every
/// other channel that frames reached under another number is as it was.
pub proof fn law_a_new_channel_has_its_own_number(board: Board, h: usize, g: usize, id: u32)
    requires
        board.inv(),
        !board.lines.dom().contains(h),
    ensures
        board.opened_as(h).owns(h, board.next),
        board.opened_as(h).lines[h].wire == Wire::fresh(),
        g != h ==> !board.opened_as(h).owns(g, board.next),
        g != h && id != board.next && board.owns(g, id) ==> board.opened_as(h).owns(g, id)
            && board.opened_as(h).lines[g] == board.lines[g],
        g != h && board.lines.dom().contains(g) ==> board.opened_as(h).lines.dom().contains(g)
            && board.opened_as(h).lines[g].wire == board.lines[g].wire,
        board.next < u32::MAX ==> board.opened_as(h).next == board.next + 1,
        board.next == u32::MAX ==> board.opened_as(h).next == 0,
        board.opened_as(h).down == board.down,
{
}

/// A frame reaches the one channel with its number and changes no other; one that refuses or
/// closes a channel is the last that does.
pub proof fn law_a_frame_reaches_one_channel(
    board: Board,
    h: usize,
    g: usize,
    kind: u8,
    id: u32,
    payload: Seq<u8>,
)
    requires
        board.owns(h, id),
        board.lines.dom().contains(g),
    ensures
        ({
            let after = board.delivered_to(h, kind, id, payload);
            &&& g != h ==> after.lines[g] == board.lines[g]
            &&& after.lines.dom() == board.lines.dom()
            &&& after.lines[h].wire == board.lines[h].wire.delivered(kind, payload)
            &&& after.owns(h, id) <==> kind != 4 && kind != 8
            &&& after.next == board.next && after.down == board.down
        }),
{
    let after = board.delivered_to(h, kind, id, payload);
    assert(after.lines.dom() =~= board.lines.dom());
}

} // verus!
