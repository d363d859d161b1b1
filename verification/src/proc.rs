//! A shell that stays open, and the scripts that run in it one after another.
//!
//! Every run is wrapped in a subshell, so the shell stays exactly as it started. After it the
//! shell prints a marker line with the run's exit status. The marker carries a secret that
//! travels only on the shell's input, so nothing a script prints can be mistaken for it. What
//! is searched for begins with the line feed in front of the marker, which makes a run's output
//! exactly the bytes the script wrote.

use vstd::prelude::*;

use crate::bytes::{extend, find_from, first_at, lemma_first_at};
use crate::clock::Duration;
use crate::error::{signed, signed_text};
use crate::launch::{lemma_over_concat, words_of, Quote, Split};
use crate::text::{
    chars_of, decimal, equal_text, int32, lossy, lossy_text, number_text, parse_integer, put, string_of,
    trim, trimmed, utf8,
};

verus! {

/// Which of a shell's two output streams are meant.
#[derive(Clone, Copy, Debug, PartialEq, Eq, Structural)]
pub struct Streams {
    pub out: bool,
    pub err: bool,
}

/// Which of them have something to take: bytes, or their end.
#[derive(Clone, Copy, Debug, PartialEq, Eq, Structural)]
pub struct Ready {
    pub out: bool,
    pub err: bool,
}

/// The marker's fixed front. What follows it is the shell's secret and the run's number.
pub const MARK: &'static str = "NVMUX_MARK_";

/// How long a shell gets to leave on its own once its input is closed, before it is killed.
pub const EXIT_GRACE: Duration = 200_000_000;

/// How long to keep collecting what a run that failed says on its error stream.
pub const STDERR_SETTLE: Duration = 50_000_000;

/// What a run produced.
#[derive(Debug, PartialEq, Eq)]
pub struct Output {
    pub stdout: String,
    pub stderr: String,
    pub status: i32,
}

impl Output {
    /// What a command that has ended produced: both streams as text, and its exit status, -1
    /// for a signal.
    pub fn of(stdout: &[u8], stderr: &[u8], code: Option<i32>) -> (r: Self)
        ensures
            r.stdout@ == lossy_text(stdout@),
            r.stderr@ == lossy_text(stderr@),
            r.status == match code {
                Some(code) => code,
                None => -1i32,
            },
    {
        let status: i32 = match code {
            Some(code) => code,
            None => -1,
        };
        Output { stdout: lossy(stdout), stderr: lossy(stderr), status }
    }

    /// Whether the script ended well.
    pub fn ok(&self) -> (r: bool)
        ensures
            r == (self.status == 0),
    {
        self.status == 0
    }
}

/// The shell is gone: what a run reports in place of an [`Output`]. The status is the shell's
/// own, -1 for a signal, and the text is everything it said on the way out.
#[derive(Debug, PartialEq, Eq)]
pub struct Died {
    pub name: String,
    pub status: i32,
    pub stderr: String,
}

impl Died {
    /// What the user reads.
    pub open spec fn text(self) -> Seq<char> {
        let what = self.name@ + " died with status "@ + signed(self.status as int)
            + " while running a script"@;
        let said = trimmed(self.stderr@);
        if said.len() == 0 {
            what
        } else {
            what + ": "@ + said
        }
    }

    /// What the user reads.
    pub fn message(&self) -> (r: String)
        ensures
            r@ == self.text(),
    {
        let mut s: String = String::from_str(self.name.as_str());
        s.append(" died with status ");
        s.append(signed_text(self.status).as_str());
        s.append(" while running a script");
        let stderr: Vec<char> = chars_of(self.stderr.as_str());
        let said: &[char] = trim(&stderr);
        if said.len() > 0 {
            s.append(": ");
            s.append(string_of(said).as_str());
        }
        s
    }
}

/// The characters of a value between single quotes: themselves, but for a single quote, which
/// ends the quotes, stands behind a backslash and opens them again.
pub open spec fn quoted_chars(s: Seq<char>) -> Seq<char>
    decreases s.len(),
{
    if s.len() == 0 {
        Seq::empty()
    } else {
        quoted_chars(s.drop_last()) + if s.last() == '\'' {
            seq!['\'', '\\', '\'', '\'']
        } else {
            seq![s.last()]
        }
    }
}

/// One value, quoted for the shell.
pub open spec fn quoted_value(s: Seq<char>) -> Seq<char> {
    seq!['\''] + quoted_chars(s) + seq!['\'']
}

/// Values quoted for the shell, with a space between two.
pub open spec fn quoted_values(args: Seq<Seq<char>>) -> Seq<char>
    decreases args.len(),
{
    if args.len() == 0 {
        Seq::empty()
    } else if args.len() == 1 {
        quoted_value(args[0])
    } else {
        quoted_values(args.drop_last()) + seq![' '] + quoted_value(args.last())
    }
}

/// The texts of a list of strings.
pub open spec fn views(args: Seq<&str>) -> Seq<Seq<char>> {
    args.map_values(|s: &str| s@)
}

/// One value, quoted for the shell.
pub fn quote(value: &str) -> (r: String)
    ensures
        r@ == quoted_value(value@),
{
    let s: Vec<char> = chars_of(value);
    let mut out: String = String::new();
    out.push('\'');
    let mut i: usize = 0;
    assert(out@ =~= seq!['\''] + quoted_chars(s@.take(0)));
    while i < s.len()
        invariant
            i <= s@.len(),
            out@ == seq!['\''] + quoted_chars(s@.take(i as int)),
        decreases s@.len() - i,
    {
        let ghost before = out@;
        assert(s@.take(i + 1).drop_last() =~= s@.take(i as int));
        if s[i] == '\'' {
            out.push('\'');
            out.push('\\');
            out.push('\'');
            out.push('\'');
            assert(out@ =~= before + seq!['\'', '\\', '\'', '\'']);
        } else {
            out.push(s[i]);
            assert(out@ =~= before + seq![s@[i as int]]);
        }
        assert(out@ =~= seq!['\''] + quoted_chars(s@.take(i + 1)));
        i += 1;
    }
    assert(s@.take(i as int) =~= s@);
    out.push('\'');
    assert(out@ =~= quoted_value(value@));
    out
}

/// Values quoted for the shell, with a space between two.
pub fn quote_all(args: &[&str]) -> (r: String)
    ensures
        r@ == quoted_values(views(args@)),
{
    let mut out: String = String::new();
    let mut i: usize = 0;
    assert(views(args@).take(0) =~= Seq::empty());
    assert(out@ =~= Seq::empty());
    while i < args.len()
        invariant
            i <= args@.len(),
            out@ == quoted_values(views(args@).take(i as int)),
        decreases args@.len() - i,
    {
        let ghost done = views(args@).take(i + 1);
        assert(done.drop_last() =~= views(args@).take(i as int));
        assert(done.last() == args@[i as int]@);
        let ghost before = out@;
        if i > 0 {
            out.push(' ');
            assert(out@ =~= before + seq![' ']);
        }
        out.append(quote(args[i]).as_str());
        assert(out@ =~= quoted_values(done));
        i += 1;
    }
    assert(views(args@).take(i as int) =~= views(args@));
    out
}

/// The marker line's first word: the prefix, the shell's secret, the run.
pub open spec fn marker_text(secret: Seq<char>, seq: u64) -> Seq<char> {
    MARK@ + secret + "_"@ + decimal(seq as nat)
}

/// The marker line's first word.
pub fn marker(secret: &str, seq: u64) -> (r: String)
    ensures
        r@ == marker_text(secret@, seq),
{
    let mut s: String = String::from_str(MARK);
    s.append(secret);
    s.append("_");
    s.append(number_text(seq).as_str());
    s
}

/// What is searched for: the line feed the shell prints ahead of the marker, the marker, and
/// the space before its payload.
pub open spec fn needle_bytes(marker: Seq<char>) -> Seq<u8> {
    seq![10u8] + utf8(marker) + seq![32u8]
}

/// What is searched for.
pub fn needle(marker: &str) -> (r: Vec<u8>)
    ensures
        r@ == needle_bytes(marker@),
{
    let mut n: Vec<u8> = Vec::new();
    n.push(10);
    put(&mut n, marker);
    n.push(32);
    assert(n@ =~= needle_bytes(marker@));
    n
}

/// Everything written to the shell for one run.
pub open spec fn frame_bytes(marker: Seq<char>, script: Seq<char>, args: Seq<Seq<char>>) -> Seq<u8> {
    utf8("( set -- "@) + utf8(quoted_values(args)) + seq![10u8] + utf8(script) + seq![10u8] + utf8(
        ") </dev/null; printf '\\n%s %s\\n' "@,
    ) + utf8(marker) + utf8(" \"$?\"\n"@)
}

/// Everything written to the shell for one run.
///
/// `set --` inside the subshell gives the script its arguments, quoted. The subshell's own
/// input is empty, because the next frame could already be on its way. The `printf` runs in the
/// shell itself, so the status is the subshell's, whatever the script did on its way out.
pub fn frame(marker: &str, script: &str, args: &[&str]) -> (r: Vec<u8>)
    ensures
        r@ == frame_bytes(marker@, script@, views(args@)),
{
    let mut f: Vec<u8> = Vec::new();
    put(&mut f, "( set -- ");
    put(&mut f, quote_all(args).as_str());
    f.push(10);
    put(&mut f, script);
    f.push(10);
    put(&mut f, ") </dev/null; printf '\\n%s %s\\n' ");
    put(&mut f, marker);
    put(&mut f, " \"$?\"\n");
    assert(f@ =~= frame_bytes(marker@, script@, views(args@)));
    f
}

/// The line that asks a shell to say it is there.
pub open spec fn handshake_bytes(marker: Seq<char>) -> Seq<u8> {
    utf8("printf '\\n%s %s\\n' "@) + utf8(marker) + utf8(" ready\n"@)
}

/// The bytes of `needle` stand at this place.
pub open spec fn occurs(buf: Seq<u8>, needle: Seq<u8>, at: int) -> bool {
    0 <= at && at + needle.len() <= buf.len() && buf.subrange(at, at + needle.len()) == needle
}

/// The first place at or after `from` where `needle` stands.
pub open spec fn first_occurrence(buf: Seq<u8>, needle: Seq<u8>, from: int) -> Option<int>
    decreases buf.len() - from,
{
    if from + needle.len() > buf.len() || from >= buf.len() {
        None
    } else if occurs(buf, needle, from) {
        Some(from)
    } else {
        first_occurrence(buf, needle, from + 1)
    }
}

proof fn lemma_first_occurrence(buf: Seq<u8>, needle: Seq<u8>, from: int)
    requires
        0 <= from,
        needle.len() > 0,
    ensures
        match first_occurrence(buf, needle, from) {
            Some(at) => from <= at && occurs(buf, needle, at) && forall|i: int|
                from <= i < at ==> !occurs(buf, needle, i),
            None => forall|i: int| from <= i ==> !occurs(buf, needle, i),
        },
    decreases buf.len() - from,
{
    if from + needle.len() <= buf.len() && from < buf.len() && !occurs(buf, needle, from) {
        lemma_first_occurrence(buf, needle, from + 1);
    }
}

/// A search that starts later finds the same place, if the needle stands nowhere before.
proof fn lemma_later_start(buf: Seq<u8>, needle: Seq<u8>, from: int)
    requires
        0 <= from,
        needle.len() > 0,
        forall|i: int| 0 <= i < from ==> !occurs(buf, needle, i),
    ensures
        first_occurrence(buf, needle, from) == first_occurrence(buf, needle, 0),
{
    lemma_first_occurrence(buf, needle, from);
    lemma_first_occurrence(buf, needle, 0);
    match first_occurrence(buf, needle, 0) {
        Some(at) => {
            assert(occurs(buf, needle, at));
            if let Some(other) = first_occurrence(buf, needle, from) {
                assert(occurs(buf, needle, other));
            }
        },
        None => {
            if let Some(other) = first_occurrence(buf, needle, from) {
                assert(occurs(buf, needle, other));
            }
        },
    }
}

/// A text without the carriage returns at its end.
pub open spec fn without_returns(s: Seq<char>) -> Seq<char>
    decreases s.len(),
{
    if s.len() > 0 && s.last() == '\r' {
        without_returns(s.drop_last())
    } else {
        s
    }
}

/// What a search of the unclaimed output found.
#[derive(Debug, PartialEq, Eq)]
pub enum Scan {
    NotFound,
    /// It is there but its line has not all arrived; `start` is where it begins.
    Incomplete { start: usize },
    /// `start` is where it begins, and the run's output ends; `payload` is the text after it on
    /// its line; `end` is just past that line, where the next run's bytes begin.
    Found { start: usize, payload: String, end: usize },
}

/// The text after the needle on its line.
pub open spec fn payload_at(buf: Seq<u8>, needle: Seq<u8>, start: int) -> Seq<char> {
    let after = start + needle.len();
    without_returns(lossy_text(buf.subrange(after, first_at(buf, 10, after))))
}

/// Look for `needle` in the bytes from `from` on.
pub fn find_marker(buf: &[u8], needle: &[u8], from: usize) -> (r: Scan)
    requires
        needle@.len() > 0,
    ensures
        match first_occurrence(buf@, needle@, from as int) {
            None => r is NotFound,
            Some(at) => {
                let eol = first_at(buf@, 10, at + needle@.len());
                if eol < buf@.len() {
                    r matches Scan::Found { start, payload, end } && start == at && payload@
                        == payload_at(buf@, needle@, at) && end == eol + 1
                } else {
                    r == (Scan::Incomplete { start: at as usize })
                }
            },
        },
        r matches Scan::Incomplete { start } ==> first_occurrence(buf@, needle@, from as int)
            == Some(start as int),
        r matches Scan::Found { start, end, .. } ==> start < end <= buf@.len(),
{
    let n: usize = needle.len();
    let total: usize = buf.len();
    let mut at: usize = from;
    loop
        invariant
            total == buf@.len(),
            n == needle@.len(),
            n > 0,
            at >= from,
            first_occurrence(buf@, needle@, from as int) == first_occurrence(
                buf@,
                needle@,
                at as int,
            ),
        ensures
            from <= at,
            at + n <= buf@.len(),
            first_occurrence(buf@, needle@, from as int) == Some(at as int),
        decreases buf@.len() - at,
    {
        if at >= total || n > total - at {
            return Scan::NotFound;
        }
        let here: &[u8] = vstd::slice::slice_subrange(buf, at, at + n);
        if crate::bytes::equal(here, needle) {
            break;
        }
        at += 1;
    }
    let after: usize = at + n;
    let eol: usize = find_from(buf, 10, after);
    if eol >= total {
        return Scan::Incomplete { start: at };
    }
    let text: String = lossy(vstd::slice::slice_subrange(buf, after, eol));
    let s: Vec<char> = chars_of(text.as_str());
    let mut end: usize = s.len();
    assert(s@.take(end as int) =~= s@);
    while end > 0 && s[end - 1] == '\r'
        invariant
            end <= s@.len(),
            without_returns(s@) == without_returns(s@.take(end as int)),
        decreases end,
    {
        assert(s@.take(end as int).drop_last() =~= s@.take(end - 1));
        end -= 1;
    }
    let payload: String = string_of(vstd::slice::slice_subrange(&s, 0, end));
    assert(s@.subrange(0, end as int) =~= s@.take(end as int));
    Scan::Found { start: at, payload, end: eol + 1 }
}

/// A complete marker in the output: where it starts, what it carries, and where what follows
/// its line starts.
pub open spec fn marked(out: Seq<u8>, needle: Seq<u8>) -> Option<(int, Seq<char>, int)> {
    match first_occurrence(out, needle, 0) {
        None => None,
        Some(start) => {
            let eol = first_at(out, 10, start + needle.len());
            if eol < out.len() {
                Some((start, payload_at(out, needle, start), eol + 1))
            } else {
                None
            }
        },
    }
}

/// What the shell has answered so far.
#[verifier::ext_equal]
pub enum Answer {
    /// Not all of it has come.
    Waiting,
    /// What answered was not the shell that was asked.
    Broken,
    /// The run is over: what it printed, and how it ended.
    Finished { stdout: Seq<u8>, status: i32 },
}

/// A shell's conversation, as a value.
#[verifier::ext_equal]
pub struct Talk {
    pub name: Seq<char>,
    pub secret: Seq<char>,
    /// The last run's number; zero was the handshake.
    pub seq: u64,
    /// The handshake has not been read yet.
    pub pending: bool,
    /// What was printed and no run has claimed yet.
    pub out: Seq<u8>,
    /// The same of the error stream.
    pub err: Seq<u8>,
    /// How the shell ended, once it has.
    pub status: Option<i32>,
}

impl Talk {
    /// What is searched for, for one run.
    pub open spec fn needle(self, seq: u64) -> Seq<u8> {
        needle_bytes(marker_text(self.secret, seq))
    }

    /// What the output says of the run that was sent last.
    pub open spec fn run_heard(self) -> (Talk, Answer) {
        match marked(self.out, self.needle(self.seq)) {
            None => (self, Answer::Waiting),
            Some((start, payload, end)) => (
                Talk { out: self.out.skip(end), ..self },
                Answer::Finished {
                    stdout: self.out.take(start),
                    status: match int32(payload) {
                        Some(status) => status,
                        None => -1i32,
                    },
                },
            ),
        }
    }

    /// What the output says: first the handshake, everything in front of which belongs to
    /// nobody, then the run.
    pub open spec fn heard(self) -> (Talk, Answer) {
        if self.pending {
            match marked(self.out, self.needle(0)) {
                None => (self, Answer::Waiting),
                Some((_, payload, end)) => {
                    let next = Talk { pending: false, out: self.out.skip(end), ..self };
                    if payload == "ready"@ {
                        next.run_heard()
                    } else {
                        (next, Answer::Broken)
                    }
                },
            }
        } else {
            self.run_heard()
        }
    }

    /// With one more run sent. What the shell printed between two runs belongs to nobody.
    pub open spec fn sent(self) -> Talk {
        Talk {
            seq: (self.seq + 1) as u64,
            out: if self.pending {
                self.out
            } else {
                Seq::empty()
            },
            ..self
        }
    }
}

/// What became of an answer.
#[derive(Debug, PartialEq, Eq)]
pub enum Step {
    /// Read more of what the shell says.
    Read,
    /// What answered was not the shell that was asked: it is to be let go of.
    Broken,
    /// The run is over: what it printed, and how it ended.
    Finished(Vec<u8>, i32),
}

impl Step {
    pub open spec fn answer(self) -> Answer {
        match self {
            Step::Read => Answer::Waiting,
            Step::Broken => Answer::Broken,
            Step::Finished(stdout, status) => Answer::Finished { stdout: stdout@, status },
        }
    }
}

/// One long-lived shell: what it was sent and what it said. One run at a time.
pub struct Shell {
    name: String,
    secret: String,
    seq: u64,
    pending: bool,
    out: Vec<u8>,
    /// How far `out` has been searched, so that a long listing is not searched from its start
    /// on every read.
    scanned: usize,
    err: Vec<u8>,
    status: Option<i32>,
}

impl View for Shell {
    type V = Talk;

    closed spec fn view(&self) -> Talk {
        Talk {
            name: self.name@,
            secret: self.secret@,
            seq: self.seq,
            pending: self.pending,
            out: self.out@,
            err: self.err@,
            status: self.status,
        }
    }
}

impl Shell {
    /// The number of the marker that is awaited.
    spec fn awaited(self) -> u64 {
        if self.pending {
            0
        } else {
            self.seq
        }
    }

    /// What is awaited stands nowhere in the part that was searched.
    pub closed spec fn inv(self) -> bool {
        let needle = self@.needle(self.awaited());
        &&& self.scanned == 0 || self.scanned + needle.len() <= self.out@.len() + 1
        &&& forall|i: int| 0 <= i < self.scanned ==> !occurs(self.out@, needle, i)
    }

    /// A shell that was just started. Its handshake is the first thing to write to it.
    pub fn start(name: &str, secret: &str) -> (r: Shell)
        ensures
            r.inv(),
            r@ == (Talk {
                name: name@,
                secret: secret@,
                seq: 0,
                pending: true,
                out: Seq::empty(),
                err: Seq::empty(),
                status: None,
            }),
    {
        let r: Shell = Shell {
            name: String::from_str(name),
            secret: String::from_str(secret),
            seq: 0,
            pending: true,
            out: Vec::new(),
            scanned: 0,
            err: Vec::new(),
            status: None,
        };
        assert(r@.out =~= Seq::empty());
        assert(r@.err =~= Seq::empty());
        r
    }

    /// The line that asks the shell to say it is there. The answer is read by the first run,
    /// which saves a round trip.
    pub fn handshake(&self) -> (r: Vec<u8>)
        ensures
            r@ == handshake_bytes(marker_text(self@.secret, 0)),
    {
        let mut line: Vec<u8> = Vec::new();
        put(&mut line, "printf '\\n%s %s\\n' ");
        put(&mut line, marker(self.secret.as_str(), 0).as_str());
        put(&mut line, " ready\n");
        assert(line@ =~= handshake_bytes(marker_text(self@.secret, 0)));
        line
    }

    /// Whether the shell is known to be gone.
    pub fn is_dead(&self) -> (r: bool)
        ensures
            r == (self@.status is Some),
    {
        self.status.is_some()
    }

    /// Start a run: what to write to the shell, or that it is gone.
    pub fn begin(&mut self, script: &str, args: &[&str]) -> (r: Result<Vec<u8>, Died>)
        requires
            old(self).inv(),
            old(self)@.seq < u64::MAX,
        ensures
            final(self).inv(),
            match old(self)@.status {
                Some(status) => {
                    &&& r matches Err(died) && died.name@ == old(self)@.name && died.status
                        == status && died.stderr@ == ""@
                    &&& final(self)@ == old(self)@
                },
                None => {
                    &&& r matches Ok(bytes) && bytes@ == frame_bytes(
                        marker_text(old(self)@.secret, (old(self)@.seq + 1) as u64),
                        script@,
                        views(args@),
                    )
                    &&& final(self)@ == old(self)@.sent()
                },
            },
    {
        if let Some(status) = self.status {
            return Err(
                Died {
                    name: String::from_str(self.name.as_str()),
                    status,
                    stderr: String::from_str(""),
                },
            );
        }
        let ghost before = self@;
        if !self.pending {
            self.out = Vec::new();
            self.scanned = 0;
        }
        self.seq = self.seq + 1;
        assert(self@ =~= before.sent());
        Ok(frame(marker(self.secret.as_str(), self.seq).as_str(), script, args))
    }

    /// The shell printed this.
    pub fn heard_out(&mut self, bytes: &[u8])
        requires
            old(self).inv(),
        ensures
            final(self).inv(),
            final(self)@ == (Talk { out: old(self)@.out + bytes@, ..old(self)@ }),
    {
        let ghost needle = self@.needle(self.awaited());
        let ghost before = self.out@;
        extend(&mut self.out, bytes);
        proof {
            assert forall|i: int| 0 <= i < self.scanned implies !occurs(self.out@, needle, i) by {
                if occurs(self.out@, needle, i) {
                    assert(before.subrange(i, i + needle.len()) =~= self.out@.subrange(
                        i,
                        i + needle.len(),
                    ));
                    assert(occurs(before, needle, i));
                }
            }
        }
    }

    /// The shell said this on its error stream.
    pub fn heard_err(&mut self, bytes: &[u8])
        requires
            old(self).inv(),
        ensures
            final(self).inv(),
            final(self)@ == (Talk { err: old(self)@.err + bytes@, ..old(self)@ }),
    {
        extend(&mut self.err, bytes);
    }

    /// Search the output for the marker that is awaited.
    fn scan(&mut self) -> (r: Option<(Vec<u8>, String)>)
        requires
            old(self).inv(),
        ensures
            match marked(old(self)@.out, old(self)@.needle(old(self).awaited())) {
                None => r is None && final(self).inv() && final(self)@ == old(self)@,
                Some((start, payload, end)) => {
                    &&& r matches Some((front, text)) && front@ == old(self)@.out.take(start)
                        && text@ == payload
                    &&& final(self)@ == (Talk { out: old(self)@.out.skip(end), ..old(self)@ })
                    &&& final(self).scanned == 0
                },
            },
    {
        let number: u64 = if self.pending {
            0
        } else {
            self.seq
        };
        let needle: Vec<u8> = needle(marker(self.secret.as_str(), number).as_str());
        let ghost before = *self;
        proof {
            lemma_later_start(self.out@, needle@, self.scanned as int);
            lemma_first_occurrence(self.out@, needle@, 0);
        }
        match find_marker(self.out.as_slice(), needle.as_slice(), self.scanned) {
            Scan::Found { start, payload, end } => {
                let mut front: Vec<u8> = Vec::new();
                let mut rest: Vec<u8> = Vec::new();
                extend(&mut front, vstd::slice::slice_subrange(self.out.as_slice(), 0, start));
                extend(
                    &mut rest,
                    vstd::slice::slice_subrange(self.out.as_slice(), end, self.out.len()),
                );
                assert(front@ =~= self.out@.take(start as int));
                assert(rest@ =~= self.out@.skip(end as int));
                self.out = rest;
                self.scanned = 0;
                assert(self@ =~= (Talk { out: before@.out.skip(end as int), ..before@ }));
                Some((front, payload))
            },
            Scan::Incomplete { start } => {
                self.scanned = start;
                None
            },
            Scan::NotFound => {
                self.scanned = if self.out.len() < needle.len() {
                    0
                } else {
                    self.out.len() - (needle.len() - 1)
                };
                None
            },
        }
    }

    /// What has come of the answer. Until it is complete there is more to read; a shell whose
    /// output ends before that is gone with the run unfinished.
    pub fn step(&mut self) -> (r: Step)
        requires
            old(self).inv(),
        ensures
            final(self).inv(),
            r.answer() == old(self)@.heard().1,
            final(self)@ == old(self)@.heard().0,
    {
        let ghost before = self@;
        if self.pending {
            match self.scan() {
                None => return Step::Read,
                Some((_, payload)) => {
                    self.pending = false;
                    if !equal_text(payload.as_str(), "ready") {
                        return Step::Broken;
                    }
                },
            }
        }
        match self.scan() {
            None => Step::Read,
            Some((stdout, payload)) => {
                let text: Vec<char> = chars_of(payload.as_str());
                let status: i32 = match parse_integer(&text) {
                    Some(status) => status,
                    None => -1,
                };
                Step::Finished(stdout, status)
            },
        }
    }

    /// The run is over and its error stream has been collected: what it produced.
    pub fn finish(&mut self, stdout: Vec<u8>, status: i32) -> (r: Output)
        requires
            old(self).inv(),
        ensures
            final(self).inv(),
            r.stdout@ == lossy_text(stdout@),
            r.stderr@ == lossy_text(old(self)@.err),
            r.status == status,
            final(self)@ == (Talk { err: Seq::empty(), ..old(self)@ }),
    {
        let stderr: String = lossy(self.err.as_slice());
        self.err = Vec::new();
        assert(self@.err =~= Seq::empty());
        Output { stdout: lossy(stdout.as_slice()), stderr, status }
    }

    /// The shell is gone, with this status and its last words collected: say so. What it printed
    /// that no run has claimed goes with it.
    pub fn died(&mut self, status: i32) -> (r: Died)
        requires
            old(self).inv(),
        ensures
            final(self).inv(),
            r.name@ == old(self)@.name,
            r.status == status,
            r.stderr@ == lossy_text(old(self)@.err),
            final(self)@ == (Talk {
                status: Some(status),
                out: Seq::empty(),
                err: Seq::empty(),
                ..old(self)@
            }),
    {
        let stderr: String = lossy(self.err.as_slice());
        self.err = Vec::new();
        self.out = Vec::new();
        self.scanned = 0;
        self.status = Some(status);
        assert(self@.err =~= Seq::empty());
        assert(self@.out =~= Seq::empty());
        Died { name: String::from_str(self.name.as_str()), status, stderr }
    }
}

/// How long to wait for more on the error stream of a run that is over: what is already there
/// after a good one, and until the deadline after a failed one.
pub fn settle_for(
    failed: bool,
    now: crate::clock::Instant,
    deadline: crate::clock::Instant,
) -> (r: Duration)
    ensures
        r == if failed {
            crate::clock::passed(deadline, now)
        } else {
            0
        },
{
    if failed {
        crate::clock::elapsed(deadline, now)
    } else {
        0
    }
}

/// What a process that should be leaving is given next.
#[derive(Clone, Copy, Debug, PartialEq, Eq, Structural)]
pub enum Reap {
    /// It left, with this status; -1 for a signal.
    Left(i32),
    /// A moment more, and another look.
    Sleep,
    /// No more time: it is killed, and waited for.
    Kill,
}

/// What a look at a process that should be leaving found.
#[derive(Clone, Copy, Debug, PartialEq, Eq, Structural)]
pub enum Look {
    /// It has exited, with this code; none for a signal.
    Exited(Option<i32>),
    Running,
    /// It could not be looked at.
    Failed,
}

/// Give a process that should be leaving until the deadline to do so on its own.
pub fn reaping(
    look: Look,
    now: crate::clock::Instant,
    deadline: crate::clock::Instant,
) -> (r: Reap)
    ensures
        r == match look {
            Look::Exited(Some(code)) => Reap::Left(code),
            Look::Exited(None) => Reap::Left(-1i32),
            Look::Running => if now < deadline {
                Reap::Sleep
            } else {
                Reap::Kill
            },
            Look::Failed => Reap::Kill,
        },
{
    match look {
        Look::Exited(Some(code)) => Reap::Left(code),
        Look::Exited(None) => Reap::Left(-1),
        Look::Running => if now < deadline {
            Reap::Sleep
        } else {
            Reap::Kill
        },
        Look::Failed => Reap::Kill,
    }
}

proof fn lemma_more_output(out: Seq<u8>, more: Seq<u8>, needle: Seq<u8>)
    requires
        needle.len() > 0,
        marked(out, needle) is Some,
    ensures
        marked(out + more, needle) == marked(out, needle),
        marked(out, needle) matches Some((start, _, end)) ==> 0 <= start < end <= out.len(),
{
    let all = out + more;
    lemma_first_occurrence(out, needle, 0);
    lemma_first_occurrence(all, needle, 0);
    let (start, payload, end) = marked(out, needle)->0;
    assert(all.subrange(start, start + needle.len()) =~= out.subrange(start, start + needle.len()));
    assert(occurs(all, needle, start));
    let other = first_occurrence(all, needle, 0)->0;
    assert(occurs(all, needle, other));
    if other < start {
        assert(out.subrange(other, other + needle.len()) =~= all.subrange(
            other,
            other + needle.len(),
        ));
        assert(occurs(out, needle, other));
    }
    assert(other == start);
    let after = start + needle.len();
    let eol = end - 1;
    lemma_first_at(out, 10, after);
    lemma_first_at(all, 10, after);
    assert(all[eol] == out[eol]);
    let other_eol = first_at(all, 10, after);
    assert(other_eol <= eol);
    if other_eol < eol {
        assert(all[other_eol] == out[other_eol]);
    }
    assert(all.subrange(after, eol) =~= out.subrange(after, eol));
}

/// However the output is cut into reads, the answer is the same: once it is complete, nothing
/// that comes later changes it, and what comes later is left for the next run.
pub proof fn law_later_output_changes_nothing(talk: Talk, more: Seq<u8>)
    requires
        talk.heard().1 is Finished,
    ensures
        ({
            let later = Talk { out: talk.out + more, ..talk };
            &&& later.heard().1 == talk.heard().1
            &&& later.heard().0 == (Talk { out: talk.heard().0.out + more, ..talk.heard().0 })
        }),
{
    let later = Talk { out: talk.out + more, ..talk };
    let run = if talk.pending {
        lemma_more_output(talk.out, more, talk.needle(0));
        let (_, _, end) = marked(talk.out, talk.needle(0))->0;
        assert(later.out.skip(end) =~= talk.out.skip(end) + more);
        Talk { pending: false, out: talk.out.skip(end), ..talk }
    } else {
        talk
    };
    lemma_more_output(run.out, more, run.needle(run.seq));
    let (start, _, end) = marked(run.out, run.needle(run.seq))->0;
    assert((run.out + more).take(start) =~= run.out.take(start));
    assert((run.out + more).skip(end) =~= run.out.skip(end) + more);
}

proof fn lemma_marked_exactly(
    needle: Seq<u8>,
    printed: Seq<u8>,
    payload: Seq<u8>,
    rest: Seq<u8>,
)
    requires
        needle.len() > 0,
        needle[0] == 10u8,
        forall|i: int| !occurs(printed, needle, i),
        forall|i: int| 0 < i < needle.len() ==> #[trigger] needle[i] != 10u8,
        forall|i: int| 0 <= i < payload.len() ==> #[trigger] payload[i] != 10u8,
    ensures
        ({
            let out = printed + needle + payload + seq![10u8] + rest;
            let end = printed.len() + needle.len() + payload.len() + 1;
            &&& marked(out, needle) == Some(
                (printed.len() as int, without_returns(lossy_text(payload)), end as int),
            )
            &&& out.take(printed.len() as int) == printed
            &&& out.skip(end as int) == rest
        }),
{
    let out = printed + needle + payload + seq![10u8] + rest;
    let n = needle.len() as int;
    let start = printed.len() as int;
    assert(out.subrange(start, start + n) =~= needle);
    assert(occurs(out, needle, start));
    lemma_first_occurrence(out, needle, 0);
    let found = first_occurrence(out, needle, 0)->0;
    if found < start {
        assert(occurs(out, needle, found));
        assert(out.subrange(found, found + n) == needle);
        if found + n <= start {
            assert(printed.subrange(found, found + n) =~= out.subrange(found, found + n));
            assert(occurs(printed, needle, found));
        } else {
            let k = start - found;
            assert(out.subrange(found, found + n)[k] == out[start]);
            assert(out.subrange(start, start + n)[0] == out[start]);
            assert(needle[k] == 10u8);
        }
        assert(false);
    }
    assert(found == start);
    let after = start + n;
    let eol = after + payload.len();
    lemma_first_at(out, 10, after);
    assert(out[eol] == 10u8);
    let at = first_at(out, 10, after);
    if at < eol {
        assert(out[at] == payload[at - after]);
    }
    assert(out.subrange(after, eol) =~= payload);
    assert(out.take(start) =~= printed);
    assert(out.skip(eol + 1) =~= rest);
}

/// A run's output is exactly what its script printed, up to the marker, as long as the script
/// did not print the marker itself, which takes the secret, and the secret has no line feed in
/// it; and what follows the marker's line is left for the next run.
pub proof fn law_a_runs_output_is_exact(
    talk: Talk,
    printed: Seq<u8>,
    payload: Seq<u8>,
    rest: Seq<u8>,
)
    requires
        !talk.pending,
        talk.out == printed + talk.needle(talk.seq) + payload + seq![10u8] + rest,
        forall|i: int| !occurs(printed, talk.needle(talk.seq), i),
        forall|i: int|
            0 < i < talk.needle(talk.seq).len() ==> #[trigger] talk.needle(talk.seq)[i] != 10u8,
        forall|i: int| 0 <= i < payload.len() ==> #[trigger] payload[i] != 10u8,
    ensures
        talk.heard().1 == (Answer::Finished {
            stdout: printed,
            status: match int32(without_returns(lossy_text(payload))) {
                Some(status) => status,
                None => -1i32,
            },
        }),
        talk.heard().0 == (Talk { out: rest, ..talk }),
{
    lemma_marked_exactly(talk.needle(talk.seq), printed, payload, rest);
}

proof fn lemma_over_quoted(split: Split, s: Seq<char>)
    requires
        split.quote == Quote::Single,
        split.started,
    ensures
        split.over(quoted_chars(s)) == (Split { word: split.word + s, ..split }),
    decreases s.len(),
{
    if s.len() == 0 {
        assert(split.word + s =~= split.word);
    } else {
        let front = s.drop_last();
        lemma_over_quoted(split, front);
        let c = s.last();
        let tail = if c == '\'' {
            seq!['\'', '\\', '\'', '\'']
        } else {
            seq![c]
        };
        lemma_over_concat(split, quoted_chars(front), tail);
        let mid = Split { word: split.word + front, ..split };
        assert(split.over(quoted_chars(front)) == mid);
        reveal_with_fuel(Split::over, 5);
        if c == '\'' {
            let t3 = tail.drop_last();
            let t2 = t3.drop_last();
            let t1 = t2.drop_last();
            assert(t1.drop_last() =~= Seq::<char>::empty());
            assert(mid.over(tail) == mid.on_char('\'').on_char('\\').on_char('\'').on_char('\''));
            assert(mid.over(tail) =~= (Split { word: mid.word.push('\''), ..split }));
        } else {
            assert(tail.drop_last() =~= Seq::<char>::empty());
            assert(mid.over(tail) == mid.on_char(c));
        }
        assert((split.word + front).push(c) =~= split.word + s);
    }
}

proof fn lemma_over_value(split: Split, s: Seq<char>)
    requires
        split.quote == Quote::Bare,
        !split.started,
        split.word.len() == 0,
    ensures
        split.over(quoted_value(s)) == (Split { word: s, started: true, ..split }),
{
    let q = seq!['\''];
    lemma_over_concat(split, q + quoted_chars(s), q);
    lemma_over_concat(split, q, quoted_chars(s));
    reveal_with_fuel(Split::over, 2);
    assert(q.drop_last() =~= Seq::<char>::empty());
    let opened = split.over(q);
    assert(opened == split.on_char('\''));
    lemma_over_quoted(opened, s);
    assert(opened.word + s =~= s);
    let read = opened.over(quoted_chars(s));
    assert(read.over(q) == read.on_char('\''));
    assert(read.over(q) =~= (Split { word: s, started: true, ..split }));
}

proof fn lemma_over_values(args: Seq<Seq<char>>)
    requires
        args.len() > 0,
    ensures
        Split::start().over(quoted_values(args)) == (Split {
            words: args.drop_last(),
            word: args.last(),
            started: true,
            quote: Quote::Bare,
        }),
    decreases args.len(),
{
    let start = Split::start();
    if args.len() == 1 {
        lemma_over_value(start, args[0]);
        assert(args.drop_last() =~= start.words);
    } else {
        let front = args.drop_last();
        lemma_over_values(front);
        let space = seq![' '];
        lemma_over_concat(start, quoted_values(front) + space, quoted_value(args.last()));
        lemma_over_concat(start, quoted_values(front), space);
        let mid = start.over(quoted_values(front));
        reveal_with_fuel(Split::over, 2);
        assert(space.drop_last() =~= Seq::<char>::empty());
        let between = mid.over(space);
        assert(between == mid.on_char(' '));
        assert(front.drop_last().push(front.last()) =~= front);
        lemma_over_value(between, args.last());
    }
}

/// Quoted values read back one for one, whatever is in them: nothing is evaluated, split or
/// joined.
pub proof fn law_quoted_values_read_back(args: Seq<Seq<char>>)
    ensures
        words_of(quoted_values(args)) == Ok::<Seq<Seq<char>>, Seq<char>>(args),
{
    if args.len() == 0 {
        assert(Split::start().over(quoted_values(args)) == Split::start());
        assert(args =~= Seq::empty());
    } else {
        lemma_over_values(args);
        assert(args.drop_last().push(args.last()) =~= args);
    }
}

/// The shell is heard from its handshake on: whatever it printed in front of that belongs to
/// nobody, and what follows is the first run's. A shell that does not answer as it was asked to
/// is not the one that was asked.
pub proof fn law_nothing_before_the_handshake_counts(
    talk: Talk,
    noise: Seq<u8>,
    payload: Seq<u8>,
    rest: Seq<u8>,
)
    requires
        talk.pending,
        talk.out == noise + talk.needle(0) + payload + seq![10u8] + rest,
        forall|i: int| !occurs(noise, talk.needle(0), i),
        forall|i: int| 0 < i < talk.needle(0).len() ==> #[trigger] talk.needle(0)[i] != 10u8,
        forall|i: int| 0 <= i < payload.len() ==> #[trigger] payload[i] != 10u8,
    ensures
        without_returns(lossy_text(payload)) == "ready"@ ==> talk.heard() == (Talk {
            pending: false,
            out: rest,
            ..talk
        }).heard(),
        without_returns(lossy_text(payload)) != "ready"@ ==> talk.heard().1 == Answer::Broken,
{
    lemma_marked_exactly(talk.needle(0), noise, payload, rest);
}

/// Every run of a shell has its own marker, and no shell with another secret has it.
pub proof fn law_every_run_has_its_own_marker(
    secret: Seq<char>,
    other: Seq<char>,
    a: u64,
    b: u64,
)
    requires
        secret.len() == other.len(),
        marker_text(secret, a) == marker_text(other, b),
    ensures
        secret == other,
        a == b,
{
    let x = marker_text(secret, a);
    let y = marker_text(other, b);
    let m = MARK@.len() as int;
    let n = m + secret.len();
    assert(x.subrange(m, n) =~= secret);
    assert(y.subrange(m, n) =~= other);
    reveal_strlit("_");
    assert(x.skip(n + 1) =~= decimal(a as nat));
    assert(y.skip(n + 1) =~= decimal(b as nat));
    crate::text::lemma_decimal_reads_back(a as nat);
    crate::text::lemma_decimal_reads_back(b as nat);
}

/// A marker is told from what a script prints by the line feed in front of it and the space
/// behind it.
pub proof fn law_a_marker_stands_on_its_own_line(marker: Seq<char>)
    ensures
        needle_bytes(marker).len() == utf8(marker).len() + 2,
        needle_bytes(marker)[0] == 0x0a,
        needle_bytes(marker).last() == 0x20,
        needle_bytes(marker).subrange(1, needle_bytes(marker).len() - 1) == utf8(marker),
{
    assert(needle_bytes(marker).subrange(1, needle_bytes(marker).len() - 1) =~= utf8(marker));
}

/// A run gets the next number, and what the shell printed between two runs belongs to neither;
/// what came in front of the handshake is still there for it to be found in.
pub proof fn law_a_run_starts_with_nothing_printed(talk: Talk)
    requires
        talk.seq < u64::MAX,
    ensures
        talk.sent().seq == talk.seq + 1,
        !talk.pending ==> talk.sent().out == Seq::<u8>::empty(),
        talk.pending ==> talk.sent().out == talk.out,
        talk.sent() == (Talk { seq: talk.sent().seq, out: talk.sent().out, ..talk }),
{
}

/// A frame gives the shell the arguments, quoted, on its first line and the script as it is
/// behind it, on lines of its own, and ends by printing the marker with the status: with
/// another script or other arguments only they differ.
pub proof fn law_a_frame_carries_its_script_as_it_is(
    marker: Seq<char>,
    script: Seq<char>,
    args: Seq<Seq<char>>,
)
    ensures
        ({
            let f = frame_bytes(marker, script, args);
            let head = utf8("( set -- "@) + utf8(quoted_values(args)) + seq![10u8];
            let tail = seq![10u8] + utf8(") </dev/null; printf '\\n%s %s\\n' "@) + utf8(marker)
                + utf8(" \"$?\"\n"@);
            let n = head.len() as int;
            let k = utf8(script).len() as int;
            &&& f.len() == n + k + tail.len()
            &&& f.take(n) == head
            &&& f.subrange(n, n + k) == utf8(script)
            &&& f.skip(n + k) == tail
        }),
{
    let f = frame_bytes(marker, script, args);
    let head = utf8("( set -- "@) + utf8(quoted_values(args)) + seq![10u8];
    let tail = seq![10u8] + utf8(") </dev/null; printf '\\n%s %s\\n' "@) + utf8(marker) + utf8(
        " \"$?\"\n"@,
    );
    let n = head.len() as int;
    let k = utf8(script).len() as int;
    assert(f.take(n) =~= head);
    assert(f.subrange(n, n + k) =~= utf8(script));
    assert(f.skip(n + k) =~= tail);
}

/// Carriage returns at the end of a line are not part of it, and nothing else is taken away.
pub proof fn law_carriage_returns_end_a_line(line: Seq<char>)
    ensures
        without_returns(line.push('\r')) == without_returns(line),
        line.len() > 0 && line.last() != '\r' ==> without_returns(line) == line,
        without_returns(Seq::empty()) == Seq::<char>::empty(),
{
    assert(line.push('\r').drop_last() =~= line);
}

/// The handshake asks for the marker on a line of its own with the word that says the shell is
/// there.
pub proof fn law_the_handshake_asks_for_its_marker(marker: Seq<char>)
    ensures
        ({
            let h = handshake_bytes(marker);
            let head = utf8("printf '\\n%s %s\\n' "@);
            let tail = utf8(" ready\n"@);
            let n = head.len() as int;
            let k = utf8(marker).len() as int;
            &&& h.len() == n + k + tail.len()
            &&& h.take(n) == head
            &&& h.subrange(n, n + k) == utf8(marker)
            &&& h.skip(n + k) == tail
        }),
{
    let h = handshake_bytes(marker);
    let head = utf8("printf '\\n%s %s\\n' "@);
    let tail = utf8(" ready\n"@);
    let n = head.len() as int;
    let k = utf8(marker).len() as int;
    assert(h.take(n) =~= head);
    assert(h.subrange(n, n + k) =~= utf8(marker));
    assert(h.skip(n + k) =~= tail);
}

/// What a shell said on its way out is told behind a colon, without the white space round it,
/// and one that said nothing adds nothing; its name comes first and its status is told.
pub proof fn law_a_dead_shells_last_words_are_told(died: Died, silent: Died)
    requires
        died.name@ == silent.name@,
        died.status == silent.status,
        trimmed(silent.stderr@).len() == 0,
    ensures
        silent.text() == silent.name@ + " died with status "@ + signed(silent.status as int)
            + " while running a script"@,
        trimmed(died.stderr@).len() == 0 ==> died.text() == silent.text(),
        trimmed(died.stderr@).len() > 0 ==> died.text() == silent.text() + ": "@ + trimmed(
            died.stderr@,
        ),
{
}

} // verus!
