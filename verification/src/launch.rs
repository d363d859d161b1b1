//! The command a session's Neovim is launched with.
//!
//! One line that says how to start the editor a session is. The socket it must listen on is
//! not known when the line is written, so the line carries a [`PLACEHOLDER`], replaced with
//! the real path when the session starts:
//!
//! ```text
//! nvim --headless --listen {sock}
//! ```
//!
//! The line is split into words here and travels to the host as separate arguments. Nothing
//! is expanded: there are no globs, no variables, no `~`, because there is no shell in the
//! path that would honour them.

use vstd::prelude::*;
use vstd::utf8::encode_utf8;

use crate::error::SessionError;
use crate::session::{is_unrenderable, unrenderable};
use crate::text::{
    chars_of, find_char, first_char, is_white_space, lemma_trimming_is_idempotent, starts, starts_with, string_of, trim, trimmed,
    white_space,
};

verus! {

/// Stands in for the session's socket path.
pub const PLACEHOLDER: &'static str = "{sock}";

/// What is launched when nothing says otherwise.
pub const DEFAULT: &'static str = "nvim --headless --listen {sock}";

/// The longest line there may be, in bytes.
pub const MAX_LEN: usize = 512;

/// Where in a line the split is.
#[derive(Debug, Clone, Copy, PartialEq, Eq, Structural)]
pub enum Quote {
    /// Outside any quotes.
    Bare,
    /// Behind a backslash outside quotes.
    Escaped,
    /// Inside single quotes, where everything is literal.
    Single,
    /// Inside double quotes.
    Double,
    /// Behind a backslash inside double quotes.
    DoubleEscaped,
}

/// A line split so far: the words that are whole, the one being read, and whether one is.
#[verifier::ext_equal]
pub struct Split {
    pub words: Seq<Seq<char>>,
    pub word: Seq<char>,
    pub started: bool,
    pub quote: Quote,
}

impl Split {
    /// Nothing read yet.
    pub open spec fn start() -> Split {
        Split { words: Seq::empty(), word: Seq::empty(), started: false, quote: Quote::Bare }
    }

    /// One more character of the word being read.
    pub open spec fn with(self, c: char) -> Split {
        Split { word: self.word.push(c), started: true, quote: self.quote, ..self }
    }

    /// The next character of the line.
    pub open spec fn on_char(self, c: char) -> Split {
        match self.quote {
            Quote::Bare => if white_space(c) {
                if self.started {
                    Split {
                        words: self.words.push(self.word),
                        word: Seq::empty(),
                        started: false,
                        quote: Quote::Bare,
                    }
                } else {
                    self
                }
            } else if c == '\'' {
                Split { started: true, quote: Quote::Single, ..self }
            } else if c == '"' {
                Split { started: true, quote: Quote::Double, ..self }
            } else if c == '\\' {
                Split { started: true, quote: Quote::Escaped, ..self }
            } else {
                self.with(c)
            },
            Quote::Escaped => Split { quote: Quote::Bare, ..self.with(c) },
            Quote::Single => if c == '\'' {
                Split { quote: Quote::Bare, ..self }
            } else {
                self.with(c)
            },
            Quote::Double => if c == '"' {
                Split { quote: Quote::Bare, ..self }
            } else if c == '\\' {
                Split { quote: Quote::DoubleEscaped, ..self }
            } else {
                self.with(c)
            },
            // Only a quote and a backslash are escaped here; a backslash before anything
            // else is itself.
            Quote::DoubleEscaped => if c == '"' || c == '\\' {
                Split { quote: Quote::Double, ..self.with(c) }
            } else {
                Split { quote: Quote::Double, ..self.with('\\').with(c) }
            },
        }
    }

    /// These characters, one after the other.
    pub open spec fn over(self, line: Seq<char>) -> Split
        decreases line.len(),
    {
        if line.len() == 0 {
            self
        } else {
            self.over(line.drop_last()).on_char(line.last())
        }
    }

    /// The words at the end of the line, or what is wrong with it.
    pub open spec fn ended(self) -> Result<Seq<Seq<char>>, Seq<char>> {
        match self.quote {
            Quote::Bare => Ok(
                if self.started {
                    self.words.push(self.word)
                } else {
                    self.words
                },
            ),
            Quote::Single => Err("has an unclosed ' quote"@),
            Quote::Double => Err("has an unclosed \" quote"@),
            Quote::Escaped | Quote::DoubleEscaped => Err("ends with a dangling backslash"@),
        }
    }
}

/// The words of a line, split the way a POSIX shell splits words and no further.
pub open spec fn words_of(line: Seq<char>) -> Result<Seq<Seq<char>>, Seq<char>> {
    Split::start().over(line).ended()
}

/// The texts of these strings.
pub open spec fn texts(words: Seq<String>) -> Seq<Seq<char>> {
    words.map_values(|w: String| w@)
}

/// Split a line the way a POSIX shell splits words, and no further. An unterminated quote
/// or a trailing backslash is an error rather than a word that quietly loses its tail.
pub fn split(line: &str) -> (r: Result<Vec<String>, &'static str>)
    ensures
        match r {
            Ok(words) => words_of(line@) == Ok::<Seq<Seq<char>>, Seq<char>>(texts(words@)),
            Err(reason) => words_of(line@) == Err::<Seq<Seq<char>>, Seq<char>>(reason@),
        },
{
    let chars: Vec<char> = chars_of(line);
    let mut words: Vec<String> = Vec::new();
    let mut word: String = String::new();
    let mut started: bool = false;
    let mut quote: Quote = Quote::Bare;
    let mut i: usize = 0;
    assert(texts(words@) =~= Seq::<Seq<char>>::empty());
    assert(Split::start() =~= Split { words: texts(words@), word: word@, started, quote });
    assert(chars@.take(0) =~= Seq::<char>::empty());
    while i < chars.len()
        invariant
            chars@ == line@,
            i <= chars@.len(),
            Split::start().over(chars@.take(i as int)) == (Split {
                words: texts(words@),
                word: word@,
                started,
                quote,
            }),
        decreases chars@.len() - i,
    {
        let c: char = chars[i];
        let ghost before = Split { words: texts(words@), word: word@, started, quote };
        assert(chars@.take(i + 1).drop_last() =~= chars@.take(i as int));
        match quote {
            Quote::Bare => {
                if is_white_space(c) {
                    if started {
                        let mut whole: String = String::new();
                        core::mem::swap(&mut whole, &mut word);
                        let ghost old_words = words@;
                        words.push(whole);
                        started = false;
                        assert(texts(words@) =~= texts(old_words).push(whole@));
                    }
                } else if c == '\'' {
                    started = true;
                    quote = Quote::Single;
                } else if c == '"' {
                    started = true;
                    quote = Quote::Double;
                } else if c == '\\' {
                    started = true;
                    quote = Quote::Escaped;
                } else {
                    started = true;
                    word.push(c);
                }
            },
            Quote::Escaped => {
                started = true;
                word.push(c);
                quote = Quote::Bare;
            },
            Quote::Single => {
                if c == '\'' {
                    quote = Quote::Bare;
                } else {
                    started = true;
                    word.push(c);
                }
            },
            Quote::Double => {
                if c == '"' {
                    quote = Quote::Bare;
                } else if c == '\\' {
                    quote = Quote::DoubleEscaped;
                } else {
                    started = true;
                    word.push(c);
                }
            },
            Quote::DoubleEscaped => {
                started = true;
                if c != '"' && c != '\\' {
                    word.push('\\');
                }
                word.push(c);
                quote = Quote::Double;
            },
        }
        assert(before.on_char(c) =~= Split { words: texts(words@), word: word@, started, quote });
        i += 1;
    }
    assert(chars@.take(i as int) =~= line@);
    match quote {
        Quote::Bare => {
            if started {
                let ghost old_words = words@;
                words.push(word);
                assert(texts(words@) =~= texts(old_words).push(word@));
            }
            Ok(words)
        },
        Quote::Single => Err("has an unclosed ' quote"),
        Quote::Double => Err("has an unclosed \" quote"),
        Quote::Escaped | Quote::DoubleEscaped => Err("ends with a dangling backslash"),
    }
}

/// A character that may stand in the name of a variable.
pub open spec fn name_char(c: char) -> bool {
    ('a' <= c && c <= 'z') || ('A' <= c && c <= 'Z') || ('0' <= c && c <= '9') || c == '_'
}

/// The name of a variable.
pub open spec fn is_name(name: Seq<char>) -> bool {
    &&& name.len() > 0
    &&& !('0' <= name[0] && name[0] <= '9')
    &&& forall|i: int| 0 <= i < name.len() ==> name_char(#[trigger] name[i])
}

/// A word that a shell would read as an assignment: a variable's name up to the first `=`.
pub open spec fn assigns(word: Seq<char>) -> bool {
    let at = first_char(word, '=', 0);
    at < word.len() && is_name(word.take(at))
}

/// `NAME=` at the start of a word, as a shell would read an assignment.
fn is_assignment(word: &str) -> (r: bool)
    ensures
        r == assigns(word@),
{
    let chars: Vec<char> = chars_of(word);
    let at: usize = find_char(&chars, '=', 0);
    if at == chars.len() || at == 0 {
        return false;
    }
    let ghost name = word@.take(at as int);
    if '0' <= chars[0] && chars[0] <= '9' {
        assert(name[0] == chars@[0]);
        return false;
    }
    let mut i: usize = 0;
    while i < at
        invariant
            chars@ == word@,
            name == word@.take(at as int),
            at == first_char(word@, '=', 0),
            i <= at < chars@.len(),
            forall|j: int| 0 <= j < i ==> name_char(#[trigger] name[j]),
        decreases at - i,
    {
        let c: char = chars[i];
        assert(name[i as int] == c);
        if !(('a' <= c && c <= 'z') || ('A' <= c && c <= 'Z') || ('0' <= c && c <= '9') || c
            == '_') {
            assert(!name_char(name[i as int]));
            return false;
        }
        i += 1;
    }
    true
}

/// How often `pat` occurs in the text, counted from the left without overlaps.
pub open spec fn occurrences(s: Seq<char>, pat: Seq<char>) -> nat
    decreases s.len(),
{
    if s.len() == 0 || pat.len() == 0 {
        0
    } else if starts(s, pat) {
        1 + occurrences(s.skip(pat.len() as int), pat)
    } else {
        occurrences(s.drop_first(), pat)
    }
}

/// The text with every occurrence of `pat`, from the left, replaced.
pub open spec fn replaced(s: Seq<char>, pat: Seq<char>, with: Seq<char>) -> Seq<char>
    decreases s.len(),
{
    if s.len() == 0 || pat.len() == 0 {
        s
    } else if starts(s, pat) {
        with + replaced(s.skip(pat.len() as int), pat, with)
    } else {
        seq![s[0]] + replaced(s.drop_first(), pat, with)
    }
}

/// How often `pat` occurs in all of the words.
pub open spec fn occurrences_in(words: Seq<Seq<char>>, pat: Seq<char>) -> nat
    decreases words.len(),
{
    if words.len() == 0 {
        0
    } else {
        occurrences_in(words.drop_last(), pat) + occurrences(words.last(), pat)
    }
}

/// How often the placeholder occurs in a word.
fn placeholders(word: &str) -> (n: usize)
    ensures
        n == occurrences(word@, PLACEHOLDER@),
{
    proof {
        reveal_strlit("{sock}");
    }
    let chars: Vec<char> = chars_of(word);
    let len: usize = PLACEHOLDER.unicode_len();
    let mut i: usize = 0;
    let mut n: usize = 0;
    assert(word@.skip(0) =~= word@);
    while i < chars.len()
        invariant
            chars@ == word@,
            i <= chars@.len(),
            n <= i,
            len == PLACEHOLDER@.len(),
            len == 6,
            n + occurrences(word@.skip(i as int), PLACEHOLDER@) == occurrences(
                word@,
                PLACEHOLDER@,
            ),
        decreases chars@.len() - i,
    {
        let rest: &[char] = vstd::slice::slice_subrange(&chars, i, chars.len());
        assert(rest@ =~= word@.skip(i as int));
        if starts_with(rest, PLACEHOLDER) {
            assert(rest@.skip(len as int) =~= word@.skip(i + len));
            n += 1;
            i += len;
        } else {
            assert(rest@.drop_first() =~= word@.skip(i + 1));
            i += 1;
        }
    }
    n
}

/// The word with every placeholder replaced.
fn fill(word: &str, sock: &str) -> (r: String)
    ensures
        r@ == replaced(word@, PLACEHOLDER@, sock@),
{
    proof {
        reveal_strlit("{sock}");
    }
    let chars: Vec<char> = chars_of(word);
    let len: usize = PLACEHOLDER.unicode_len();
    let mut out: String = String::new();
    let mut i: usize = 0;
    assert(word@.skip(0) =~= word@);
    assert(out@ + replaced(word@, PLACEHOLDER@, sock@) =~= replaced(word@, PLACEHOLDER@, sock@));
    while i < chars.len()
        invariant
            chars@ == word@,
            i <= chars@.len(),
            len == PLACEHOLDER@.len(),
            len == 6,
            out@ + replaced(word@.skip(i as int), PLACEHOLDER@, sock@) == replaced(
                word@,
                PLACEHOLDER@,
                sock@,
            ),
        decreases chars@.len() - i,
    {
        let rest: &[char] = vstd::slice::slice_subrange(&chars, i, chars.len());
        let ghost before = out@;
        assert(rest@ =~= word@.skip(i as int));
        if starts_with(rest, PLACEHOLDER) {
            assert(rest@.skip(len as int) =~= word@.skip(i + len));
            out.append(sock);
            i += len;
            assert(out@ + replaced(word@.skip(i as int), PLACEHOLDER@, sock@) =~= before + (sock@
                + replaced(word@.skip(i as int), PLACEHOLDER@, sock@)));
        } else {
            assert(rest@.drop_first() =~= word@.skip(i + 1));
            out.push(chars[i]);
            i += 1;
            assert(out@ + replaced(word@.skip(i as int), PLACEHOLDER@, sock@) =~= before + (
            seq![rest@[0]] + replaced(word@.skip(i as int), PLACEHOLDER@, sock@)));
        }
    }
    assert(out@ + replaced(word@.skip(i as int), PLACEHOLDER@, sock@) =~= out@);
    out
}

/// What is wrong with a line that has been trimmed, if anything: checked in this order.
pub open spec fn fault(line: Seq<char>) -> Option<Seq<char>> {
    if line.len() == 0 {
        Some("must not be empty"@)
    } else if encode_utf8(line).len() > MAX_LEN {
        Some("must be 512 bytes or fewer"@)
    } else if exists|i: int| 0 <= i < line.len() && unrenderable(#[trigger] line[i]) {
        Some("must not contain control or invisible formatting characters"@)
    } else {
        match words_of(line) {
            Err(reason) => Some(reason),
            Ok(words) => if words.len() == 0 {
                Some("must not be empty"@)
            } else if assigns(words[0]) {
                Some(
                    "starts with a variable assignment, which nothing here expands — use `env NAME=value nvim …`"@,
                )
            } else if occurrences_in(words, PLACEHOLDER@) == 0 {
                Some(
                    "must contain {sock} — it becomes the session's socket, which is how nvmux finds and kills it"@,
                )
            } else if occurrences_in(words, PLACEHOLDER@) != 1 {
                Some("must contain {sock} exactly once"@)
            } else {
                None
            },
        }
    }
}

/// A validated launch command: the line as it was written, and the words it splits into.
///
/// The line is what is shown, remembered and stored; the words are what is executed, and
/// deriving them once means the split that was validated is the split that runs.
#[derive(Debug, Clone, PartialEq, Eq)]
pub struct Launch {
    line: String,
    words: Vec<String>,
}

impl Launch {
    /// The line as it was written.
    pub closed spec fn line_text(self) -> Seq<char> {
        self.line@
    }

    /// The words it splits into.
    pub closed spec fn word_texts(self) -> Seq<Seq<char>> {
        texts(self.words@)
    }

    /// The line is trimmed and has no fault, and these are its words.
    pub open spec fn wf(self) -> bool {
        &&& trimmed(self.line_text()) == self.line_text()
        &&& fault(self.line_text()) is None
        &&& words_of(self.line_text()) == Ok::<Seq<Seq<char>>, Seq<char>>(self.word_texts())
    }

    /// Validate a line and split it. Every rejection names what is wrong with it.
    pub fn parse(line: &str) -> (r: Result<Self, SessionError>)
        ensures
            match r {
                Ok(launch) => {
                    &&& fault(trimmed(line@)) is None
                    &&& launch.wf()
                    &&& launch.line_text() == trimmed(line@)
                },
                Err(SessionError::InvalidCommand { command, reason }) => {
                    &&& command@ == trimmed(line@)
                    &&& fault(trimmed(line@)) == Some(reason@)
                },
                Err(_) => false,
            },
    {
        let all: Vec<char> = chars_of(line);
        let kept: &[char] = trim(&all);
        let text: String = string_of(kept);
        if kept.len() == 0 {
            return Err(
                SessionError::InvalidCommand { command: text, reason: "must not be empty" },
            );
        }
        if text.as_str().as_bytes().len() > MAX_LEN {
            return Err(
                SessionError::InvalidCommand {
                    command: text,
                    reason: "must be 512 bytes or fewer",
                },
            );
        }
        let mut i: usize = 0;
        while i < kept.len()
            invariant
                i <= kept@.len(),
                all@ == line@,
                text@ == kept@,
                kept@ == trimmed(all@),
                kept@.len() > 0,
                encode_utf8(kept@).len() <= MAX_LEN,
                forall|j: int| 0 <= j < i ==> !unrenderable(#[trigger] kept@[j]),
            decreases kept@.len() - i,
        {
            if is_unrenderable(kept[i]) {
                assert(unrenderable(kept@[i as int]));
                return Err(
                    SessionError::InvalidCommand {
                        command: text,
                        reason: "must not contain control or invisible formatting characters",
                    },
                );
            }
            i += 1;
        }
        let words: Vec<String> = match split(text.as_str()) {
            Ok(words) => words,
            Err(reason) => {
                return Err(SessionError::InvalidCommand { command: text, reason });
            },
        };
        if words.len() == 0 {
            return Err(
                SessionError::InvalidCommand { command: text, reason: "must not be empty" },
            );
        }
        assert(texts(words@)[0] == words@[0]@);
        if is_assignment(words[0].as_str()) {
            return Err(
                SessionError::InvalidCommand {
                    command: text,
                    reason: "starts with a variable assignment, which nothing here expands — use `env NAME=value nvim …`",
                },
            );
        }
        // More than one is as much as there is to know.
        let mut count: usize = 0;
        let mut w: usize = 0;
        assert(texts(words@).take(0) =~= Seq::<Seq<char>>::empty());
        while w < words.len()
            invariant
                w <= words@.len(),
                count <= 2,
                count < 2 ==> count == occurrences_in(texts(words@).take(w as int), PLACEHOLDER@),
                count == 2 ==> occurrences_in(texts(words@).take(w as int), PLACEHOLDER@) >= 2,
            decreases words@.len() - w,
        {
            let more: usize = placeholders(words[w].as_str());
            assert(texts(words@).take(w + 1).drop_last() =~= texts(words@).take(w as int));
            assert(texts(words@).take(w + 1).last() == words@[w as int]@);
            count = if more >= 2 || count + more >= 2 {
                2
            } else {
                count + more
            };
            w += 1;
        }
        assert(texts(words@).take(w as int) =~= texts(words@));
        if count == 0 {
            return Err(
                SessionError::InvalidCommand {
                    command: text,
                    reason: "must contain {sock} — it becomes the session's socket, which is how nvmux finds and kills it",
                },
            );
        }
        if count != 1 {
            return Err(
                SessionError::InvalidCommand {
                    command: text,
                    reason: "must contain {sock} exactly once",
                },
            );
        }
        proof {
            lemma_trimming_is_idempotent(line@);
        }
        Ok(Self { line: text, words })
    }

    /// The line as it was written.
    pub fn line(&self) -> (r: &str)
        ensures
            r@ == self.line_text(),
    {
        self.line.as_str()
    }

    /// The words to run, with the placeholder replaced by a real socket path.
    pub fn argv_for(&self, sock: &str) -> (argv: Vec<String>)
        ensures
            texts(argv@) == self.word_texts().map_values(
                |w: Seq<char>| replaced(w, PLACEHOLDER@, sock@),
            ),
    {
        let mut argv: Vec<String> = Vec::new();
        let mut i: usize = 0;
        while i < self.words.len()
            invariant
                i <= self.words@.len(),
                texts(argv@) == texts(self.words@.take(i as int)).map_values(
                    |w: Seq<char>| replaced(w, PLACEHOLDER@, sock@),
                ),
            decreases self.words@.len() - i,
        {
            let ghost before = argv@;
            let word: String = fill(self.words[i].as_str(), sock);
            argv.push(word);
            assert(texts(argv@) =~= texts(before).push(word@));
            assert(self.words@.take(i + 1) =~= self.words@.take(i as int).push(
                self.words@[i as int],
            ));
            assert(texts(self.words@.take(i + 1)) =~= texts(self.words@.take(i as int)).push(
                self.words@[i as int]@,
            ));
            assert(texts(argv@) =~= texts(self.words@.take(i + 1)).map_values(
                |w: Seq<char>| replaced(w, PLACEHOLDER@, sock@),
            ));
            i += 1;
        }
        assert(self.words@.take(i as int) =~= self.words@);
        argv
    }
}

/// A command that was accepted is accepted again as it is shown: its line parses back, to
/// the same words.
pub proof fn law_an_accepted_line_parses_back(launch: Launch)
    requires
        launch.wf(),
    ensures
        fault(trimmed(launch.line_text())) is None,
        words_of(trimmed(launch.line_text())) == Ok::<Seq<Seq<char>>, Seq<char>>(
            launch.word_texts(),
        ),
{
}

/// An accepted command names the socket exactly once, so the words that run have it exactly
/// where the placeholder was.
pub proof fn law_an_accepted_command_names_the_socket_once(launch: Launch)
    requires
        launch.wf(),
    ensures
        launch.word_texts().len() > 0,
        !assigns(launch.word_texts()[0]),
        occurrences_in(launch.word_texts(), PLACEHOLDER@) == 1,
{
}

/// A word without the placeholder runs as it was written: nothing else is ever expanded.
pub proof fn law_nothing_else_is_expanded(word: Seq<char>, sock: Seq<char>)
    requires
        occurrences(word, PLACEHOLDER@) == 0,
    ensures
        replaced(word, PLACEHOLDER@, sock) == word,
    decreases word.len(),
{
    reveal_strlit("{sock}");
    if word.len() > 0 {
        law_nothing_else_is_expanded(word.drop_first(), sock);
        assert(seq![word[0]] + word.drop_first() =~= word);
    }
}

pub proof fn lemma_over_concat(s: Split, a: Seq<char>, b: Seq<char>)
    ensures
        s.over(a + b) == s.over(a).over(b),
    decreases b.len(),
{
    if b.len() == 0 {
        assert(a + b =~= a);
    } else {
        lemma_over_concat(s, a, b.drop_last());
        assert((a + b).drop_last() =~= a + b.drop_last());
    }
}

/// Reading characters that are all literal where the split stands.
proof fn lemma_literal(s: Split, text: Seq<char>)
    requires
        (s.quote == Quote::Single && forall|i: int| 0 <= i < text.len() ==> text[i] != '\'') || (
        s.quote == Quote::Bare && plain(text)),
        s.started || text.len() > 0,
    ensures
        s.over(text) == (Split { word: s.word + text, started: true, ..s }),
    decreases text.len(),
{
    if text.len() == 0 {
        assert(s.word + text =~= s.word);
    } else {
        let shorter = text.drop_last();
        assert forall|i: int| 0 <= i < shorter.len() implies shorter[i] == text[i] by {}
        assert(text.last() == text[text.len() - 1]);
        if shorter.len() > 0 || s.started {
            lemma_literal(s, shorter);
        }
        if shorter.len() == 0 {
            assert(s.over(shorter) == s);
        }
        assert((s.word + shorter).push(text.last()) =~= s.word + text);
        assert(s.word.push(text.last()) =~= s.word + seq![text.last()]);
        assert(s.over(text) =~= (Split { word: s.word + text, started: true, ..s }));
    }
}

/// Inside single quotes everything is literal: any text without a single quote, quoted, is
/// one word, itself.
pub proof fn law_single_quotes_are_literal(text: Seq<char>)
    requires
        forall|i: int| 0 <= i < text.len() ==> text[i] != '\'',
    ensures
        words_of(seq!['\''] + text + seq!['\'']) == Ok::<Seq<Seq<char>>, Seq<char>>(seq![text]),
{
    let q = seq!['\''];
    let start = Split::start();
    lemma_over_concat(start, q + text, q);
    lemma_over_concat(start, q, text);
    reveal_with_fuel(Split::over, 2);
    assert(q.drop_last() =~= Seq::<char>::empty());
    let opened = start.over(q);
    assert(opened == start.on_char('\''));
    lemma_literal(opened, text);
    let read = opened.over(text);
    assert(opened.word + text =~= text);
    assert(read.over(q) == read.on_char('\''));
    assert(Seq::<Seq<char>>::empty().push(text) =~= seq![text]);
}

/// No white space, no quotes and no backslash.
pub open spec fn plain(text: Seq<char>) -> bool {
    forall|i: int|
        0 <= i < text.len() ==> !white_space(#[trigger] text[i]) && text[i] != '\'' && text[i]
            != '"' && text[i] != '\\'
}

/// The words with one space between each two.
pub open spec fn joined(words: Seq<Seq<char>>) -> Seq<char>
    decreases words.len(),
{
    if words.len() == 0 {
        Seq::empty()
    } else if words.len() == 1 {
        words[0]
    } else {
        joined(words.drop_last()) + seq![' '] + words.last()
    }
}

proof fn lemma_joined_words(words: Seq<Seq<char>>)
    requires
        words.len() > 0,
        forall|i: int| 0 <= i < words.len() ==> #[trigger] words[i].len() > 0 && plain(words[i]),
    ensures
        Split::start().over(joined(words)) == (Split {
            words: words.drop_last(),
            word: words.last(),
            started: true,
            quote: Quote::Bare,
        }),
    decreases words.len(),
{
    let start = Split::start();
    assert(words.last() == words[words.len() - 1]);
    if words.len() == 1 {
        lemma_literal(start, words[0]);
        assert(start.word + words[0] =~= words[0]);
        assert(words.drop_last() =~= Seq::<Seq<char>>::empty());
    } else {
        let init = words.drop_last();
        assert forall|i: int| 0 <= i < init.len() implies #[trigger] init[i].len() > 0 && plain(
            init[i],
        ) by {
            assert(init[i] == words[i]);
        }
        lemma_joined_words(init);
        let space = seq![' '];
        lemma_over_concat(start, joined(init) + space, words.last());
        lemma_over_concat(start, joined(init), space);
        reveal_with_fuel(Split::over, 2);
        assert(space.drop_last() =~= Seq::<char>::empty());
        let at = start.over(joined(init));
        let next = at.over(space);
        assert(next == at.on_char(' '));
        assert(init.drop_last().push(init.last()) =~= init);
        assert(next =~= (Split {
            words: init,
            word: Seq::empty(),
            started: false,
            quote: Quote::Bare,
        }));
        lemma_literal(next, words.last());
        assert(next.word + words.last() =~= words.last());
    }
}

/// Plain words with spaces between them are split into just those words.
pub proof fn law_plain_words_are_split_at_spaces(words: Seq<Seq<char>>)
    requires
        forall|i: int| 0 <= i < words.len() ==> #[trigger] words[i].len() > 0 && plain(words[i]),
    ensures
        words_of(joined(words)) == Ok::<Seq<Seq<char>>, Seq<char>>(words),
{
    if words.len() == 0 {
        assert(words =~= Seq::<Seq<char>>::empty());
    } else {
        lemma_joined_words(words);
        assert(words.drop_last().push(words.last()) =~= words);
    }
}

proof fn lemma_no_brace_no_placeholder(word: Seq<char>)
    requires
        forall|i: int| 0 <= i < word.len() ==> word[i] != '{',
    ensures
        occurrences(word, PLACEHOLDER@) == 0,
    decreases word.len(),
{
    reveal_strlit("{sock}");
    if word.len() > 0 {
        let rest = word.drop_first();
        assert forall|i: int| 0 <= i < rest.len() implies rest[i] != '{' by {
            assert(rest[i] == word[i + 1]);
        }
        lemma_no_brace_no_placeholder(rest);
        if starts(word, PLACEHOLDER@) {
            assert(word.take(6)[0] == word[0]);
        }
    }
}

/// What is launched when nothing says otherwise is an accepted command: its words are those
/// one reads, with the socket the last of them.
pub proof fn law_the_default_command_is_accepted()
    ensures
        trimmed(DEFAULT@) == DEFAULT@,
        fault(DEFAULT@) is None,
        words_of(DEFAULT@) == Ok::<Seq<Seq<char>>, Seq<char>>(
            seq!["nvim"@, "--headless"@, "--listen"@, "{sock}"@],
        ),
{
    reveal_strlit("nvim --headless --listen {sock}");
    reveal_strlit("nvim");
    reveal_strlit("--headless");
    reveal_strlit("--listen");
    reveal_strlit("{sock}");
    let words = seq!["nvim"@, "--headless"@, "--listen"@, "{sock}"@];
    let line = DEFAULT@;
    reveal_with_fuel(joined, 5);
    assert(words.drop_last() =~= seq!["nvim"@, "--headless"@, "--listen"@]);
    assert(words.drop_last().drop_last() =~= seq!["nvim"@, "--headless"@]);
    assert(words.drop_last().drop_last().drop_last() =~= seq!["nvim"@]);
    assert(joined(words) =~= line);
    assert(forall|i: int| 0 <= i < 4 ==> #[trigger] words[i].len() > 0 && plain(words[i])) by {
        assert(plain(words[0]));
        assert(plain(words[1]));
        assert(plain(words[2]));
        assert(plain(words[3]));
    }
    law_plain_words_are_split_at_spaces(words);
    crate::text::lemma_trimmed_is_itself(line);
    assert(vstd::utf8::is_ascii_chars(line));
    vstd::utf8::is_ascii_chars_encode_utf8(line);
    assert(forall|i: int| 0 <= i < line.len() ==> !unrenderable(#[trigger] line[i]));
    lemma_no_brace_no_placeholder(words[0]);
    lemma_no_brace_no_placeholder(words[1]);
    lemma_no_brace_no_placeholder(words[2]);
    assert(occurrences(words[3], PLACEHOLDER@) == 1) by {
        reveal_with_fuel(occurrences, 2);
        assert(words[3].take(6) =~= PLACEHOLDER@);
        assert(words[3].skip(6) =~= Seq::<char>::empty());
    }
    reveal_with_fuel(occurrences_in, 5);
    assert(first_char(words[0], '=', 0) == 4) by {
        reveal_with_fuel(first_char, 5);
    }
}

proof fn lemma_literal_in_double_quotes(s: Split, text: Seq<char>)
    requires
        s.quote == Quote::Double,
        s.started,
        forall|i: int| 0 <= i < text.len() ==> #[trigger] text[i] != '"' && text[i] != '\\',
    ensures
        s.over(text) == (Split { word: s.word + text, ..s }),
    decreases text.len(),
{
    if text.len() == 0 {
        assert(s.word + text =~= s.word);
    } else {
        let shorter = text.drop_last();
        assert forall|i: int| 0 <= i < shorter.len() implies #[trigger] shorter[i] != '"'
            && shorter[i] != '\\' by {
            assert(shorter[i] == text[i]);
        }
        lemma_literal_in_double_quotes(s, shorter);
        assert(text.last() == text[text.len() - 1]);
        assert((s.word + shorter).push(text.last()) =~= s.word + text);
        assert(s.over(text) =~= (Split { word: s.word + text, ..s }));
    }
}

proof fn lemma_one_char(s: Split, c: char)
    ensures
        s.over(seq![c]) == s.on_char(c),
{
    reveal_with_fuel(Split::over, 2);
    assert(seq![c].drop_last() =~= Seq::<char>::empty());
}

/// Double quotes keep a text together: any text without a double quote and without a backslash,
/// quoted, is one word, itself, white space and all.
pub proof fn law_double_quotes_keep_a_text_together(text: Seq<char>)
    requires
        forall|i: int| 0 <= i < text.len() ==> #[trigger] text[i] != '"' && text[i] != '\\',
    ensures
        words_of(seq!['"'] + text + seq!['"']) == Ok::<Seq<Seq<char>>, Seq<char>>(seq![text]),
{
    let q = seq!['"'];
    let start = Split::start();
    lemma_over_concat(start, q + text, q);
    lemma_over_concat(start, q, text);
    lemma_one_char(start, '"');
    let opened = start.over(q);
    lemma_literal_in_double_quotes(opened, text);
    let read = opened.over(text);
    assert(opened.word + text =~= text);
    lemma_one_char(read, '"');
    assert(Seq::<Seq<char>>::empty().push(text) =~= seq![text]);
}

/// A backslash takes away what the next character means: outside quotes that character is part
/// of its word, whatever it is, and inside double quotes a quote and a backslash are, while in
/// front of anything else the backslash stands for itself.
pub proof fn law_a_backslash_makes_the_next_character_plain(
    pre: Seq<char>,
    c: char,
    post: Seq<char>,
)
    requires
        plain(pre),
        plain(post),
    ensures
        words_of(pre + seq!['\\', c] + post) == Ok::<Seq<Seq<char>>, Seq<char>>(
            seq![pre + seq![c] + post],
        ),
        words_of(seq!['"', '\\', c, '"']) == Ok::<Seq<Seq<char>>, Seq<char>>(
            seq![
                if c == '"' || c == '\\' {
                    seq![c]
                } else {
                    seq!['\\', c]
                },
            ],
        ),
{
    let start = Split::start();
    let none = Seq::<Seq<char>>::empty();
    lemma_over_concat(start, pre + seq!['\\', c], post);
    lemma_over_concat(start, pre, seq!['\\', c]);
    let before = start.over(pre);
    if pre.len() > 0 {
        lemma_literal(start, pre);
    }
    assert(start.word + pre =~= pre);
    assert(before.word =~= pre);
    assert(seq!['\\', c] =~= seq!['\\'] + seq![c]);
    lemma_over_concat(before, seq!['\\'], seq![c]);
    lemma_one_char(before, '\\');
    lemma_one_char(before.on_char('\\'), c);
    let mid = before.on_char('\\').on_char(c);
    assert(mid.word =~= pre + seq![c]);
    lemma_literal(mid, post);
    assert(mid.word + post =~= pre + seq![c] + post);
    assert(none.push(pre + seq![c] + post) =~= seq![pre + seq![c] + post]);
    let line = seq!['"', '\\', c, '"'];
    assert(line =~= seq!['"'] + seq!['\\'] + seq![c] + seq!['"']);
    lemma_over_concat(start, seq!['"'] + seq!['\\'] + seq![c], seq!['"']);
    lemma_over_concat(start, seq!['"'] + seq!['\\'], seq![c]);
    lemma_over_concat(start, seq!['"'], seq!['\\']);
    let a = start.on_char('"');
    let b = a.on_char('\\');
    let d = b.on_char(c);
    lemma_one_char(start, '"');
    lemma_one_char(a, '\\');
    lemma_one_char(b, c);
    lemma_one_char(d, '"');
    let word = if c == '"' || c == '\\' {
        seq![c]
    } else {
        seq!['\\', c]
    };
    assert(d.word =~= word);
    assert(none.push(word) =~= seq![word]);
}

/// A line that ends inside quotes or behind a backslash is refused.
pub proof fn law_an_unfinished_line_is_refused(text: Seq<char>)
    requires
        plain(text),
    ensures
        words_of(seq!['\''] + text) is Err,
        words_of(seq!['"'] + text) is Err,
        words_of(text + seq!['\\']) is Err,
{
    let start = Split::start();
    lemma_over_concat(start, seq!['\''], text);
    lemma_over_concat(start, seq!['"'], text);
    lemma_over_concat(start, text, seq!['\\']);
    lemma_one_char(start, '\'');
    lemma_one_char(start, '"');
    lemma_literal(start.on_char('\''), text);
    lemma_literal_in_double_quotes(start.on_char('"'), text);
    if text.len() > 0 {
        lemma_literal(start, text);
    }
    lemma_one_char(start.over(text), '\\');
}

/// The socket's path stands exactly where the placeholder was, and everything round it is as it
/// was written.
pub proof fn law_the_path_stands_where_the_placeholder_was(word: Seq<char>, sock: Seq<char>)
    requires
        occurrences(word, PLACEHOLDER@) == 1,
    ensures
        exists|at: int|
            0 <= at && at + 6 <= word.len() && #[trigger] word.subrange(at, at + 6) == "{sock}"@
                && replaced(word, PLACEHOLDER@, sock) == word.take(at) + sock + word.skip(at + 6),
    decreases word.len(),
{
    reveal_strlit("{sock}");
    if starts(word, PLACEHOLDER@) {
        let rest = word.skip(6);
        law_nothing_else_is_expanded(rest, sock);
        assert(word.subrange(0, 6) =~= word.take(6));
        assert(replaced(word, PLACEHOLDER@, sock) =~= word.take(0) + sock + word.skip(6));
    } else {
        let rest = word.drop_first();
        law_the_path_stands_where_the_placeholder_was(rest, sock);
        let at = choose|at: int|
            0 <= at && at + 6 <= rest.len() && #[trigger] rest.subrange(at, at + 6) == "{sock}"@
                && replaced(rest, PLACEHOLDER@, sock) == rest.take(at) + sock + rest.skip(at + 6);
        assert(word.subrange(at + 1, at + 1 + 6) =~= rest.subrange(at, at + 6));
        assert(replaced(word, PLACEHOLDER@, sock) =~= word.take(at + 1) + sock + word.skip(
            at + 1 + 6,
        ));
    }
}

/// A line is accepted exactly when it is not empty, no longer than 512 bytes, all of it can be
/// shown, and it splits into words that begin with a command, not an assignment, and name the
/// socket once.
pub proof fn law_what_lines_are_accepted(line: Seq<char>)
    ensures
        fault(line) is None <==> {
            &&& line.len() > 0
            &&& encode_utf8(line).len() <= 512
            &&& forall|i: int| 0 <= i < line.len() ==> !unrenderable(#[trigger] line[i])
            &&& words_of(line) matches Ok(words) && words.len() > 0 && !assigns(words[0])
                && occurrences_in(words, "{sock}"@) == 1
        },
{
    if line.len() > 0 && encode_utf8(line).len() <= 512 {
        if exists|i: int| 0 <= i < line.len() && unrenderable(#[trigger] line[i]) {
            let i = choose|i: int| 0 <= i < line.len() && unrenderable(#[trigger] line[i]);
            assert(unrenderable(line[i]));
        }
    }
}

/// A word is an assignment exactly when a variable's name stands before its first `=`: letters,
/// digits and underscores, at least one, the first no digit.
pub proof fn law_an_assignment_has_a_name_before_its_sign(name: Seq<char>, rest: Seq<char>)
    requires
        !name.contains('='),
    ensures
        assigns(name + seq!['='] + rest) <==> {
            &&& name.len() > 0
            &&& !('0' <= name[0] && name[0] <= '9')
            &&& forall|i: int|
                0 <= i < name.len() ==> {
                    let c = #[trigger] name[i];
                    ('a' <= c && c <= 'z') || ('A' <= c && c <= 'Z') || ('0' <= c && c <= '9') || c
                        == '_'
                }
        },
        !assigns(name),
{
    let word = name + seq!['='] + rest;
    crate::text::lemma_first_char(word, '=', 0);
    crate::text::lemma_first_char(name, '=', 0);
    assert(word[name.len() as int] == '=');
    let at = first_char(word, '=', 0);
    if at < name.len() {
        assert(name.contains(word[at]));
    }
    let in_name = first_char(name, '=', 0);
    if in_name < name.len() {
        assert(name.contains(name[in_name]));
    }
    assert(word.take(at) =~= name);
}

} // verus!
