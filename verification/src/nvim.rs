//! Reading the version of an `nvim` binary, up front, because every failure here otherwise
//! surfaces later as an unexplained connection error.

use vstd::prelude::*;

use crate::error::NvimError;
use crate::text::{
    chars_of, decimal, find_char, first_char, first_line, first_word,
    lemma_decimal_reads_back, lemma_first_char, lemma_first_word_shrinks, lemma_split_once,
    lemma_trimmed_is_itself, lemma_word_ends_at, line_ends, lossy, lossy_text, next_word,
    number_text, parse_number, split_once, spelled_number, string_of, trim, trim_start, trimmed, white_space,
};

verus! {

/// The oldest Neovim supported: where `:detach` and `:connect` landed.
pub const MIN_VERSION: &'static str = "0.11";

/// The same, as it is compared with.
pub const MIN_MAJOR: u64 = 0;

pub const MIN_MINOR: u64 = 11;

/// A Neovim version.
#[derive(Debug, PartialEq, Eq)]
pub struct Version {
    pub major: u64,
    pub minor: u64,
    pub patch: u64,
    /// `dev`, `dev-1511`, and so on. Present on nightlies.
    pub prerelease: Option<String>,
}

/// A version, as a value.
#[verifier::ext_equal]
pub struct Release {
    pub major: u64,
    pub minor: u64,
    pub patch: u64,
    pub prerelease: Option<Seq<char>>,
}

impl View for Version {
    type V = Release;

    open spec fn view(&self) -> Release {
        Release {
            major: self.major,
            minor: self.minor,
            patch: self.patch,
            prerelease: match self.prerelease {
                Some(p) => Some(p@),
                None => None,
            },
        }
    }
}

impl Release {
    /// New enough: the major and minor numbers are at least the oldest supported ones.
    pub open spec fn supported(self) -> bool {
        self.major > MIN_MAJOR || (self.major == MIN_MAJOR && self.minor >= MIN_MINOR)
    }

    /// As it is printed.
    pub open spec fn text(self) -> Seq<char> {
        let numbers = decimal(self.major as nat) + "."@ + decimal(self.minor as nat) + "."@
            + decimal(self.patch as nat);
        match self.prerelease {
            Some(p) => numbers + "-"@ + p,
            None => numbers,
        }
    }
}

impl Version {
    /// Whether it is new enough.
    pub fn is_supported(&self) -> (r: bool)
        ensures
            r == self@.supported(),
    {
        self.major > MIN_MAJOR || (self.major == MIN_MAJOR && self.minor >= MIN_MINOR)
    }

    /// As it is printed: `0.11.4`, `0.13.0-dev-1511`.
    pub fn text(&self) -> (r: String)
        ensures
            r@ == self@.text(),
    {
        let mut s: String = number_text(self.major);
        s.append(".");
        s.append(number_text(self.minor).as_str());
        s.append(".");
        s.append(number_text(self.patch).as_str());
        if let Some(p) = &self.prerelease {
            s.append("-");
            s.append(p.as_str());
        }
        s
    }
}

/// A word without the `v` in front of it, if there is one.
pub open spec fn bare(word: Seq<char>) -> Seq<char> {
    if word.len() > 0 && word[0] == 'v' {
        word.skip(1)
    } else {
        word
    }
}

/// A word that looks like a version: a digit first, perhaps behind a `v`.
pub open spec fn looks_like_version(word: Seq<char>) -> bool {
    bare(word).len() > 0 && '0' <= bare(word)[0] && bare(word)[0] <= '9'
}

/// The first word of a line that looks like a version.
pub open spec fn version_word(line: Seq<char>) -> Option<Seq<char>>
    decreases line.len(),
{
    match first_word(line) {
        None => None,
        Some((word, rest)) => if looks_like_version(word) {
            Some(word)
        } else if rest.len() < line.len() {
            version_word(rest)
        } else {
            None
        },
    }
}

/// A number that fits 64 bits.
pub open spec fn component(s: Seq<char>) -> Option<u64> {
    match spelled_number(s) {
        Some(n) => if n <= u64::MAX {
            Some(n as u64)
        } else {
            None
        },
        None => None,
    }
}

/// Two or three numbers with dots between them, a missing third being 0.
pub open spec fn numbers_of(s: Seq<char>) -> Option<(u64, u64, u64)> {
    let (a, rest) = split_once(s, '.');
    match rest {
        None => None,
        Some(rest) => {
            let (b, rest) = split_once(rest, '.');
            match rest {
                None => match (component(a), component(b)) {
                    (Some(a), Some(b)) => Some((a, b, 0)),
                    _ => None,
                },
                Some(c) => match (component(a), component(b), component(c)) {
                    (Some(a), Some(b), Some(c)) => Some((a, b, c)),
                    _ => None,
                },
            }
        },
    }
}

/// The version a word names: what follows a `+` is the build and means nothing here, and
/// what follows the first `-` in front of that is the prerelease.
pub open spec fn release_of(word: Seq<char>) -> Option<Release> {
    let core = split_once(bare(word), '+').0;
    let (numbers, prerelease) = split_once(core, '-');
    match numbers_of(numbers) {
        Some((major, minor, patch)) => Some(Release { major, minor, patch, prerelease }),
        None => None,
    }
}

/// The version a banner names, on its first line.
pub open spec fn version_in(banner: Seq<char>) -> Option<Release> {
    match first_line(banner) {
        None => None,
        Some(line) => match version_word(trimmed(line)) {
            None => None,
            Some(word) => release_of(word),
        },
    }
}

/// Where the first word that looks like a version starts, behind its `v`, and where it ends.
fn find_version(line: &[char]) -> (r: Option<(usize, usize)>)
    ensures
        match r {
            Some((start, end)) => {
                &&& start <= end <= line@.len()
                &&& version_word(line@) matches Some(word) && bare(word) == line@.subrange(
                    start as int,
                    end as int,
                )
            },
            None => version_word(line@) is None,
        },
{
    let mut from: usize = 0;
    assert(line@.skip(0) =~= line@);
    loop
        invariant
            from <= line@.len(),
            version_word(line@) == version_word(line@.skip(from as int)),
        decreases line@.len() - from,
    {
        let ghost rest = line@.skip(from as int);
        proof {
            lemma_first_word_shrinks(rest);
        }
        match next_word(line, from) {
            None => return None,
            Some((start, end)) => {
                let ghost word = line@.subrange(start as int, end as int);
                let digit: usize = if line[start] == 'v' {
                    start + 1
                } else {
                    start
                };
                assert(word[0] == line@[start as int]);
                assert(bare(word) =~= line@.subrange(digit as int, end as int));
                if digit < end && '0' <= line[digit] && line[digit] <= '9' {
                    assert(bare(word)[0] == line@[digit as int]);
                    return Some((digit, end));
                }
                assert(digit < end ==> bare(word)[0] == line@[digit as int]);
                from = end;
            },
        }
    }
}

/// Two or three numbers with dots between them.
fn read_numbers(s: &[char]) -> (r: Option<(u64, u64, u64)>)
    ensures
        r == numbers_of(s@),
{
    let one: usize = find_char(s, '.', 0);
    if one >= s.len() {
        return None;
    }
    let a: &[char] = vstd::slice::slice_subrange(s, 0, one);
    let rest: &[char] = vstd::slice::slice_subrange(s, one + 1, s.len());
    assert(a@ =~= s@.take(one as int));
    assert(rest@ =~= s@.skip(one + 1));
    let two: usize = find_char(rest, '.', 0);
    if two >= rest.len() {
        return match (parse_number(a), parse_number(rest)) {
            (Some(a), Some(b)) => Some((a, b, 0)),
            _ => None,
        };
    }
    let b: &[char] = vstd::slice::slice_subrange(rest, 0, two);
    let c: &[char] = vstd::slice::slice_subrange(rest, two + 1, rest.len());
    assert(b@ =~= rest@.take(two as int));
    assert(c@ =~= rest@.skip(two + 1));
    match (parse_number(a), parse_number(b), parse_number(c)) {
        (Some(a), Some(b), Some(c)) => Some((a, b, c)),
        _ => None,
    }
}

/// Parse the first line of `nvim --version`: the first word that looks like a version,
/// wherever on the line it stands.
pub fn parse_version(banner: &str) -> (r: Option<Version>)
    ensures
        match r {
            Some(version) => version_in(banner@) == Some(version@),
            None => version_in(banner@) is None,
        },
{
    let all: Vec<char> = chars_of(banner);
    let first: &[char] = match line_ends(&all) {
        None => return None,
        Some((end, _)) => vstd::slice::slice_subrange(&all, 0, end),
    };
    assert(first_line(banner@) == Some(first@)) by {
        assert(first@ =~= all@.take(first@.len() as int));
    }
    let line: &[char] = trim(first);
    let token: &[char] = match find_version(line) {
        None => return None,
        Some((start, end)) => vstd::slice::slice_subrange(line, start, end),
    };
    let plus: usize = find_char(token, '+', 0);
    let core: &[char] = vstd::slice::slice_subrange(token, 0, plus);
    assert(core@ =~= split_once(token@, '+').0);
    let dash: usize = find_char(core, '-', 0);
    let numbers: &[char] = vstd::slice::slice_subrange(core, 0, dash);
    assert(numbers@ =~= split_once(core@, '-').0);
    let prerelease: Option<String> = if dash < core.len() {
        let tail: &[char] = vstd::slice::slice_subrange(core, dash + 1, core.len());
        assert(tail@ =~= core@.skip(dash + 1));
        Some(string_of(tail))
    } else {
        None
    };
    match read_numbers(numbers) {
        Some((major, minor, patch)) => Some(Version { major, minor, patch, prerelease }),
        None => None,
    }
}

/// The first line of a banner, for showing.
fn first_line_of(banner: &str) -> (r: String)
    ensures
        r@ == match first_line(banner@) {
            Some(line) => line,
            None => ""@,
        },
{
    let all: Vec<char> = chars_of(banner);
    match line_ends(&all) {
        None => String::from_str(""),
        Some((end, _)) => {
            let first: &[char] = vstd::slice::slice_subrange(&all, 0, end);
            assert(first@ =~= all@.take(end as int));
            string_of(first)
        },
    }
}

/// The verdict on a banner: the version it names where that is new enough, and otherwise the
/// error that says which machine and why.
pub open spec fn is_verdict(
    r: Result<Version, NvimError>,
    where_: Seq<char>,
    banner: Seq<char>,
) -> bool {
    match r {
        Ok(version) => version_in(banner) == Some(version@) && version@.supported(),
        Err(NvimError::UnparsableVersion { where_: w, raw }) => {
            &&& version_in(banner) is None
            &&& w@ == where_
            &&& raw@ == match first_line(banner) {
                Some(line) => line,
                None => ""@,
            }
        },
        Err(NvimError::TooOld { where_: w, found, min }) => {
            &&& version_in(banner) matches Some(release) && !release.supported() && found@
                == release.text()
            &&& w@ == where_
            &&& min@ == MIN_VERSION@
        },
        Err(_) => false,
    }
}

/// What both machines' banners are held to once they are in hand: one has to parse, and what
/// it says has to be new enough. `where_` names the machine, for the error.
pub fn check_banner(where_: &str, banner: &str) -> (r: Result<Version, NvimError>)
    ensures
        is_verdict(r, where_@, banner@),
{
    let version: Version = match parse_version(banner) {
        Some(version) => version,
        None => {
            return Err(
                NvimError::UnparsableVersion {
                    where_: String::from_str(where_),
                    raw: first_line_of(banner),
                },
            );
        },
    };
    if !version.is_supported() {
        return Err(
            NvimError::TooOld {
                where_: String::from_str(where_),
                found: version.text(),
                min: MIN_VERSION,
            },
        );
    }
    Ok(version)
}

/// The same, of a banner as `nvim` wrote it.
pub fn check_banner_of(where_: &str, banner: &[u8]) -> (r: Result<Version, NvimError>)
    ensures
        is_verdict(r, where_@, lossy_text(banner@)),
{
    check_banner(where_, lossy(banner).as_str())
}

/// A text that is one word: no white space in it.
pub open spec fn unspaced(s: Seq<char>) -> bool {
    forall|i: int| 0 <= i < s.len() ==> !white_space(#[trigger] s[i])
}

impl Release {
    /// Its prerelease, if it has one, is one word without a `+`.
    pub open spec fn printable(self) -> bool {
        self.prerelease matches Some(p) ==> unspaced(p) && !p.contains('+')
    }
}

/// The numbers of a version as they are printed.
spec fn numbers_text(r: Release) -> Seq<char> {
    decimal(r.major as nat) + "."@ + decimal(r.minor as nat) + "."@ + decimal(r.patch as nat)
}

/// The numbers read back, and are digits with dots between them.
proof fn lemma_numbers_read_back(r: Release)
    ensures
        numbers_of(numbers_text(r)) == Some((r.major, r.minor, r.patch)),
        numbers_text(r).len() > 0,
        '0' <= numbers_text(r)[0] && numbers_text(r)[0] <= '9',
        forall|i: int|
            0 <= i < numbers_text(r).len() ==> {
                ||| #[trigger] numbers_text(r)[i] == '.'
                ||| '0' <= numbers_text(r)[i] && numbers_text(r)[i] <= '9'
            },
{
    reveal_strlit(".");
    let a = decimal(r.major as nat);
    let b = decimal(r.minor as nat);
    let c = decimal(r.patch as nat);
    lemma_decimal_reads_back(r.major as nat);
    lemma_decimal_reads_back(r.minor as nat);
    lemma_decimal_reads_back(r.patch as nat);
    let dot = seq!['.'];
    assert("."@ =~= dot);
    let all = numbers_text(r);
    assert(all =~= a + dot + (b + dot + c));
    lemma_split_once(a, '.', b + dot + c);
    lemma_split_once(b, '.', c);
    assert(all[0] == a[0]);
    assert forall|i: int| 0 <= i < all.len() implies {
        ||| #[trigger] all[i] == '.'
        ||| '0' <= all[i] && all[i] <= '9'
    } by {
        let n = a.len() as int;
        let m = b.len() as int;
        if i < n {
            assert(all[i] == a[i]);
        } else if i == n {
        } else if i < n + 1 + m {
            assert(all[i] == b[i - n - 1]);
        } else if i == n + 1 + m {
        } else {
            assert(all[i] == c[i - n - m - 2]);
        }
    }
}

/// A printed version is one word without a `+`, and starts with a digit.
proof fn lemma_printed(r: Release)
    requires
        r.printable(),
    ensures
        r.text().len() > 0,
        '0' <= r.text()[0] && r.text()[0] <= '9',
        unspaced(r.text()),
        !r.text().contains('+'),
{
    reveal_strlit("-");
    lemma_numbers_read_back(r);
    let numbers = numbers_text(r);
    let all = r.text();
    assert(all[0] == numbers[0]);
    assert forall|i: int| 0 <= i < all.len() implies !white_space(#[trigger] all[i]) && all[i]
        != '+' by {
        if i < numbers.len() {
            assert(all[i] == numbers[i]);
        } else if i > numbers.len() {
            let p = r.prerelease->0;
            assert(all[i] == p[i - numbers.len() - 1]);
            assert(p.contains(p[i - numbers.len() - 1]));
        }
    }
}

/// A printed version with a build behind it or none, and with a `v` in front of it or none,
/// names that version.
proof fn lemma_word_reads_back(r: Release, v: bool, build: Option<Seq<char>>)
    requires
        r.printable(),
    ensures
        ({
            let word = (if v {
                seq!['v']
            } else {
                Seq::empty()
            }) + r.text() + match build {
                Some(b) => seq!['+'] + b,
                None => Seq::empty(),
            };
            release_of(word) == Some(r) && looks_like_version(word)
        }),
{
    reveal_strlit("-");
    lemma_printed(r);
    lemma_numbers_read_back(r);
    let text = r.text();
    let numbers = numbers_text(r);
    let front = if v {
        seq!['v']
    } else {
        Seq::<char>::empty()
    };
    let back = match build {
        Some(b) => seq!['+'] + b,
        None => Seq::<char>::empty(),
    };
    let word = front + text + back;
    assert(word[front.len() as int] == text[0]);
    assert(bare(word) =~= text + back);
    assert(bare(word)[0] == text[0]);
    match build {
        Some(b) => {
            assert(text + back =~= text + seq!['+'] + b);
            lemma_split_once(text, '+', b);
        },
        None => {
            assert(text + back =~= text);
            lemma_split_once(text, '+', Seq::empty());
        },
    }
    assert("-"@ =~= seq!['-']);
    assert(!numbers.contains('-'));
    match r.prerelease {
        Some(p) => {
            assert(text == numbers + "-"@ + p);
            lemma_split_once(numbers, '-', p);
        },
        None => {
            lemma_split_once(numbers, '-', Seq::empty());
        },
    }
    assert(release_of(word)->0 =~= r);
}

/// A word that looks like a version, alone on the first line or behind the program's name, is
/// the one that is read.
proof fn lemma_word_is_read(named: bool, word: Seq<char>, rest: Option<Seq<char>>)
    requires
        looks_like_version(word),
        unspaced(word),
    ensures
        ({
            let banner = (if named {
                "NVIM "@
            } else {
                Seq::empty()
            }) + word + match rest {
                Some(more) => seq!['\n'] + more,
                None => Seq::empty(),
            };
            version_in(banner) == release_of(word)
        }),
{
    reveal_strlit("NVIM ");
    let head = if named {
        "NVIM "@
    } else {
        Seq::<char>::empty()
    };
    let tail = match rest {
        Some(more) => seq!['\n'] + more,
        None => Seq::<char>::empty(),
    };
    let banner = head + word + tail;
    let line = head + word;
    let n = line.len() as int;
    assert(!white_space(word.last()) && !white_space(word[0]));
    assert(line.last() == word.last());
    assert(banner[n - 1] == word.last());
    lemma_first_char(banner, '\n', 0);
    assert forall|i: int| 0 <= i < n implies banner[i] != '\n' by {
        if i >= head.len() {
            assert(banner[i] == word[i - head.len()]);
        }
    }
    if rest is Some {
        assert(banner[n] == '\n');
    }
    assert(first_char(banner, '\n', 0) == n);
    assert(banner.take(n) =~= line);
    assert(first_line(banner) == Some(line));
    assert(line[0] == if named {
        'N'
    } else {
        word[0]
    });
    lemma_trimmed_is_itself(line);
    assert(trim_start(word) == word);
    lemma_word_ends_at(word, 0, word.len() as int);
    assert(word.take(word.len() as int) =~= word);
    if named {
        assert(line[4] == ' ');
        assert forall|k: int| 0 <= k < 4 implies !white_space(#[trigger] line[k]) by {}
        lemma_word_ends_at(line, 0, 4);
        let name = line.take(4);
        assert(name[0] == 'N');
        let behind = line.skip(4);
        assert(behind[0] == ' ');
        assert(behind.drop_first() =~= word);
        assert(trim_start(behind) == word);
        assert(first_word(line) == Some((name, behind)));
        assert(first_word(behind) == Some((word, word.skip(word.len() as int))));
        assert(version_word(behind) == Some(word));
        assert(version_word(line) == Some(word));
    } else {
        assert(line =~= word);
        assert(version_word(line) == Some(word));
    }
}

proof fn lemma_banner_reads_back(
    r: Release,
    named: bool,
    build: Option<Seq<char>>,
    rest: Option<Seq<char>>,
)
    requires
        r.printable(),
        build matches Some(b) ==> unspaced(b),
    ensures
        ({
            let word = (if named {
                seq!['v']
            } else {
                Seq::empty()
            }) + r.text() + match build {
                Some(b) => seq!['+'] + b,
                None => Seq::empty(),
            };
            let banner = (if named {
                "NVIM "@
            } else {
                Seq::empty()
            }) + word + match rest {
                Some(more) => seq!['\n'] + more,
                None => Seq::empty(),
            };
            version_in(banner) == Some(r)
        }),
{
    lemma_printed(r);
    lemma_word_reads_back(r, named, build);
    let front = if named {
        seq!['v']
    } else {
        Seq::<char>::empty()
    };
    let back = match build {
        Some(b) => seq!['+'] + b,
        None => Seq::<char>::empty(),
    };
    let word = front + r.text() + back;
    assert forall|i: int| 0 <= i < word.len() implies !white_space(#[trigger] word[i]) by {
        let at = i - front.len();
        if at < 0 {
        } else if at < r.text().len() {
            assert(word[i] == r.text()[at]);
        } else if at > r.text().len() {
            assert(word[i] == build->0[at - r.text().len() - 1]);
        }
    }
    lemma_word_is_read(named, word, rest);
}

/// A printed version parses back, alone or as a banner names it: a build behind it and whatever
/// lines follow never count. A prerelease with a `+` or white space in it would not: what
/// follows either is not read as its part.
pub proof fn law_a_printed_version_parses_back(r: Release, build: Seq<char>, rest: Seq<char>)
    requires
        r.printable(),
        unspaced(build),
    ensures
        version_in(r.text()) == Some(r),
        version_in("NVIM v"@ + r.text()) == Some(r),
        version_in("NVIM v"@ + r.text() + "+"@ + build) == Some(r),
        version_in("NVIM v"@ + r.text() + "\n"@ + rest) == Some(r),
        version_in("NVIM v"@ + r.text() + "+"@ + build + "\n"@ + rest) == Some(r),
{
    let empty = Seq::<char>::empty();
    let t = r.text();
    let v = seq!['v'];
    let plus = seq!['+'] + build;
    let lines = seq!['\n'] + rest;
    assert("NVIM v"@ =~= "NVIM "@ + v && "+"@ =~= seq!['+'] && "\n"@ =~= seq!['\n']) by {
        reveal_strlit("NVIM v");
        reveal_strlit("NVIM ");
        reveal_strlit("+");
        reveal_strlit("\n");
    }
    assert(version_in(t) == Some(r)) by {
        lemma_banner_reads_back(r, false, None, None);
        assert(empty + (empty + t + empty) + empty =~= t);
    }
    assert(version_in("NVIM v"@ + t) == Some(r)) by {
        lemma_banner_reads_back(r, true, None, None);
        assert("NVIM "@ + (v + t + empty) + empty =~= "NVIM v"@ + t);
    }
    assert(version_in("NVIM v"@ + t + "+"@ + build) == Some(r)) by {
        lemma_banner_reads_back(r, true, Some(build), None);
        assert("NVIM "@ + (v + t + plus) + empty =~= "NVIM v"@ + t + "+"@ + build);
    }
    assert(version_in("NVIM v"@ + t + "\n"@ + rest) == Some(r)) by {
        lemma_banner_reads_back(r, true, None, Some(rest));
        assert("NVIM "@ + (v + t + empty) + lines =~= "NVIM v"@ + t + "\n"@ + rest);
    }
    assert(version_in("NVIM v"@ + t + "+"@ + build + "\n"@ + rest) == Some(r)) by {
        lemma_banner_reads_back(r, true, Some(build), Some(rest));
        assert("NVIM "@ + (v + t + plus) + lines =~= "NVIM v"@ + t + "+"@ + build + "\n"@
            + rest);
    }
}

/// Whatever is at least as new as a supported version is supported too.
pub proof fn law_newer_is_supported_too(a: Release, b: Release)
    requires
        a.supported(),
        b.major > a.major || (b.major == a.major && b.minor >= a.minor),
    ensures
        b.supported(),
{
}

/// The minimum the errors print is the minimum that is enforced.
pub proof fn law_the_printed_minimum_is_the_enforced_one()
    ensures
        MIN_VERSION@ == decimal(MIN_MAJOR as nat) + "."@ + decimal(MIN_MINOR as nat),
{
    reveal_strlit("0.11");
    reveal_strlit(".");
    reveal_with_fuel(decimal, 3);
    assert(MIN_VERSION@ =~= decimal(MIN_MAJOR as nat) + "."@ + decimal(MIN_MINOR as nat));
}

/// The oldest supported version is 0.11: it and everything after it is supported, whatever its
/// patch and prerelease, and nothing before it is.
pub proof fn law_the_oldest_supported_version(r: Release)
    ensures
        r.supported() <==> r.major > 0 || r.minor >= 11,
{
}

/// Two numbers are a version whose third is nothing; one number, or none, is no version.
pub proof fn law_a_missing_patch_is_nothing(major: u64, minor: u64)
    ensures
        numbers_of(decimal(major as nat) + seq!['.'] + decimal(minor as nat)) == Some(
            (major, minor, 0u64),
        ),
        numbers_of(decimal(major as nat)) is None,
{
    let a = decimal(major as nat);
    let b = decimal(minor as nat);
    lemma_decimal_reads_back(major as nat);
    lemma_decimal_reads_back(minor as nat);
    assert(!a.contains('.')) by {
        if a.contains('.') {
            let i = choose|i: int| 0 <= i < a.len() && a[i] == '.';
            assert('0' <= a[i]);
        }
    }
    assert(!b.contains('.')) by {
        if b.contains('.') {
            let i = choose|i: int| 0 <= i < b.len() && b[i] == '.';
            assert('0' <= b[i]);
        }
    }
    lemma_split_once(a, '.', b);
    lemma_split_once(b, '.', b);
}

/// A verdict is a version that the banner names and that is new enough, or an error that names
/// the machine: a banner that names a version is never called unreadable, and one that is new
/// enough never too old.
pub proof fn law_a_verdict_fits_the_banner(
    r: Result<Version, NvimError>,
    where_: Seq<char>,
    banner: Seq<char>,
)
    requires
        is_verdict(r, where_, banner),
    ensures
        r is Ok <==> (version_in(banner) matches Some(v) && (v.major > 0 || v.minor >= 11)),
        r matches Ok(v) ==> version_in(banner) == Some(v@),
        r matches Err(NvimError::TooOld { where_: w, found, min }) ==> w@ == where_ && min@
            == "0.11"@ && (version_in(banner) matches Some(v) && v.major == 0 && v.minor < 11
            && found@ == v.text()),
        r matches Err(NvimError::UnparsableVersion { where_: w, .. }) ==> w@ == where_
            && version_in(banner) is None,
        r matches Err(e) ==> e is TooOld || e is UnparsableVersion,
{
}

} // verus!
