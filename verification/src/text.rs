//! Text as sequences of characters: trimming, folding, comparing, numbers in base ten.

use vstd::prelude::*;

verus! {

/// `String::push` appends the character to the end of the string.
pub assume_specification[ String::push ](s: &mut String, c: char)
    ensures
        final(s)@ == old(s)@.push(c),
;

/// `std::str::from_utf8`: the text that these bytes encode, if they are valid UTF-8.
#[verifier::external_body]
pub(crate) fn decoded(bytes: &[u8]) -> (r: Option<String>)
    ensures
        match r {
            Some(s) => vstd::utf8::valid_utf8(bytes@) && s@ == vstd::utf8::decode_utf8(bytes@),
            None => !vstd::utf8::valid_utf8(bytes@),
        },
{
    std::str::from_utf8(bytes).ok().map(String::from)
}

/// What `Debug` writes for a string with these characters: quoted, with the escapes that
/// a Rust string literal would have.
pub uninterp spec fn debug_text(s: Seq<char>) -> Seq<char>;

/// `format!` with `{:?}` on a string: the text that [`debug_text`] names.
#[verifier::external_body]
pub(crate) fn quoted(s: &str) -> (r: String)
    ensures
        r@ == debug_text(s@),
{
    format!("{s:?}")
}

/// The characters with the Unicode property `White_Space`.
pub open spec fn white_space(c: char) -> bool {
    let n = c as u32;
    ||| 0x09 <= n <= 0x0d
    ||| n == 0x20
    ||| n == 0x85
    ||| n == 0xa0
    ||| n == 0x1680
    ||| 0x2000 <= n <= 0x200a
    ||| n == 0x2028
    ||| n == 0x2029
    ||| n == 0x202f
    ||| n == 0x205f
    ||| n == 0x3000
}

/// Whether the character is white space.
pub(crate) fn is_white_space(c: char) -> (r: bool)
    ensures
        r == white_space(c),
{
    let n: u32 = c as u32;
    (0x09 <= n && n <= 0x0d) || n == 0x20 || n == 0x85 || n == 0xa0 || n == 0x1680 || (0x2000 <= n
        && n <= 0x200a) || n == 0x2028 || n == 0x2029 || n == 0x202f || n == 0x205f || n == 0x3000
}

/// The text without the white space it starts with.
pub open spec fn trim_start(s: Seq<char>) -> Seq<char>
    decreases s.len(),
{
    if s.len() > 0 && white_space(s[0]) {
        trim_start(s.drop_first())
    } else {
        s
    }
}

/// The text without the white space it ends with.
pub open spec fn trim_end(s: Seq<char>) -> Seq<char>
    decreases s.len(),
{
    if s.len() > 0 && white_space(s.last()) {
        trim_end(s.drop_last())
    } else {
        s
    }
}

/// The text without the white space round it.
pub open spec fn trimmed(s: Seq<char>) -> Seq<char> {
    trim_end(trim_start(s))
}

proof fn lemma_trim_start(s: Seq<char>)
    ensures
        trim_start(s).len() > 0 ==> !white_space(trim_start(s)[0]),
    decreases s.len(),
{
    if s.len() > 0 && white_space(s[0]) {
        lemma_trim_start(s.drop_first());
    }
}

proof fn lemma_trim_end(s: Seq<char>)
    ensures
        trim_end(s).len() <= s.len(),
        trim_end(s) == s.take(trim_end(s).len() as int),
        trim_end(s).len() > 0 ==> !white_space(trim_end(s).last()),
    decreases s.len(),
{
    if s.len() > 0 && white_space(s.last()) {
        lemma_trim_end(s.drop_last());
        let n = trim_end(s).len() as int;
        assert(s.drop_last().take(n) =~= s.take(n));
    } else {
        assert(s.take(s.len() as int) =~= s);
    }
}

/// Trimming again changes nothing.
pub proof fn lemma_trimming_is_idempotent(s: Seq<char>)
    ensures
        trimmed(trimmed(s)) == trimmed(s),
{
    lemma_trim_start(s);
    lemma_trim_end(trim_start(s));
    if trimmed(s).len() > 0 {
        assert(trimmed(s)[0] == trim_start(s)[0]);
        lemma_trimmed_is_itself(trimmed(s));
    }
}

/// A text that neither starts nor ends with white space is its own trimmed form.
pub proof fn lemma_trimmed_is_itself(s: Seq<char>)
    requires
        s.len() > 0,
        !white_space(s[0]),
        !white_space(s.last()),
    ensures
        trimmed(s) == s,
{
}

/// The text without the white space round it.
pub(crate) fn trim(s: &[char]) -> (r: &[char])
    ensures
        r@ == trimmed(s@),
{
    let mut from: usize = 0;
    assert(s@.skip(0) =~= s@);
    while from < s.len() && is_white_space(s[from])
        invariant
            from <= s@.len(),
            trim_start(s@) == trim_start(s@.skip(from as int)),
        decreases s@.len() - from,
    {
        assert(s@.skip(from as int).drop_first() =~= s@.skip(from + 1));
        from += 1;
    }
    let ghost rest = s@.skip(from as int);
    assert(trim_start(s@) == rest);
    let mut to: usize = s.len();
    assert(s@.subrange(from as int, to as int) =~= rest);
    while from < to && is_white_space(s[to - 1])
        invariant
            from <= to <= s@.len(),
            trim_end(rest) == trim_end(s@.subrange(from as int, to as int)),
        decreases to - from,
    {
        assert(s@.subrange(from as int, to as int).drop_last() =~= s@.subrange(
            from as int,
            to - 1,
        ));
        to -= 1;
    }
    vstd::slice::slice_subrange(s, from, to)
}

/// The lower case of an ASCII letter; any other character unchanged.
pub open spec fn lower(c: char) -> char {
    if 'A' <= c && c <= 'Z' {
        (c as u8 + 32) as char
    } else {
        c
    }
}

/// Every ASCII letter in lower case.
pub open spec fn lowered(s: Seq<char>) -> Seq<char> {
    s.map_values(|c: char| lower(c))
}

/// Every ASCII letter in lower case.
pub(crate) fn to_lower(s: &[char]) -> (r: Vec<char>)
    ensures
        r@ == lowered(s@),
{
    let mut out: Vec<char> = Vec::new();
    let mut i: usize = 0;
    while i < s.len()
        invariant
            i <= s@.len(),
            out@ == lowered(s@.take(i as int)),
        decreases s@.len() - i,
    {
        let c: char = s[i];
        let folded: char = if 'A' <= c && c <= 'Z' {
            (c as u8 + 32) as char
        } else {
            c
        };
        out.push(folded);
        assert(s@.take(i + 1) =~= s@.take(i as int).push(c));
        assert(out@ =~= lowered(s@.take(i + 1)));
        i += 1;
    }
    assert(s@.take(i as int) =~= s@);
    out
}

/// The text begins with `head`.
pub open spec fn starts(s: Seq<char>, head: Seq<char>) -> bool {
    head.len() <= s.len() && s.take(head.len() as int) == head
}

/// Whether the text begins with `head`.
pub(crate) fn starts_with(s: &[char], head: &str) -> (r: bool)
    ensures
        r == starts(s@, head@),
{
    let want: Vec<char> = chars_of(head);
    if want.len() > s.len() {
        return false;
    }
    let mut i: usize = 0;
    while i < want.len()
        invariant
            want@ == head@,
            i <= want@.len() <= s@.len(),
            s@.take(i as int) == want@.take(i as int),
        decreases want@.len() - i,
    {
        if s[i] != want[i] {
            assert(s@.take(want@.len() as int)[i as int] == s@[i as int]);
            return false;
        }
        assert(s@.take(i + 1) =~= s@.take(i as int).push(s@[i as int]));
        assert(want@.take(i + 1) =~= want@.take(i as int).push(want@[i as int]));
        i += 1;
    }
    assert(want@.take(i as int) =~= want@);
    true
}

/// Whether the text is exactly `other`.
pub(crate) fn same(s: &[char], other: &str) -> (r: bool)
    ensures
        r == (s@ == other@),
{
    let whole: bool = starts_with(s, other);
    let n: usize = other.unicode_len();
    assert(s@.len() == n ==> s@.take(n as int) =~= s@);
    whole && s.len() == n
}

/// The characters of a string.
pub(crate) fn chars_of(s: &str) -> (r: Vec<char>)
    ensures
        r@ == s@,
{
    let mut out: Vec<char> = Vec::new();
    for c in it: s.chars()
        invariant
            out@ == it.seq().take(it.index() as int),
            it.seq() == s@,
    {
        out.push(c);
        assert(it.seq().take(it.index() + 1) =~= it.seq().take(it.index() as int).push(c));
    }
    assert(out@ =~= s@);
    out
}

/// The string with these characters.
pub(crate) fn string_of(s: &[char]) -> (r: String)
    ensures
        r@ == s@,
{
    let mut out: String = String::new();
    let mut i: usize = 0;
    while i < s.len()
        invariant
            i <= s@.len(),
            out@ == s@.take(i as int),
        decreases s@.len() - i,
    {
        out.push(s[i]);
        assert(s@.take(i + 1) =~= s@.take(i as int).push(s@[i as int]));
        i += 1;
    }
    assert(s@.take(i as int) =~= s@);
    out
}

/// The digit for a number below ten.
pub open spec fn digit(n: nat) -> char {
    (0x30 + n) as char
}

/// A number in base ten, without leading zeros.
pub open spec fn decimal(n: nat) -> Seq<char>
    decreases n,
{
    if n < 10 {
        seq![digit(n)]
    } else {
        decimal(n / 10).push(digit(n % 10))
    }
}

/// Writes a number in base ten.
pub(crate) fn number_text(n: u64) -> (r: String)
    ensures
        r@ == decimal(n as nat),
    decreases n,
{
    let mut out: String = if n < 10 {
        String::new()
    } else {
        number_text(n / 10)
    };
    let last: char = (0x30 + (n % 10) as u8) as char;
    out.push(last);
    assert(n < 10 ==> out@ =~= seq![digit(n as nat)]);
    out
}

/// Where the first `c` at or after `from` stands, or the length if there is none.
pub open spec fn first_char(s: Seq<char>, c: char, from: int) -> int
    decreases s.len() - from,
{
    if from >= s.len() {
        s.len() as int
    } else if s[from] == c {
        from
    } else {
        first_char(s, c, from + 1)
    }
}

/// The first occurrence lies inside the text, and nothing before it is one.
pub proof fn lemma_first_char(s: Seq<char>, c: char, from: int)
    requires
        0 <= from <= s.len(),
    ensures
        from <= first_char(s, c, from) <= s.len(),
        first_char(s, c, from) < s.len() ==> s[first_char(s, c, from)] == c,
        forall|i: int| from <= i < first_char(s, c, from) ==> s[i] != c,
    decreases s.len() - from,
{
    if from < s.len() && s[from] != c {
        lemma_first_char(s, c, from + 1);
    }
}

/// Where the first `c` at or after `from` stands.
pub(crate) fn find_char(s: &[char], c: char, from: usize) -> (at: usize)
    requires
        from <= s@.len(),
    ensures
        at == first_char(s@, c, from as int),
        from <= at <= s@.len(),
        at < s@.len() ==> s@[at as int] == c,
{
    let mut i: usize = from;
    while i < s.len() && s[i] != c
        invariant
            from <= i <= s@.len(),
            first_char(s@, c, from as int) == first_char(s@, c, i as int),
        decreases s@.len() - i,
    {
        i += 1;
    }
    i
}

/// The bytes of a text, in UTF-8.
pub open spec fn utf8(s: Seq<char>) -> Seq<u8> {
    vstd::utf8::encode_utf8(s)
}

/// Puts the bytes of a text behind `out`.
pub(crate) fn put(out: &mut Vec<u8>, s: &str)
    ensures
        final(out)@ == old(out)@ + utf8(s@),
{
    crate::bytes::extend(out, s.as_bytes());
}

/// The number a run of decimal digits spells.
pub open spec fn decimal_value(s: Seq<char>) -> nat
    decreases s.len(),
{
    if s.len() == 0 {
        0
    } else {
        decimal_value(s.drop_last()) * 10 + (s.last() as u32 - 0x30) as nat
    }
}

/// Every character is a decimal digit.
pub open spec fn all_decimal(s: Seq<char>) -> bool {
    forall|i: int| 0 <= i < s.len() ==> '0' <= #[trigger] s[i] && s[i] <= '9'
}

/// The number a text spells: decimal digits, at least one, with an optional `+` before them.
pub open spec fn spelled_number(s: Seq<char>) -> Option<nat> {
    let digits = if s.len() > 0 && s[0] == '+' {
        s.skip(1)
    } else {
        s
    };
    if digits.len() > 0 && all_decimal(digits) {
        Some(decimal_value(digits))
    } else {
        None
    }
}

/// A number in base ten spells that number.
pub proof fn lemma_decimal_reads_back(n: nat)
    ensures
        decimal(n).len() > 0,
        all_decimal(decimal(n)),
        decimal_value(decimal(n)) == n,
        spelled_number(decimal(n)) == Some(n),
    decreases n,
{
    let s = decimal(n);
    if n < 10 {
        assert(s.drop_last() =~= Seq::<char>::empty());
        assert(s.last() == digit(n));
        reveal_with_fuel(decimal_value, 2);
    } else {
        lemma_decimal_reads_back(n / 10);
        assert(s.drop_last() =~= decimal(n / 10));
        assert(s.last() == digit(n % 10));
        assert(decimal_value(s) == n / 10 * 10 + n % 10);
        assert forall|i: int| 0 <= i < s.len() implies '0' <= #[trigger] s[i] && s[i] <= '9' by {
            if i < s.len() - 1 {
                assert(s[i] == decimal(n / 10)[i]);
            }
        }
    }
    assert('0' <= s[0]);
}

/// Reads a number that fits 64 bits; nothing if the text spells none, or a larger one.
pub(crate) fn parse_number(s: &[char]) -> (r: Option<u64>)
    ensures
        match r {
            Some(n) => spelled_number(s@) == Some(n as nat),
            None => spelled_number(s@) is None || spelled_number(s@)->0 > u64::MAX,
        },
{
    let from: usize = if s.len() > 0 && s[0] == '+' {
        1
    } else {
        0
    };
    let digits: &[char] = vstd::slice::slice_subrange(s, from, s.len());
    assert(from == 0 ==> digits@ =~= s@);
    assert(from == 1 ==> digits@ =~= s@.skip(1));
    if digits.len() == 0 {
        return None;
    }
    let mut n: u64 = 0;
    let mut over: bool = false;
    let mut i: usize = 0;
    while i < digits.len()
        invariant
            i <= digits@.len(),
            all_decimal(digits@.take(i as int)),
            !over ==> n == decimal_value(digits@.take(i as int)),
            over ==> decimal_value(digits@.take(i as int)) > u64::MAX,
            digits@.len() > 0,
            spelled_number(s@) == if all_decimal(digits@) {
                Some(decimal_value(digits@))
            } else {
                None
            },
        decreases digits@.len() - i,
    {
        let c: char = digits[i];
        if !('0' <= c && c <= '9') {
            assert(!('0' <= digits@[i as int] && digits@[i as int] <= '9'));
            return None;
        }
        let d: u64 = (c as u32 - 0x30) as u64;
        let ghost longer = digits@.take(i + 1);
        assert(longer.drop_last() =~= digits@.take(i as int));
        assert forall|j: int| 0 <= j < longer.len() implies '0' <= #[trigger] longer[j] && longer[j]
            <= '9' by {
            if j < i {
                assert(longer[j] == digits@.take(i as int)[j]);
            }
        }
        if !over {
            match n.checked_mul(10) {
                Some(tens) => match tens.checked_add(d) {
                    Some(sum) => n = sum,
                    None => over = true,
                },
                None => over = true,
            }
        }
        i += 1;
    }
    assert(digits@.take(i as int) =~= digits@);
    if over {
        None
    } else {
        Some(n)
    }
}

/// Whether two texts are the same.
pub(crate) fn equal_text(a: &str, b: &str) -> (r: bool)
    ensures
        r == (a@ == b@),
{
    let chars: Vec<char> = chars_of(a);
    same(&chars, b)
}

/// The text that bytes stand for, with the replacement character for each part that is not
/// valid UTF-8.
pub uninterp spec fn lossy_text(bytes: Seq<u8>) -> Seq<char>;

/// `String::from_utf8_lossy`: the text that [`lossy_text`] names, which for valid UTF-8 is
/// the text it encodes.
#[verifier::external_body]
pub(crate) fn lossy(bytes: &[u8]) -> (r: String)
    ensures
        r@ == lossy_text(bytes@),
        vstd::utf8::valid_utf8(bytes@) ==> r@ == vstd::utf8::decode_utf8(bytes@),
{
    String::from_utf8_lossy(bytes).into_owned()
}

/// The first line of a text, without its line feed and a carriage return in front of that;
/// nothing of a text that is empty.
pub open spec fn first_line(s: Seq<char>) -> Option<Seq<char>> {
    let end = first_char(s, '\n', 0);
    if s.len() == 0 {
        None
    } else if end < s.len() && end > 0 && s[end - 1] == '\r' {
        Some(s.take(end - 1))
    } else {
        Some(s.take(end))
    }
}

/// What follows the first line of a text.
pub open spec fn after_first_line(s: Seq<char>) -> Seq<char> {
    let end = first_char(s, '\n', 0);
    if end < s.len() {
        s.skip(end + 1)
    } else {
        Seq::empty()
    }
}

/// Where the first line of a text ends, and where the next one starts.
pub(crate) fn line_ends(s: &[char]) -> (r: Option<(usize, usize)>)
    ensures
        match r {
            Some((end, next)) => {
                &&& end <= next <= s@.len()
                &&& next > 0
                &&& first_line(s@) == Some(s@.take(end as int))
                &&& after_first_line(s@) == s@.skip(next as int)
            },
            None => s@.len() == 0 && first_line(s@) is None,
        },
{
    if s.len() == 0 {
        return None;
    }
    let end: usize = find_char(s, '\n', 0);
    if end == s.len() {
        assert(s@.skip(end as int) =~= Seq::<char>::empty());
        return Some((end, end));
    }
    if end > 0 && s[end - 1] == '\r' {
        Some((end - 1, end + 1))
    } else {
        Some((end, end + 1))
    }
}

/// Where the run of characters at the front of a text that are not white space ends.
pub open spec fn word_end(s: Seq<char>, i: int) -> int
    decreases s.len() - i,
{
    if i >= s.len() {
        s.len() as int
    } else if white_space(s[i]) {
        i
    } else {
        word_end(s, i + 1)
    }
}

/// The first word of a text, and what follows it.
pub open spec fn first_word(s: Seq<char>) -> Option<(Seq<char>, Seq<char>)> {
    let t = trim_start(s);
    if t.len() == 0 {
        None
    } else {
        Some((t.take(word_end(t, 0)), t.skip(word_end(t, 0))))
    }
}

pub proof fn lemma_word_end(s: Seq<char>, i: int)
    requires
        0 <= i <= s.len(),
    ensures
        i <= word_end(s, i) <= s.len(),
        i < s.len() && !white_space(s[i]) ==> word_end(s, i) > i,
    decreases s.len() - i,
{
    if i < s.len() && !white_space(s[i]) {
        lemma_word_end(s, i + 1);
    }
}

pub proof fn lemma_first_word_shrinks(s: Seq<char>)
    ensures
        first_word(s) matches Some((word, rest)) ==> rest.len() < s.len() && word.len() > 0,
{
    lemma_trim_start(s);
    lemma_trim_start_len(s);
    lemma_word_end(trim_start(s), 0);
}

proof fn lemma_trim_start_len(s: Seq<char>)
    ensures
        trim_start(s).len() <= s.len(),
    decreases s.len(),
{
    if s.len() > 0 && white_space(s[0]) {
        lemma_trim_start_len(s.drop_first());
    }
}

/// The first word of a text at or after `from`: where it starts and where it ends.
pub(crate) fn next_word(s: &[char], from: usize) -> (r: Option<(usize, usize)>)
    requires
        from <= s@.len(),
    ensures
        match r {
            Some((start, end)) => {
                &&& from <= start < end <= s@.len()
                &&& first_word(s@.skip(from as int)) == Some(
                    (s@.subrange(start as int, end as int), s@.skip(end as int)),
                )
            },
            None => first_word(s@.skip(from as int)) is None,
        },
{
    let mut start: usize = from;
    while start < s.len() && is_white_space(s[start])
        invariant
            from <= start <= s@.len(),
            trim_start(s@.skip(from as int)) == trim_start(s@.skip(start as int)),
        decreases s@.len() - start,
    {
        assert(s@.skip(start as int).drop_first() =~= s@.skip(start + 1));
        start += 1;
    }
    let ghost t = s@.skip(start as int);
    assert(trim_start(s@.skip(from as int)) == t);
    if start >= s.len() {
        return None;
    }
    let mut end: usize = start;
    while end < s.len() && !is_white_space(s[end])
        invariant
            start <= end <= s@.len(),
            t == s@.skip(start as int),
            word_end(t, 0) == word_end(t, end - start),
        decreases s@.len() - end,
    {
        assert(t[end - start] == s@[end as int]);
        end += 1;
    }
    proof {
        lemma_word_end(t, 0);
        assert(t[0] == s@[start as int]);
        assert(end < s@.len() ==> t[end - start] == s@[end as int]);
    }
    assert(t.take(end - start) =~= s@.subrange(start as int, end as int));
    assert(t.skip(end - start) =~= s@.skip(end as int));
    Some((start, end))
}

/// The run of characters that are not white space ends where the first that is stands.
pub proof fn lemma_word_ends_at(s: Seq<char>, i: int, end: int)
    requires
        0 <= i <= end <= s.len(),
        forall|k: int| i <= k < end ==> !white_space(#[trigger] s[k]),
        end == s.len() || white_space(s[end]),
    ensures
        word_end(s, i) == end,
    decreases end - i,
{
    if i < end {
        assert(!white_space(s[i]));
        lemma_word_ends_at(s, i + 1, end);
    }
}

/// The whole number a text spells, with an optional sign.
pub open spec fn spelled_integer(s: Seq<char>) -> Option<int> {
    if s.len() > 0 && s[0] == '-' {
        if s.len() > 1 && all_decimal(s.skip(1)) {
            Some(-(decimal_value(s.skip(1)) as int))
        } else {
            None
        }
    } else {
        match spelled_number(s) {
            Some(n) => Some(n as int),
            None => None,
        }
    }
}

/// The number a word spells, if it is whole and fits 32 bits.
pub open spec fn int32(word: Seq<char>) -> Option<i32> {
    match spelled_integer(word) {
        Some(n) => if i32::MIN <= n <= i32::MAX {
            Some(n as i32)
        } else {
            None
        },
        None => None,
    }
}

/// Reads a whole number that fits 32 bits; nothing if the text spells none, or one that does
/// not fit.
pub(crate) fn parse_integer(s: &[char]) -> (r: Option<i32>)
    ensures
        r == int32(s@),
{
    if s.len() > 0 && s[0] == '-' {
        let digits: &[char] = vstd::slice::slice_subrange(s, 1, s.len());
        assert(digits@ =~= s@.skip(1));
        if digits.len() == 0 || digits[0] == '+' {
            assert(digits@.len() > 0 ==> !('0' <= digits@[0] && digits@[0] <= '9'));
            return None;
        }
        match parse_number(digits) {
            Some(n) => if n <= 0x8000_0000 {
                let wide: i64 = -(n as i64);
                Some(wide as i32)
            } else {
                None
            },
            None => None,
        }
    } else {
        match parse_number(s) {
            Some(n) => if n <= 0x7fff_ffff {
                Some(n as i32)
            } else {
                None
            },
            None => None,
        }
    }
}

/// The part of a text in front of the first `c`, and the part behind it if there is one.
pub open spec fn split_once(s: Seq<char>, c: char) -> (Seq<char>, Option<Seq<char>>) {
    let at = first_char(s, c, 0);
    if at < s.len() {
        (s.take(at), Some(s.skip(at + 1)))
    } else {
        (s, None)
    }
}

/// Two texts with a character between them that the first does not have are cut there.
pub proof fn lemma_split_once(a: Seq<char>, c: char, b: Seq<char>)
    requires
        !a.contains(c),
    ensures
        split_once(a + seq![c] + b, c) == (a, Some(b)),
        split_once(a, c) == (a, None::<Seq<char>>),
{
    let s = a + seq![c] + b;
    lemma_first_char(s, c, 0);
    lemma_first_char(a, c, 0);
    let at = first_char(s, c, 0);
    assert(s[a.len() as int] == c);
    if at < a.len() {
        assert(a[at] == c);
    }
    assert(s.take(at) =~= a);
    assert(s.skip(at + 1) =~= b);
    let other = first_char(a, c, 0);
    assert(other == a.len());
    assert(a.take(other) =~= a);
}

/// Where what follows the last `c` of a text begins; the start of a text without one.
pub open spec fn after_last(s: Seq<char>, c: char) -> int
    decreases s.len(),
{
    if s.len() == 0 {
        0
    } else if s.last() == c {
        s.len() as int
    } else {
        after_last(s.drop_last(), c)
    }
}

pub proof fn lemma_after_last(s: Seq<char>, c: char)
    ensures
        0 <= after_last(s, c) <= s.len(),
        after_last(s, c) > 0 ==> s[after_last(s, c) - 1] == c,
        forall|i: int| after_last(s, c) <= i < s.len() ==> s[i] != c,
    decreases s.len(),
{
    if s.len() > 0 && s.last() != c {
        lemma_after_last(s.drop_last(), c);
        assert forall|i: int| after_last(s, c) <= i < s.len() implies s[i] != c by {
            if i < s.len() - 1 {
                assert(s.drop_last()[i] == s[i]);
            }
        }
    }
}

/// Where what follows the last `c` of a text begins.
pub(crate) fn find_after_last(s: &[char], c: char) -> (r: usize)
    ensures
        r == after_last(s@, c),
        r <= s@.len(),
{
    let mut end: usize = s.len();
    assert(s@.take(end as int) =~= s@);
    while end > 0 && s[end - 1] != c
        invariant
            end <= s@.len(),
            after_last(s@, c) == after_last(s@.take(end as int), c),
        decreases end,
    {
        assert(s@.take(end as int).drop_last() =~= s@.take(end - 1));
        end -= 1;
    }
    end
}

/// The text without the white space it ends with.
pub(crate) fn trim_tail(s: &[char]) -> (r: &[char])
    ensures
        r@ == trim_end(s@),
{
    let mut to: usize = s.len();
    assert(s@.take(to as int) =~= s@);
    while to > 0 && is_white_space(s[to - 1])
        invariant
            to <= s@.len(),
            trim_end(s@) == trim_end(s@.take(to as int)),
        decreases to,
    {
        assert(s@.take(to as int).drop_last() =~= s@.take(to - 1));
        to -= 1;
    }
    let r: &[char] = vstd::slice::slice_subrange(s, 0, to);
    assert(r@ =~= s@.take(to as int));
    r
}

/// Every character is white space.
pub open spec fn all_white(s: Seq<char>) -> bool {
    forall|i: int| 0 <= i < s.len() ==> white_space(#[trigger] s[i])
}

/// Tab, line feed, carriage return and space are white space, and no printable ASCII character
/// is.
pub proof fn law_blanks_are_white_and_print_is_not(c: char)
    ensures
        white_space('\t') && white_space('\n') && white_space('\r') && white_space(' '),
        '!' <= c && c <= '~' ==> !white_space(c),
{
}

proof fn lemma_trim_start_of(pre: Seq<char>, rest: Seq<char>)
    requires
        all_white(pre),
        rest.len() > 0 ==> !white_space(rest[0]),
    ensures
        trim_start(pre + rest) == rest,
    decreases pre.len(),
{
    let s = pre + rest;
    if pre.len() == 0 {
        assert(s =~= rest);
    } else {
        assert(white_space(pre[0]));
        assert(s.drop_first() =~= pre.drop_first() + rest);
        assert forall|i: int| 0 <= i < pre.drop_first().len() implies white_space(
            #[trigger] pre.drop_first()[i],
        ) by {
            assert(white_space(pre[i + 1]));
        }
        lemma_trim_start_of(pre.drop_first(), rest);
    }
}

proof fn lemma_trim_end_of(front: Seq<char>, post: Seq<char>)
    requires
        all_white(post),
        front.len() > 0 ==> !white_space(front.last()),
    ensures
        trim_end(front + post) == front,
    decreases post.len(),
{
    let s = front + post;
    if post.len() == 0 {
        assert(s =~= front);
    } else {
        assert(white_space(post[post.len() - 1]));
        assert(s.last() == post[post.len() - 1]);
        assert(s.drop_last() =~= front + post.drop_last());
        assert forall|i: int| 0 <= i < post.drop_last().len() implies white_space(
            #[trigger] post.drop_last()[i],
        ) by {
            assert(white_space(post[i]));
        }
        lemma_trim_end_of(front, post.drop_last());
    }
}

/// Trimming takes away the white space round a text, all of it and nothing else.
pub proof fn law_trimming_leaves_what_the_white_space_is_round(
    pre: Seq<char>,
    core: Seq<char>,
    post: Seq<char>,
)
    requires
        all_white(pre),
        all_white(post),
        core.len() > 0 ==> !white_space(core[0]) && !white_space(core.last()),
    ensures
        trimmed(pre + core + post) == core,
        core.len() > 0 ==> trim_end(pre + core + post) == pre + core,
{
    if core.len() == 0 {
        let s = pre + core + post;
        assert forall|i: int| 0 <= i < s.len() implies white_space(#[trigger] s[i]) by {
            if i < pre.len() {
                assert(white_space(pre[i]));
            } else {
                assert(white_space(post[i - pre.len()]));
            }
        }
        lemma_trim_start_of(s, Seq::empty());
        assert(s + Seq::<char>::empty() =~= s);
        assert(trimmed(s) =~= core);
    } else {
        assert(pre + core + post =~= pre + (core + post));
        lemma_trim_start_of(pre, core + post);
        lemma_trim_end_of(core, post);
        lemma_trim_end_of(pre + core, post);
        assert((pre + core).last() == core.last());
    }
}

/// The first word of a text is what stands behind the white space it starts with, up to the
/// next white space, and the rest is what follows.
pub proof fn law_the_first_word_ends_at_white_space(
    pre: Seq<char>,
    word: Seq<char>,
    rest: Seq<char>,
)
    requires
        all_white(pre),
        word.len() > 0,
        forall|i: int| 0 <= i < word.len() ==> !white_space(#[trigger] word[i]),
        rest.len() > 0 ==> white_space(rest[0]),
    ensures
        first_word(pre + word + rest) == Some((word, rest)),
        first_word(pre) is None,
{
    let t = word + rest;
    assert(pre + word + rest =~= pre + t);
    assert(!white_space(word[0]));
    lemma_trim_start_of(pre, t);
    assert forall|k: int| 0 <= k < word.len() implies !white_space(#[trigger] t[k]) by {
        assert(t[k] == word[k]);
    }
    lemma_word_ends_at(t, 0, word.len() as int);
    assert(t.take(word.len() as int) =~= word);
    assert(t.skip(word.len() as int) =~= rest);
    lemma_trim_start_of(pre, Seq::empty());
    assert(pre + Seq::<char>::empty() =~= pre);
}

/// The first line of a text is what stands before its first line feed, without a carriage
/// return in front of that; a text with no line feed is one line.
pub proof fn law_the_first_line_ends_at_a_line_feed(line: Seq<char>, rest: Seq<char>)
    requires
        !line.contains('\n'),
        line.len() > 0 ==> line.last() != '\r',
    ensures
        first_line(line + seq!['\n'] + rest) == Some(line),
        first_line(line + seq!['\r', '\n'] + rest) == Some(line),
        line.len() > 0 ==> first_line(line) == Some(line),
        after_first_line(line + seq!['\n'] + rest) == rest,
        after_first_line(line) == Seq::<char>::empty(),
{
    let n = line.len() as int;
    let a = line + seq!['\n'] + rest;
    let b = line + seq!['\r', '\n'] + rest;
    lemma_first_char(a, '\n', 0);
    lemma_first_char(b, '\n', 0);
    lemma_first_char(line, '\n', 0);
    assert(a[n] == '\n' && b[n + 1] == '\n' && b[n] == '\r');
    assert forall|i: int| 0 <= i < n implies a[i] != '\n' && b[i] != '\n' by {
        assert(a[i] == line[i] && b[i] == line[i]);
        assert(line.contains(line[i]));
    }
    let at = first_char(line, '\n', 0);
    if at < n {
        assert(line.contains(line[at]));
    }
    assert(first_char(a, '\n', 0) == n);
    assert(first_char(b, '\n', 0) == n + 1);
    assert(a.take(n) =~= line);
    assert(b.take(n) =~= line);
    assert(line.take(n) =~= line);
    assert(a.skip(n + 1) =~= rest);
    if n > 0 {
        assert(a[n - 1] == line.last());
    }
}

/// A whole number in base ten, with a minus sign in front where it is negative, reads back; one
/// that does not fit is no number.
pub proof fn law_whole_numbers_read_back(n: int)
    ensures
        n >= 0 ==> int32(decimal(n as nat)) == if n <= 0x7fff_ffff {
            Some(n as i32)
        } else {
            None
        },
        n > 0 ==> int32(seq!['-'] + decimal(n as nat)) == if n <= 0x8000_0000 {
            Some((-n) as i32)
        } else {
            None
        },
{
    if n >= 0 {
        let d = decimal(n as nat);
        lemma_decimal_reads_back(n as nat);
        assert('0' <= d[0] && d[0] <= '9');
        let m = seq!['-'] + d;
        assert(m.skip(1) =~= d);
    }
}

/// The spaces of every width are white space, and so are the characters that end a line or a
/// paragraph; a mark of no width is not, nor is anything else.
pub proof fn law_spaces_of_every_width_are_white(c: char)
    ensures
        '\t' <= c && c <= '\r' ==> white_space(c),
        c == '\u{85}' || c == '\u{2028}' || c == '\u{2029}' ==> white_space(c),
        c == '\u{a0}' || c == '\u{202f}' ==> white_space(c),
        '\u{2000}' <= c && c <= '\u{200a}' ==> white_space(c),
        c == '\u{1680}' || c == '\u{205f}' || c == '\u{3000}' ==> white_space(c),
        c < '\t' || ('\r' < c && c < ' ') ==> !white_space(c),
        '~' < c && c < '\u{1680}' && c != '\u{85}' && c != '\u{a0}' ==> !white_space(c),
        '\u{1680}' < c && c < '\u{2000}' ==> !white_space(c),
        '\u{200a}' < c && c < '\u{3000}' && white_space(c) ==> c == '\u{2028}' || c == '\u{2029}'
            || c == '\u{202f}' || c == '\u{205f}',
        '\u{3000}' < c ==> !white_space(c),
{
}

} // verus!
