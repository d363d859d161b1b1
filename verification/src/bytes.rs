//! Byte strings: cutting them at a separator and reading numbers out of them.

use vstd::prelude::*;

verus! {

/// The byte is an ASCII digit.
pub open spec fn is_digit(b: u8) -> bool {
    0x30 <= b <= 0x39
}

/// The number a run of ASCII digits spells, in base ten.
pub open spec fn digits_value(s: Seq<u8>) -> nat
    decreases s.len(),
{
    if s.len() == 0 {
        0
    } else {
        digits_value(s.drop_last()) * 10 + (s.last() - 0x30) as nat
    }
}

/// Every byte is an ASCII digit.
pub open spec fn all_digits(s: Seq<u8>) -> bool {
    forall|i: int| 0 <= i < s.len() ==> is_digit(#[trigger] s[i])
}

/// Where the first `sep` at or after `from` stands, or the length if there is none.
pub open spec fn first_at(s: Seq<u8>, sep: u8, from: int) -> int
    decreases s.len() - from,
{
    if from >= s.len() {
        s.len() as int
    } else if s[from] == sep {
        from
    } else {
        first_at(s, sep, from + 1)
    }
}

/// The `n`th of the pieces that the separators cut `s[from..]` into. There is always a
/// piece 0, empty for an empty string.
pub open spec fn piece_from(s: Seq<u8>, sep: u8, n: nat, from: int) -> Option<Seq<u8>>
    decreases n,
{
    let end = first_at(s, sep, from);
    if n == 0 {
        Some(s.subrange(from, end))
    } else if end >= s.len() {
        None
    } else {
        piece_from(s, sep, (n - 1) as nat, end + 1)
    }
}

/// The `n`th piece of `s`, cut at every `sep`.
pub open spec fn piece(s: Seq<u8>, sep: u8, n: nat) -> Option<Seq<u8>> {
    piece_from(s, sep, n, 0)
}

/// The first occurrence lies inside the string, and nothing before it is one.
pub proof fn lemma_first_at(s: Seq<u8>, sep: u8, from: int)
    requires
        0 <= from <= s.len(),
    ensures
        from <= first_at(s, sep, from) <= s.len(),
        first_at(s, sep, from) < s.len() ==> s[first_at(s, sep, from)] == sep,
        forall|i: int| from <= i < first_at(s, sep, from) ==> s[i] != sep,
    decreases s.len() - from,
{
    if from < s.len() && s[from] != sep {
        lemma_first_at(s, sep, from + 1);
    }
}

/// Where the first `sep` at or after `from` stands.
pub(crate) fn find_from(s: &[u8], sep: u8, from: usize) -> (at: usize)
    requires
        from <= s@.len(),
    ensures
        at == first_at(s@, sep, from as int),
        from <= at <= s@.len(),
{
    let mut i: usize = from;
    while i < s.len() && s[i] != sep
        invariant
            from <= i <= s@.len(),
            first_at(s@, sep, from as int) == first_at(s@, sep, i as int),
        decreases s@.len() - i,
    {
        i += 1;
    }
    i
}

/// The `n`th piece of `s`, cut at every `sep`, if there are that many.
pub(crate) fn nth_piece(s: &[u8], sep: u8, n: usize) -> (r: Option<&[u8]>)
    ensures
        match r {
            Some(p) => piece(s@, sep, n as nat) == Some(p@),
            None => piece(s@, sep, n as nat) is None,
        },
{
    let mut from: usize = 0;
    let mut left: usize = n;
    loop
        invariant
            from <= s@.len(),
            left <= n,
            piece(s@, sep, n as nat) == piece_from(s@, sep, left as nat, from as int),
        decreases left,
    {
        let end: usize = find_from(s, sep, from);
        if left == 0 {
            return Some(vstd::slice::slice_subrange(s, from, end));
        }
        if end >= s.len() {
            return None;
        }
        from = end + 1;
        left -= 1;
    }
}

/// What a run of one to nine digits spells: enough for any key report, and too few to
/// overflow.
pub open spec fn short_number(s: Seq<u8>) -> Option<u32> {
    if 1 <= s.len() <= 9 && all_digits(s) {
        Some(digits_value(s) as u32)
    } else {
        None
    }
}

/// Reads a run of one to nine digits.
pub fn number(digits: &[u8]) -> (r: Option<u32>)
    ensures
        r == short_number(digits@),
{
    if digits.len() == 0 || digits.len() > 9 {
        return None;
    }
    let mut n: u32 = 0;
    let mut i: usize = 0;
    while i < digits.len()
        invariant
            1 <= digits@.len() <= 9,
            i <= digits@.len(),
            all_digits(digits@.take(i as int)),
            n == digits_value(digits@.take(i as int)),
            i <= 0 ==> n < 1,
            i <= 1 ==> n < 10,
            i <= 2 ==> n < 100,
            i <= 3 ==> n < 1_000,
            i <= 4 ==> n < 10_000,
            i <= 5 ==> n < 100_000,
            i <= 6 ==> n < 1_000_000,
            i <= 7 ==> n < 10_000_000,
            i <= 8 ==> n < 100_000_000,
            n < 1_000_000_000,
        decreases digits@.len() - i,
    {
        let d: u8 = digits[i];
        if d < 0x30 || d > 0x39 {
            assert(!is_digit(digits@[i as int]));
            return None;
        }
        let ghost longer = digits@.take(i + 1);
        proof {
            assert(longer.drop_last() =~= digits@.take(i as int));
            assert forall|j: int| 0 <= j < longer.len() implies is_digit(#[trigger] longer[j]) by {
                if j < i {
                    assert(longer[j] == digits@.take(i as int)[j]);
                }
            }
        }
        n = n * 10 + (d - 0x30) as u32;
        i += 1;
    }
    assert(digits@.take(i as int) =~= digits@);
    Some(n)
}

/// One of the pieces that the separators cut `s[from..]` into is `word`.
pub open spec fn has_piece(s: Seq<u8>, sep: u8, word: Seq<u8>, from: int) -> bool
    decreases s.len() - from,
{
    if !(0 <= from <= s.len()) {
        false
    } else {
        proof {
            lemma_first_at(s, sep, from);
        }
        let end = first_at(s, sep, from);
        s.subrange(from, end) == word || (end < s.len() && has_piece(s, sep, word, end + 1))
    }
}

/// Whether two byte strings are the same.
pub(crate) fn equal(a: &[u8], b: &[u8]) -> (r: bool)
    ensures
        r == (a@ == b@),
{
    if a.len() != b.len() {
        return false;
    }
    let mut i: usize = 0;
    while i < a.len()
        invariant
            i <= a@.len() == b@.len(),
            a@.take(i as int) == b@.take(i as int),
        decreases a@.len() - i,
    {
        if a[i] != b[i] {
            return false;
        }
        assert(a@.take(i + 1) =~= a@.take(i as int).push(a@[i as int]));
        assert(b@.take(i + 1) =~= b@.take(i as int).push(b@[i as int]));
        i += 1;
    }
    assert(a@.take(i as int) =~= a@);
    assert(b@.take(i as int) =~= b@);
    true
}

/// Whether one of the pieces of `s[from..]` is `word`.
pub(crate) fn names(s: &[u8], sep: u8, word: &[u8], from: usize) -> (r: bool)
    requires
        from <= s@.len(),
    ensures
        r == has_piece(s@, sep, word@, from as int),
{
    let mut at: usize = from;
    loop
        invariant
            at <= s@.len(),
            has_piece(s@, sep, word@, from as int) == has_piece(s@, sep, word@, at as int),
        decreases s@.len() - at,
    {
        let end: usize = find_from(s, sep, at);
        if equal(vstd::slice::slice_subrange(s, at, end), word) {
            return true;
        }
        if end >= s.len() {
            return false;
        }
        at = end + 1;
    }
}

/// Puts a copy of these bytes behind `out`.
pub(crate) fn extend(out: &mut Vec<u8>, s: &[u8])
    ensures
        final(out)@ == old(out)@ + s@,
{
    let ghost before = out@;
    let mut i: usize = 0;
    assert(before + s@.take(0) =~= before);
    while i < s.len()
        invariant
            i <= s@.len(),
            out@ == before + s@.take(i as int),
        decreases s@.len() - i,
    {
        out.push(s[i]);
        assert(before + s@.take(i + 1) =~= (before + s@.take(i as int)).push(s@[i as int]));
        i += 1;
    }
    assert(s@.take(i as int) =~= s@);
}

/// Pieces are what stands between the separators: the first is what stands before the first
/// separator, or everything where there is none, and the others are the pieces of what follows
/// it.
pub proof fn law_pieces_stand_between_separators(a: Seq<u8>, sep: u8, b: Seq<u8>, n: nat)
    requires
        forall|i: int| 0 <= i < a.len() ==> #[trigger] a[i] != sep,
    ensures
        piece(a + seq![sep] + b, sep, 0) == Some(a),
        piece(a + seq![sep] + b, sep, n + 1) == piece(b, sep, n),
        piece(a, sep, 0) == Some(a),
        piece(a, sep, n + 1) is None,
{
    let s = a + seq![sep] + b;
    lemma_first_at(s, sep, 0);
    lemma_first_at(a, sep, 0);
    assert(s[a.len() as int] == sep);
    let at = first_at(s, sep, 0);
    if at < a.len() {
        assert(s[at] == a[at]);
    }
    let inside = first_at(a, sep, 0);
    if inside < a.len() {
        assert(a[inside] != sep);
    }
    assert(s.subrange(0, at) =~= a);
    assert(a.subrange(0, a.len() as int) =~= a);
    assert(s.skip(a.len() as int + 1) =~= b);
    lemma_pieces_shift(s, b, sep, n, a.len() as int + 1, 0);
}

proof fn lemma_pieces_shift(s: Seq<u8>, b: Seq<u8>, sep: u8, n: nat, by: int, from: int)
    requires
        by >= 0,
        s.len() == by + b.len(),
        s.skip(by) == b,
        0 <= from <= b.len(),
    ensures
        piece_from(s, sep, n, by + from) == piece_from(b, sep, n, from),
    decreases n,
{
    lemma_first_shift(s, b, sep, by, from);
    let end = first_at(b, sep, from);
    lemma_first_at(b, sep, from);
    assert(s.subrange(by + from, by + end) =~= b.subrange(from, end)) by {
        assert forall|k: int| from <= k < end implies #[trigger] b[k] == s[by + k] by {
            assert(s.skip(by)[k] == s[by + k]);
        }
    }
    if n > 0 && end < b.len() {
        lemma_pieces_shift(s, b, sep, (n - 1) as nat, by, end + 1);
    }
}

proof fn lemma_first_shift(s: Seq<u8>, b: Seq<u8>, sep: u8, by: int, from: int)
    requires
        by >= 0,
        s.len() == by + b.len(),
        s.skip(by) == b,
        0 <= from <= b.len(),
    ensures
        first_at(s, sep, by + from) == by + first_at(b, sep, from),
    decreases b.len() - from,
{
    if from < b.len() {
        assert(s.skip(by)[from] == s[by + from]);
        if b[from] != sep {
            lemma_first_shift(s, b, sep, by, from + 1);
        }
    }
}

/// A run of digits is the number it spells: ten times the number in front of its last digit,
/// and that digit.
pub proof fn law_digits_spell_a_number(s: Seq<u8>, b: u8)
    requires
        s.len() <= 8,
        0x30 <= b <= 0x39,
    ensures
        short_number(seq![b]) == Some((b - 0x30) as u32),
        short_number(s) matches Some(n) ==> short_number(s.push(b)) == Some(
            (n * 10 + (b - 0x30)) as u32,
        ),
        short_number(Seq::empty()) is None,
{
    let t = s.push(b);
    assert(t.drop_last() =~= s);
    let one = seq![b];
    assert(one.drop_last() =~= Seq::<u8>::empty());
    assert(digits_value(Seq::<u8>::empty()) == 0);
    assert(digits_value(one) == b - 0x30);
    assert(all_digits(one));
    if let Some(n) = short_number(s) {
        assert forall|i: int| 0 <= i < t.len() implies is_digit(#[trigger] t[i]) by {
            if i < s.len() {
                assert(t[i] == s[i]);
            }
        }
        lemma_digits_bound(s);
        assert(digits_value(t) == digits_value(s) * 10 + (b - 0x30));
    }
}

proof fn lemma_digits_bound(s: Seq<u8>)
    requires
        all_digits(s),
        s.len() <= 8,
    ensures
        digits_value(s) < 100_000_000,
{
    lemma_digits_below(s, 8);
    reveal_with_fuel(ten_to, 9);
}

proof fn lemma_digits_below(s: Seq<u8>, k: nat)
    requires
        all_digits(s),
        s.len() <= k <= 8,
    ensures
        digits_value(s) < ten_to(k),
    decreases k,
{
    if s.len() > 0 {
        let t = s.drop_last();
        assert forall|i: int| 0 <= i < t.len() implies is_digit(#[trigger] t[i]) by {
            assert(t[i] == s[i]);
        }
        lemma_digits_below(t, (k - 1) as nat);
        assert(is_digit(s[s.len() - 1]));
    }
    reveal_with_fuel(ten_to, 9);
}

spec fn ten_to(k: nat) -> nat
    decreases k,
{
    if k == 0 {
        1
    } else {
        10 * ten_to((k - 1) as nat)
    }
}

} // verus!
