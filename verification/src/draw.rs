//! What is drawn over a session's screen: how wide text is, how much of it fits, and where
//! it goes.

use vstd::prelude::*;

use crate::launch::texts;
use crate::text::{chars_of, string_of};

verus! {

/// How many columns a terminal takes to show a text.
pub uninterp spec fn display_width(s: Seq<char>) -> nat;

/// `unicode_width::UnicodeWidthStr::width`: the columns a text takes, which
/// [`display_width`] names. It depends on the text alone.
#[verifier::external_body]
pub(crate) fn width(s: &str) -> (n: usize)
    ensures
        n == display_width(s@),
{
    unicode_width::UnicodeWidthStr::width(s)
}

/// The length of the longest of the first `n` beginnings of a text that fit these columns:
/// nothing of it if none does.
pub open spec fn fitting(s: Seq<char>, columns: nat, n: int) -> int
    decreases n,
{
    if n <= 0 {
        0
    } else if display_width(s.take(n)) <= columns {
        n
    } else {
        fitting(s, columns, n - 1)
    }
}

/// As much of the beginning of a text as fits these columns.
pub open spec fn truncated(s: Seq<char>, columns: nat) -> Seq<char> {
    s.take(fitting(s, columns, s.len() as int))
}

/// What fits is part of the text, and unless it is nothing it fits.
pub proof fn lemma_fitting(s: Seq<char>, columns: nat, n: int)
    requires
        0 <= n <= s.len(),
    ensures
        0 <= fitting(s, columns, n) <= n,
        fitting(s, columns, n) > 0 ==> display_width(s.take(fitting(s, columns, n))) <= columns,
    decreases n,
{
    if n > 0 && !(display_width(s.take(n)) <= columns) {
        lemma_fitting(s, columns, n - 1);
    }
}

/// As much of the beginning of a text as fits these columns.
pub fn truncate(s: &str, columns: usize) -> (r: String)
    ensures
        r@ == truncated(s@, columns as nat),
        r@.len() > 0 ==> display_width(r@) <= columns,
{
    let chars: Vec<char> = chars_of(s);
    let mut n: usize = chars.len();
    while n > 0
        invariant
            chars@ == s@,
            n <= chars@.len(),
            fitting(s@, columns as nat, s@.len() as int) == fitting(s@, columns as nat, n as int),
        decreases n,
    {
        let head: &[char] = vstd::slice::slice_subrange(&chars, 0, n);
        assert(head@ =~= s@.take(n as int));
        let text: String = string_of(head);
        if width(text.as_str()) <= columns {
            return text;
        }
        n -= 1;
    }
    assert(s@.take(0) =~= Seq::<char>::empty());
    String::new()
}

/// The size of a terminal, in cells.
#[derive(Debug, Clone, Copy, PartialEq, Eq, Structural)]
pub struct PtySize {
    pub rows: u16,
    pub cols: u16,
}

/// A box of rows over a session's screen: where its top left cell is, how wide it is, and
/// what each row says.
#[derive(Debug, Clone, PartialEq, Eq)]
pub struct Over {
    pub top: u16,
    pub left: u16,
    pub width: u16,
    pub rows: Vec<String>,
}

/// A box, as a value.
#[verifier::ext_equal]
pub struct Placed {
    pub top: u16,
    pub left: u16,
    pub width: u16,
    pub rows: Seq<Seq<char>>,
}

impl View for Over {
    type V = Placed;

    open spec fn view(&self) -> Placed {
        Placed { top: self.top, left: self.left, width: self.width, rows: texts(self.rows@) }
    }
}

/// A text `n` times over.
pub open spec fn repeated(s: Seq<char>, n: nat) -> Seq<char>
    decreases n,
{
    if n == 0 {
        Seq::empty()
    } else {
        repeated(s, (n - 1) as nat) + s
    }
}

/// Puts a text `n` times over behind `out`.
pub(crate) fn put_repeated(out: &mut String, s: &str, n: usize)
    ensures
        final(out)@ == old(out)@ + repeated(s@, n as nat),
{
    let ghost before = out@;
    let mut i: usize = 0;
    assert(before + repeated(s@, 0) =~= before);
    while i < n
        invariant
            i <= n,
            out@ == before + repeated(s@, i as nat),
        decreases n - i,
    {
        out.append(s);
        i += 1;
        assert(out@ =~= before + repeated(s@, i as nat));
    }
}

/// As much of a text as fits is kept: what is kept is its beginning, it fits unless it is
/// nothing, no longer beginning fits, and a text that fits is kept whole.
pub proof fn law_truncation_keeps_as_much_as_fits(s: Seq<char>, columns: nat, n: int)
    ensures
        ({
            let kept = truncated(s, columns);
            &&& kept.len() <= s.len()
            &&& kept == s.take(kept.len() as int)
            &&& kept.len() > 0 ==> display_width(kept) <= columns
            &&& kept.len() < n <= s.len() ==> display_width(s.take(n)) > columns
            &&& display_width(s) <= columns ==> kept == s
        }),
{
    lemma_fitting_is_longest(s, columns, s.len() as int, n);
    assert(s.take(s.len() as int) =~= s);
    let kept = truncated(s, columns);
    assert(kept =~= s.take(kept.len() as int));
}

proof fn lemma_fitting_is_longest(s: Seq<char>, columns: nat, to: int, n: int)
    requires
        0 <= to <= s.len(),
    ensures
        0 <= fitting(s, columns, to) <= to,
        fitting(s, columns, to) > 0 ==> display_width(s.take(fitting(s, columns, to))) <= columns,
        fitting(s, columns, to) < n <= to ==> display_width(s.take(n)) > columns,
    decreases to,
{
    if to > 0 && display_width(s.take(to)) > columns {
        lemma_fitting_is_longest(s, columns, to - 1, n);
    }
}

/// A text repeated is that many copies of it, one behind the other.
pub proof fn law_a_repeated_text_is_its_copies(s: Seq<char>, n: nat)
    ensures
        repeated(s, 0) == Seq::<char>::empty(),
        repeated(s, n + 1) == repeated(s, n) + s,
        repeated(s, n).len() == n * s.len(),
    decreases n,
{
    if n > 0 {
        law_a_repeated_text_is_its_copies(s, (n - 1) as nat);
        assert(n * s.len() == (n - 1) * s.len() + s.len()) by (nonlinear_arith);
    } else {
        assert(0 * s.len() == 0);
    }
}

} // verus!
