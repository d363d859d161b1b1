//! What the prefix puts on the screen while it waits: the sessions along the top, the keys
//! along the bottom, and, wherever the session's screen can be dimmed, the session dimmed
//! behind them.
//!
//! # The rows
//!
//! The key row is the table of commands, spelled the way a row of hints spells keys, and it
//! never names the prefix. The sessions row is every session by the number a digit takes to
//! it, with a marker on the one in front; a half-typed number narrows it to the sessions the
//! number can still reach. Entries are dropped whole, from the right: half a word written
//! over somebody's editor reads as damage.
//!
//! # The veil
//!
//! With the rows up, the session behind them is dimmed, half dissolved into the terminal's
//! background. That needs a picture of the session's screen and the colours to dissolve it
//! in; without one the rows go up dim over a session at full colour. The veil rises over one
//! direction of a dissolve and lifts over both; the rows are up from its first frame.
//!
//! # The lull
//!
//! All of this is written only at a lull: once the session has been quiet for [`SETTLE`].

use vstd::prelude::*;

use crate::announce::{
    blocks_of, label, over_screen, placed_boxes, placed_each, placed_rows, shown,
};
use crate::clock::{after, doubled, elapsed, later, passed, twice, Duration, Instant, MILLI};
use crate::draw::{
    display_width, law_a_repeated_text_is_its_copies, law_truncation_keeps_as_much_as_fits,
    put_repeated, repeated, truncate, truncated, width, Over, Placed, PtySize,
};
use crate::fade::{
    law_a_glide_stays_between_its_ends, Dissolve, Glide, Schedule, Veil, ALL, FRAME,
};
use crate::keys::{bindings, glyph, key_glyph, table, Binding, Pending};
use crate::launch::texts;
use crate::session::{rows, Row, Session};
use crate::text::{
    chars_of, decimal, equal_text, lemma_decimal_reads_back, number_text, starts, starts_with, utf8,
};

verus! {

/// How long the session must have been quiet before anything here may be written.
pub const SETTLE: Duration = 25_000_000;

/// What stands between two entries.
pub const GAP: &'static str = "  ";

/// The shortest screen the key row will draw on: it is never a session's only row.
pub const MIN_ROWS: u16 = 2;

/// The shortest screen the sessions row will draw on.
pub const SESSIONS_MIN_ROWS: u16 = 3;

/// What marks the session in front on the sessions row.
pub const HERE: &'static str = "▸";

/// The most columns of a name the sessions row gives any one session.
pub const LABEL_WIDTH: usize = 20;

/// What ends a name cut to fit.
pub const CUT: &'static str = "…";

/// A rendition reset, and dim.
pub const RESET_DIM: &'static str = "\x1b[0;2m";

/// A rendition reset.
pub const RESET: &'static str = "\x1b[0m";

/// A session in a listing: its number, and its name made safe for a raw terminal.
#[verifier::ext_equal]
pub struct Entry {
    pub num: u32,
    pub label: Seq<char>,
}

/// The sessions the top row names: each one's number and name, and which is in front.
#[derive(Debug)]
pub struct Listing {
    /// In number order.
    entries: Vec<(u32, String)>,
    /// The number of the session in front, where the listing has it.
    current: Option<u32>,
}

/// A listing, as a value.
#[verifier::ext_equal]
pub struct Listed {
    pub entries: Seq<Entry>,
    pub current: Option<u32>,
}

/// The values of these entries.
pub open spec fn entries_of(v: Seq<(u32, String)>) -> Seq<Entry> {
    v.map_values(|e: (u32, String)| Entry { num: e.0, label: e.1@ })
}

impl View for Listing {
    type V = Listed;

    closed spec fn view(&self) -> Listed {
        Listed { entries: entries_of(self.entries@), current: self.current }
    }
}

/// In number order.
pub open spec fn in_order(entries: Seq<Entry>) -> bool {
    forall|i: int, j: int|
        #![trigger entries[i], entries[j]]
        0 <= i < j < entries.len() ==> entries[i].num <= entries[j].num
}

/// The entries with this number, in the order they stand in.
pub open spec fn with_number(entries: Seq<Entry>, num: u32) -> Seq<Entry> {
    entries.filter(|e: Entry| e.num == num)
}

/// The same entries put in number order, those with one number in the order they came in.
pub open spec fn sorted_from(entries: Seq<Entry>, given: Seq<Entry>) -> bool {
    &&& in_order(entries)
    &&& forall|num: u32| #[trigger] with_number(entries, num) == with_number(given, num)
}

/// The same entries with their names made safe.
pub open spec fn made_safe(given: Seq<Entry>) -> Seq<Entry> {
    given.map_values(|e: Entry| Entry { num: e.num, label: shown(e.label) })
}

proof fn lemma_filter_concat(a: Seq<Entry>, b: Seq<Entry>, num: u32)
    ensures
        with_number(a + b, num) == with_number(a, num) + with_number(b, num),
    decreases b.len(),
{
    reveal(Seq::filter);
    if b.len() == 0 {
        assert(a + b =~= a);
        assert(with_number(a, num) + with_number(b, num) =~= with_number(a, num));
    } else {
        lemma_filter_concat(a, b.drop_last(), num);
        assert((a + b).drop_last() =~= a + b.drop_last());
        assert(with_number(a + b, num) =~= with_number(a, num) + with_number(b, num));
    }
}

proof fn lemma_filter_none(s: Seq<Entry>, num: u32)
    requires
        forall|i: int| 0 <= i < s.len() ==> (#[trigger] s[i]).num != num,
    ensures
        with_number(s, num) == Seq::<Entry>::empty(),
    decreases s.len(),
{
    reveal(Seq::filter);
    if s.len() > 0 {
        assert(s[s.len() - 1].num != num);
        assert forall|i: int| 0 <= i < s.drop_last().len() implies (#[trigger] s.drop_last()[i]).num
            != num by {
            assert(s.drop_last()[i] == s[i]);
        }
        lemma_filter_none(s.drop_last(), num);
    }
}

/// An entry put in behind the last one that is not above it.
proof fn lemma_inserted(before: Seq<Entry>, given: Seq<Entry>, e: Entry, at: int)
    requires
        0 <= at <= before.len(),
        sorted_from(before, given),
        forall|i: int| 0 <= i < at ==> (#[trigger] before[i]).num <= e.num,
        at < before.len() ==> before[at].num > e.num,
    ensures
        sorted_from(before.insert(at, e), given.push(e)),
{
    let after = before.insert(at, e);
    let a = before.take(at);
    let b = before.skip(at);
    let one = seq![e];
    assert(after =~= a + one + b);
    assert(before =~= a + b);
    assert(given.push(e) =~= given + one);
    assert forall|i: int, j: int|
        #![trigger after[i], after[j]]
        0 <= i < j < after.len() implies after[i].num <= after[j].num by {
        let x = |k: int| if k < at { k } else { k - 1 };
        if i != at && j != at {
            assert(after[i] == before[x(i)] && after[j] == before[x(j)]);
        } else if i == at {
            assert(after[j] == before[j - 1]);
            assert(before[at].num <= before[j - 1].num);
        } else {
            assert(after[i] == before[i]);
        }
    }
    assert forall|num: u32| #[trigger] with_number(after, num) == with_number(
        given.push(e),
        num,
    ) by {
        lemma_filter_concat(a + one, b, num);
        lemma_filter_concat(a, one, num);
        lemma_filter_concat(a, b, num);
        lemma_filter_concat(given, one, num);
        assert(with_number(before, num) == with_number(given, num));
        if num == e.num {
            assert forall|i: int| 0 <= i < b.len() implies (#[trigger] b[i]).num != num by {
                assert(b[i] == before[at + i]);
                assert(before[at].num <= before[at + i].num || i == 0);
            }
            lemma_filter_none(b, num);
            assert(with_number(after, num) =~= with_number(given.push(e), num));
        } else {
            assert(one[0] == e);
            lemma_filter_none(one, num);
            assert(with_number(after, num) =~= with_number(given.push(e), num));
        }
    }
}

impl Default for Listing {
    fn default() -> (r: Self)
        ensures
            r@ == (Listed { entries: Seq::empty(), current: None }),
    {
        let entries: Vec<(u32, String)> = Vec::new();
        assert(entries_of(entries@) =~= Seq::<Entry>::empty());
        Listing { entries, current: None }
    }
}

/// The numbers and names of these sessions.
pub open spec fn listed(sessions: Seq<Row>) -> Seq<Entry> {
    sessions.map_values(|s: Row| Entry { num: s.num, label: s.name })
}

/// The number of the first of these sessions with this id.
pub open spec fn number_of(sessions: Seq<Row>, id: Seq<char>, i: int) -> Option<u32>
    decreases sessions.len() - i,
{
    if i >= sessions.len() {
        None
    } else if sessions[i].id == id {
        Some(sessions[i].num)
    } else {
        number_of(sessions, id, i + 1)
    }
}

impl Listing {
    /// The listing for these sessions, the one with id `current` in front.
    pub fn of(sessions: &[Session], current: &str) -> (r: Self)
        ensures
            sorted_from(r@.entries, made_safe(listed(rows(sessions@)))),
            r@.current == number_of(rows(sessions@), current@, 0),
    {
        let mut pairs: Vec<(u32, String)> = Vec::new();
        let mut i: usize = 0;
        while i < sessions.len()
            invariant
                i <= sessions@.len(),
                entries_of(pairs@) == listed(rows(sessions@).take(i as int)),
            decreases sessions@.len() - i,
        {
            let ghost before = pairs@;
            let pair: (u32, String) = (sessions[i].state.num, sessions[i].name.clone());
            pairs.push(pair);
            assert(entries_of(pairs@) =~= entries_of(before).push(
                Entry { num: pair.0, label: pair.1@ },
            ));
            assert(rows(sessions@).take(i + 1) =~= rows(sessions@).take(i as int).push(
                sessions@[i as int]@,
            ));
            assert(entries_of(pairs@) =~= listed(rows(sessions@).take(i + 1)));
            i += 1;
        }
        assert(rows(sessions@).take(i as int) =~= rows(sessions@));
        let mut front: Option<u32> = None;
        let mut k: usize = 0;
        while k < sessions.len() && front.is_none()
            invariant
                k <= sessions@.len(),
                front is None ==> number_of(rows(sessions@), current@, 0) == number_of(
                    rows(sessions@),
                    current@,
                    k as int,
                ),
                front is Some ==> number_of(rows(sessions@), current@, 0) == front,
            decreases sessions@.len() - k,
        {
            let same: bool = equal_text(sessions[k].id.as_str(), current);
            assert(rows(sessions@)[k as int].id == sessions@[k as int].id@);
            if same {
                front = Some(sessions[k].state.num);
            }
            k += 1;
        }
        Self::new(pairs, front)
    }

    /// A listing of numbers and names, `current` being the number of the one in front. Every
    /// name is made safe here, once: it is about to reach a raw terminal.
    pub fn new(entries: Vec<(u32, String)>, current: Option<u32>) -> (r: Self)
        ensures
            sorted_from(r@.entries, made_safe(entries_of(entries@))),
            r@.current == current,
    {
        let ghost given = made_safe(entries_of(entries@));
        let mut sorted: Vec<(u32, String)> = Vec::new();
        let mut i: usize = 0;
        assert(entries_of(sorted@) =~= Seq::<Entry>::empty());
        assert(given.take(0) =~= Seq::<Entry>::empty());
        while i < entries.len()
            invariant
                i <= entries@.len(),
                given == made_safe(entries_of(entries@)),
                sorted_from(entries_of(sorted@), given.take(i as int)),
            decreases entries@.len() - i,
        {
            let num: u32 = entries[i].0;
            let name: String = label(entries[i].1.as_str());
            let ghost before = entries_of(sorted@);
            let ghost e = Entry { num, label: name@ };
            let mut at: usize = sorted.len();
            while at > 0 && sorted[at - 1].0 > num
                invariant
                    at <= sorted@.len(),
                    before == entries_of(sorted@),
                    at < sorted@.len() ==> before[at as int].num > num,
                decreases at,
            {
                assert(before[at - 1].num == sorted@[at - 1].0);
                at -= 1;
            }
            proof {
                assert(given.take(i + 1) =~= given.take(i as int).push(e));
                assert forall|j: int| 0 <= j < at implies (#[trigger] before[j]).num <= e.num by {
                    assert(before[at - 1].num == sorted@[at - 1].0);
                    assert(before[j].num <= before[at - 1].num);
                }
                lemma_inserted(before, given.take(i as int), e, at as int);
            }
            sorted.insert(at, (num, name));
            assert(entries_of(sorted@) =~= before.insert(at as int, e));
            i += 1;
        }
        assert(given.take(i as int) =~= given);
        Listing { entries: sorted, current }
    }

    /// The highest number in it, or 0 for none.
    pub fn highest(&self) -> (r: u32)
        ensures
            forall|i: int| 0 <= i < self@.entries.len() ==> (#[trigger] self@.entries[i]).num <= r,
            self@.entries.len() == 0 ==> r == 0,
            self@.entries.len() > 0 ==> exists|i: int|
                0 <= i < self@.entries.len() && (#[trigger] self@.entries[i]).num == r,
    {
        let mut top: u32 = 0;
        let mut i: usize = 0;
        while i < self.entries.len()
            invariant
                i <= self.entries@.len(),
                forall|j: int| 0 <= j < i ==> (#[trigger] self@.entries[j]).num <= top,
                i == 0 ==> top == 0,
                i > 0 ==> exists|j: int| 0 <= j < i && (#[trigger] self@.entries[j]).num == top,
            decreases self.entries@.len() - i,
        {
            let num: u32 = self.entries[i].0;
            assert(self@.entries[i as int].num == num);
            if num > top || i == 0 {
                top = num;
            }
            i += 1;
        }
        top
    }
}

/// One command on the key row.
pub open spec fn key_entry(b: Binding) -> Seq<char> {
    glyph(b.key) + " "@ + b.hint@
}

/// The key row's entries, in the order it offers them: the table's.
pub open spec fn key_entries() -> Seq<Seq<char>> {
    table().map_values(|b: Binding| key_entry(b))
}

/// The key row's entries.
pub fn entries() -> (r: Vec<String>)
    ensures
        texts(r@) == key_entries(),
{
    let rows: Vec<Binding> = bindings();
    let mut out: Vec<String> = Vec::new();
    let mut i: usize = 0;
    while i < rows.len()
        invariant
            rows@ == table(),
            i <= rows@.len(),
            texts(out@) == key_entries().take(i as int),
        decreases rows@.len() - i,
    {
        let ghost before = out@;
        let mut entry: String = key_glyph(rows[i].key);
        entry.append(" ");
        entry.append(rows[i].hint);
        out.push(entry);
        assert(texts(out@) =~= texts(before).push(entry@));
        assert(key_entries().take(i + 1) =~= key_entries().take(i as int).push(
            key_entry(rows@[i as int]),
        ));
        i += 1;
    }
    assert(key_entries().take(i as int) =~= key_entries());
    out
}

/// A row with one more entry.
pub open spec fn extended(row: Seq<char>, entry: Seq<char>) -> Seq<char> {
    if row.len() == 0 {
        entry
    } else {
        row + GAP@ + entry
    }
}

/// A row with as many of these entries, in order, as fit behind what is on it: up to the
/// first that does not.
pub open spec fn filled(row: Seq<char>, entries: Seq<Seq<char>>, cols: nat) -> Seq<char>
    decreases entries.len(),
{
    if entries.len() == 0 {
        row
    } else {
        let gap = if row.len() == 0 {
            0
        } else {
            display_width(GAP@)
        };
        if display_width(row) + gap + display_width(entries[0]) > cols {
            row
        } else {
            filled(extended(row, entries[0]), entries.skip(1), cols)
        }
    }
}

/// What the key row says on a screen this wide: the number being typed, or the commands that
/// fit; nothing when not even the first does.
pub open spec fn key_row(pending: Pending, cols: nat) -> Option<Seq<char>> {
    let row = match pending {
        Pending::Number(n) => "#"@ + decimal(n as nat),
        Pending::Command => filled(Seq::empty(), key_entries(), cols),
    };
    if row.len() > 0 && display_width(row) <= cols {
        Some(row)
    } else {
        None
    }
}

/// What the key row says on a screen `cols` wide, or `None` when not even the first entry
/// fits.
pub fn keys_text(pending: Pending, cols: u16) -> (r: Option<String>)
    ensures
        match r {
            Some(row) => key_row(pending, cols as nat) == Some(row@) && display_width(row@)
                <= cols,
            None => key_row(pending, cols as nat) is None,
        },
{
    let mut row: String = String::new();
    match pending {
        Pending::Number(n) => {
            row = String::from_str("#");
            row.append(number_text(n as u64).as_str());
        },
        Pending::Command => {
            let all: Vec<String> = entries();
            let gap: usize = width(GAP);
            let mut i: usize = 0;
            let mut room: bool = true;
            assert(texts(all@).skip(0) =~= texts(all@));
            while i < all.len() && room
                invariant
                    i <= all@.len(),
                    texts(all@) == key_entries(),
                    gap == display_width(GAP@),
                    room ==> filled(Seq::empty(), key_entries(), cols as nat) == filled(
                        row@,
                        texts(all@).skip(i as int),
                        cols as nat,
                    ),
                    !room ==> filled(Seq::empty(), key_entries(), cols as nat) == row@,
                decreases
                    all@.len() - i,
                    if room {
                        1int
                    } else {
                        0
                    },
            {
                let empty: bool = row.as_str().is_empty();
                let between: u128 = if empty {
                    0
                } else {
                    gap as u128
                };
                let needed: u128 = width(row.as_str()) as u128 + between + width(
                    all[i].as_str(),
                ) as u128;
                assert(texts(all@).skip(i as int)[0] == all@[i as int]@);
                assert(texts(all@).skip(i as int).skip(1) =~= texts(all@).skip(i + 1));
                if needed > cols as u128 {
                    room = false;
                } else {
                    if empty {
                        row = all[i].clone();
                    } else {
                        row.append(GAP);
                        row.append(all[i].as_str());
                    }
                    i += 1;
                }
            }
        },
    }
    if !row.as_str().is_empty() && width(row.as_str()) <= cols as usize {
        Some(row)
    } else {
        None
    }
}

/// Whether the session numbered `num` is one that what is half typed could still end on: any
/// of them for a lone prefix, and for a number, the ones it begins.
pub open spec fn could_reach(pending: Pending, num: u32) -> bool {
    match pending {
        Pending::Command => true,
        Pending::Number(n) => starts(decimal(num as nat), decimal(n as nat)),
    }
}

fn reachable(pending: Pending, num: u32) -> (r: bool)
    ensures
        r == could_reach(pending, num),
{
    match pending {
        Pending::Command => true,
        Pending::Number(n) => {
            let digits: Vec<char> = chars_of(number_text(num as u64).as_str());
            starts_with(&digits, number_text(n as u64).as_str())
        },
    }
}

/// A name on the sessions row: cut, and saying so, where it is too wide.
pub open spec fn cut_label(label: Seq<char>) -> Seq<char> {
    if display_width(label) > LABEL_WIDTH {
        let room = if display_width(CUT@) <= LABEL_WIDTH {
            (LABEL_WIDTH - display_width(CUT@)) as nat
        } else {
            0
        };
        truncated(label, room) + CUT@
    } else {
        label
    }
}

/// One session on the sessions row.
pub open spec fn session_entry(num: u32, label: Seq<char>, here: bool) -> Seq<char> {
    let marker = if here {
        HERE@
    } else {
        ""@
    };
    let name = cut_label(label);
    if name.len() == 0 {
        marker + decimal(num as nat)
    } else {
        marker + decimal(num as nat) + " "@ + name
    }
}

/// One session on the sessions row.
fn entry(num: u32, label: &str, here: bool) -> (r: String)
    ensures
        r@ == session_entry(num, label@, here),
{
    let mut out: String = if here {
        String::from_str(HERE)
    } else {
        String::from_str("")
    };
    out.append(number_text(num as u64).as_str());
    let name: String = if width(label) > LABEL_WIDTH {
        let cut: usize = width(CUT);
        let room: usize = if cut <= LABEL_WIDTH {
            LABEL_WIDTH - cut
        } else {
            0
        };
        let mut short: String = truncate(label, room);
        short.append(CUT);
        short
    } else {
        String::from_str(label)
    };
    if !name.as_str().is_empty() {
        out.append(" ");
        out.append(name.as_str());
    }
    out
}

/// The entries with a gap between each two.
pub open spec fn gapped(entries: Seq<Seq<char>>) -> Seq<char>
    decreases entries.len(),
{
    if entries.len() == 0 {
        Seq::empty()
    } else if entries.len() == 1 {
        entries[0]
    } else {
        gapped(entries.drop_last()) + GAP@ + entries.last()
    }
}

fn join_gapped(entries: &Vec<String>, n: usize) -> (r: String)
    requires
        n <= entries@.len(),
    ensures
        r@ == gapped(texts(entries@).take(n as int)),
{
    let mut out: String = String::new();
    let mut i: usize = 0;
    assert(texts(entries@).take(0) =~= Seq::<Seq<char>>::empty());
    while i < n
        invariant
            i <= n <= entries@.len(),
            out@ == gapped(texts(entries@).take(i as int)),
        decreases n - i,
    {
        let ghost longer = texts(entries@).take(i + 1);
        assert(longer.drop_last() =~= texts(entries@).take(i as int));
        assert(longer.last() == entries@[i as int]@);
        if i > 0 {
            out.append(GAP);
        }
        out.append(entries[i].as_str());
        assert(i == 0 ==> out@ =~= longer[0]);
        i += 1;
    }
    out
}

/// The first `kept` of the entries, and how many more there are.
pub open spec fn counted(entries: Seq<Seq<char>>, kept: int) -> Seq<char> {
    gapped(entries.take(kept)) + GAP@ + "+"@ + decimal((entries.len() - kept) as nat) + " more"@
}

/// The most of the entries, at most `kept` and at least one, that fit with the count of the
/// rest.
pub open spec fn most_counted(entries: Seq<Seq<char>>, cols: nat, kept: int) -> Option<Seq<char>>
    decreases kept,
{
    if kept < 1 {
        None
    } else if display_width(counted(entries, kept)) <= cols {
        Some(counted(entries, kept))
    } else {
        most_counted(entries, cols, kept - 1)
    }
}

/// As many of the entries as fit, and a count of the rest.
pub open spec fn fitted(entries: Seq<Seq<char>>, cols: nat) -> Option<Seq<char>> {
    let all = gapped(entries);
    if display_width(all) <= cols {
        if all.len() > 0 {
            Some(all)
        } else {
            None
        }
    } else {
        most_counted(entries, cols, entries.len() - 1)
    }
}

/// As many of `entries` as fit in `cols`, and a count of the rest.
fn fit(entries: &Vec<String>, cols: usize) -> (r: Option<String>)
    ensures
        match r {
            Some(row) => fitted(texts(entries@), cols as nat) == Some(row@) && display_width(row@)
                <= cols,
            None => fitted(texts(entries@), cols as nat) is None,
        },
{
    let all: String = join_gapped(entries, entries.len());
    assert(texts(entries@).take(entries@.len() as int) =~= texts(entries@));
    if width(all.as_str()) <= cols {
        return if all.as_str().is_empty() {
            None
        } else {
            Some(all)
        };
    }
    if entries.len() == 0 {
        return None;
    }
    let mut kept: usize = entries.len() - 1;
    while kept >= 1
        invariant
            kept < entries@.len(),
            fitted(texts(entries@), cols as nat) == most_counted(
                texts(entries@),
                cols as nat,
                kept as int,
            ),
        decreases kept,
    {
        let mut row: String = join_gapped(entries, kept);
        row.append(GAP);
        row.append("+");
        row.append(number_text((entries.len() - kept) as u64).as_str());
        row.append(" more");
        if width(row.as_str()) <= cols {
            return Some(row);
        }
        kept -= 1;
    }
    None
}

/// The sessions that can still be reached, as they stand on the row.
pub open spec fn session_entries(pending: Pending, listing: Listed) -> Seq<Seq<char>> {
    listing.entries.filter(|e: Entry| could_reach(pending, e.num)).map_values(
        |e: Entry| session_entry(e.num, e.label, listing.current == Some(e.num)),
    )
}

/// What the sessions row says on a screen this wide, if there is anything to say: one session
/// is nowhere for a digit to go.
pub open spec fn session_row(pending: Pending, listing: Listed, cols: nat) -> Option<Seq<char>> {
    if listing.entries.len() < 2 {
        None
    } else {
        fitted(session_entries(pending, listing), cols)
    }
}

/// What the sessions row says on a screen `cols` wide, or `None` when there is nothing to
/// say.
pub fn sessions_text(pending: Pending, listing: &Listing, cols: u16) -> (r: Option<String>)
    ensures
        match r {
            Some(row) => session_row(pending, listing@, cols as nat) == Some(row@)
                && display_width(row@) <= cols,
            None => session_row(pending, listing@, cols as nat) is None,
        },
{
    if listing.entries.len() < 2 {
        return None;
    }
    let ghost all = listing@.entries;
    let ghost keep = |e: Entry| could_reach(pending, e.num);
    let ghost show = |e: Entry| session_entry(e.num, e.label, listing@.current == Some(e.num));
    let mut found: Vec<String> = Vec::new();
    let mut i: usize = 0;
    proof {
        reveal(Seq::filter);
        assert(all.take(0).filter(keep).map_values(show) =~= Seq::<Seq<char>>::empty());
        assert(texts(found@) =~= Seq::<Seq<char>>::empty());
    }
    while i < listing.entries.len()
        invariant
            i <= listing.entries@.len(),
            all == listing@.entries,
            keep == (|e: Entry| could_reach(pending, e.num)),
            show == (|e: Entry|
                session_entry(e.num, e.label, listing@.current == Some(e.num))),
            texts(found@) == all.take(i as int).filter(keep).map_values(show),
        decreases listing.entries@.len() - i,
    {
        let num: u32 = listing.entries[i].0;
        let ghost e = all[i as int];
        let ghost before = found@;
        assert(e == Entry { num, label: listing.entries@[i as int].1@ });
        proof {
            reveal(Seq::filter);
            assert(all.take(i + 1).drop_last() =~= all.take(i as int));
            assert(all.take(i + 1).last() == e);
        }
        if reachable(pending, num) {
            let here: bool = match listing.current {
                Some(front) => front == num,
                None => false,
            };
            let text: String = entry(num, listing.entries[i].1.as_str(), here);
            found.push(text);
            assert(texts(found@) =~= texts(before).push(text@));
            assert(all.take(i + 1).filter(keep) =~= all.take(i as int).filter(keep).push(e));
            assert(all.take(i + 1).filter(keep).map_values(show) =~= all.take(i as int).filter(
                keep,
            ).map_values(show).push(show(e)));
        } else {
            assert(all.take(i + 1).filter(keep) =~= all.take(i as int).filter(keep));
        }
        i += 1;
    }
    assert(all.take(i as int) =~= all);
    assert(texts(found@) == session_entries(pending, listing@));
    fit(&found, cols as usize)
}

/// A row of the screen, the whole width of it, with a text in the middle.
pub open spec fn in_the_middle(top: u16, text: Seq<char>, cols: u16) -> Placed {
    let left = (cols - display_width(text)) / 2;
    let right = cols - display_width(text) - left;
    Placed {
        top,
        left: 0,
        width: cols,
        rows: seq![repeated(" "@, left as nat) + text + repeated(" "@, right as nat)],
    }
}

/// A row of the screen, `top`, the whole width of it, with `text` centred: the cells beside
/// the text are what clears the session's own row from under it.
fn centred(top: u16, text: &str, cols: u16) -> (r: Over)
    requires
        display_width(text@) <= cols,
    ensures
        r@ == in_the_middle(top, text@, cols),
{
    let taken: usize = width(text);
    let left: usize = (cols as usize - taken) / 2;
    let right: usize = cols as usize - taken - left;
    let mut row: String = String::new();
    put_repeated(&mut row, " ", left);
    assert(row@ =~= repeated(" "@, left as nat));
    row.append(text);
    put_repeated(&mut row, " ", right);
    let rows: Vec<String> = vec![row];
    assert(texts(rows@) =~= seq![row@]);
    Over { top, left: 0, width: cols, rows }
}

/// One row over a session's screen.
#[derive(Debug, PartialEq, Eq)]
pub struct Strip {
    pub over: Over,
    /// Drawn dim, as a row of hints over a live screen is.
    pub dim: bool,
}

/// One row, as a value.
#[verifier::ext_equal]
pub struct Line {
    pub over: Placed,
    pub dim: bool,
}

impl View for Strip {
    type V = Line;

    open spec fn view(&self) -> Line {
        Line { over: self.over@, dim: self.dim }
    }
}

/// The values of these rows.
pub open spec fn lines(strips: Seq<Strip>) -> Seq<Line> {
    strips.map_values(|s: Strip| s@)
}

/// Everything the prefix puts up on a screen of this size: the sessions along the top, where
/// there is something to say and room to, and the keys along the bottom; nothing at all
/// where there is no room for the keys.
pub open spec fn prefix_rows(
    pending: Pending,
    listing: Listed,
    size: PtySize,
    veiled: bool,
) -> Seq<Line> {
    if size.rows < MIN_ROWS || size.cols == 0 || key_row(pending, size.cols as nat) is None {
        Seq::empty()
    } else {
        let keys = Line {
            over: in_the_middle(
                (size.rows - 1) as u16,
                key_row(pending, size.cols as nat)->0,
                size.cols,
            ),
            dim: !veiled,
        };
        let sessions = session_row(pending, listing, size.cols as nat);
        if size.rows >= SESSIONS_MIN_ROWS && sessions is Some {
            seq![Line { over: in_the_middle(0, sessions->0, size.cols), dim: !veiled }, keys]
        } else {
            seq![keys]
        }
    }
}

/// Everything the prefix puts up for `pending` on a screen of `size`.
///
/// `veiled` is whether the session will be dimmed behind the rows: over a live screen they
/// are dim, and over a veil they are not.
pub fn strips(pending: Pending, listing: &Listing, size: PtySize, veiled: bool) -> (r: Vec<Strip>)
    ensures
        lines(r@) == prefix_rows(pending, listing@, size, veiled),
{
    let mut out: Vec<Strip> = Vec::new();
    if size.rows < MIN_ROWS || size.cols == 0 {
        assert(lines(out@) =~= Seq::<Line>::empty());
        return out;
    }
    let keys: String = match keys_text(pending, size.cols) {
        Some(keys) => keys,
        None => {
            assert(lines(out@) =~= Seq::<Line>::empty());
            return out;
        },
    };
    if size.rows >= SESSIONS_MIN_ROWS {
        if let Some(text) = sessions_text(pending, listing, size.cols) {
            out.push(Strip { over: centred(0, text.as_str(), size.cols), dim: !veiled });
        }
    }
    out.push(Strip { over: centred(size.rows - 1, keys.as_str(), size.cols), dim: !veiled });
    assert(lines(out@) =~= prefix_rows(pending, listing@, size, veiled));
    out
}

/// The rows are on the screen and never all of it: each is inside the grid, at its edge and
/// as wide as it, and there is always a row left for the session.
pub proof fn law_the_rows_leave_the_session_a_row(
    pending: Pending,
    listing: Listed,
    size: PtySize,
    veiled: bool,
)
    ensures
        ({
            let all = prefix_rows(pending, listing, size, veiled);
            &&& all.len() <= 2
            &&& all.len() > 0 ==> all.len() < size.rows
            &&& forall|i: int|
                0 <= i < all.len() ==> {
                    let o = (#[trigger] all[i]).over;
                    &&& o.top < size.rows
                    &&& o.top == 0 || o.top == size.rows - 1
                    &&& o.left == 0
                    &&& o.width == size.cols
                    &&& o.rows.len() == 1
                    &&& all[i].dim == !veiled
                }
        }),
{
}

/// How a row is drawn over a live screen.
pub open spec fn drawn_as(line: Line) -> Seq<char> {
    if line.dim {
        RESET_DIM@
    } else {
        RESET@
    }
}

/// The bytes that put these rows on a live screen, all in one synchronized update.
pub open spec fn placed_bytes(all: Seq<Line>) -> Seq<u8> {
    utf8(
        over_screen(
            placed_boxes(
                all.map_values(|l: Line| (l.over, drawn_as(l))),
                all.len() as int,
            ),
        ),
    )
}

/// A row with nothing in it.
pub open spec fn blank(over: Placed) -> Placed {
    Placed {
        rows: over.rows.map_values(|row: Seq<char>| repeated(" "@, display_width(row))),
        ..over
    }
}

/// The bytes that blank these rows.
pub open spec fn blanked_bytes(all: Seq<Line>) -> Seq<u8> {
    utf8(
        over_screen(
            placed_boxes(all.map_values(|l: Line| (blank(l.over), RESET@)), all.len() as int),
        ),
    )
}

fn copy_over(over: &Over) -> (r: Over)
    ensures
        r@ == over@,
{
    let mut out: Vec<String> = Vec::new();
    let mut i: usize = 0;
    while i < over.rows.len()
        invariant
            i <= over.rows@.len(),
            texts(out@) == texts(over.rows@).take(i as int),
        decreases over.rows@.len() - i,
    {
        let ghost before = out@;
        let row: String = over.rows[i].clone();
        out.push(row);
        assert(texts(out@) =~= texts(before).push(row@));
        assert(texts(over.rows@).take(i + 1) =~= texts(over.rows@).take(i as int).push(row@));
        i += 1;
    }
    assert(texts(over.rows@).take(i as int) =~= texts(over.rows@));
    Over { top: over.top, left: over.left, width: over.width, rows: out }
}

fn copy_strips(strips: &Vec<Strip>) -> (r: Vec<Strip>)
    ensures
        lines(r@) == lines(strips@),
{
    let mut out: Vec<Strip> = Vec::new();
    let mut i: usize = 0;
    while i < strips.len()
        invariant
            i <= strips@.len(),
            lines(out@) == lines(strips@).take(i as int),
        decreases strips@.len() - i,
    {
        let ghost before = out@;
        let strip: Strip = Strip { over: copy_over(&strips[i].over), dim: strips[i].dim };
        out.push(strip);
        assert(lines(out@) =~= lines(before).push(strip@));
        assert(lines(strips@).take(i + 1) =~= lines(strips@).take(i as int).push(
            strips@[i as int]@,
        ));
        i += 1;
    }
    assert(lines(strips@).take(i as int) =~= lines(strips@));
    out
}

/// The rows as they are written over a live screen: each under its own rendition, all in one
/// synchronized update.
pub fn placed(strips: &Vec<Strip>) -> (r: Vec<u8>)
    ensures
        r@ == placed_bytes(lines(strips@)),
{
    let mut blocks: Vec<(Over, &'static str)> = Vec::new();
    let ghost want = lines(strips@).map_values(|l: Line| (l.over, drawn_as(l)));
    let mut i: usize = 0;
    while i < strips.len()
        invariant
            i <= strips@.len(),
            want == lines(strips@).map_values(|l: Line| (l.over, drawn_as(l))),
            blocks_of(blocks@) == want.take(i as int),
        decreases strips@.len() - i,
    {
        let ghost before = blocks@;
        let sgr: &'static str = if strips[i].dim {
            RESET_DIM
        } else {
            RESET
        };
        let over: Over = copy_over(&strips[i].over);
        blocks.push((over, sgr));
        assert(blocks_of(blocks@) =~= blocks_of(before).push((over@, sgr@)));
        assert(want.take(i + 1) =~= want.take(i as int).push((over@, sgr@)));
        i += 1;
    }
    assert(want.take(i as int) =~= want);
    placed_each(&blocks)
}

fn blank_over(over: &Over) -> (r: Over)
    ensures
        r@ == blank(over@),
{
    let mut out: Vec<String> = Vec::new();
    let ghost want = blank(over@).rows;
    let mut i: usize = 0;
    while i < over.rows.len()
        invariant
            i <= over.rows@.len(),
            want == blank(over@).rows,
            texts(out@) == want.take(i as int),
        decreases over.rows@.len() - i,
    {
        let ghost before = out@;
        let mut row: String = String::new();
        put_repeated(&mut row, " ", width(over.rows[i].as_str()));
        assert(row@ =~= repeated(" "@, display_width(over.rows@[i as int]@)));
        out.push(row);
        assert(texts(out@) =~= texts(before).push(row@));
        assert(want.take(i + 1) =~= want.take(i as int).push(row@));
        i += 1;
    }
    assert(want.take(i as int) =~= want);
    Over { top: over.top, left: over.left, width: over.width, rows: out }
}

/// The same rows with nothing in them: what blanks them where nothing knows what was under
/// them.
fn blanked(strips: &Vec<Strip>) -> (r: Vec<u8>)
    ensures
        r@ == blanked_bytes(lines(strips@)),
{
    let mut blocks: Vec<(Over, &'static str)> = Vec::new();
    let ghost want = lines(strips@).map_values(|l: Line| (blank(l.over), RESET@));
    let mut i: usize = 0;
    while i < strips.len()
        invariant
            i <= strips@.len(),
            want == lines(strips@).map_values(|l: Line| (blank(l.over), RESET@)),
            blocks_of(blocks@) == want.take(i as int),
        decreases strips@.len() - i,
    {
        let ghost before = blocks@;
        let over: Over = blank_over(&strips[i].over);
        blocks.push((over, RESET));
        assert(blocks_of(blocks@) =~= blocks_of(before).push((over@, RESET@)));
        assert(want.take(i + 1) =~= want.take(i as int).push((over@, RESET@)));
        i += 1;
    }
    assert(want.take(i as int) =~= want);
    placed_each(&blocks)
}

/// The session as it is behind rows that have just gone up: where the veil rises from.
pub open spec fn unveiled() -> Veil {
    Veil { session: 0, rows: 0, under: ALL }
}

/// The veil at rest, while the prefix waits: the session half dissolved.
pub open spec fn at_rest() -> Veil {
    Veil { session: 8_388_608, rows: 0, under: ALL }
}

/// The session back, under the rows as well, and the rows gone: where the veil lifts to.
pub open spec fn lifted() -> Veil {
    Veil { session: 0, rows: ALL, under: 0 }
}

/// A veil over the session, from its first frame to the moment the screen is handed back.
#[derive(Debug)]
struct Veiling {
    /// The rows on it, as last drawn.
    strips: Vec<Strip>,
    /// Where it stands.
    at: Veil,
    /// A rise or a lift under way.
    glide: Option<Glide>,
    /// When the glide's next frame is due.
    next_frame: Instant,
    /// Whether the terminal shows it as it stands.
    painted: bool,
    /// Whether the session has drawn over it since its last frame.
    drawn_over: bool,
    /// Coming down: the prefix has resolved.
    lifting: bool,
}

/// A veil, as a value.
#[verifier::ext_equal]
pub struct Dimmed {
    pub strips: Seq<Line>,
    pub at: Veil,
    pub glide: Option<Glide>,
    pub next_frame: Instant,
    pub painted: bool,
    pub drawn_over: bool,
    pub lifting: bool,
}

impl View for Veiling {
    type V = Dimmed;

    closed spec fn view(&self) -> Dimmed {
        Dimmed {
            strips: lines(self.strips@),
            at: self.at,
            glide: self.glide,
            next_frame: self.next_frame,
            painted: self.painted,
            drawn_over: self.drawn_over,
            lifting: self.lifting,
        }
    }
}

/// What of the prefix's is on the terminal.
#[derive(Debug)]
enum Screen {
    /// Nothing.
    Clear,
    /// Rows written straight over a live screen, as they were written: an erase has to blank
    /// the cells they covered.
    Rows(Vec<Strip>),
    /// The veil, and the rows on it.
    Veiled(Veiling),
}

/// What is on the terminal, as a value.
#[verifier::ext_equal]
pub enum Shown {
    Clear,
    Rows(Seq<Line>),
    Veiled(Dimmed),
}

impl View for Screen {
    type V = Shown;

    closed spec fn view(&self) -> Shown {
        match self {
            Screen::Clear => Shown::Clear,
            Screen::Rows(strips) => Shown::Rows(lines(strips@)),
            Screen::Veiled(v) => Shown::Veiled(v@),
        }
    }
}

/// Where the veil stands, and the rows on it.
#[derive(Debug, PartialEq, Eq)]
pub struct Veiled {
    pub strips: Vec<Strip>,
    pub veil: Veil,
}

/// What is to be done about the prefix's rows on this pass.
#[derive(Debug, PartialEq, Eq)]
pub enum Act {
    /// Nothing this time round.
    Idle,
    /// Write these bytes over the session's screen, and that is all.
    Write(Vec<u8>),
    /// Paint the session's screen dimmed, with these rows on it, from the picture of it.
    Dim(Veiled),
    /// Write these bytes, and then ask the server to repaint.
    HandBack(Vec<u8>),
    /// Paint the session's screen back from the picture of it, and then ask the server to
    /// repaint.
    Restore,
}

/// What is to be done, as a value.
#[verifier::ext_equal]
pub enum Deed {
    Idle,
    Write(Seq<u8>),
    Dim(Seq<Line>, Veil),
    HandBack(Seq<u8>),
    Restore,
}

impl View for Act {
    type V = Deed;

    open spec fn view(&self) -> Deed {
        match self {
            Act::Idle => Deed::Idle,
            Act::Write(bytes) => Deed::Write(bytes@),
            Act::Dim(v) => Deed::Dim(lines(v.strips@), v.veil),
            Act::HandBack(bytes) => Deed::HandBack(bytes@),
            Act::Restore => Deed::Restore,
        }
    }
}

/// The bar, as a value: the difference between what is on the terminal and what the prefix
/// wants there.
#[verifier::ext_equal]
pub struct Hints {
    /// When the session was last seen with nothing to say.
    pub quiet_since: Option<Instant>,
    /// The screen the last pass was for.
    pub size: PtySize,
    pub listing: Listed,
    /// What a veil is dissolved with.
    pub dissolve: Option<Dissolve>,
    /// The rows the prefix implies.
    pub want: Seq<Line>,
    /// What is on the terminal.
    pub screen: Shown,
    /// Whether the bar has had its say about what it wants on this screen.
    pub agreed: bool,
}

impl Hints {
    /// The terminal changed size, and a resize is its own erase: rows drawn plain are
    /// forgotten, a veil on its way down is down, and one that is up goes back up.
    pub open spec fn resized(self, size: PtySize) -> Hints {
        Hints {
            size,
            agreed: false,
            screen: match self.screen {
                Shown::Veiled(v) => if v.lifting {
                    Shown::Clear
                } else {
                    Shown::Veiled(Dimmed { painted: false, drawn_over: true, ..v })
                },
                _ => Shown::Clear,
            },
            ..self
        }
    }

    /// These rows are wanted now.
    pub open spec fn wanting(self, want: Seq<Line>) -> Hints {
        if want == self.want {
            self
        } else {
            Hints { want, agreed: false, ..self }
        }
    }

    /// The session was busy on this pass, or not: anything on the screen may have been drawn
    /// over.
    pub open spec fn heard(self, now: Instant, busy: bool) -> Hints {
        if busy {
            let quiet = Hints { quiet_since: None, ..self };
            match self.screen {
                Shown::Clear => quiet,
                Shown::Rows(_) => Hints { agreed: false, ..quiet },
                Shown::Veiled(v) => Hints {
                    screen: Shown::Veiled(Dimmed { painted: false, drawn_over: true, ..v }),
                    ..quiet
                },
            }
        } else if self.quiet_since is None {
            Hints { quiet_since: Some(now), ..self }
        } else {
            self
        }
    }

    /// The session has been quiet for long enough to write over.
    pub open spec fn settled(self, now: Instant) -> bool {
        self.quiet_since matches Some(quiet) && passed(now, quiet) >= SETTLE
    }

    /// The rows that are up and that nothing wanted in their place covers.
    pub open spec fn stale(self, shown: Seq<Line>) -> Seq<Line> {
        shown.filter(|s: Line| !covered(self.want, s.over.top))
    }

    /// A pass with no veil: the rows are written at a lull, once, and blanked when they come
    /// down.
    pub open spec fn plain(self, shown: Seq<Line>) -> (Hints, Deed) {
        if self.agreed {
            (
                Hints {
                    screen: if shown.len() == 0 {
                        Shown::Clear
                    } else {
                        Shown::Rows(shown)
                    },
                    ..self
                },
                Deed::Idle,
            )
        } else if self.want.len() == 0 {
            (
                Hints { screen: Shown::Clear, ..self },
                if shown.len() == 0 {
                    Deed::Idle
                } else {
                    Deed::HandBack(blanked_bytes(shown))
                },
            )
        } else {
            let stale = self.stale(shown);
            (
                Hints { screen: Shown::Rows(self.want), ..self },
                if stale.len() == 0 {
                    Deed::Write(placed_bytes(self.want))
                } else {
                    Deed::HandBack(blanked_bytes(stale) + placed_bytes(self.want))
                },
            )
        }
    }

    /// Where a veil is going, now that what is wanted is known. It rises over one direction of
    /// the dissolve, and lifts over a whole one, out and back.
    pub open spec fn headed(self, now: Instant, v: Dimmed, d: Dissolve) -> Dimmed {
        if self.want.len() == 0 {
            if v.lifting {
                v
            } else {
                Dimmed {
                    lifting: true,
                    glide: Some(started(v.at, lifted(), twice(d.duration), now)),
                    next_frame: now,
                    ..v
                }
            }
        } else {
            let up = if v.lifting {
                let from = Veil { session: v.at.session, ..unveiled() };
                Dimmed {
                    lifting: false,
                    at: from,
                    glide: Some(started(from, at_rest(), d.duration, now)),
                    next_frame: now,
                    painted: false,
                    ..v
                }
            } else {
                v
            };
            if up.strips == self.want {
                up
            } else {
                Dimmed { strips: self.want, painted: false, ..up }
            }
        }
    }

    /// A veil with the next frame of its glide taken, if one is due; and whether its glide
    /// came to its end on that pass.
    pub open spec fn glided(v: Dimmed, now: Instant) -> (Dimmed, bool) {
        match v.glide {
            Some(g) => if now >= v.next_frame {
                let finished = g.schedule.finished || g.schedule.time_is_up(now);
                let moved = Glide { schedule: Schedule { finished, ..g.schedule }, ..g };
                let at = if g.schedule.finished {
                    v.at
                } else {
                    g.at(now)
                };
                (
                    Dimmed {
                        at,
                        painted: v.painted && at == v.at,
                        next_frame: if g.schedule.finished {
                            v.next_frame
                        } else {
                            later(now, FRAME)
                        },
                        glide: if finished {
                            None
                        } else {
                            Some(moved)
                        },
                        ..v
                    },
                    finished,
                )
            } else {
                (v, false)
            },
            None => (v, false),
        }
    }

    /// A pass with a veil to paint, or one already painted.
    pub open spec fn veil(self, now: Instant, v: Dimmed, d: Dissolve) -> (Hints, Deed) {
        let cleared = Hints { screen: Shown::Clear, ..self };
        if self.want.len() == 0 && v.drawn_over {
            (cleared, Deed::Restore)
        } else {
            let (next, ended) = Hints::glided(self.headed(now, v, d), now);
            if ended && next.lifting {
                (cleared, Deed::Restore)
            } else if next.painted {
                (Hints { screen: Shown::Veiled(next), ..self }, Deed::Idle)
            } else {
                (
                    Hints {
                        screen: Shown::Veiled(
                            Dimmed { painted: true, drawn_over: false, ..next },
                        ),
                        ..self
                    },
                    Deed::Dim(next.strips, next.at),
                )
            }
        }
    }

    /// A veil that is about to rise under these rows.
    pub open spec fn rising(self, now: Instant, d: Dissolve) -> Dimmed {
        Dimmed {
            strips: self.want,
            at: unveiled(),
            glide: Some(started(unveiled(), at_rest(), d.duration, now)),
            next_frame: now,
            painted: false,
            drawn_over: false,
            lifting: false,
        }
    }

    /// What is done at a lull.
    pub open spec fn at_a_lull(self, now: Instant, under: bool) -> (Hints, Deed) {
        let said = |r: (Hints, Deed)| (Hints { agreed: true, ..r.0 }, r.1);
        match self.screen {
            Shown::Veiled(v) => if under && self.dissolve is Some {
                said(self.veil(now, v, self.dissolve->0))
            } else {
                (
                    Hints { screen: Shown::Clear, agreed: self.want.len() == 0, ..self },
                    Deed::HandBack(blanked_bytes(v.strips)),
                )
            },
            Shown::Rows(shown) => said(self.plain(shown)),
            Shown::Clear => if under && self.dissolve is Some && self.want.len() > 0 {
                said(self.veil(now, self.rising(now, self.dissolve->0), self.dissolve->0))
            } else {
                said(self.plain(Seq::empty()))
            },
        }
    }

    /// What the pass's first look makes of it.
    pub open spec fn looked(
        self,
        now: Instant,
        busy: bool,
        size: PtySize,
        pending: Option<Pending>,
        under: bool,
    ) -> Hints {
        let sized = if size == self.size {
            self
        } else {
            self.resized(size)
        };
        let want = match pending {
            Some(p) => prefix_rows(p, self.listing, size, under && self.dissolve is Some),
            None => Seq::empty(),
        };
        sized.wanting(want).heard(now, busy)
    }

    /// One pass.
    pub open spec fn stepped(
        self,
        now: Instant,
        busy: bool,
        size: PtySize,
        pending: Option<Pending>,
        under: bool,
    ) -> (Hints, Deed) {
        let looked = self.looked(now, busy, size, pending, under);
        if looked.settled(now) {
            looked.at_a_lull(now, under)
        } else {
            (looked, Deed::Idle)
        }
    }
}

/// A glide that begins now.
pub open spec fn started(from: Veil, to: Veil, duration: Duration, now: Instant) -> Glide {
    Glide {
        from,
        to,
        schedule: Schedule {
            started: now,
            duration,
            direction: crate::fade::Direction::Out,
            finished: false,
        },
    }
}

/// One of these rows is at this height.
pub open spec fn covered(want: Seq<Line>, top: u16) -> bool {
    exists|i: int| 0 <= i < want.len() && (#[trigger] want[i]).over.top == top
}

fn same_over(a: &Over, b: &Over) -> (r: bool)
    ensures
        r == (a@ == b@),
{
    if a.top != b.top || a.left != b.left || a.width != b.width || a.rows.len() != b.rows.len() {
        assert(a.rows@.len() != b.rows@.len() ==> texts(a.rows@).len() != texts(b.rows@).len());
        return false;
    }
    let mut i: usize = 0;
    while i < a.rows.len()
        invariant
            i <= a.rows@.len() == b.rows@.len(),
            forall|j: int| 0 <= j < i ==> texts(a.rows@)[j] == texts(b.rows@)[j],
        decreases a.rows@.len() - i,
    {
        if !equal_text(a.rows[i].as_str(), b.rows[i].as_str()) {
            assert(texts(a.rows@)[i as int] != texts(b.rows@)[i as int]);
            return false;
        }
        i += 1;
    }
    assert(texts(a.rows@) =~= texts(b.rows@));
    true
}

fn same_strips(a: &Vec<Strip>, b: &Vec<Strip>) -> (r: bool)
    ensures
        r == (lines(a@) == lines(b@)),
{
    if a.len() != b.len() {
        assert(lines(a@).len() != lines(b@).len());
        return false;
    }
    let mut i: usize = 0;
    while i < a.len()
        invariant
            i <= a@.len() == b@.len(),
            forall|j: int| 0 <= j < i ==> lines(a@)[j] == lines(b@)[j],
        decreases a@.len() - i,
    {
        if a[i].dim != b[i].dim || !same_over(&a[i].over, &b[i].over) {
            assert(lines(a@)[i as int] != lines(b@)[i as int]);
            return false;
        }
        i += 1;
    }
    assert(lines(a@) =~= lines(b@));
    true
}

/// Whether one of these rows is at this height.
fn covers(want: &Vec<Strip>, top: u16) -> (r: bool)
    ensures
        r == covered(lines(want@), top),
{
    let mut i: usize = 0;
    while i < want.len()
        invariant
            i <= want@.len(),
            forall|j: int| 0 <= j < i ==> (#[trigger] lines(want@)[j]).over.top != top,
        decreases want@.len() - i,
    {
        assert(lines(want@)[i as int] == want@[i as int]@);
        if want[i].over.top == top {
            return true;
        }
        i += 1;
    }
    false
}

/// The rows that are up and that nothing wanted in their place covers.
fn uncovered(shown: Vec<Strip>, want: &Vec<Strip>) -> (r: Vec<Strip>)
    ensures
        lines(r@) == lines(shown@).filter(|s: Line| !covered(lines(want@), s.over.top)),
{
    let ghost keep = |s: Line| !covered(lines(want@), s.over.top);
    let ghost all = lines(shown@);
    let mut out: Vec<Strip> = Vec::new();
    let mut i: usize = 0;
    proof {
        reveal(Seq::filter);
        assert(all.take(0).filter(keep) =~= Seq::<Line>::empty());
        assert(lines(out@) =~= Seq::<Line>::empty());
    }
    while i < shown.len()
        invariant
            i <= shown@.len(),
            all == lines(shown@),
            keep == (|s: Line| !covered(lines(want@), s.over.top)),
            lines(out@) == all.take(i as int).filter(keep),
        decreases shown@.len() - i,
    {
        let ghost before = out@;
        let ghost line = shown@[i as int]@;
        proof {
            reveal(Seq::filter);
            assert(all.take(i + 1).drop_last() =~= all.take(i as int));
            assert(all.take(i + 1).last() == line);
        }
        if !covers(want, shown[i].over.top) {
            let strip: Strip = Strip { over: copy_over(&shown[i].over), dim: shown[i].dim };
            out.push(strip);
            assert(lines(out@) =~= lines(before).push(line));
        }
        assert(lines(out@) =~= all.take(i + 1).filter(keep));
        i += 1;
    }
    assert(all.take(i as int) =~= all);
    out
}

impl Hints {
    /// When there is next something to do, if there is: what is owed waits for a lull, and a
    /// frame for its time as well.
    pub open spec fn due(self, now: Instant) -> Option<Instant> {
        let lull = later(
            match self.quiet_since {
                Some(quiet) => quiet,
                None => now,
            },
            SETTLE,
        );
        let owed = match self.screen {
            Shown::Veiled(v) => if v.glide is Some {
                Some(v.next_frame)
            } else if !self.agreed || !v.painted {
                Some(now)
            } else {
                None
            },
            _ => if !self.agreed {
                Some(now)
            } else {
                None
            },
        };
        match owed {
            Some(at) => Some(
                if at > lull {
                    at
                } else {
                    lull
                },
            ),
            None => None,
        }
    }
}

/// The prefix's rows, and the veil under them, over the life of one relay. Told the time
/// rather than reading a clock.
#[derive(Debug)]
pub struct Bar {
    quiet_since: Option<Instant>,
    size: PtySize,
    listing: Listing,
    dissolve: Option<Dissolve>,
    want: Vec<Strip>,
    screen: Screen,
    agreed: bool,
}

impl View for Bar {
    type V = Hints;

    closed spec fn view(&self) -> Hints {
        Hints {
            quiet_since: self.quiet_since,
            size: self.size,
            listing: self.listing@,
            dissolve: self.dissolve,
            want: lines(self.want@),
            screen: self.screen@,
            agreed: self.agreed,
        }
    }
}

impl Bar {
    /// A bar with nothing on screen, on a session presumed quiet.
    pub fn new(
        now: Instant,
        size: PtySize,
        listing: Listing,
        dissolve: Option<Dissolve>,
    ) -> (r: Self)
        ensures
            r@ == (Hints {
                quiet_since: Some(now),
                size,
                listing: listing@,
                dissolve,
                want: Seq::empty(),
                screen: Shown::Clear,
                agreed: true,
            }),
    {
        let want: Vec<Strip> = Vec::new();
        assert(lines(want@) =~= Seq::<Line>::empty());
        Bar {
            quiet_since: Some(now),
            size,
            listing,
            dissolve,
            want,
            screen: Screen::Clear,
            agreed: true,
        }
    }

    /// When the caller must next wake up on the bar's account, or `None` when it owes
    /// nothing: a bar that cannot do what it wants has agreed with itself and stops asking.
    pub fn wake_at(&self, now: Instant) -> (r: Option<Instant>)
        ensures
            r == self@.due(now),
    {
        let quiet: Instant = match self.quiet_since {
            Some(quiet) => quiet,
            None => now,
        };
        let lull: Instant = after(quiet, SETTLE);
        let owed: Option<Instant> = match &self.screen {
            Screen::Veiled(v) => if v.glide.is_some() {
                Some(v.next_frame)
            } else if !self.agreed || !v.painted {
                Some(now)
            } else {
                None
            },
            _ => if !self.agreed {
                Some(now)
            } else {
                None
            },
        };
        match owed {
            Some(at) => if at > lull {
                Some(at)
            } else {
                Some(lull)
            },
            None => None,
        }
    }

    /// Something that is not the session has written over the screen, so the rows may no
    /// longer be on it.
    pub fn overdrawn(&mut self)
        ensures
            final(self)@ == match old(self)@.screen {
                Shown::Clear => old(self)@,
                Shown::Rows(_) => Hints { agreed: false, ..old(self)@ },
                Shown::Veiled(v) => Hints {
                    screen: Shown::Veiled(Dimmed { painted: false, ..v }),
                    ..old(self)@
                },
            },
    {
        let mut screen: Screen = Screen::Clear;
        core::mem::swap(&mut screen, &mut self.screen);
        match screen {
            Screen::Clear => {},
            Screen::Rows(strips) => {
                self.agreed = false;
                self.screen = Screen::Rows(strips);
            },
            Screen::Veiled(v) => {
                let mut v: Veiling = v;
                v.painted = false;
                self.screen = Screen::Veiled(v);
            },
        }
    }

    /// The sessions the top row names.
    pub fn listing(&self) -> (r: &Listing)
        ensures
            r@ == self@.listing,
    {
        &self.listing
    }

    /// Whether the veil is on the terminal.
    pub fn veiled(&self) -> (r: bool)
        ensures
            r == (self@.screen is Veiled),
    {
        match &self.screen {
            Screen::Veiled(_) => true,
            _ => false,
        }
    }

    /// Where the veil stands, for a fade out to carry on from, or `None` when there is none
    /// on the terminal.
    pub fn on_screen(&self) -> (r: Option<Veiled>)
        ensures
            match r {
                Some(veiled) => self@.screen matches Shown::Veiled(v) && lines(veiled.strips@)
                    == v.strips && veiled.veil == v.at,
                None => !(self@.screen is Veiled),
            },
    {
        match &self.screen {
            Screen::Veiled(v) => Some(Veiled { strips: copy_strips(&v.strips), veil: v.at }),
            _ => None,
        }
    }

    /// One pass of the relay loop.
    ///
    /// `busy` is whether the session had anything for the terminal this time round: this is
    /// no moment to write then, and anything already on the screen may have been drawn over.
    /// `under` is whether there is a picture of the session's screen to paint from.
    pub fn step(
        &mut self,
        now: Instant,
        busy: bool,
        size: PtySize,
        pending: Option<Pending>,
        under: bool,
    ) -> (r: Act)
        ensures
            final(self)@ == old(self)@.stepped(now, busy, size, pending, under).0,
            r@ == old(self)@.stepped(now, busy, size, pending, under).1,
    {
        let ghost first = self@;
        if self.size != size {
            self.resized(size);
        }
        // Before the lull, not after it: the bar has to know a write is owed in order to ask
        // to be woken to make it.
        let veiling: bool = under && self.dissolve.is_some();
        let want: Vec<Strip> = match pending {
            Some(p) => strips(p, &self.listing, size, veiling),
            None => Vec::new(),
        };
        assert(pending is None ==> lines(want@) =~= Seq::<Line>::empty());
        if !same_strips(&want, &self.want) {
            self.want = want;
            self.agreed = false;
        }
        if busy {
            self.quiet_since = None;
            self.drawn_over_by_the_session();
        } else if self.quiet_since.is_none() {
            self.quiet_since = Some(now);
        }
        assert(self@ =~= first.looked(now, busy, size, pending, under));
        let settled: bool = match self.quiet_since {
            Some(quiet) => elapsed(now, quiet) >= SETTLE,
            None => false,
        };
        if !settled {
            return Act::Idle;
        }
        self.lull(now, under)
    }

    /// What is done at a lull.
    fn lull(&mut self, now: Instant, under: bool) -> (r: Act)
        ensures
            final(self)@ == old(self)@.at_a_lull(now, under).0,
            r@ == old(self)@.at_a_lull(now, under).1,
    {
        let ghost first = self@;
        let mut screen: Screen = Screen::Clear;
        core::mem::swap(&mut screen, &mut self.screen);
        let act: Act = match screen {
            Screen::Veiled(v) => match self.dissolve {
                Some(d) if under => self.veil(now, v, d),
                _ => {
                    // Nothing here can paint the screen back: the rows are blanked, and the
                    // server's repaint takes the rest of the veil off.
                    self.agreed = self.want.len() == 0;
                    return Act::HandBack(blanked(&v.strips));
                },
            },
            Screen::Rows(shown) => self.plain(shown),
            Screen::Clear => match self.dissolve {
                Some(d) if under && self.want.len() > 0 => {
                    let rise: Veiling = Veiling {
                        strips: copy_strips(&self.want),
                        at: Veil { session: 0, rows: 0, under: ALL },
                        glide: Some(
                            Glide::start(
                                Veil { session: 0, rows: 0, under: ALL },
                                Veil { session: 8_388_608, rows: 0, under: ALL },
                                d.duration,
                                now,
                            ),
                        ),
                        next_frame: now,
                        painted: false,
                        drawn_over: false,
                        lifting: false,
                    };
                    assert(rise@ =~= first.rising(now, d));
                    self.veil(now, rise, d)
                },
                _ => {
                    let none: Vec<Strip> = Vec::new();
                    assert(lines(none@) =~= Seq::<Line>::empty());
                    self.plain(none)
                },
            },
        };
        // The bar has now had its say about this state on this screen, including deciding
        // that it can say nothing.
        self.agreed = true;
        act
    }

    /// The rows with no veil: written at a lull, once, and blanked when they come down.
    fn plain(&mut self, shown: Vec<Strip>) -> (r: Act)
        ensures
            final(self)@ == old(self)@.plain(lines(shown@)).0,
            r@ == old(self)@.plain(lines(shown@)).1,
    {
        if self.agreed {
            self.screen = if shown.len() == 0 {
                Screen::Clear
            } else {
                Screen::Rows(shown)
            };
            return Act::Idle;
        }
        if self.want.len() == 0 {
            self.screen = Screen::Clear;
            return if shown.len() == 0 {
                Act::Idle
            } else {
                Act::HandBack(blanked(&shown))
            };
        }
        // A row that was up and is wanted no more, with nothing wanted in its place to cover
        // it, has to be blanked on the way, which only the server can then put right.
        let stale: Vec<Strip> = uncovered(shown, &self.want);
        let fresh: Vec<u8> = placed(&self.want);
        self.screen = Screen::Rows(copy_strips(&self.want));
        if stale.len() == 0 {
            Act::Write(fresh)
        } else {
            let mut bytes: Vec<u8> = blanked(&stale);
            crate::bytes::extend(&mut bytes, &fresh);
            Act::HandBack(bytes)
        }
    }

    /// A pass with a veil to paint, or one already painted.
    fn veil(&mut self, now: Instant, v: Veiling, d: Dissolve) -> (r: Act)
        ensures
            final(self)@ == old(self)@.veil(now, v@, d).0,
            r@ == old(self)@.veil(now, v@, d).1,
    {
        let ghost first = self@;
        let ghost given = v@;
        let mut v: Veiling = v;
        if self.want.len() == 0 {
            // The prefix has resolved, and the screen goes back to the session.
            if v.drawn_over {
                self.screen = Screen::Clear;
                return Act::Restore;
            }
            if !v.lifting {
                v.lifting = true;
                v.glide = Some(
                    Glide::start(
                        v.at,
                        Veil { session: 0, rows: ALL, under: 0 },
                        doubled(d.duration),
                        now,
                    ),
                );
                v.next_frame = now;
            }
        } else {
            if v.lifting {
                // The prefix again before the veil was down: back up from where it stands,
                // and the rows up at once.
                let from: Veil = Veil { session: v.at.session, rows: 0, under: ALL };
                v.lifting = false;
                v.at = from;
                v.glide = Some(
                    Glide::start(
                        from,
                        Veil { session: 8_388_608, rows: 0, under: ALL },
                        d.duration,
                        now,
                    ),
                );
                v.next_frame = now;
                v.painted = false;
            }
            if !same_strips(&v.strips, &self.want) {
                v.strips = copy_strips(&self.want);
                v.painted = false;
            }
        }
        assert(v@ =~= first.headed(now, given, d));
        let ghost headed = v@;
        let mut ended: bool = false;
        if let Some(g) = v.glide {
            if now >= v.next_frame {
                let mut glide: Glide = g;
                if let Some(at) = glide.next(now) {
                    if at != v.at {
                        v.at = at;
                        v.painted = false;
                    }
                    v.next_frame = after(now, FRAME);
                }
                if glide.finished() {
                    v.glide = None;
                    ended = true;
                } else {
                    v.glide = Some(glide);
                }
            }
        }
        assert(v@ =~= Hints::glided(headed, now).0);
        assert(ended == Hints::glided(headed, now).1);
        if ended && v.lifting {
            self.screen = Screen::Clear;
            return Act::Restore;
        }
        if v.painted {
            self.screen = Screen::Veiled(v);
            return Act::Idle;
        }
        let frame: Veiled = Veiled { strips: copy_strips(&v.strips), veil: v.at };
        v.painted = true;
        v.drawn_over = false;
        self.screen = Screen::Veiled(v);
        Act::Dim(frame)
    }

    /// The session has written to the terminal, so whatever is on it may have been drawn
    /// over, if the bar had anything there to be covered.
    fn drawn_over_by_the_session(&mut self)
        ensures
            final(self)@ == match old(self)@.screen {
                Shown::Clear => old(self)@,
                Shown::Rows(_) => Hints { agreed: false, ..old(self)@ },
                Shown::Veiled(v) => Hints {
                    screen: Shown::Veiled(Dimmed { painted: false, drawn_over: true, ..v }),
                    ..old(self)@
                },
            },
    {
        let mut screen: Screen = Screen::Clear;
        core::mem::swap(&mut screen, &mut self.screen);
        match screen {
            Screen::Clear => {},
            Screen::Rows(strips) => {
                self.agreed = false;
                self.screen = Screen::Rows(strips);
            },
            Screen::Veiled(v) => {
                let mut v: Veiling = v;
                v.painted = false;
                v.drawn_over = true;
                self.screen = Screen::Veiled(v);
            },
        }
    }

    /// The terminal changed size, and a resize is its own erase.
    fn resized(&mut self, size: PtySize)
        ensures
            final(self)@ == old(self)@.resized(size),
    {
        let mut screen: Screen = Screen::Clear;
        core::mem::swap(&mut screen, &mut self.screen);
        if let Screen::Veiled(v) = screen {
            if !v.lifting {
                let mut v: Veiling = v;
                v.painted = false;
                v.drawn_over = true;
                self.screen = Screen::Veiled(v);
            }
        }
        self.size = size;
        self.agreed = false;
    }
}

/// Nothing is written but at a lull.
pub proof fn law_nothing_is_written_without_a_lull(
    h: Hints,
    now: Instant,
    busy: bool,
    size: PtySize,
    pending: Option<Pending>,
    under: bool,
)
    requires
        busy || !h.looked(now, busy, size, pending, under).settled(now),
    ensures
        h.stepped(now, busy, size, pending, under).1 == Deed::Idle,
{
}

/// A bar that is down and wants nothing stays down and asks for nothing, whatever the
/// session says.
pub proof fn law_a_bar_that_is_down_stays_down(
    h: Hints,
    now: Instant,
    busy: bool,
    under: bool,
)
    requires
        h.screen is Clear,
        h.want == Seq::<Line>::empty(),
        h.agreed,
    ensures
        ({
            let (next, deed) = h.stepped(now, busy, h.size, None, under);
            &&& deed == Deed::Idle
            &&& next.screen is Clear
            &&& next.want == Seq::<Line>::empty()
            &&& next.size == h.size
            &&& next.agreed
        }),
{
}

/// Rows up with no veil are blanked exactly once when the prefix resolves: the pass that
/// hands the screen back leaves nothing on it, and the next does nothing.
pub proof fn law_plain_rows_are_handed_back_once(
    h: Hints,
    shown: Seq<Line>,
    now: Instant,
    later_on: Instant,
)
    requires
        h.screen == Shown::Rows(shown),
        shown.len() > 0,
        h.want.len() > 0,
        h.settled(now),
        h.settled(later_on),
    ensures
        ({
            let (next, deed) = h.stepped(now, false, h.size, None, false);
            &&& deed == Deed::HandBack(blanked_bytes(shown))
            &&& next.screen is Clear
            &&& next.stepped(later_on, false, h.size, None, false).1 == Deed::Idle
        }),
{
    let (next, deed) = h.stepped(now, false, h.size, None, false);
    assert(next.want =~= Seq::<Line>::empty());
}

/// A veil the session has drawn over is handed back at once when the prefix resolves, and
/// leaves nothing on the terminal.
pub proof fn law_a_veil_drawn_over_is_handed_back_at_once(
    h: Hints,
    v: Dimmed,
    now: Instant,
    d: Dissolve,
)
    requires
        h.screen == Shown::Veiled(v),
        v.drawn_over,
        h.dissolve == Some(d),
        h.settled(now),
    ensures
        ({
            let (next, deed) = h.stepped(now, false, h.size, None, true);
            &&& deed == Deed::Restore
            &&& next.screen is Clear
        }),
{
}

/// A veil takes half of a dissolve's time to rise, the first time and from a lift that the
/// prefix cut short, and the whole of it to lift.
pub proof fn law_a_veil_lifts_over_a_whole_dissolve(
    h: Hints,
    v: Dimmed,
    now: Instant,
    d: Dissolve,
    duration_ms: u64,
)
    requires
        duration_ms * MILLI <= u64::MAX,
        d.duration == duration_ms * MILLI / 2,
    ensures
        h.rising(now, d).glide matches Some(g) && g.from == unveiled() && g.to == at_rest() && 2
            * g.schedule.duration == duration_ms * MILLI,
        h.want.len() == 0 && !v.lifting ==> (h.headed(now, v, d).glide matches Some(g) && g.from
            == v.at && g.to == lifted() && g.schedule.duration == duration_ms * MILLI),
        h.want.len() > 0 && v.lifting ==> (h.headed(now, v, d).glide matches Some(g)
            && g.from.session == v.at.session && g.to == at_rest() && 2 * g.schedule.duration
            == duration_ms * MILLI),
{
}

/// A half-typed number can still reach a session exactly when it is that session's number, or
/// can reach what is left of it without its last digit.
pub proof fn law_a_number_reaches_what_it_begins(n: u32, m: u32)
    requires
        n > 0,
    ensures
        could_reach(Pending::Command, m),
        could_reach(Pending::Number(n), m) <==> m == n || (m >= 10 && could_reach(
            Pending::Number(n),
            (m / 10) as u32,
        )),
{
    let p = decimal(n as nat);
    let s = decimal(m as nat);
    lemma_decimal_reads_back(n as nat);
    lemma_decimal_reads_back(m as nat);
    lemma_decimal_reads_back((m / 10) as nat);
    assert(p.take(p.len() as int) =~= p);
    if starts(s, p) && p.len() == s.len() {
        assert(s.take(p.len() as int) =~= s);
    }
    if m >= 10 {
        let t = decimal((m / 10) as nat);
        assert(s.drop_last() =~= t);
        if p.len() <= t.len() {
            assert(s.take(p.len() as int) =~= t.take(p.len() as int));
        }
    } else {
        assert(s.len() == 1);
    }
}

/// A number being typed is shown as it stands, behind `#`, wherever it fits.
pub proof fn law_a_number_is_shown_as_it_is_typed(n: u32, cols: nat)
    ensures
        ({
            let row = seq!['#'] + decimal(n as nat);
            key_row(Pending::Number(n), cols) == if display_width(row) <= cols {
                Some(row)
            } else {
                None
            }
        }),
{
    reveal_strlit("#");
    assert("#"@ =~= seq!['#']);
    assert((seq!['#'] + decimal(n as nat)).len() > 0);
}

/// The key row offers every command of the table, each by its key and its one word.
pub proof fn law_the_key_row_offers_every_command()
    ensures
        key_entries().len() == 6,
        key_entries()[0] == "␣"@ + seq![' '] + "picker"@,
        key_entries()[1] == seq!['d', ' '] + "detach"@,
        key_entries()[2] == seq!['c', ' '] + "new"@,
        key_entries()[3] == seq!['n', ' '] + "next"@,
        key_entries()[4] == seq!['p', ' '] + "prev"@,
        key_entries()[5] == seq!['?', ' '] + "help"@,
{
    reveal_strlit(" ");
    assert(" "@ =~= seq![' ']);
    assert(key_entries()[1] =~= seq!['d', ' '] + "detach"@);
    assert(key_entries()[2] =~= seq!['c', ' '] + "new"@);
    assert(key_entries()[3] =~= seq!['n', ' '] + "next"@);
    assert(key_entries()[4] =~= seq!['p', ' '] + "prev"@);
    assert(key_entries()[5] =~= seq!['?', ' '] + "help"@);
}

/// A row holds the first of its entries, whole, with a gap between each two, and stops in front
/// of the first that does not fit.
pub proof fn law_a_row_holds_the_first_entries_that_fit(entries: Seq<Seq<char>>, cols: nat) -> (k:
    int)
    requires
        forall|i: int| 0 <= i < entries.len() ==> (#[trigger] entries[i]).len() > 0,
    ensures
        0 <= k <= entries.len(),
        filled(Seq::empty(), entries, cols) == gapped(entries.take(k)),
        k < entries.len() ==> display_width(gapped(entries.take(k))) + (if k == 0 {
            0
        } else {
            display_width("  "@)
        }) + display_width(entries[k]) > cols,
{
    assert(entries.take(0) =~= Seq::<Seq<char>>::empty());
    assert(entries.skip(0) =~= entries);
    lemma_filled(entries, cols, 0)
}

proof fn lemma_filled(entries: Seq<Seq<char>>, cols: nat, at: int) -> (k: int)
    requires
        0 <= at <= entries.len(),
        forall|i: int| 0 <= i < entries.len() ==> (#[trigger] entries[i]).len() > 0,
    ensures
        at <= k <= entries.len(),
        filled(gapped(entries.take(at)), entries.skip(at), cols) == gapped(entries.take(k)),
        k < entries.len() ==> display_width(gapped(entries.take(k))) + (if k == 0 {
            0
        } else {
            display_width("  "@)
        }) + display_width(entries[k]) > cols,
    decreases entries.len() - at,
{
    let row = gapped(entries.take(at));
    let rest = entries.skip(at);
    lemma_gapped_is_something(entries, at);
    if at == entries.len() {
        assert(rest.len() == 0);
        at
    } else {
        assert(rest[0] == entries[at]);
        let gap = if row.len() == 0 {
            0
        } else {
            display_width(GAP@)
        };
        if display_width(row) + gap + display_width(entries[at]) > cols {
            at
        } else {
            let longer = entries.take(at + 1);
            assert(longer.drop_last() =~= entries.take(at));
            assert(longer.last() == entries[at]);
            assert(extended(row, entries[at]) == gapped(longer)) by {
                if at == 0 {
                    assert(longer[0] == entries[at]);
                }
            }
            assert(rest.skip(1) =~= entries.skip(at + 1));
            lemma_filled(entries, cols, at + 1)
        }
    }
}

proof fn lemma_gapped_is_something(entries: Seq<Seq<char>>, at: int)
    requires
        0 <= at <= entries.len(),
        forall|i: int| 0 <= i < entries.len() ==> (#[trigger] entries[i]).len() > 0,
    ensures
        gapped(entries.take(at)).len() == 0 <==> at == 0,
{
    if at > 0 {
        let s = entries.take(at);
        assert(s[0] == entries[0]);
        assert(s.last() == entries[at - 1]);
        if at > 1 {
            assert(gapped(s).len() >= s.last().len());
        }
    }
}

/// The session in front is marked and no other is; and a session is shown by its number and,
/// where it has one, its name.
pub proof fn law_the_session_in_front_is_marked(num: u32, label: Seq<char>)
    requires
        display_width(label) <= 20,
    ensures
        session_entry(num, label, true) == seq!['▸'] + session_entry(num, label, false),
        label.len() > 0 ==> session_entry(num, label, false) == decimal(num as nat) + seq![' ']
            + label,
        label.len() == 0 ==> session_entry(num, label, false) == decimal(num as nat),
{
    reveal_strlit("▸");
    reveal_strlit("");
    reveal_strlit(" ");
    assert("▸"@ =~= seq!['▸']);
    assert(" "@ =~= seq![' ']);
    assert(session_entry(num, label, true) =~= seq!['▸'] + session_entry(num, label, false));
    if label.len() > 0 {
        assert(session_entry(num, label, false) =~= decimal(num as nat) + seq![' '] + label);
    } else {
        assert(session_entry(num, label, false) =~= decimal(num as nat));
    }
}

/// A name that is too wide for its place is cut, and what is left is its beginning and a mark
/// that says so; one that is not is shown whole.
pub proof fn law_a_wide_name_is_cut_and_says_so(label: Seq<char>)
    ensures
        display_width(label) <= 20 ==> cut_label(label) == label,
        display_width(label) > 20 ==> cut_label(label).len() > 0 && cut_label(label).last() == '…'
            && starts(label, cut_label(label).drop_last()),
{
    reveal_strlit("…");
    if display_width(label) > 20 {
        let room = if display_width(CUT@) <= LABEL_WIDTH {
            (LABEL_WIDTH - display_width(CUT@)) as nat
        } else {
            0
        };
        let front = truncated(label, room);
        law_truncation_keeps_as_much_as_fits(label, room, 0);
        assert(cut_label(label).drop_last() =~= front);
    }
}

/// Sessions that all fit are all shown; otherwise as many as fit, at least one, are shown with a
/// count of exactly the rest, and one more would not have fitted.
pub proof fn law_what_does_not_fit_is_counted(entries: Seq<Seq<char>>, cols: nat)
    ensures
        display_width(gapped(entries)) <= cols && gapped(entries).len() > 0 ==> fitted(
            entries,
            cols,
        ) == Some(gapped(entries)),
        display_width(gapped(entries)) > cols ==> match fitted(entries, cols) {
            Some(row) => exists|kept: int|
                1 <= kept < entries.len() && row == #[trigger] counted(entries, kept)
                    && display_width(row) <= cols && forall|more: int|
                    kept < more < entries.len() ==> display_width(
                        #[trigger] counted(entries, more),
                    ) > cols,
            None => forall|kept: int|
                1 <= kept < entries.len() ==> display_width(#[trigger] counted(entries, kept))
                    > cols,
        },
{
    lemma_most_counted(entries, cols, entries.len() - 1);
}

proof fn lemma_most_counted(entries: Seq<Seq<char>>, cols: nat, to: int)
    requires
        to < entries.len(),
    ensures
        match most_counted(entries, cols, to) {
            Some(row) => exists|kept: int|
                1 <= kept <= to && row == #[trigger] counted(entries, kept) && display_width(row)
                    <= cols && forall|more: int|
                    kept < more <= to ==> display_width(#[trigger] counted(entries, more)) > cols,
            None => forall|kept: int|
                1 <= kept <= to ==> display_width(#[trigger] counted(entries, kept)) > cols,
        },
    decreases to,
{
    if to >= 1 {
        if display_width(counted(entries, to)) > cols {
            lemma_most_counted(entries, cols, to - 1);
        }
    }
}

/// The count of what is left out says how many there are: with what is shown it makes all.
pub proof fn law_the_count_is_of_the_rest(entries: Seq<Seq<char>>, kept: int)
    requires
        0 <= kept <= entries.len(),
    ensures
        counted(entries, kept) == gapped(entries.take(kept)) + seq![' ', ' ', '+'] + decimal(
            (entries.len() - kept) as nat,
        ) + seq![' ', 'm', 'o', 'r', 'e'],
{
    reveal_strlit("  ");
    reveal_strlit("+");
    reveal_strlit(" more");
    assert(counted(entries, kept) =~= gapped(entries.take(kept)) + seq![' ', ' ', '+'] + decimal(
        (entries.len() - kept) as nat,
    ) + seq![' ', 'm', 'o', 'r', 'e']);
}

/// One session is nowhere to go, so there is no row of sessions for fewer than two; and the row
/// names exactly the sessions that can still be reached, in number order.
pub proof fn law_the_sessions_row_names_where_to_go(pending: Pending, listing: Listed, cols: nat)
    ensures
        listing.entries.len() < 2 ==> session_row(pending, listing, cols) is None,
        listing.entries.len() >= 2 ==> session_row(pending, listing, cols) == fitted(
            listing.entries.filter(|e: Entry| could_reach(pending, e.num)).map_values(
                |e: Entry| session_entry(e.num, e.label, listing.current == Some(e.num)),
            ),
            cols,
        ),
{
}

/// A row's text is in the middle of it: as much space on one side as on the other, to within a
/// cell, and the whole width of the screen in all.
pub proof fn law_a_row_is_in_the_middle(top: u16, text: Seq<char>, cols: u16)
    requires
        display_width(text) <= cols,
    ensures
        ({
            let p = in_the_middle(top, text, cols);
            let free = (cols - display_width(text)) as nat;
            &&& p.top == top && p.left == 0 && p.width == cols && p.rows.len() == 1
            &&& p.rows[0].len() == free + text.len()
            &&& p.rows[0] == repeated(seq![' '], free / 2) + text + repeated(
                seq![' '],
                (free - free / 2) as nat,
            )
        }),
{
    reveal_strlit(" ");
    assert(" "@ =~= seq![' ']);
    let free = (cols - display_width(text)) as nat;
    law_a_repeated_text_is_its_copies(seq![' '], free / 2);
    law_a_repeated_text_is_its_copies(seq![' '], (free - free / 2) as nat);
    assert(in_the_middle(top, text, cols).rows[0] =~= repeated(seq![' '], free / 2) + text
        + repeated(seq![' '], (free - free / 2) as nat));
}

/// The keys are along the bottom wherever the screen has two rows and there is room for them,
/// and the sessions along the top as well where it has three and there is something to say; the
/// rows are dim only over a live screen.
pub proof fn law_the_keys_go_below_and_the_sessions_above(
    pending: Pending,
    listing: Listed,
    size: PtySize,
    veiled: bool,
)
    ensures
        ({
            let all = prefix_rows(pending, listing, size, veiled);
            let keys = key_row(pending, size.cols as nat);
            let sessions = session_row(pending, listing, size.cols as nat);
            if size.rows < 2 || size.cols == 0 || keys is None {
                all == Seq::<Line>::empty()
            } else {
                &&& all.last() == (Line {
                    over: in_the_middle((size.rows - 1) as u16, keys->0, size.cols),
                    dim: !veiled,
                })
                &&& all.len() == 2 <==> size.rows >= 3 && sessions is Some
                &&& all.len() == 1 <==> !(size.rows >= 3 && sessions is Some)
                &&& all.len() == 2 ==> all[0] == (Line {
                    over: in_the_middle(0, sessions->0, size.cols),
                    dim: !veiled,
                })
            }
        }),
{
}

/// Blanking a row puts spaces in the cells it took, and nothing else, where it stood.
pub proof fn law_a_blank_row_is_spaces(over: Placed, i: int, j: int)
    requires
        0 <= i < over.rows.len(),
    ensures
        blank(over).top == over.top && blank(over).left == over.left && blank(over).width
            == over.width && blank(over).rows.len() == over.rows.len(),
        blank(over).rows[i].len() == display_width(over.rows[i]),
        0 <= j < blank(over).rows[i].len() ==> blank(over).rows[i][j] == ' ',
{
    reveal_strlit(" ");
    assert(" "@ =~= seq![' ']);
    lemma_spaces(display_width(over.rows[i]), j);
}

proof fn lemma_spaces(n: nat, j: int)
    ensures
        repeated(seq![' '], n).len() == n,
        0 <= j < n ==> repeated(seq![' '], n)[j] == ' ',
    decreases n,
{
    if n > 0 {
        lemma_spaces((n - 1) as nat, j);
    }
}

/// The veil's three places: it rises from the session as it is, to the session half dissolved
/// with the rows whole and nothing of the session under them; and it lifts to the session back,
/// under the rows as well, and the rows gone.
pub proof fn law_where_the_veil_stands()
    ensures
        unveiled().session == 0 && unveiled().rows == 0 && unveiled().under == ALL,
        2 * at_rest().session == ALL && at_rest().rows == 0 && at_rest().under == ALL,
        lifted().session == 0 && lifted().rows == ALL && lifted().under == 0,
{
}

/// With no veil the rows go up at a lull, once: they are written over the session as it is, and
/// the next pass does nothing.
pub proof fn law_plain_rows_go_up_once(
    h: Hints,
    now: Instant,
    later_on: Instant,
    pending: Pending,
    under: bool,
)
    requires
        h.screen is Clear,
        h.want == Seq::<Line>::empty(),
        h.settled(now),
        h.settled(later_on),
        !under || h.dissolve is None,
        prefix_rows(pending, h.listing, h.size, false).len() > 0,
    ensures
        ({
            let rows = prefix_rows(pending, h.listing, h.size, false);
            let (next, deed) = h.stepped(now, false, h.size, Some(pending), under);
            &&& deed == Deed::Write(placed_bytes(rows))
            &&& next.screen == Shown::Rows(rows)
            &&& next.stepped(later_on, false, h.size, Some(pending), under).1 == Deed::Idle
        }),
{
    let rows = prefix_rows(pending, h.listing, h.size, false);
    let looked = h.looked(now, false, h.size, Some(pending), under);
    assert(looked.stale(Seq::empty()) =~= Seq::<Line>::empty()) by {
        reveal(Seq::filter);
    }
}

/// With colours and a picture of the screen the session is dimmed behind the rows from the first
/// frame on: the pass at the lull paints the rows over it.
pub proof fn law_a_veil_rises_with_the_rows(h: Hints, now: Instant, d: Dissolve, pending: Pending)
    requires
        h.screen is Clear,
        h.settled(now),
        h.dissolve == Some(d),
        prefix_rows(pending, h.listing, h.size, true).len() > 0,
    ensures
        ({
            let rows = prefix_rows(pending, h.listing, h.size, true);
            let (next, deed) = h.stepped(now, false, h.size, Some(pending), true);
            &&& deed matches Deed::Dim(shown, veil) && shown == rows && veil.rows == 0 && veil.under
                == ALL
            &&& next.screen matches Shown::Veiled(v) && v.strips == rows && v.painted && !v.lifting
        }),
{
    let looked = h.looked(now, false, h.size, Some(pending), true);
    let g = started(unveiled(), at_rest(), d.duration, now);
    law_a_glide_stays_between_its_ends(g, now);
}

/// A row of hints has nothing owed exactly when it stands as it should and nothing is moving;
/// and whatever is owed waits for a lull, and for the next frame where something moves.
pub proof fn law_nothing_is_asked_for_without_need(h: Hints, now: Instant)
    ensures
        !(h.screen is Veiled) ==> (h.due(now) is None <==> h.agreed),
        h.screen matches Shown::Veiled(v) ==> (h.due(now) is None <==> h.agreed && v.painted
            && v.glide is None),
        h.due(now) matches Some(at) ==> at >= later(
            match h.quiet_since {
                Some(quiet) => quiet,
                None => now,
            },
            25_000_000,
        ),
        h.screen matches Shown::Veiled(v) && v.glide is Some ==> (h.due(now) matches Some(at) && at
            >= h.screen->Veiled_0.next_frame),
{
}

/// The number of the session in front is that of the first in the listing with its id.
pub proof fn law_the_session_in_front_is_found_by_its_id(sessions: Seq<Row>, id: Seq<char>)
    ensures
        match number_of(sessions, id, 0) {
            Some(num) => exists|i: int|
                0 <= i < sessions.len() && (#[trigger] sessions[i]).id == id && sessions[i].num
                    == num && forall|j: int| 0 <= j < i ==> (#[trigger] sessions[j]).id != id,
            None => forall|i: int| 0 <= i < sessions.len() ==> (#[trigger] sessions[i]).id != id,
        },
{
    lemma_number_of(sessions, id, 0);
}

proof fn lemma_number_of(sessions: Seq<Row>, id: Seq<char>, from: int)
    requires
        0 <= from <= sessions.len(),
    ensures
        match number_of(sessions, id, from) {
            Some(num) => exists|i: int|
                from <= i < sessions.len() && (#[trigger] sessions[i]).id == id && sessions[i].num
                    == num && forall|j: int| from <= j < i ==> (#[trigger] sessions[j]).id != id,
            None => forall|i: int|
                from <= i < sessions.len() ==> (#[trigger] sessions[i]).id != id,
        },
    decreases sessions.len() - from,
{
    if from < sessions.len() {
        if sessions[from].id == id {
            assert(sessions[from].num == number_of(sessions, id, from)->0);
        } else {
            lemma_number_of(sessions, id, from + 1);
            if let Some(num) = number_of(sessions, id, from) {
                let i = choose|i: int|
                    from + 1 <= i < sessions.len() && (#[trigger] sessions[i]).id == id
                        && sessions[i].num == num && forall|j: int|
                        from + 1 <= j < i ==> (#[trigger] sessions[j]).id != id;
                assert(sessions[i].id == id);
            }
        }
    }
}

/// Names in a listing are made safe for a raw terminal and are otherwise as they were, each with
/// its own number.
pub proof fn law_a_listing_is_made_safe(sessions: Seq<Row>, i: int)
    requires
        0 <= i < sessions.len(),
    ensures
        made_safe(listed(sessions)).len() == sessions.len(),
        made_safe(listed(sessions))[i] == (Entry {
            num: sessions[i].num,
            label: shown(sessions[i].name),
        }),
{
}

/// A resize is its own erase: nothing plain is left to blank, a veil on its way down is down, and
/// one that is up is put up again, whole, as soon as it can be.
pub proof fn law_a_resize_is_its_own_erase(h: Hints, size: PtySize)
    ensures
        h.resized(size).size == size,
        !h.resized(size).agreed,
        !(h.screen is Veiled) ==> h.resized(size).screen is Clear,
        h.screen matches Shown::Veiled(v) && v.lifting ==> h.resized(size).screen is Clear,
        h.screen matches Shown::Veiled(v) && !v.lifting ==> (h.resized(
            size,
        ).screen matches Shown::Veiled(after) && !after.painted && after.at
            == h.screen->Veiled_0.at && after.strips == h.screen->Veiled_0.strips && !after.lifting),
{
}

/// Rows are written each where it stands and under its own rendition, dim or not, one behind the
/// other in one update.
pub proof fn law_each_row_is_written_under_its_own_rendition(a: Line, b: Line)
    ensures
        ({
            let sgr = |l: Line|
                if l.dim {
                    seq!['\x1b', '[', '0', ';', '2', 'm']
                } else {
                    seq!['\x1b', '[', '0', 'm']
                };
            &&& placed_bytes(seq![a]) == utf8(
                over_screen(placed_rows(a.over, sgr(a), a.over.rows.len() as int)),
            )
            &&& placed_bytes(seq![a, b]) == utf8(
                over_screen(
                    placed_rows(a.over, sgr(a), a.over.rows.len() as int) + placed_rows(
                        b.over,
                        sgr(b),
                        b.over.rows.len() as int,
                    ),
                ),
            )
        }),
{
    reveal_strlit("\x1b[0;2m");
    reveal_strlit("\x1b[0m");
    assert(RESET_DIM@ =~= seq!['\x1b', '[', '0', ';', '2', 'm']);
    assert(RESET@ =~= seq!['\x1b', '[', '0', 'm']);
    reveal_with_fuel(placed_boxes, 3);
    let one = seq![a].map_values(|l: Line| (l.over, drawn_as(l)));
    let two = seq![a, b].map_values(|l: Line| (l.over, drawn_as(l)));
    let first = placed_rows(a.over, drawn_as(a), a.over.rows.len() as int);
    let second = placed_rows(b.over, drawn_as(b), b.over.rows.len() as int);
    assert(one[0] == (a.over, drawn_as(a)));
    assert(two[0] == (a.over, drawn_as(a)) && two[1] == (b.over, drawn_as(b)));
    assert(placed_boxes(one, 1) =~= first);
    assert(placed_boxes(two, 2) =~= first + second);
}

/// A veil moves when its frame is due and not before: to where its glide is by then, and with the
/// next frame a frame's time on; and the pass on which the glide's time is up is its last.
pub proof fn law_a_veil_moves_when_its_frame_is_due(v: Dimmed, g: Glide, now: Instant)
    requires
        v.glide == Some(g),
        !g.schedule.finished,
    ensures
        now < v.next_frame ==> Hints::glided(v, now) == (v, false),
        now >= v.next_frame ==> {
            let (next, ended) = Hints::glided(v, now);
            &&& next.at == g.at(now)
            &&& next.next_frame == later(now, 16_000_000)
            &&& ended <==> g.schedule.time_is_up(now)
            &&& ended ==> next.glide is None && next.at == g.to
            &&& !ended ==> next.glide == Some(g)
            &&& next.at != v.at ==> !next.painted
            &&& next.strips == v.strips && next.lifting == v.lifting
        },
{
}

/// A veil at rest does not move.
pub proof fn law_a_veil_at_rest_stays(v: Dimmed, now: Instant)
    requires
        v.glide is None,
    ensures
        Hints::glided(v, now) == (v, false),
{
}

/// Rows that take the place of others are written over them; where a row goes and nothing takes
/// its place, it is blanked first, and the session is asked for what was under it.
pub proof fn law_a_row_that_goes_is_blanked(h: Hints, shown: Seq<Line>)
    requires
        !h.agreed,
        h.want.len() > 0,
    ensures
        ({
            let stays = forall|i: int|
                0 <= i < shown.len() ==> exists|j: int|
                    0 <= j < h.want.len() && (#[trigger] h.want[j]).over.top == (
                    #[trigger] shown[i]).over.top;
            let (next, deed) = h.plain(shown);
            &&& stays ==> deed == Deed::Write(placed_bytes(h.want))
            &&& !stays ==> (deed matches Deed::HandBack(bytes) && bytes.len() >= placed_bytes(
                h.want,
            ).len() && bytes.skip(bytes.len() - placed_bytes(h.want).len()) == placed_bytes(h.want))
            &&& next.screen == Shown::Rows(h.want)
        }),
{
    let gone = |s: Line| !covered(h.want, s.over.top);
    let stale = shown.filter(gone);
    lemma_filter_is_empty(shown, gone);
    if forall|i: int| 0 <= i < shown.len() ==> !gone(#[trigger] shown[i]) {
        assert forall|i: int| 0 <= i < shown.len() implies exists|j: int|
            0 <= j < h.want.len() && (#[trigger] h.want[j]).over.top == (
            #[trigger] shown[i]).over.top by {
            assert(!gone(shown[i]));
        }
    } else {
        let i = choose|i: int| 0 <= i < shown.len() && gone(#[trigger] shown[i]);
        assert(gone(shown[i]));
        assert(!covered(h.want, shown[i].over.top));
        let all = blanked_bytes(stale) + placed_bytes(h.want);
        assert(all.skip(all.len() - placed_bytes(h.want).len()) =~= placed_bytes(h.want));
    }
}

proof fn lemma_filter_is_empty(s: Seq<Line>, f: spec_fn(Line) -> bool)
    ensures
        s.filter(f).len() == 0 <==> forall|i: int| 0 <= i < s.len() ==> !f(#[trigger] s[i]),
    decreases s.len(),
{
    reveal(Seq::filter);
    if s.len() > 0 {
        lemma_filter_is_empty(s.drop_last(), f);
        assert forall|i: int| 0 <= i < s.drop_last().len() implies s.drop_last()[i] == s[i] by {}
        if forall|i: int| 0 <= i < s.len() ==> !f(#[trigger] s[i]) {
            assert(!f(s[s.len() - 1]));
            assert forall|i: int| 0 <= i < s.drop_last().len() implies !f(
                #[trigger] s.drop_last()[i],
            ) by {
                assert(!f(s[i]));
            }
        } else if s.filter(f).len() == 0 {
            assert(!f(s.last()));
            assert forall|i: int| 0 <= i < s.len() implies !f(#[trigger] s[i]) by {
                if i < s.len() - 1 {
                    assert(!f(s.drop_last()[i]));
                }
            }
        }
    }
}

/// A sorted listing goes up in number, and has each entry it was made from and no other.
pub proof fn law_a_sorted_listing_has_the_same_entries(
    entries: Seq<Entry>,
    given: Seq<Entry>,
    e: Entry,
    i: int,
    j: int,
)
    requires
        sorted_from(entries, given),
    ensures
        0 <= i < j < entries.len() ==> entries[i].num <= entries[j].num,
        entries.contains(e) <==> given.contains(e),
{
    assert(with_number(entries, e.num) == with_number(given, e.num));
    lemma_filter_keeps(entries, e);
    lemma_filter_keeps(given, e);
}

proof fn lemma_filter_keeps(s: Seq<Entry>, e: Entry)
    ensures
        s.contains(e) <==> with_number(s, e.num).contains(e),
    decreases s.len(),
{
    reveal(Seq::filter);
    let t = with_number(s, e.num);
    if s.len() > 0 {
        let rest = s.drop_last();
        lemma_filter_keeps(rest, e);
        let u = with_number(rest, e.num);
        if s.contains(e) {
            let k = choose|k: int| 0 <= k < s.len() && s[k] == e;
            if k < rest.len() {
                assert(rest[k] == e);
                let m = choose|m: int| 0 <= m < u.len() && u[m] == e;
                assert(t[m] == e);
            } else {
                assert(t.last() == e);
                assert(t[t.len() - 1] == e);
            }
        }
        if t.contains(e) {
            let m = choose|m: int| 0 <= m < t.len() && t[m] == e;
            if m < u.len() {
                assert(u[m] == e);
                let k = choose|k: int| 0 <= k < rest.len() && rest[k] == e;
                assert(s[k] == e);
            } else {
                assert(s[s.len() - 1] == e);
            }
        }
    }
}

/// A busy session may have drawn over whatever is up: nothing is taken for painted any more, and
/// the wait for a lull starts again. A quiet one changes nothing but that its lull has begun.
pub proof fn law_a_busy_session_may_have_drawn_over(h: Hints, now: Instant)
    ensures
        h.heard(now, true).quiet_since is None,
        h.screen is Rows ==> !h.heard(now, true).agreed && h.heard(now, true).screen == h.screen,
        h.screen is Clear ==> h.heard(now, true).agreed == h.agreed && h.heard(now, true).screen
            is Clear,
        h.screen matches Shown::Veiled(v) ==> (h.heard(now, true).screen matches Shown::Veiled(after)
            && !after.painted && after.drawn_over && after.at == v.at && after.strips == v.strips),
        h.heard(now, false).screen == h.screen && h.heard(now, false).agreed == h.agreed,
        h.heard(now, false).quiet_since == match h.quiet_since {
            Some(quiet) => Some(quiet),
            None => Some(now),
        },
        h.settled(now) <==> (h.quiet_since matches Some(quiet) && now >= quiet && now - quiet
            >= 25_000_000),
{
}

} // verus!
