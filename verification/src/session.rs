//! Sessions, as they are listed.

use vstd::prelude::*;

use crate::keys::Direction;

verus! {

/// A control character, or one that changes how the text round it looks while showing
/// nothing itself.
pub open spec fn unrenderable(c: char) -> bool {
    let n = c as u32;
    ||| n <= 0x1f
    ||| 0x7f <= n <= 0x9f
    ||| n == 0xad
    ||| n == 0x61c
    ||| n == 0x180e
    ||| 0x200b <= n <= 0x200f
    ||| 0x2028 <= n <= 0x202e
    ||| 0x2060 <= n <= 0x206f
    ||| n == 0xfeff
    ||| 0xfff9 <= n <= 0xfffb
    ||| n == 0xe0001
    ||| 0xe0020 <= n <= 0xe007f
}

/// Whether a character has no place in text that is drawn on the terminal: a control
/// character, or an invisible formatting one.
pub fn is_unrenderable(c: char) -> (r: bool)
    ensures
        r == unrenderable(c),
{
    let n: u32 = c as u32;
    n <= 0x1f || (0x7f <= n && n <= 0x9f) || n == 0xad || n == 0x61c || n == 0x180e || (0x200b <= n
        && n <= 0x200f) || (0x2028 <= n && n <= 0x202e) || (0x2060 <= n && n <= 0x206f) || n
        == 0xfeff || (0xfff9 <= n && n <= 0xfffb) || n == 0xe0001 || (0xe0020 <= n && n <= 0xe007f)
}

/// What a listing found out about a session.
#[derive(Debug, Clone, Copy, PartialEq, Eq, Structural)]
pub struct SessionState {
    /// The number it is reached by.
    pub num: u32,
}

/// One session.
#[derive(Debug, PartialEq, Eq)]
pub struct Session {
    pub id: String,
    pub name: String,
    /// When it was created, in seconds.
    pub created: u64,
    pub state: SessionState,
}

/// One session, as a value.
#[verifier::ext_equal]
pub struct Row {
    pub id: Seq<char>,
    pub name: Seq<char>,
    pub created: u64,
    pub num: u32,
}

impl View for Session {
    type V = Row;

    open spec fn view(&self) -> Row {
        Row { id: self.id@, name: self.name@, created: self.created, num: self.state.num }
    }
}

/// The values of these sessions.
pub open spec fn rows(sessions: Seq<Session>) -> Seq<Row> {
    sessions.map_values(|s: Session| s@)
}

impl Session {
    pub fn new(id: String, name: String, created: u64, num: u32) -> (r: Self)
        ensures
            r@ == (Row { id: id@, name: name@, created, num }),
    {
        Session { id, name, created, state: SessionState { num } }
    }

    /// The same session over again.
    pub fn copy(&self) -> (r: Self)
        ensures
            r@ == self@,
    {
        Session {
            id: self.id.clone(),
            name: self.name.clone(),
            created: self.created,
            state: self.state,
        }
    }
}

impl Clone for Session {
    fn clone(&self) -> (r: Self)
        ensures
            r@ == self@,
    {
        self.copy()
    }
}

/// The highest number in a listing, or 0 for none.
pub open spec fn highest(sessions: Seq<Row>) -> u32
    decreases sessions.len(),
{
    if sessions.len() == 0 {
        0
    } else {
        let before = highest(sessions.drop_last());
        if sessions.last().num > before {
            sessions.last().num
        } else {
            before
        }
    }
}

/// The highest number in a listing, or 0 for none.
pub fn highest_num(sessions: &[Session]) -> (r: u32)
    ensures
        r == highest(rows(sessions@)),
{
    let mut top: u32 = 0;
    let mut i: usize = 0;
    while i < sessions.len()
        invariant
            i <= sessions@.len(),
            top == highest(rows(sessions@).take(i as int)),
        decreases sessions@.len() - i,
    {
        assert(rows(sessions@).take(i + 1).drop_last() =~= rows(sessions@).take(i as int));
        assert(rows(sessions@).take(i + 1).last() == sessions@[i as int]@);
        if sessions[i].state.num > top {
            top = sessions[i].state.num;
        }
        i += 1;
    }
    assert(rows(sessions@).take(i as int) =~= rows(sessions@));
    top
}

/// Every number in a listing is at most its highest, and an empty listing's is 0.
pub proof fn law_highest_is_the_highest(sessions: Seq<Row>)
    ensures
        forall|i: int| 0 <= i < sessions.len() ==> #[trigger] sessions[i].num <= highest(sessions),
        highest(sessions) > 0 ==> exists|i: int|
            0 <= i < sessions.len() && #[trigger] sessions[i].num == highest(sessions),
    decreases sessions.len(),
{
    if sessions.len() > 0 {
        let init = sessions.drop_last();
        law_highest_is_the_highest(init);
        assert forall|i: int| 0 <= i < sessions.len() implies #[trigger] sessions[i].num
            <= highest(sessions) by {
            if i < init.len() {
                assert(init[i] == sessions[i]);
            }
        }
        if highest(sessions) > 0 {
            if sessions.last().num > highest(init) {
                assert(sessions[sessions.len() - 1].num == highest(sessions));
            } else {
                let k = choose|i: int|
                    0 <= i < init.len() && #[trigger] init[i].num == highest(init);
                assert(sessions[k] == init[k]);
            }
        }
    }
}

/// What a switch names.
#[derive(Debug, Clone, Copy, PartialEq, Eq, Structural)]
pub enum Target {
    /// The session with this number.
    Number(u32),
    /// The session on this side of the one in front.
    Step(Direction),
}

/// One of two sessions is at least as good a neighbour of `from` in this direction: it lies
/// on that side while the other does not, or both or neither do and it comes first.
pub open spec fn nearer(a: u32, b: u32, from: u32, dir: Direction) -> bool {
    match dir {
        Direction::Next => if (a > from) != (b > from) {
            a > from
        } else {
            a <= b
        },
        Direction::Prev => if (a < from) != (b < from) {
            a < from
        } else {
            a >= b
        },
    }
}

/// Where the session on this side of number `from` stands in a listing: the nearest one in
/// number order, wrapping at both ends, the first of several with its number.
pub open spec fn is_neighbour(sessions: Seq<Row>, from: u32, dir: Direction, at: int) -> bool {
    &&& 0 <= at < sessions.len()
    &&& forall|i: int|
        0 <= i < sessions.len() ==> nearer(sessions[at].num, (#[trigger] sessions[i]).num, from, dir)
    &&& forall|i: int| 0 <= i < at ==> (#[trigger] sessions[i]).num != sessions[at].num
}

/// The session on this side of number `from`, wrapping at both ends.
pub fn neighbour(sessions: &[Session], from: u32, dir: Direction) -> (r: Option<usize>)
    ensures
        match r {
            Some(at) => is_neighbour(rows(sessions@), from, dir, at as int),
            None => sessions@.len() == 0,
        },
{
    if sessions.len() == 0 {
        return None;
    }
    let mut best: usize = 0;
    let mut i: usize = 1;
    let ghost all = rows(sessions@);
    while i < sessions.len()
        invariant
            all == rows(sessions@),
            0 <= best < i <= sessions@.len(),
            forall|j: int|
                0 <= j < i ==> nearer(all[best as int].num, (#[trigger] all[j]).num, from, dir),
            forall|j: int| 0 <= j < best ==> (#[trigger] all[j]).num != all[best as int].num,
        decreases sessions@.len() - i,
    {
        let a: u32 = sessions[best].state.num;
        let b: u32 = sessions[i].state.num;
        assert(all[best as int].num == a && all[i as int].num == b);
        let keep: bool = match dir {
            Direction::Next => if (a > from) != (b > from) {
                a > from
            } else {
                a <= b
            },
            Direction::Prev => if (a < from) != (b < from) {
                a < from
            } else {
                a >= b
            },
        };
        if !keep {
            assert forall|j: int| 0 <= j < i implies (#[trigger] all[j]).num != b by {
                assert(nearer(a, all[j].num, from, dir));
            }
            best = i;
        }
        i += 1;
    }
    Some(best)
}

/// The first row with this number, if there is one.
pub open spec fn numbered(sessions: Seq<Row>, num: u32, i: int) -> Option<int>
    decreases sessions.len() - i,
{
    if i >= sessions.len() {
        None
    } else if sessions[i].num == num {
        Some(i)
    } else {
        numbered(sessions, num, i + 1)
    }
}

/// Where the session a switch names stands in a listing.
pub open spec fn picked(sessions: Seq<Row>, target: Target, from: u32, at: Option<int>) -> bool {
    match target {
        Target::Number(num) => at == numbered(sessions, num, 0),
        Target::Step(dir) => match at {
            Some(at) => is_neighbour(sessions, from, dir, at),
            None => sessions.len() == 0,
        },
    }
}

/// The one place that [`picked`] allows.
pub open spec fn named(sessions: Seq<Row>, target: Target, from: u32) -> Option<int> {
    match target {
        Target::Number(num) => numbered(sessions, num, 0),
        Target::Step(dir) => if sessions.len() == 0 {
            None
        } else {
            Some(choose|at: int| is_neighbour(sessions, from, dir, at))
        },
    }
}

/// Whatever [`picked`] allows is the one place [`named`] gives.
pub proof fn lemma_picked_is_named(
    sessions: Seq<Row>,
    target: Target,
    from: u32,
    at: Option<int>,
)
    requires
        picked(sessions, target, from, at),
    ensures
        at == named(sessions, target, from),
{
    if let Target::Step(dir) = target {
        if let Some(i) = at {
            let j = choose|j: int| is_neighbour(sessions, from, dir, j);
            law_the_neighbour_is_one(sessions, from, dir, i, j);
        }
    }
}

/// The session a switch names, in a listing, seen from the session numbered `from`.
pub fn pick(sessions: &[Session], target: Target, from: u32) -> (r: Option<usize>)
    ensures
        match r {
            Some(at) => at < sessions@.len() && picked(
                rows(sessions@),
                target,
                from,
                Some(at as int),
            ),
            None => picked(rows(sessions@), target, from, None),
        },
{
    match target {
        Target::Number(num) => {
            let mut i: usize = 0;
            while i < sessions.len()
                invariant
                    i <= sessions@.len(),
                    target == Target::Number(num),
                    numbered(rows(sessions@), num, 0) == numbered(rows(sessions@), num, i as int),
                decreases sessions@.len() - i,
            {
                assert(rows(sessions@)[i as int].num == sessions@[i as int].state.num);
                if sessions[i].state.num == num {
                    return Some(i);
                }
                i += 1;
            }
            None
        },
        Target::Step(dir) => neighbour(sessions, from, dir),
    }
}

/// There is only ever one neighbour.
pub proof fn law_the_neighbour_is_one(
    sessions: Seq<Row>,
    from: u32,
    dir: Direction,
    a: int,
    b: int,
)
    requires
        is_neighbour(sessions, from, dir, a),
        is_neighbour(sessions, from, dir, b),
    ensures
        a == b,
{
    assert(nearer(sessions[a].num, sessions[b].num, from, dir));
    assert(nearer(sessions[b].num, sessions[a].num, from, dir));
    assert(sessions[a].num == sessions[b].num);
}

/// Stepping one way and then the other comes back: where every number is its own, the
/// neighbour's neighbour on the other side is where one started.
pub proof fn law_a_step_back_undoes_a_step(
    sessions: Seq<Row>,
    here: int,
    there: int,
    back: int,
    dir: Direction,
    other: Direction,
)
    requires
        dir != other,
        0 <= here < sessions.len(),
        forall|i: int, j: int|
            #![trigger sessions[i], sessions[j]]
            0 <= i < j < sessions.len() ==> sessions[i].num != sessions[j].num,
        is_neighbour(sessions, sessions[here].num, dir, there),
        is_neighbour(sessions, sessions[there].num, other, back),
    ensures
        back == here,
{
    let h = sessions[here].num;
    let t = sessions[there].num;
    let b = sessions[back].num;
    assert(nearer(t, h, h, dir));
    assert(nearer(b, h, t, other));
    assert(nearer(b, t, t, other));
    assert(nearer(t, b, h, dir));
    if back != here {
        assert(b != h);
    }
}

/// The next session is the one with the lowest number above, and where none is above the one
/// with the lowest number of all.
pub proof fn law_the_next_is_the_lowest_above(sessions: Seq<Row>, from: u32, at: int)
    requires
        is_neighbour(sessions, from, Direction::Next, at),
    ensures
        forall|i: int|
            0 <= i < sessions.len() && (#[trigger] sessions[i]).num > from ==> sessions[at].num
                > from && sessions[at].num <= sessions[i].num,
        (forall|i: int| 0 <= i < sessions.len() ==> (#[trigger] sessions[i]).num <= from) ==> forall|
            i: int,
        |
            0 <= i < sessions.len() ==> sessions[at].num <= (#[trigger] sessions[i]).num,
{
}

/// The previous session is the one with the highest number below, and where none is below the
/// one with the highest number of all.
pub proof fn law_the_previous_is_the_highest_below(sessions: Seq<Row>, from: u32, at: int)
    requires
        is_neighbour(sessions, from, Direction::Prev, at),
    ensures
        forall|i: int|
            0 <= i < sessions.len() && (#[trigger] sessions[i]).num < from ==> sessions[at].num
                < from && sessions[at].num >= sessions[i].num,
        (forall|i: int| 0 <= i < sessions.len() ==> (#[trigger] sessions[i]).num >= from) ==> forall|
            i: int,
        |
            0 <= i < sessions.len() ==> sessions[at].num >= (#[trigger] sessions[i]).num,
{
}

/// A switch to a number goes to the first session with exactly that number, and to none where
/// no session has it.
pub proof fn law_a_number_names_the_session_that_has_it(sessions: Seq<Row>, num: u32, from: u32)
    ensures
        match named(sessions, Target::Number(num), from) {
            Some(at) => {
                &&& 0 <= at < sessions.len()
                &&& sessions[at].num == num
                &&& forall|i: int| 0 <= i < at ==> (#[trigger] sessions[i]).num != num
            },
            None => forall|i: int| 0 <= i < sessions.len() ==> (#[trigger] sessions[i]).num != num,
        },
        forall|at: Option<int>| #[trigger]
            picked(sessions, Target::Number(num), from, at) ==> at == named(
                sessions,
                Target::Number(num),
                from,
            ),
{
    lemma_numbered_is_first(sessions, num, 0);
}

proof fn lemma_numbered_is_first(sessions: Seq<Row>, num: u32, from: int)
    requires
        0 <= from <= sessions.len(),
    ensures
        match numbered(sessions, num, from) {
            Some(at) => {
                &&& from <= at < sessions.len()
                &&& sessions[at].num == num
                &&& forall|i: int| from <= i < at ==> (#[trigger] sessions[i]).num != num
            },
            None => forall|i: int|
                from <= i < sessions.len() ==> (#[trigger] sessions[i]).num != num,
        },
    decreases sessions.len() - from,
{
    if from < sessions.len() && sessions[from].num != num {
        lemma_numbered_is_first(sessions, num, from + 1);
    }
}

/// A step goes to the neighbour on its side, and to none only where there is no session at all.
pub proof fn law_a_step_picks_the_neighbour(
    sessions: Seq<Row>,
    dir: Direction,
    from: u32,
    at: Option<int>,
)
    requires
        picked(sessions, Target::Step(dir), from, at),
    ensures
        at is None <==> sessions.len() == 0,
        at matches Some(at) ==> is_neighbour(sessions, from, dir, at),
{
}

/// Everything ASCII has to show can be shown, and none of its control characters; nor can the
/// marks that turn the direction of text, those of no width, or the byte order mark.
pub proof fn law_what_can_be_shown(c: char)
    ensures
        ' ' <= c && c <= '~' ==> !unrenderable(c),
        c < ' ' || c == '\u{7f}' ==> unrenderable(c),
        '\u{80}' <= c && c <= '\u{9f}' ==> unrenderable(c),
        '\u{200b}' <= c && c <= '\u{200f}' ==> unrenderable(c),
        '\u{202a}' <= c && c <= '\u{202e}' ==> unrenderable(c),
        '\u{2066}' <= c && c <= '\u{2069}' ==> unrenderable(c),
        c == '\u{feff}' || c == '\u{ad}' ==> unrenderable(c),
        '\u{3040}' <= c && c <= '\u{9fff}' ==> !unrenderable(c),
        '\u{c0}' <= c && c <= '\u{17f}' ==> !unrenderable(c),
{
}

/// The marks and separators that nothing can be seen of cannot be shown, wherever in Unicode they
/// stand, and every character between their blocks can.
pub proof fn law_invisible_marks_cannot_be_shown(c: char)
    ensures
        c == '\u{61c}' || c == '\u{180e}' ==> unrenderable(c),
        c == '\u{2028}' || c == '\u{2029}' ==> unrenderable(c),
        '\u{2060}' <= c && c <= '\u{206f}' ==> unrenderable(c),
        '\u{fff9}' <= c && c <= '\u{fffb}' ==> unrenderable(c),
        c == '\u{e0001}' || ('\u{e0020}' <= c && c <= '\u{e007f}') ==> unrenderable(c),
        '\u{a0}' <= c && c < '\u{61c}' && c != '\u{ad}' ==> !unrenderable(c),
        '\u{61c}' < c && c < '\u{200b}' && c != '\u{180e}' ==> !unrenderable(c),
        '\u{200f}' < c && c < '\u{2028}' ==> !unrenderable(c),
        '\u{202e}' < c && c < '\u{2060}' ==> !unrenderable(c),
        '\u{206f}' < c && c < '\u{fff9}' && c != '\u{feff}' ==> !unrenderable(c),
        '\u{fffb}' < c && c < '\u{e0001}' ==> !unrenderable(c),
        '\u{e0001}' < c && c < '\u{e0020}' ==> !unrenderable(c),
        '\u{e007f}' < c ==> !unrenderable(c),
{
}

} // verus!
