//! Paths as they are typed at a prompt, on their way to being listed.

use vstd::prelude::*;

use crate::text::{after_last, chars_of, find_after_last, lemma_after_last, string_of};

verus! {

/// What can list directories on one session host.
#[derive(Debug, PartialEq, Eq)]
pub enum DirSource {
    /// This machine.
    Local,
    /// Another one, over the connection that is already up.
    Ssh { host: String, control_path: String },
    /// Another one, over the relay's one connection.
    Relay,
}

/// Where the last pair of slashes in the first `end` characters begins; nothing where there is
/// none.
pub open spec fn last_pair(s: Seq<char>, end: int) -> Option<int>
    decreases end,
{
    if end < 2 {
        None
    } else if s[end - 2] == '/' && s[end - 1] == '/' {
        Some(end - 2)
    } else {
        last_pair(s, end - 1)
    }
}

/// How much of a typed path no longer counts.
pub open spec fn inert(s: Seq<char>) -> int {
    match last_pair(s, s.len() as int) {
        Some(at) => at + 1,
        None => 0,
    }
}

proof fn lemma_last_pair(s: Seq<char>, end: int)
    requires
        0 <= end <= s.len(),
    ensures
        match last_pair(s, end) {
            Some(at) => 0 <= at && at + 2 <= end && s[at] == '/' && s[at + 1] == '/' && forall|
                i: int,
            |
                at < i && i + 1 < end ==> !((#[trigger] s[i]) == '/' && s[i + 1] == '/'),
            None => forall|i: int|
                0 <= i && i + 1 < end ==> !((#[trigger] s[i]) == '/' && s[i + 1] == '/'),
        },
    decreases end,
{
    if end >= 2 && !(s[end - 2] == '/' && s[end - 1] == '/') {
        lemma_last_pair(s, end - 1);
    }
}

/// Split a typed path into the part that no longer counts and the part that does.
///
/// `//` means "start again from the root", so everything up to the last one is inert. The split
/// falls between the two slashes, so the live half keeps a leading one and is still absolute.
/// The live half is what must reach the session host: to a file system `a//b` is `a/b`.
pub fn anchored(input: &str) -> (r: (String, String))
    ensures
        r.0@ == input@.take(inert(input@)),
        r.1@ == input@.skip(inert(input@)),
{
    let s: Vec<char> = chars_of(input);
    let mut end: usize = s.len();
    while end >= 2 && !(s[end - 2] == '/' && s[end - 1] == '/')
        invariant
            end <= s@.len(),
            s@ == input@,
            last_pair(s@, s@.len() as int) == last_pair(s@, end as int),
        decreases end,
    {
        end -= 1;
    }
    let cut: usize = if end < 2 {
        0
    } else {
        end - 1
    };
    let front: &[char] = vstd::slice::slice_subrange(&s, 0, cut);
    let live: &[char] = vstd::slice::slice_subrange(&s, cut, s.len());
    assert(front@ =~= s@.take(cut as int));
    assert(live@ =~= s@.skip(cut as int));
    (string_of(front), string_of(live))
}

/// The directory to list and the name to match inside it: the path is cut at its last slash,
/// and the root is a directory.
pub open spec fn parted(s: Seq<char>) -> Option<(Seq<char>, Seq<char>)> {
    let at = after_last(s, '/');
    if at == 0 {
        None
    } else if at == 1 {
        Some(("/"@, s.skip(1)))
    } else {
        Some((s.take(at - 1), s.skip(at)))
    }
}

/// Split what has been typed into the directory to list and the name to match inside it. A path
/// with no `/` at all has no directory to list.
pub fn split(input: &str) -> (r: Option<(String, String)>)
    ensures
        match r {
            Some((dir, name)) => parted(input@) == Some((dir@, name@)),
            None => parted(input@) is None,
        },
{
    let s: Vec<char> = chars_of(input);
    let at: usize = find_after_last(&s, '/');
    if at == 0 {
        return None;
    }
    let name: &[char] = vstd::slice::slice_subrange(&s, at, s.len());
    assert(name@ =~= s@.skip(at as int));
    let dir: String = if at == 1 {
        String::from_str("/")
    } else {
        let front: &[char] = vstd::slice::slice_subrange(&s, 0, at - 1);
        assert(front@ =~= s@.take(at - 1));
        string_of(front)
    };
    Some((dir, string_of(name)))
}

/// Nothing is lost in anchoring a path; one with a pair of slashes is cut between the two of
/// one, so what is left is absolute; and the live half has no pair in it.
pub proof fn law_the_live_half_is_absolute(s: Seq<char>)
    ensures
        s.take(inert(s)) + s.skip(inert(s)) == s,
        inert(s) > 0 ==> s.skip(inert(s)).len() > 0 && s.skip(inert(s))[0] == '/',
        inert(s) > 0 ==> s[inert(s) - 1] == '/',
        inert(s.skip(inert(s))) == 0,
        inert(s) == 0 <==> forall|i: int|
            0 <= i && i + 1 < s.len() ==> !((#[trigger] s[i]) == '/' && s[i + 1] == '/'),
{
    lemma_last_pair(s, s.len() as int);
    let live = s.skip(inert(s));
    assert(s.take(inert(s)) + live =~= s);
    lemma_last_pair(live, live.len() as int);
    if let Some(at) = last_pair(live, live.len() as int) {
        assert(live[at] == s[inert(s) + at]);
        assert(live[at + 1] == s[inert(s) + at + 1]);
        assert(false);
    }
}

/// A directory and a name put back together with the slash between them are the path they were
/// cut from, and the name has no slash in it.
pub proof fn law_the_parts_make_the_path(s: Seq<char>)
    ensures
        match parted(s) {
            Some((dir, name)) => {
                &&& s == if dir == "/"@ && after_last(s, '/') == 1 {
                    dir + name
                } else {
                    dir + "/"@ + name
                }
                &&& dir.len() > 0
                &&& !name.contains('/')
            },
            None => !s.contains('/'),
        },
{
    reveal_strlit("/");
    lemma_after_last(s, '/');
    let at = after_last(s, '/');
    if at == 0 {
        assert(!s.contains('/'));
    } else {
        let name = s.skip(at);
        assert forall|i: int| 0 <= i < name.len() implies name[i] != '/' by {
            assert(name[i] == s[at + i]);
        }
        if at == 1 {
            assert("/"@ + name =~= s);
        } else {
            assert(s.take(at - 1) + "/"@ + name =~= s);
        }
    }
}

} // verus!
