//! The clients kept for the sessions that are not in front.
//!
//! On, every client that leaves the front is parked, one per session, and a return to that
//! session takes it back out: a resume, not a start. Off, there is one client at a time, and
//! [`Pool::set_aside`] hands it straight back.
//!
//! A client is known here by a number its owner gave it. What is let go of comes back as such
//! numbers, for their owner to retire.

use vstd::prelude::*;

use crate::config::ClientSettings;
use crate::session::{rows, Row, Session};
use crate::text::equal_text;

verus! {

/// A client that has just left the front.
#[derive(Debug, PartialEq, Eq)]
pub struct Attachment {
    pub session_id: String,
    /// The number its owner knows it by.
    pub client: u64,
    /// Its startup was over when it left the front.
    pub parkable: bool,
    /// It could be put away; one that could not is let go of.
    pub parks: bool,
}

/// What [`Pool::take`] found for a session.
#[derive(Debug, PartialEq, Eq, Structural, Clone, Copy)]
pub enum Taken {
    /// Its client, parked and alive: resume it.
    Kept(u64),
    /// A client was parked for it, and has left: this one.
    Left(u64),
    /// Nothing was parked for it.
    Absent,
}

struct Parked {
    session_id: String,
    client: u64,
    alive: bool,
}

/// A parked client, as a value.
#[verifier::ext_equal]
pub struct Spot {
    pub session: Seq<char>,
    pub client: u64,
    pub alive: bool,
}

impl Parked {
    spec fn spot(self) -> Spot {
        Spot { session: self.session_id@, client: self.client, alive: self.alive }
    }
}

spec fn spots(parked: Seq<Parked>) -> Seq<Spot> {
    parked.map_values(|p: Parked| p.spot())
}

/// The parked clients, by session.
pub struct Pool {
    keeps: bool,
    parked: Vec<Parked>,
}

/// The parked clients, in the order they were parked, as a value.
#[verifier::ext_equal]
pub struct Shelf {
    pub keeps: bool,
    pub parked: Seq<Spot>,
}

impl View for Pool {
    type V = Shelf;

    closed spec fn view(&self) -> Shelf {
        Shelf { keeps: self.keeps, parked: spots(self.parked@) }
    }
}

/// Where the client of a session stands.
pub open spec fn place(parked: Seq<Spot>, session: Seq<char>, i: int) -> Option<int>
    decreases parked.len() - i,
{
    if i >= parked.len() {
        None
    } else if parked[i].session == session {
        Some(i)
    } else {
        place(parked, session, i + 1)
    }
}

/// The numbers of these clients.
pub open spec fn clients(parked: Seq<Spot>) -> Seq<u64> {
    parked.map_values(|p: Spot| p.client)
}

/// At most one per session.
pub open spec fn one_each(parked: Seq<Spot>) -> bool {
    forall|i: int, j: int|
        #![trigger parked[i], parked[j]]
        0 <= i < j < parked.len() ==> parked[i].session != parked[j].session
}

impl Shelf {
    /// At most one per session.
    pub open spec fn inv(self) -> bool {
        one_each(self.parked)
    }

    pub open spec fn find(self, session: Seq<char>) -> Option<int> {
        place(self.parked, session, 0)
    }

    /// Without the client of one session.
    pub open spec fn without(self, session: Seq<char>) -> Shelf {
        match self.find(session) {
            Some(i) => Shelf { parked: self.parked.remove(i), ..self },
            None => self,
        }
    }

    /// After a client that is kept left the front: in place of the one its session had.
    pub open spec fn aside(self, session: Seq<char>, client: u64) -> Shelf {
        Shelf {
            parked: self.without(session).parked.push(Spot { session, client, alive: true }),
            ..self
        }
    }

    /// A client that leaves the front is not for this pool: it keeps none, or the client's
    /// startup is not over.
    pub open spec fn hands_back(self, parkable: bool) -> bool {
        !self.keeps || !parkable
    }

    /// After a client for the pool has left the front, and what is let go of for it: the one its
    /// session had, and the client itself where it cannot be put away.
    pub open spec fn set_down(self, session: Seq<char>, client: u64, parks: bool) -> (
        Shelf,
        Seq<u64>,
    ) {
        let earlier = match self.find(session) {
            Some(at) => seq![self.parked[at].client],
            None => Seq::<u64>::empty(),
        };
        if parks {
            (self.aside(session, client), earlier)
        } else {
            (self.without(session), earlier.push(client))
        }
    }

    /// What is parked for a session.
    pub open spec fn parked_for(self, session: Seq<char>) -> Taken {
        match self.find(session) {
            Some(at) => if self.parked[at].alive {
                Taken::Kept(self.parked[at].client)
            } else {
                Taken::Left(self.parked[at].client)
            },
            None => Taken::Absent,
        }
    }

    /// After a client has left by itself.
    pub open spec fn without_life(self, client: u64) -> Shelf {
        Shelf {
            parked: self.parked.map_values(
                |p: Spot| Spot { alive: p.alive && p.client != client, ..p },
            ),
            ..self
        }
    }

    /// A listing still has this client's session.
    pub open spec fn listed(listing: Seq<Row>, spot: Spot) -> bool {
        exists|i: int| 0 <= i < listing.len() && #[trigger] listing[i].id == spot.session
    }

    /// The clients whose session a listing still has.
    pub open spec fn kept(parked: Seq<Spot>, listing: Seq<Row>) -> Seq<Spot> {
        parked.filter(|p: Spot| Shelf::listed(listing, p))
    }

    /// The others.
    pub open spec fn dropped(parked: Seq<Spot>, listing: Seq<Row>) -> Seq<Spot> {
        parked.filter(|p: Spot| !Shelf::listed(listing, p))
    }
}

proof fn lemma_place(parked: Seq<Spot>, session: Seq<char>, i: int)
    requires
        0 <= i <= parked.len(),
    ensures
        match place(parked, session, i) {
            Some(at) => i <= at < parked.len() && parked[at].session == session && forall|j: int|
                i <= j < at ==> (#[trigger] parked[j]).session != session,
            None => forall|j: int|
                i <= j < parked.len() ==> (#[trigger] parked[j]).session != session,
        },
    decreases parked.len() - i,
{
    if i < parked.len() && parked[i].session != session {
        lemma_place(parked, session, i + 1);
    }
}

proof fn lemma_without(shelf: Shelf, session: Seq<char>)
    requires
        shelf.inv(),
    ensures
        shelf.without(session).inv(),
        forall|j: int|
            0 <= j < shelf.without(session).parked.len() ==> (#[trigger] shelf.without(
                session,
            ).parked[j]).session != session,
{
    lemma_place(shelf.parked, session, 0);
    let after = shelf.without(session);
    if let Some(at) = shelf.find(session) {
        assert forall|i: int, j: int|
            #![trigger after.parked[i], after.parked[j]]
            0 <= i < j < after.parked.len() implies after.parked[i].session
            != after.parked[j].session by {
            let a = if i < at {
                i
            } else {
                i + 1
            };
            let b = if j < at {
                j
            } else {
                j + 1
            };
            assert(shelf.parked[a].session != shelf.parked[b].session);
        }
        assert forall|j: int| 0 <= j < after.parked.len() implies (
        #[trigger] after.parked[j]).session != session by {
            if j < at {
                assert(after.parked[j] == shelf.parked[j]);
            } else {
                assert(shelf.parked[at].session != shelf.parked[j + 1].session);
            }
        }
    }
}

proof fn lemma_filter_keeps_one_each(parked: Seq<Spot>, keep: spec_fn(Spot) -> bool)
    requires
        one_each(parked),
    ensures
        one_each(parked.filter(keep)),
        forall|i: int|
            0 <= i < parked.filter(keep).len() ==> exists|j: int|
                0 <= j < parked.len() && parked[j] == #[trigger] parked.filter(keep)[i],
    decreases parked.len(),
{
    reveal(Seq::filter);
    if parked.len() > 0 {
        let init = parked.drop_last();
        assert forall|i: int, j: int|
            #![trigger init[i], init[j]]
            0 <= i < j < init.len() implies init[i].session != init[j].session by {
            assert(parked[i].session != parked[j].session);
        }
        lemma_filter_keeps_one_each(init, keep);
        let before = init.filter(keep);
        let all = parked.filter(keep);
        assert forall|i: int| 0 <= i < all.len() implies exists|j: int|
            0 <= j < parked.len() && parked[j] == #[trigger] all[i] by {
            if i < before.len() {
                let j = choose|j: int| 0 <= j < init.len() && init[j] == before[i];
                assert(parked[j] == all[i]);
            } else {
                assert(parked[parked.len() - 1] == all[i]);
            }
        }
        assert forall|i: int, j: int|
            #![trigger all[i], all[j]]
            0 <= i < j < all.len() implies all[i].session != all[j].session by {
            if j < before.len() {
                assert(before[i].session != before[j].session);
            } else {
                let k = choose|k: int| 0 <= k < init.len() && init[k] == before[i];
                assert(parked[k].session != parked[parked.len() - 1].session);
            }
        }
    }
}

impl Pool {
    /// A pool that keeps clients if `keeps`, and otherwise hands every one straight back.
    pub fn new(keeps: bool) -> (r: Pool)
        ensures
            r@ == (Shelf { keeps, parked: Seq::empty() }),
            r@.inv(),
    {
        let r: Pool = Pool { keeps, parked: Vec::new() };
        assert(r@.parked =~= Seq::empty());
        r
    }

    /// The pool the configuration asks for.
    pub fn configured(settings: &ClientSettings) -> (r: Pool)
        ensures
            r@ == (Shelf { keeps: settings.per_session, parked: Seq::empty() }),
            r@.inv(),
    {
        Pool::new(settings.per_session)
    }

    /// Where the client of a session stands.
    fn find(&self, session_id: &str) -> (r: Option<usize>)
        ensures
            match r {
                Some(at) => at < self.parked@.len() && self@.find(session_id@) == Some(at as int),
                None => self@.find(session_id@) is None,
            },
    {
        let mut i: usize = 0;
        while i < self.parked.len()
            invariant
                i <= self.parked@.len(),
                self@.find(session_id@) == place(self@.parked, session_id@, i as int),
            decreases self.parked@.len() - i,
        {
            assert(self@.parked[i as int] == self.parked@[i as int].spot());
            if equal_text(self.parked[i].session_id.as_str(), session_id) {
                return Some(i);
            }
            i += 1;
        }
        None
    }

    /// Take out the client of a session.
    fn retire(&mut self, session_id: &str) -> (r: Option<(u64, bool)>)
        requires
            old(self)@.inv(),
        ensures
            final(self)@.inv(),
            final(self)@ == old(self)@.without(session_id@),
            match old(self)@.find(session_id@) {
                Some(at) => r == Some(
                    (old(self)@.parked[at].client, old(self)@.parked[at].alive),
                ),
                None => r is None,
            },
    {
        let ghost before = self@;
        proof {
            lemma_without(before, session_id@);
            lemma_place(before.parked, session_id@, 0);
        }
        match self.find(session_id) {
            Some(at) => {
                assert(before.parked[at as int] == self.parked@[at as int].spot());
                let gone: Parked = self.parked.remove(at);
                assert(self@.parked =~= before.parked.remove(at as int));
                Some((gone.client, gone.alive))
            },
            None => None,
        }
    }

    /// Take a client that has just left the front.
    ///
    /// A kept client is parked; anything else comes back as it went in, for the caller to hold,
    /// which is also where a client goes that left the front before its startup was over. A
    /// client already parked for the same session is let go of to make room. Second comes what
    /// is let go of.
    pub fn set_aside(&mut self, held: Option<Attachment>) -> (r: (Option<Attachment>, Vec<u64>))
        requires
            old(self)@.inv(),
        ensures
            final(self)@.inv(),
            match held {
                None => r.0 is None && r.1@ == Seq::<u64>::empty() && final(self)@ == old(self)@,
                Some(a) => if old(self)@.hands_back(a.parkable) {
                    r.0 == held && r.1@ == Seq::<u64>::empty() && final(self)@ == old(self)@
                } else {
                    &&& r.0 is None
                    &&& final(self)@ == old(self)@.set_down(a.session_id@, a.client, a.parks).0
                    &&& r.1@ == old(self)@.set_down(a.session_id@, a.client, a.parks).1
                },
            },
    {
        let mut gone: Vec<u64> = Vec::new();
        let attachment: Attachment = match held {
            None => return (None, gone),
            Some(attachment) => attachment,
        };
        if !self.keeps || !attachment.parkable {
            return (Some(attachment), gone);
        }
        let ghost before = self@;
        proof {
            lemma_without(before, attachment.session_id@);
        }
        if let Some((client, _)) = self.retire(attachment.session_id.as_str()) {
            gone.push(client);
            assert(gone@ =~= seq![client]);
        }
        if attachment.parks {
            self.parked.push(
                Parked {
                    session_id: attachment.session_id,
                    client: attachment.client,
                    alive: true,
                },
            );
            assert(self@.parked =~= before.aside(
                attachment.session_id@,
                attachment.client,
            ).parked);
        } else {
            gone.push(attachment.client);
        }
        (None, gone)
    }

    /// The client parked for this session, taken back to be resumed; see [`Taken`] for what else
    /// it can find.
    pub fn take(&mut self, session_id: &str) -> (r: Taken)
        requires
            old(self)@.inv(),
        ensures
            final(self)@.inv(),
            final(self)@ == old(self)@.without(session_id@),
            r == old(self)@.parked_for(session_id@),
    {
        match self.retire(session_id) {
            Some((client, true)) => Taken::Kept(client),
            Some((client, false)) => Taken::Left(client),
            None => Taken::Absent,
        }
    }

    /// A client that is parked has left.
    pub fn left(&mut self, client: u64)
        requires
            old(self)@.inv(),
        ensures
            final(self)@.inv(),
            final(self)@ == old(self)@.without_life(client),
    {
        let ghost before = self@;
        let mut i: usize = 0;
        while i < self.parked.len()
            invariant
                i <= self.parked@.len(),
                self.keeps == before.keeps,
                self.parked@.len() == before.parked.len(),
                forall|j: int|
                    0 <= j < i ==> (#[trigger] self.parked@[j]).spot() == (Spot {
                        alive: before.parked[j].alive && before.parked[j].client != client,
                        ..before.parked[j]
                    }),
                forall|j: int|
                    i <= j < self.parked@.len() ==> (#[trigger] self.parked@[j]).spot()
                        == before.parked[j],
            decreases self.parked@.len() - i,
        {
            assert(self.parked@[i as int].spot() == before.parked[i as int]);
            if self.parked[i].client == client {
                let parked: &mut Parked = &mut self.parked[i];
                parked.alive = false;
            }
            i += 1;
        }
        assert(self@.parked =~= before.parked.map_values(
            |p: Spot| Spot { alive: p.alive && p.client != client, ..p },
        ));
        assert forall|i: int, j: int|
            #![trigger self@.parked[i], self@.parked[j]]
            0 <= i < j < self@.parked.len() implies self@.parked[i].session
            != self@.parked[j].session by {
            assert(before.parked[i].session != before.parked[j].session);
        }
    }

    /// Let go of the clients of sessions a fresh listing no longer has. What is let go of comes
    /// back.
    pub fn keep_only(&mut self, listing: &[Session]) -> (r: Vec<u64>)
        requires
            old(self)@.inv(),
        ensures
            final(self)@.inv(),
            final(self)@ == (Shelf {
                parked: Shelf::kept(old(self)@.parked, rows(listing@)),
                ..old(self)@
            }),
            r@ == clients(Shelf::dropped(old(self)@.parked, rows(listing@))),
    {
        let ghost before = self@;
        let ghost has = |p: Spot| Shelf::listed(rows(listing@), p);
        let ghost hasnt = |p: Spot| !Shelf::listed(rows(listing@), p);
        let mut rest: Vec<Parked> = Vec::new();
        let mut gone: Vec<u64> = Vec::new();
        core::mem::swap(&mut rest, &mut self.parked);
        proof {
            reveal(Seq::filter);
            assert(before.parked.take(0) =~= Seq::empty());
            assert(self@.parked =~= before.parked.take(0).filter(has));
            assert(gone@ =~= clients(before.parked.take(0).filter(hasnt)));
            assert(before.parked =~= spots(rest@));
        }
        let ghost mut done: int = 0;
        while rest.len() > 0
            invariant
                0 <= done <= before.parked.len(),
                spots(rest@) == before.parked.skip(done),
                self.keeps == before.keeps,
                has == (|p: Spot| Shelf::listed(rows(listing@), p)),
                hasnt == (|p: Spot| !Shelf::listed(rows(listing@), p)),
                self@.parked == before.parked.take(done).filter(has),
                gone@ == clients(before.parked.take(done).filter(hasnt)),
            decreases rest@.len(),
        {
            let ghost old_rest = rest@;
            let ghost kept = self@.parked;
            let ghost dropped = gone@;
            let ghost all = spots(rest@);
            assert(all.len() == rest@.len());
            let parked: Parked = rest.remove(0);
            let ghost spot = parked.spot();
            proof {
                reveal(Seq::filter);
                assert(all[0] == old_rest[0].spot());
                assert(before.parked.skip(done)[0] == before.parked[done]);
                assert(spot == before.parked[done]);
                assert(before.parked.take(done + 1).drop_last() =~= before.parked.take(done));
                assert(before.parked.take(done + 1).last() == spot);
                assert(spots(rest@) =~= before.parked.skip(done + 1)) by {
                    assert forall|k: int| 0 <= k < rest@.len() implies rest@[k].spot()
                        == before.parked[done + 1 + k] by {
                        assert(all[k + 1] == old_rest[k + 1].spot());
                        assert(before.parked.skip(done)[k + 1] == before.parked[done + 1 + k]);
                    }
                }
            }
            if is_listed(listing, parked.session_id.as_str()) {
                assert(has(spot));
                self.parked.push(parked);
                assert(self@.parked =~= kept.push(spot));
            } else {
                assert(hasnt(spot));
                gone.push(parked.client);
                assert(clients(before.parked.take(done).filter(hasnt).push(spot)) =~= dropped.push(
                    parked.client,
                ));
            }
            proof {
                done = done + 1;
            }
        }
        proof {
            assert(before.parked.skip(done).len() == 0);
            assert(before.parked.take(done) =~= before.parked);
            lemma_filter_keeps_one_each(before.parked, has);
        }
        gone
    }

    /// Whether a live client is parked for this session.
    pub fn holds(&self, session_id: &str) -> (r: bool)
        ensures
            r == (self@.parked_for(session_id@) is Kept),
    {
        match self.find(session_id) {
            Some(at) => {
                assert(self@.parked[at as int] == self.parked@[at as int].spot());
                self.parked[at].alive
            },
            None => false,
        }
    }

    /// Whether anything is parked for this session, alive or not.
    pub fn has(&self, session_id: &str) -> (r: bool)
        ensures
            r == !(self@.parked_for(session_id@) is Absent),
    {
        self.find(session_id).is_some()
    }

    /// How many clients are parked, live or not yet let go of.
    pub fn len(&self) -> (r: usize)
        ensures
            r == self@.parked.len(),
    {
        self.parked.len()
    }

    /// Whether nothing is parked.
    pub fn is_empty(&self) -> (r: bool)
        ensures
            r == (self@.parked.len() == 0),
    {
        self.parked.len() == 0
    }

    /// Let go of every client, as when the program leaves.
    pub fn clear(&mut self) -> (r: Vec<u64>)
        ensures
            r@ == clients(old(self)@.parked),
            final(self)@ == (Shelf { parked: Seq::empty(), ..old(self)@ }),
    {
        let ghost before = self@;
        let mut gone: Vec<u64> = Vec::new();
        let mut i: usize = 0;
        while i < self.parked.len()
            invariant
                i <= self.parked@.len(),
                self@ == before,
                gone@ == clients(before.parked).take(i as int),
            decreases self.parked@.len() - i,
        {
            assert(before.parked[i as int] == self.parked@[i as int].spot());
            gone.push(self.parked[i].client);
            assert(clients(before.parked).take(i + 1) =~= clients(before.parked).take(
                i as int,
            ).push(before.parked[i as int].client));
            i += 1;
        }
        assert(clients(before.parked).take(i as int) =~= clients(before.parked));
        self.parked = Vec::new();
        assert(self@.parked =~= Seq::empty());
        gone
    }
}

/// Whether a listing has this session.
fn is_listed(listing: &[Session], id: &str) -> (r: bool)
    ensures
        r == exists|i: int| 0 <= i < rows(listing@).len() && #[trigger] rows(listing@)[i].id == id@,
{
    let mut i: usize = 0;
    while i < listing.len()
        invariant
            i <= listing@.len(),
            forall|j: int| 0 <= j < i ==> #[trigger] rows(listing@)[j].id != id@,
        decreases listing@.len() - i,
    {
        assert(rows(listing@)[i as int].id == listing@[i as int].id@);
        if equal_text(listing[i].id.as_str(), id) {
            return true;
        }
        i += 1;
    }
    false
}

/// A client that was parked comes back for its session, alive, and for that session once.
pub proof fn law_a_parked_client_is_taken_back(shelf: Shelf, session: Seq<char>, client: u64)
    requires
        shelf.inv(),
    ensures
        ({
            let after = shelf.aside(session, client);
            &&& after.inv()
            &&& after.find(session) matches Some(at) && after.parked[at] == (Spot {
                session,
                client,
                alive: true,
            })
            &&& after.without(session).find(session) is None
        }),
{
    lemma_without(shelf, session);
    let after = shelf.aside(session, client);
    let last = after.parked.len() - 1;
    assert forall|i: int, j: int|
        #![trigger after.parked[i], after.parked[j]]
        0 <= i < j < after.parked.len() implies after.parked[i].session
        != after.parked[j].session by {
        if j < last {
            assert(shelf.without(session).parked[i].session != shelf.without(
                session,
            ).parked[j].session);
        } else {
            assert(shelf.without(session).parked[i].session != session);
        }
    }
    lemma_place(after.parked, session, 0);
    assert(after.parked[last].session == session);
    let at = after.find(session)->0;
    if at < last {
        assert(shelf.without(session).parked[at].session != session);
    }
    lemma_without(after, session);
    lemma_place(after.without(session).parked, session, 0);
}

/// Parking or taking a client leaves the other sessions' clients as they were.
pub proof fn law_other_sessions_keep_their_clients(
    shelf: Shelf,
    session: Seq<char>,
    client: u64,
    spot: Spot,
)
    requires
        shelf.inv(),
        shelf.parked.contains(spot),
        spot.session != session,
    ensures
        shelf.without(session).parked.contains(spot),
        shelf.aside(session, client).parked.contains(spot),
{
    let i = choose|i: int| 0 <= i < shelf.parked.len() && shelf.parked[i] == spot;
    lemma_place(shelf.parked, session, 0);
    let after = shelf.without(session);
    let k = match shelf.find(session) {
        Some(at) => if i < at {
            i
        } else {
            i - 1
        },
        None => i,
    };
    assert(after.parked[k] == spot);
    assert(shelf.aside(session, client).parked[k] == spot);
}

/// A fresh listing keeps exactly the clients whose session it has, and lets go of exactly the
/// others: none is lost and none is both.
pub proof fn law_a_listing_parts_the_clients(parked: Seq<Spot>, listing: Seq<Row>, spot: Spot)
    ensures
        Shelf::kept(parked, listing).contains(spot) <==> parked.contains(spot) && exists|i: int|
            0 <= i < listing.len() && (#[trigger] listing[i]).id == spot.session,
        Shelf::dropped(parked, listing).contains(spot) <==> parked.contains(spot) && forall|i: int|
            0 <= i < listing.len() ==> (#[trigger] listing[i]).id != spot.session,
        Shelf::kept(parked, listing).len() + Shelf::dropped(parked, listing).len() == parked.len(),
    decreases parked.len(),
{
    reveal(Seq::filter);
    let keep = |p: Spot| Shelf::listed(listing, p);
    let lose = |p: Spot| !Shelf::listed(listing, p);
    if parked.len() == 0 {
        assert(parked.filter(keep) =~= Seq::<Spot>::empty());
        assert(parked.filter(lose) =~= Seq::<Spot>::empty());
    } else {
        let rest = parked.drop_last();
        let last = parked.last();
        law_a_listing_parts_the_clients(rest, listing, spot);
        assert(parked =~= rest.push(last));
        lemma_contains_push(rest, last, spot);
        lemma_contains_push(rest.filter(keep), last, spot);
        lemma_contains_push(rest.filter(lose), last, spot);
    }
}

proof fn lemma_contains_push(s: Seq<Spot>, last: Spot, spot: Spot)
    ensures
        s.push(last).contains(spot) <==> s.contains(spot) || last == spot,
{
    let t = s.push(last);
    if s.contains(spot) {
        let i = choose|i: int| 0 <= i < s.len() && s[i] == spot;
        assert(t[i] == spot);
    }
    if last == spot {
        assert(t[s.len() as int] == spot);
    }
    if t.contains(spot) {
        let i = choose|i: int| 0 <= i < t.len() && t[i] == spot;
        if i < s.len() {
            assert(s[i] == spot);
        }
    }
}

/// The client found for a session is that session's, and one is found wherever one is parked for
/// it; taking it out leaves one fewer.
pub proof fn law_a_client_is_found_by_its_session(shelf: Shelf, session: Seq<char>)
    ensures
        match shelf.find(session) {
            Some(at) => {
                &&& 0 <= at < shelf.parked.len()
                &&& shelf.parked[at].session == session
                &&& shelf.without(session).parked.len() == shelf.parked.len() - 1
            },
            None => {
                &&& forall|i: int|
                    0 <= i < shelf.parked.len() ==> (#[trigger] shelf.parked[i]).session != session
                &&& shelf.without(session) == shelf
            },
        },
        shelf.without(session).keeps == shelf.keeps,
{
    lemma_place_is_its(shelf.parked, session, 0);
}

proof fn lemma_place_is_its(parked: Seq<Spot>, session: Seq<char>, from: int)
    requires
        0 <= from <= parked.len(),
    ensures
        match place(parked, session, from) {
            Some(at) => from <= at < parked.len() && parked[at].session == session,
            None => forall|i: int|
                from <= i < parked.len() ==> (#[trigger] parked[i]).session != session,
        },
    decreases parked.len() - from,
{
    if from < parked.len() && parked[from].session != session {
        lemma_place_is_its(parked, session, from + 1);
    }
}

/// No client is lost: of a pool that takes one in, every client that was parked still is or is
/// let go of, and the one taken in is parked for its session, alive, or let go of. Only its own
/// session's earlier client makes room.
pub proof fn law_no_client_is_lost(
    shelf: Shelf,
    session: Seq<char>,
    client: u64,
    parks: bool,
    spot: Spot,
)
    requires
        shelf.inv(),
        shelf.parked.contains(spot),
    ensures
        ({
            let (after, gone) = shelf.set_down(session, client, parks);
            &&& spot.session != session ==> after.parked.contains(spot)
            &&& spot.session == session ==> gone.contains(spot.client)
            &&& parks ==> after.parked_for(session) == Taken::Kept(client)
            &&& !parks ==> gone.contains(client) && after.parked_for(session) == Taken::Absent
            &&& after.keeps == shelf.keeps
        }),
{
    law_a_parked_client_is_taken_back(shelf, session, client);
    law_a_client_is_found_by_its_session(shelf, session);
    if spot.session != session {
        law_other_sessions_keep_their_clients(shelf, session, client, spot);
    } else {
        let i = choose|i: int| 0 <= i < shelf.parked.len() && shelf.parked[i] == spot;
        assert(shelf.parked[i].session == session);
        let at = shelf.find(session)->0;
        assert(shelf.parked[at].session == session);
        assert(at == i);
        let earlier = seq![spot.client];
        assert(earlier[0] == spot.client);
        assert(earlier.push(client)[0] == spot.client);
    }
    let (after, gone) = shelf.set_down(session, client, parks);
    if !parks {
        assert(gone.last() == client);
        assert(gone[gone.len() - 1] == client);
        lemma_without(shelf, session);
        lemma_gone_is_gone(shelf, session);
    }
}

proof fn lemma_gone_is_gone(shelf: Shelf, session: Seq<char>)
    requires
        shelf.inv(),
    ensures
        shelf.without(session).find(session) is None,
{
    let after = shelf.without(session);
    law_a_client_is_found_by_its_session(shelf, session);
    law_a_client_is_found_by_its_session(after, session);
    if let Some(k) = after.find(session) {
        let at = shelf.find(session)->0;
        let j = if k < at {
            k
        } else {
            k + 1
        };
        assert(after.parked[k] == shelf.parked[j]);
        assert(shelf.parked[j].session == session && shelf.parked[at].session == session);
    }
}

/// A pool that keeps clients takes in every one whose startup is over, and one that does not
/// hands every one back.
pub proof fn law_what_a_pool_takes_in(shelf: Shelf, parkable: bool)
    ensures
        !shelf.keeps ==> shelf.hands_back(parkable),
        shelf.keeps ==> shelf.hands_back(parkable) == !parkable,
{
}

/// A client that has left by itself is found to have left, and every other is as it was.
pub proof fn law_only_the_client_that_left_is_gone(shelf: Shelf, client: u64, i: int)
    requires
        0 <= i < shelf.parked.len(),
    ensures
        ({
            let after = shelf.without_life(client);
            &&& after.parked.len() == shelf.parked.len()
            &&& after.parked[i].session == shelf.parked[i].session
            &&& after.parked[i].client == shelf.parked[i].client
            &&& shelf.parked[i].client == client ==> !after.parked[i].alive
            &&& shelf.parked[i].client != client ==> after.parked[i] == shelf.parked[i]
            &&& after.keeps == shelf.keeps
        }),
{
}

} // verus!
