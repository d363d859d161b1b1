//! The alternation between the picker and an attached session, until the user leaves.
//!
//! [`SessionLoop`] decides; whoever drives it performs each [`Action`] and reports what came of
//! it. A client is carried across the screens that come back to its session, so the picker, the
//! prompt and the help return to the same client rather than starting a new one.

use vstd::prelude::*;

use crate::cli::Location;
use crate::error::{duration_text, spell_duration, NvmuxError, RpcError};
use crate::session::{
    highest, highest_num, law_a_number_names_the_session_that_has_it, lemma_picked_is_named, named, pick, rows, Row, Session, Target,
};
use crate::text::{
    after_first_line, chars_of, equal_text, first_char, first_line,
    law_the_first_line_ends_at_a_line_feed, lemma_first_char, line_ends, string_of,
};

verus! {

/// A text with its lines put one behind the other, a dash between two.
pub open spec fn flattened(s: Seq<char>) -> Seq<char>
    decreases s.len(),
{
    proof {
        lemma_first_char(s, '\n', 0);
    }
    match first_line(s) {
        None => Seq::empty(),
        Some(line) => if after_first_line(s).len() == 0 {
            line
        } else {
            line + " — "@ + flattened(after_first_line(s))
        },
    }
}

/// A text on one line.
pub fn one_line_of(text: &str) -> (r: String)
    ensures
        r@ == flattened(text@),
{
    let s: Vec<char> = chars_of(text);
    let mut out: String = String::new();
    let mut from: usize = 0;
    assert(s@.skip(0) =~= s@);
    assert(out@ =~= Seq::empty());
    assert(Seq::<char>::empty() + flattened(s@) =~= flattened(s@));
    loop
        invariant
            from <= s@.len(),
            s@ == text@,
            flattened(s@) == out@ + flattened(s@.skip(from as int)),
        decreases s@.len() - from,
    {
        let rest: &[char] = vstd::slice::slice_subrange(&s, from, s.len());
        assert(rest@ =~= s@.skip(from as int));
        match line_ends(rest) {
            None => {
                assert(out@ + flattened(rest@) =~= out@);
                return out;
            },
            Some((end, next)) => {
                let ghost before = out@;
                let line: &[char] = vstd::slice::slice_subrange(rest, 0, end);
                assert(line@ =~= rest@.take(end as int));
                out.append(string_of(line).as_str());
                if next == rest.len() {
                    return out;
                }
                out.append(" — ");
                assert(rest@.skip(next as int) =~= s@.skip(from + next));
                assert(out@ + flattened(s@.skip(from + next)) =~= before + (line@ + " — "@
                    + flattened(rest@.skip(next as int))));
                from += next;
            },
        }
    }
}

/// An error collapsed to something that fits on one line.
pub fn one_line(e: &NvmuxError) -> (r: String)
    ensures
        r@ == flattened(e.text()),
{
    one_line_of(e.message().as_str())
}

/// Why an attach failed, in terms of what actually went wrong.
pub open spec fn attach_failure(location: Location, e: NvmuxError) -> Seq<char> {
    match (location, e) {
        (Location::Ssh(host), NvmuxError::Rpc(RpcError::ConnectionRefused(_))) =>
            "the connection to "@ + host@ + " dropped — press enter to retry"@,
        (Location::Ssh(host), NvmuxError::Rpc(RpcError::Reset)) =>
            "that session is no longer running on "@ + host@,
        (
            Location::Local,
            NvmuxError::Rpc(RpcError::ConnectionRefused(_)) | NvmuxError::Rpc(RpcError::Reset),
        ) => "that session is gone"@,
        (_, NvmuxError::Rpc(RpcError::Timeout(after))) =>
            "that session is busy and did not answer within "@ + duration_text(after),
        (_, other) => flattened(other.text()),
    }
}

/// Explain why an attach failed, in terms of what actually went wrong.
///
/// Over a connection to a host, a refusal means that the connection died, not the session; a
/// reset is the session. Here a refusal is the session itself.
pub fn describe_attach_failure(location: &Location, e: &NvmuxError) -> (r: String)
    ensures
        r@ == attach_failure(*location, *e),
{
    match e {
        NvmuxError::Rpc(RpcError::ConnectionRefused(_)) => match location {
            Location::Ssh(host) => {
                let mut s: String = String::from_str("the connection to ");
                s.append(host.as_str());
                s.append(" dropped — press enter to retry");
                s
            },
            Location::Local => String::from_str("that session is gone"),
        },
        NvmuxError::Rpc(RpcError::Reset) => match location {
            Location::Ssh(host) => {
                let mut s: String = String::from_str("that session is no longer running on ");
                s.append(host.as_str());
                s
            },
            Location::Local => String::from_str("that session is gone"),
        },
        NvmuxError::Rpc(RpcError::Timeout(after)) => {
            let mut s: String = String::from_str("that session is busy and did not answer within ");
            s.append(spell_duration(*after).as_str());
            s
        },
        other => one_line(other),
    }
}

/// Why a switch could not find out what to switch to.
pub open spec fn listing_failure(e: NvmuxError) -> Seq<char> {
    "could not list sessions: "@ + flattened(e.text())
}

/// Explain why a switch could not find out what to switch to.
pub fn describe_listing_failure(e: &NvmuxError) -> (r: String)
    ensures
        r@ == listing_failure(*e),
{
    let mut s: String = String::from_str("could not list sessions: ");
    s.append(one_line(e).as_str());
    s
}

/// What the loop is waiting to hear of.
#[derive(Clone, Copy, Debug, PartialEq, Eq, Structural)]
pub enum Phase {
    Picking,
    Opening,
    Relaying,
    Prompting,
    Helping,
    /// A fresh listing, for a switch that the one in hand does not have.
    Listing(Target),
    Over,
}

/// How a client for the session is come by.
#[derive(Clone, Copy, Debug, PartialEq, Eq, Structural)]
pub enum How {
    /// The client in hand is that session's.
    Reuse,
    /// The client in hand is another's: hang it up, start one, and let go of the old one.
    Replace,
    /// There is none: start one.
    Start,
}

/// How a relay ended.
#[derive(Clone, Copy, Debug, PartialEq, Eq, Structural)]
pub enum Outcome {
    ToPicker,
    Detached,
    StdinClosed,
    ChildExited,
    CreateNew,
    ShowHelp,
    Switch(Target),
}

/// What is to be done next.
pub enum Action {
    /// Show the picker: with this message, the cursor here, a way back if there is a client, and
    /// this listing to draw while it lists afresh.
    Pick {
        message: Option<String>,
        focus: Option<String>,
        back: bool,
        in_hand: Option<Vec<Session>>,
    },
    /// Come by a client for this session.
    Open { how: How, session: Session },
    /// Relay, told the highest number there is.
    Relay { highest: u32 },
    /// Ask for a new session.
    Prompt,
    /// Show the keys.
    Help,
    /// List the sessions.
    List,
    /// Leave, retiring the client in hand if there is one.
    Leave { retire: bool },
}

/// What is to be done next, as a value.
#[verifier::ext_equal]
pub enum Act {
    Pick {
        message: Option<Seq<char>>,
        focus: Option<Seq<char>>,
        back: bool,
        in_hand: Option<Seq<Row>>,
    },
    Open { how: How, session: Row },
    Relay { highest: u32 },
    Prompt,
    Help,
    List,
    Leave { retire: bool },
}

/// The text of an optional string.
pub open spec fn text_of(s: Option<String>) -> Option<Seq<char>> {
    match s {
        Some(s) => Some(s@),
        None => None,
    }
}

impl Action {
    pub open spec fn act(self) -> Act {
        match self {
            Action::Pick { message, focus, back, in_hand } => Act::Pick {
                message: text_of(message),
                focus: text_of(focus),
                back,
                in_hand: match in_hand {
                    Some(sessions) => Some(rows(sessions@)),
                    None => None,
                },
            },
            Action::Open { how, session } => Act::Open { how, session: session@ },
            Action::Relay { highest } => Act::Relay { highest },
            Action::Prompt => Act::Prompt,
            Action::Help => Act::Help,
            Action::List => Act::List,
            Action::Leave { retire } => Act::Leave { retire },
        }
    }
}

/// Where the loop is, as a value.
#[verifier::ext_equal]
pub struct Scene {
    /// The session of the client in hand, when one is held between two screens.
    pub held: Option<Seq<char>>,
    /// The session in front.
    pub current: Row,
    /// The listing in hand.
    pub listing: Seq<Row>,
    /// The highest number in it.
    pub highest: u32,
    pub phase: Phase,
}

impl Scene {
    /// The listing's highest number is known.
    pub open spec fn inv(self) -> bool {
        self.highest == highest(self.listing)
    }

    /// On to a client for the session in front.
    pub open spec fn opening(self) -> (Scene, Act) {
        let how = match self.held {
            None => How::Start,
            Some(id) => if id == self.current.id {
                How::Reuse
            } else {
                How::Replace
            },
        };
        (
            Scene { held: None, phase: Phase::Opening, ..self },
            Act::Open { how, session: self.current },
        )
    }

    /// Back to the picker, with the cursor on the session that was in front.
    pub open spec fn to_picker(self, message: Option<Seq<char>>) -> (Scene, Act) {
        (
            Scene { listing: Seq::empty(), highest: 0, phase: Phase::Picking, ..self },
            Act::Pick {
                message,
                focus: Some(self.current.id),
                back: self.held is Some,
                in_hand: Some(self.listing),
            },
        )
    }

    pub open spec fn leaving(self, retire: bool) -> (Scene, Act) {
        (Scene { held: None, phase: Phase::Over, ..self }, Act::Leave { retire })
    }

    /// With the client handed back, if one was.
    pub open spec fn holding(self, held: bool) -> Scene {
        Scene {
            held: if held {
                Some(self.current.id)
            } else {
                None
            },
            ..self
        }
    }

    /// On to the session a switch names, where the listing in hand has it.
    pub open spec fn switched(self, target: Target) -> Option<Scene> {
        match named(self.listing, target, self.current.num) {
            Some(at) => Some(Scene { current: self.listing[at], ..self }),
            None => None,
        }
    }

    /// After a relay.
    pub open spec fn relayed(self, outcome: Outcome, held: bool) -> (Scene, Act) {
        let kept = self.holding(held);
        match outcome {
            Outcome::ToPicker => kept.to_picker(None),
            Outcome::Detached | Outcome::StdinClosed => self.leaving(false),
            Outcome::ChildExited => self.holding(false).to_picker(None),
            Outcome::CreateNew => (Scene { phase: Phase::Prompting, ..kept }, Act::Prompt),
            Outcome::ShowHelp => (Scene { phase: Phase::Helping, ..kept }, Act::Help),
            Outcome::Switch(target) => match kept.switched(target) {
                Some(there) => there.opening(),
                None => (Scene { phase: Phase::Listing(target), ..kept }, Act::List),
            },
        }
    }

    /// After the prompt: in front of the session it created, which the listing now has too, or
    /// back where it was opened from.
    pub open spec fn prompted(self, created: Option<Row>) -> (Scene, Act) {
        match created {
            Some(session) => (Scene {
                highest: if session.num > self.highest {
                    session.num
                } else {
                    self.highest
                },
                listing: self.listing.push(session),
                current: session,
                ..self
            }).opening(),
            None => self.opening(),
        }
    }

    /// After a fresh listing: on to the session the switch names, or back where it was asked
    /// for from.
    pub open spec fn listed(self, fresh: Seq<Row>, target: Target) -> (Scene, Act) {
        let scene = Scene { listing: fresh, highest: highest(fresh), ..self };
        match scene.switched(target) {
            Some(there) => there.opening(),
            None => scene.opening(),
        }
    }
}

/// Where the loop is.
pub struct SessionLoop {
    location: Location,
    held: Option<String>,
    current: Session,
    listing: Vec<Session>,
    highest: u32,
    phase: Phase,
}

impl View for SessionLoop {
    type V = Scene;

    closed spec fn view(&self) -> Scene {
        Scene {
            held: text_of(self.held),
            current: self.current@,
            listing: rows(self.listing@),
            highest: self.highest,
            phase: self.phase,
        }
    }
}

proof fn lemma_highest_of_pushed(listing: Seq<Row>, row: Row)
    ensures
        highest(listing.push(row)) == if row.num > highest(listing) {
            row.num
        } else {
            highest(listing)
        },
{
    assert(listing.push(row).drop_last() =~= listing);
}

impl SessionLoop {
    /// Where sessions are managed.
    pub closed spec fn place(self) -> Location {
        self.location
    }

    /// The first screen: the picker, with nothing behind it.
    pub fn start(location: Location) -> (r: (SessionLoop, Action))
        ensures
            r.0@.inv(),
            r.0.place() == location,
            r.0@.held is None,
            r.0@.phase == Phase::Picking,
            r.0@.listing == Seq::<Row>::empty(),
            r.1.act() == (Act::Pick { message: None, focus: None, back: false, in_hand: None }),
    {
        let scene: SessionLoop = SessionLoop {
            location,
            held: None,
            current: Session::new(String::new(), String::new(), 0, 0),
            listing: Vec::new(),
            highest: 0,
            phase: Phase::Picking,
        };
        assert(scene@.listing =~= Seq::empty());
        (scene, Action::Pick { message: None, focus: None, back: false, in_hand: None })
    }

    /// On to a client for the session in front.
    fn open(&mut self) -> (r: Action)
        ensures
            final(self)@ == old(self)@.opening().0,
            r.act() == old(self)@.opening().1,
            final(self).place() == old(self).place(),
    {
        let how: How = match &self.held {
            None => How::Start,
            Some(id) => if equal_text(id.as_str(), self.current.id.as_str()) {
                How::Reuse
            } else {
                How::Replace
            },
        };
        self.held = None;
        self.phase = Phase::Opening;
        Action::Open { how, session: self.current.copy() }
    }

    /// Back to the picker.
    fn to_picker(&mut self, message: Option<String>) -> (r: Action)
        ensures
            final(self)@ == old(self)@.to_picker(text_of(message)).0,
            r.act() == old(self)@.to_picker(text_of(message)).1,
            final(self).place() == old(self).place(),
    {
        let mut listing: Vec<Session> = Vec::new();
        core::mem::swap(&mut listing, &mut self.listing);
        self.highest = 0;
        self.phase = Phase::Picking;
        assert(self@.listing =~= Seq::empty());
        Action::Pick {
            message,
            focus: Some(String::from_str(self.current.id.as_str())),
            back: self.held.is_some(),
            in_hand: Some(listing),
        }
    }

    /// The user left the picker for good.
    pub fn quit(&mut self) -> (r: Action)
        requires
            old(self)@.inv(),
            old(self)@.phase == Phase::Picking,
        ensures
            final(self)@.inv(),
            final(self)@ == old(self)@.leaving(old(self)@.held is Some).0,
            r.act() == old(self)@.leaving(old(self)@.held is Some).1,
            final(self).place() == old(self).place(),
    {
        let retire: bool = self.held.is_some();
        self.held = None;
        self.phase = Phase::Over;
        Action::Leave { retire }
    }

    /// The user picked a session, from this listing.
    pub fn picked(&mut self, session: Session, sessions: Vec<Session>) -> (r: Action)
        requires
            old(self)@.inv(),
            old(self)@.phase == Phase::Picking,
        ensures
            final(self)@.inv(),
            ({
                let there = Scene {
                    current: session@,
                    listing: rows(sessions@),
                    highest: highest(rows(sessions@)),
                    ..old(self)@
                };
                &&& final(self)@ == there.opening().0
                &&& r.act() == there.opening().1
            }),
            final(self).place() == old(self).place(),
    {
        self.highest = highest_num(sessions.as_slice());
        self.current = session;
        self.listing = sessions;
        self.open()
    }

    /// A client for the session in front is there, or it is not, and this is why. A failed
    /// attach does not end the program: the user can only act on it from the picker, with the
    /// reason on screen.
    pub fn opened(&mut self, result: Result<(), NvmuxError>) -> (r: Action)
        requires
            old(self)@.inv(),
            old(self)@.phase == Phase::Opening,
        ensures
            final(self)@.inv(),
            match result {
                Ok(_) => {
                    &&& final(self)@ == (Scene { phase: Phase::Relaying, ..old(self)@ })
                    &&& r.act() == (Act::Relay { highest: old(self)@.highest })
                },
                Err(e) => {
                    let after = old(self)@.to_picker(Some(attach_failure(old(self).place(), e)));
                    &&& final(self)@ == after.0
                    &&& r.act() == after.1
                },
            },
            final(self).place() == old(self).place(),
    {
        match result {
            Ok(_) => {
                self.phase = Phase::Relaying;
                Action::Relay { highest: self.highest }
            },
            Err(e) => {
                let message: String = describe_attach_failure(&self.location, &e);
                self.to_picker(Some(message))
            },
        }
    }

    /// With the client handed back, if one was.
    fn hold(&mut self, held: bool)
        ensures
            final(self)@ == old(self)@.holding(held),
            final(self).place() == old(self).place(),
    {
        self.held = if held {
            Some(String::from_str(self.current.id.as_str()))
        } else {
            None
        };
    }

    /// On to the session a switch names, if the listing in hand has it.
    fn switch(&mut self, target: Target) -> (r: bool)
        ensures
            match old(self)@.switched(target) {
                Some(there) => r && final(self)@ == there,
                None => !r && final(self)@ == old(self)@,
            },
            final(self).place() == old(self).place(),
    {
        let ghost before = self@;
        match pick(self.listing.as_slice(), target, self.current.state.num) {
            Some(at) => {
                proof {
                    lemma_picked_is_named(
                        before.listing,
                        target,
                        before.current.num,
                        Some(at as int),
                    );
                    assert(before.listing[at as int] == self.listing@[at as int]@);
                }
                self.current = self.listing[at].copy();
                true
            },
            None => {
                proof {
                    lemma_picked_is_named(before.listing, target, before.current.num, None);
                }
                false
            },
        }
    }

    /// The relay ended, and handed the client back or not.
    pub fn relayed(&mut self, outcome: Outcome, held: bool) -> (r: Action)
        requires
            old(self)@.inv(),
            old(self)@.phase == Phase::Relaying,
        ensures
            final(self)@.inv(),
            final(self)@ == old(self)@.relayed(outcome, held).0,
            r.act() == old(self)@.relayed(outcome, held).1,
            final(self).place() == old(self).place(),
    {
        match outcome {
            Outcome::ToPicker => {
                self.hold(held);
                self.to_picker(None)
            },
            Outcome::Detached | Outcome::StdinClosed => {
                self.held = None;
                self.phase = Phase::Over;
                Action::Leave { retire: false }
            },
            Outcome::ChildExited => {
                self.held = None;
                self.to_picker(None)
            },
            Outcome::CreateNew => {
                self.hold(held);
                self.phase = Phase::Prompting;
                Action::Prompt
            },
            Outcome::ShowHelp => {
                self.hold(held);
                self.phase = Phase::Helping;
                Action::Help
            },
            Outcome::Switch(target) => {
                self.hold(held);
                if self.switch(target) {
                    self.open()
                } else {
                    self.phase = Phase::Listing(target);
                    Action::List
                }
            },
        }
    }

    /// The prompt ended, with a session created or not.
    pub fn prompted(&mut self, created: Option<Session>) -> (r: Action)
        requires
            old(self)@.inv(),
            old(self)@.phase == Phase::Prompting,
        ensures
            final(self)@.inv(),
            ({
                let row = match created {
                    Some(session) => Some(session@),
                    None => None,
                };
                &&& final(self)@ == old(self)@.prompted(row).0
                &&& r.act() == old(self)@.prompted(row).1
            }),
            final(self).place() == old(self).place(),
    {
        if let Some(session) = created {
            let ghost before = self@;
            if session.state.num > self.highest {
                self.highest = session.state.num;
            }
            self.listing.push(session.copy());
            proof {
                lemma_highest_of_pushed(before.listing, session@);
                assert(self@.listing =~= before.listing.push(session@));
            }
            self.current = session;
        }
        self.open()
    }

    /// The keys were shown.
    pub fn help_closed(&mut self) -> (r: Action)
        requires
            old(self)@.inv(),
            old(self)@.phase == Phase::Helping,
        ensures
            final(self)@.inv(),
            final(self)@ == old(self)@.opening().0,
            r.act() == old(self)@.opening().1,
            final(self).place() == old(self).place(),
    {
        self.open()
    }

    /// The sessions were listed for a switch that the listing in hand does not have, or could
    /// not be.
    pub fn listed(&mut self, result: Result<Vec<Session>, NvmuxError>) -> (r: Action)
        requires
            old(self)@.inv(),
            old(self)@.phase is Listing,
        ensures
            final(self)@.inv(),
            match result {
                Ok(fresh) => {
                    let after = old(self)@.listed(rows(fresh@), old(self)@.phase->Listing_0);
                    &&& final(self)@ == after.0
                    &&& r.act() == after.1
                },
                Err(e) => {
                    let after = old(self)@.to_picker(Some(listing_failure(e)));
                    &&& final(self)@ == after.0
                    &&& r.act() == after.1
                },
            },
            final(self).place() == old(self).place(),
    {
        match result {
            Ok(fresh) => {
                self.highest = highest_num(fresh.as_slice());
                self.listing = fresh;
                if let Phase::Listing(target) = self.phase {
                    self.switch(target);
                }
                self.open()
            },
            Err(e) => {
                let message: String = describe_listing_failure(&e);
                self.to_picker(Some(message))
            },
        }
    }
}

/// A prompt that created nothing, and the keys once shown, come back to the very client they
/// were opened from.
pub proof fn law_a_detour_comes_back_to_its_client(scene: Scene)
    ensures
        scene.relayed(Outcome::CreateNew, true).0.prompted(None).1 == (Act::Open {
            how: How::Reuse,
            session: scene.current,
        }),
        scene.relayed(Outcome::ShowHelp, true).0.opening().1 == (Act::Open {
            how: How::Reuse,
            session: scene.current,
        }),
{
}

/// A switch that names nothing, even in a fresh listing, puts the user straight back where they
/// were, with the same client.
pub proof fn law_a_switch_to_nothing_changes_nothing(
    scene: Scene,
    target: Target,
    fresh: Seq<Row>,
)
    requires
        named(scene.listing, target, scene.current.num) is None,
        named(fresh, target, scene.current.num) is None,
    ensures
        ({
            let asked = scene.relayed(Outcome::Switch(target), true);
            &&& asked.1 == Act::List
            &&& asked.0.listed(fresh, target).1 == (Act::Open {
                how: How::Reuse,
                session: scene.current,
            })
            &&& asked.0.listed(fresh, target).0.current == scene.current
        }),
{
}

/// A switch to another session replaces the client; one to the session in front keeps it.
pub proof fn law_a_switch_replaces_the_client(scene: Scene, target: Target)
    requires
        named(scene.listing, target, scene.current.num) is Some,
    ensures
        ({
            let there = scene.listing[named(scene.listing, target, scene.current.num)->0];
            let switched = scene.relayed(Outcome::Switch(target), true);
            &&& switched.0.current == there
            &&& switched.1 == (Act::Open {
                how: if there.id == scene.current.id {
                    How::Reuse
                } else {
                    How::Replace
                },
                session: there,
            })
        }),
{
}

/// A created session is in front, can be found by its number from there on, and is never
/// numbered above what the relay is told.
pub proof fn law_a_created_session_can_be_reached(scene: Scene, created: Row)
    requires
        scene.inv(),
        forall|i: int|
            0 <= i < scene.listing.len() ==> (#[trigger] scene.listing[i]).num != created.num,
    ensures
        ({
            let after = scene.prompted(Some(created)).0;
            &&& after.current == created
            &&& after.highest >= created.num
            &&& named(after.listing, Target::Number(created.num), after.current.num) == Some(
                scene.listing.len() as int,
            )
            &&& after.listing[scene.listing.len() as int] == created
        }),
{
    let after = scene.prompted(Some(created)).0;
    lemma_numbered_last(after.listing, created.num, 0);
}

proof fn lemma_numbered_last(listing: Seq<Row>, num: u32, i: int)
    requires
        0 <= i < listing.len(),
        listing.last().num == num,
        forall|j: int| 0 <= j < listing.len() - 1 ==> (#[trigger] listing[j]).num != num,
    ensures
        crate::session::numbered(listing, num, i) == Some(listing.len() - 1),
    decreases listing.len() - i,
{
    if i < listing.len() - 1 {
        assert(listing[i].num != num);
        lemma_numbered_last(listing, num, i + 1);
    }
}

/// Every way back to the picker that is not the user's own choice to leave puts the cursor on
/// the session that was in front, and gives the picker the listing in hand to draw from.
pub proof fn law_the_picker_opens_where_the_user_was(scene: Scene, message: Option<Seq<char>>)
    ensures
        scene.to_picker(message).1 matches Act::Pick { message: m, focus, back, in_hand } && m
            == message && focus == Some(scene.current.id) && back == (scene.held is Some)
            && in_hand == Some(scene.listing),
        scene.relayed(Outcome::ToPicker, true).1->back,
        !scene.relayed(Outcome::ChildExited, true).1->back,
{
}

/// A text on one line has no line feed in it.
pub proof fn law_one_line_is_one_line(s: Seq<char>)
    ensures
        !flattened(s).contains('\n'),
    decreases s.len(),
{
    reveal_strlit(" — ");
    if s.len() > 0 {
        let end = first_char(s, '\n', 0);
        lemma_first_char(s, '\n', 0);
        let line = first_line(s)->0;
        assert forall|i: int| 0 <= i < line.len() implies line[i] != '\n' by {
            assert(line[i] == s[i]);
        }
        let rest = after_first_line(s);
        if rest.len() > 0 {
            assert(rest.len() < s.len());
            law_one_line_is_one_line(rest);
            let tail = flattened(rest);
            let all = line + " — "@ + tail;
            assert forall|i: int| 0 <= i < all.len() implies all[i] != '\n' by {
                if i >= line.len() + 3 {
                    assert(all[i] == tail[i - line.len() - 3]);
                    assert(tail.contains(tail[i - line.len() - 3]));
                }
            }
            assert(flattened(s) == all);
        }
    }
}

/// Every way a relay ends goes where it says: detaching, or the end of the input, leaves and
/// retires nothing; the picker can go back to a client that was handed back, and to none whose
/// session ended; and creating and the help have their own screens. The session in front stays
/// in front.
pub proof fn law_each_outcome_goes_where_it_says(scene: Scene, held: bool)
    ensures
        scene.relayed(Outcome::Detached, held).1 == (Act::Leave { retire: false }),
        scene.relayed(Outcome::StdinClosed, held).1 == (Act::Leave { retire: false }),
        scene.relayed(Outcome::Detached, held).0.phase == Phase::Over,
        scene.relayed(Outcome::StdinClosed, held).0.phase == Phase::Over,
        scene.relayed(Outcome::ToPicker, held).1 matches Act::Pick { back, message, .. } && back
            == held && message is None,
        scene.relayed(Outcome::ChildExited, held).1 matches Act::Pick { back, message, .. } && !back
            && message is None,
        scene.relayed(Outcome::CreateNew, held).1 == Act::Prompt,
        scene.relayed(Outcome::CreateNew, held).0.phase == Phase::Prompting,
        scene.relayed(Outcome::ShowHelp, held).1 == Act::Help,
        scene.relayed(Outcome::ShowHelp, held).0.phase == Phase::Helping,
        scene.relayed(Outcome::ToPicker, held).0.phase == Phase::Picking,
        scene.relayed(Outcome::ChildExited, held).0.phase == Phase::Picking,
        scene.relayed(Outcome::ToPicker, held).0.current == scene.current,
        scene.relayed(Outcome::CreateNew, held).0.current == scene.current,
        scene.relayed(Outcome::ShowHelp, held).0.current == scene.current,
        scene.relayed(Outcome::ToPicker, held).0.held == if held {
            Some(scene.current.id)
        } else {
            None
        },
        scene.relayed(Outcome::ChildExited, held).0.held is None,
{
}

/// A switch to a number that a session in the listing has puts a session with that number in
/// front; otherwise the sessions are listed afresh, and one with that number in the fresh
/// listing is in front.
pub proof fn law_a_switch_goes_to_its_number(scene: Scene, num: u32, held: bool, fresh: Seq<Row>)
    ensures
        ({
            let (after, act) = scene.relayed(Outcome::Switch(Target::Number(num)), held);
            if exists|i: int| 0 <= i < scene.listing.len() && (#[trigger] scene.listing[i]).num
                == num {
                &&& after.current.num == num
                &&& scene.listing.contains(after.current)
                &&& act matches Act::Open { session, .. } && session == after.current
            } else {
                &&& act == Act::List
                &&& after.phase == Phase::Listing(Target::Number(num))
                &&& after.current == scene.current
            }
        }),
        ({
            let (after, act) = scene.listed(fresh, Target::Number(num));
            &&& act matches Act::Open { session, .. } && session == after.current
            &&& after.listing == fresh
            &&& if exists|i: int| 0 <= i < fresh.len() && (#[trigger] fresh[i]).num == num {
                after.current.num == num && fresh.contains(after.current)
            } else {
                after.current == scene.current
            }
        }),
{
    law_a_number_names_the_session_that_has_it(scene.listing, num, scene.current.num);
    law_a_number_names_the_session_that_has_it(fresh, num, scene.current.num);
    if let Some(at) = named(scene.listing, Target::Number(num), scene.current.num) {
        assert(scene.listing[at].num == num);
    }
    if let Some(at) = named(fresh, Target::Number(num), scene.current.num) {
        assert(fresh[at].num == num);
    }
}

/// A client is come by in the way that fits what is in hand: started where there is none, used
/// again where it is that session's, and replaced where it is another's; and it is let go of
/// from the loop's hand with the session in front unchanged.
pub proof fn law_a_client_is_come_by_as_fits(scene: Scene)
    ensures
        ({
            let (after, act) = scene.opening();
            &&& act matches Act::Open { how, session } && session == scene.current && {
                &&& how == How::Start <==> scene.held is None
                &&& how == How::Reuse <==> scene.held == Some(scene.current.id)
            }
            &&& after.held is None
            &&& after.phase == Phase::Opening
            &&& after.current == scene.current
            &&& after.listing == scene.listing
            &&& after.highest == scene.highest
        }),
{
}

/// Lines are put one behind the other with a dash between them: a text of one line is itself,
/// and a line in front of others is followed by the dash and by what the others come to.
pub proof fn law_lines_are_joined_by_a_dash(line: Seq<char>, rest: Seq<char>)
    requires
        !line.contains('\n'),
        line.len() > 0 ==> line.last() != '\r',
        rest.len() > 0,
    ensures
        flattened(line + seq!['\n'] + rest) == line + " — "@ + flattened(rest),
        flattened(line) == line,
{
    law_the_first_line_ends_at_a_line_feed(line, rest);
    if line.len() == 0 {
        assert(flattened(line) =~= line);
    }
}

/// What the user reads of a failed attach says which it was: over a connection it names the
/// host, and tells a connection that dropped from a session that ended; here both are a session
/// that is gone; and one that did not answer in time is busy.
pub proof fn law_a_failed_attach_says_which_it_was(
    host: String,
    why: String,
    after: crate::clock::Duration,
)
    ensures
        ({
            let dropped = attach_failure(
                Location::Ssh(host),
                NvmuxError::Rpc(RpcError::ConnectionRefused(why)),
            );
            let ended = attach_failure(Location::Ssh(host), NvmuxError::Rpc(RpcError::Reset));
            let gone = attach_failure(
                Location::Local,
                NvmuxError::Rpc(RpcError::ConnectionRefused(why)),
            );
            &&& dropped == "the connection to "@ + host@ + " dropped — press enter to retry"@
            &&& ended == "that session is no longer running on "@ + host@
            &&& gone == "that session is gone"@
            &&& gone == attach_failure(Location::Local, NvmuxError::Rpc(RpcError::Reset))
            &&& attach_failure(Location::Local, NvmuxError::Rpc(RpcError::Timeout(after)))
                == attach_failure(Location::Ssh(host), NvmuxError::Rpc(RpcError::Timeout(after)))
            &&& attach_failure(Location::Local, NvmuxError::Rpc(RpcError::Timeout(after)))
                == "that session is busy and did not answer within "@ + duration_text(after)
        }),
{
}

/// Leaving ends the loop with nothing in hand, and retires a client exactly where told to.
pub proof fn law_leaving_ends_the_loop(scene: Scene, retire: bool)
    ensures
        scene.leaving(retire).1 == (Act::Leave { retire }),
        scene.leaving(retire).0.phase == Phase::Over,
        scene.leaving(retire).0.held is None,
{
}

/// What a client that was handed back is held for is the session in front.
pub proof fn law_a_held_client_is_the_one_in_front(scene: Scene)
    ensures
        scene.holding(true).held == Some(scene.current.id),
        scene.holding(false).held is None,
        scene.holding(true).current == scene.current,
        scene.holding(true).listing == scene.listing,
{
}

/// A listing that failed is said to have failed, with why, on one line.
pub proof fn law_a_failed_listing_says_why(e: NvmuxError)
    ensures
        listing_failure(e) == "could not list sessions: "@ + flattened(e.text()),
        !listing_failure(e).contains('\n'),
{
    law_one_line_is_one_line(e.text());
    reveal_strlit("could not list sessions: ");
    let front = "could not list sessions: "@;
    let s = listing_failure(e);
    if s.contains('\n') {
        let i = choose|i: int| 0 <= i < s.len() && s[i] == '\n';
        if i >= front.len() {
            assert(flattened(e.text())[i - front.len()] == '\n');
            assert(flattened(e.text()).contains('\n'));
        } else {
            assert(front[i] == '\n');
            assert(!front.contains('\n'));
        }
    }
}

/// Whatever happens, the highest number known is that of the listing in hand, and none where no
/// listing is.
pub proof fn law_the_highest_number_is_the_listings(
    scene: Scene,
    message: Option<Seq<char>>,
    outcome: Outcome,
    held: bool,
    created: Option<Row>,
    fresh: Seq<Row>,
    target: Target,
)
    requires
        scene.inv(),
    ensures
        scene.to_picker(message).0.listing.len() == 0,
        ({
            let after = scene.to_picker(message).0;
            after.highest == highest(after.listing)
        }),
        ({
            let after = scene.relayed(outcome, held).0;
            after.highest == highest(after.listing)
        }),
        ({
            let after = scene.prompted(created).0;
            after.highest == highest(after.listing)
        }),
        ({
            let after = scene.listed(fresh, target).0;
            after.highest == highest(after.listing)
        }),
{
    if let Some(row) = created {
        lemma_highest_of_pushed(scene.listing, row);
    }
}

} // verus!
