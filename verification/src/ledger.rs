//! What a client has told its terminal and will not tell it again.
//!
//! A Neovim client sets some of the terminal's state once and then trusts it to stay set:
//! mouse reporting, the window title, its keyboard protocol and a handful of modes. That
//! trust stops being sound the moment something else writes the same state. So a client
//! that is kept keeps a [`Ledger`] as well: a decoder fed every byte the client writes,
//! recording the last word it said on each of those things. When the client comes back to
//! the front the ledger is what puts them back (see [`Ledger::put_back`]).
//!
//! It also knows whether the client's output stands between two of its frames.

use vstd::prelude::*;

use crate::boundary::{Boundary, Terminal};
use crate::bytes::{equal, extend};
use crate::text::{decimal, number_text, put, utf8};

verus! {

/// The longest title or colour the ledger will keep.
pub const MAX_OSC: usize = 1024;

/// How many `;`-separated fields of an OSC the decoder keeps; anything past them it drops.
pub const MAX_OSC_FIELDS: usize = 16;

/// One whole sequence in a client's output, as the decoder hands it over.
#[derive(Debug)]
pub enum Event {
    /// A control sequence: its parameters, each with its subparameters; its intermediate
    /// bytes, a private marker among them; whether it was too long to be read whole; and
    /// its final character.
    Csi { params: Vec<Vec<u16>>, intermediates: Vec<u8>, ignore: bool, action: char },
    /// An escape sequence.
    Esc { intermediates: Vec<u8>, byte: u8 },
    /// An operating-system command: its fields, and whether a bell ended it.
    Osc { fields: Vec<Vec<u8>>, bell_terminated: bool },
}

/// One whole sequence, as a value.
#[verifier::ext_equal]
pub enum Said {
    Csi { params: Seq<Seq<u16>>, intermediates: Seq<u8>, ignore: bool, action: char },
    Esc { intermediates: Seq<u8>, byte: u8 },
    Osc { fields: Seq<Seq<u8>>, bell_terminated: bool },
}

/// The contents of these vectors.
pub open spec fn contents<T>(v: Seq<Vec<T>>) -> Seq<Seq<T>> {
    v.map_values(|x: Vec<T>| x@)
}

impl View for Event {
    type V = Said;

    open spec fn view(&self) -> Said {
        match self {
            Event::Csi { params, intermediates, ignore, action } => Said::Csi {
                params: contents(params@),
                intermediates: intermediates@,
                ignore: *ignore,
                action: *action,
            },
            Event::Esc { intermediates, byte } => Said::Esc {
                intermediates: intermediates@,
                byte: *byte,
            },
            Event::Osc { fields, bell_terminated } => Said::Osc {
                fields: contents(fields@),
                bell_terminated: *bell_terminated,
            },
        }
    }
}

/// The values of these events.
pub open spec fn said(events: Seq<Event>) -> Seq<Said> {
    events.map_values(|e: Event| e@)
}

/// The decoder of terminal output that the `vte` crate provides.
#[verifier::external_type_specification]
#[verifier::external_body]
pub struct ExParser<const OSC_RAW_BUF_SIZE: usize>(vte::Parser<OSC_RAW_BUF_SIZE>);

/// The parameters of a control sequence, as the `vte` crate holds them.
#[verifier::external_type_specification]
#[verifier::external_body]
pub struct ExParams(vte::Params);

/// The bytes a decoder has been fed since it was made.
pub uninterp spec fn read_by(parser: vte::Parser) -> Seq<u8>;

/// The control sequences, escape sequences and operating-system commands that a new decoder
/// dispatches on being fed these bytes, in order.
pub uninterp spec fn dispatched(bytes: Seq<u8>) -> Seq<Said>;

/// The parameters in order, each with its subparameters.
pub uninterp spec fn params_held(params: vte::Params) -> Seq<Seq<u16>>;

/// `vte::Parser::new`: a decoder that has been fed nothing and has dispatched nothing.
#[verifier::external_body]
fn new_parser() -> (parser: vte::Parser)
    ensures
        read_by(parser) == Seq::<u8>::empty(),
        dispatched(read_by(parser)) == Seq::<Said>::empty(),
{
    vte::Parser::new()
}

/// Bytes that begin with the rest of a character, then an escape, then a byte above ASCII.
pub open spec fn hides_an_escape(bytes: Seq<u8>) -> bool {
    &&& bytes.len() >= 3
    &&& 0x80 <= bytes[0] < 0xc0
    &&& bytes[1] == 0x1b
    &&& bytes[2] >= 0x80
}

/// `vte::Parser::advance`: feeds the decoder these bytes too and returns what it dispatched
/// meanwhile. What it has dispatched in all depends on the bytes alone, not on how they were
/// cut up, so the new events come behind those of the bytes before.
///
/// Bytes that hide an escape are left out: a decoder that holds the first byte of a
/// character takes the escape behind its second byte along with it, and loses it.
#[verifier::external_body]
fn advance(parser: &mut vte::Parser, bytes: &[u8]) -> (events: Vec<Event>)
    requires
        !hides_an_escape(bytes@),
    ensures
        read_by(*final(parser)) == read_by(*old(parser)) + bytes@,
        dispatched(read_by(*old(parser)) + bytes@) == dispatched(read_by(*old(parser))) + said(
            events@,
        ),
{
    let mut recorder = Recorder { events: Vec::new() };
    parser.advance(&mut recorder, bytes);
    recorder.events
}

/// `vte::Params::iter`: a copy of the parameters, each with its subparameters.
#[verifier::external_body]
fn copy_params(params: &vte::Params) -> (r: Vec<Vec<u16>>)
    ensures
        contents(r@) == params_held(*params),
{
    params.iter().map(|p| p.to_vec()).collect()
}

/// Writes down what a decoder dispatches.
pub struct Recorder {
    pub events: Vec<Event>,
}

fn copy_bytes(bytes: &[u8]) -> (r: Vec<u8>)
    ensures
        r@ == bytes@,
{
    let mut out: Vec<u8> = Vec::new();
    extend(&mut out, bytes);
    assert(out@ =~= bytes@);
    out
}

impl vte::Perform for Recorder {
    fn csi_dispatch(
        &mut self,
        params: &vte::Params,
        intermediates: &[u8],
        ignore: bool,
        action: char,
    )
        ensures
            final(self).events@.len() == old(self).events@.len() + 1,
            final(self).events@.drop_last() == old(self).events@,
            final(self).events@.last()@ == (Said::Csi {
                params: params_held(*params),
                intermediates: intermediates@,
                ignore,
                action,
            }),
    {
        let event: Event = Event::Csi {
            params: copy_params(params),
            intermediates: copy_bytes(intermediates),
            ignore,
            action,
        };
        self.events.push(event);
        assert(self.events@.drop_last() =~= old(self).events@);
    }

    fn esc_dispatch(&mut self, intermediates: &[u8], _ignore: bool, byte: u8)
        ensures
            final(self).events@.len() == old(self).events@.len() + 1,
            final(self).events@.drop_last() == old(self).events@,
            final(self).events@.last()@ == (Said::Esc { intermediates: intermediates@, byte }),
    {
        let event: Event = Event::Esc { intermediates: copy_bytes(intermediates), byte };
        self.events.push(event);
        assert(self.events@.drop_last() =~= old(self).events@);
    }

    fn osc_dispatch(&mut self, params: &[&[u8]], bell_terminated: bool)
        ensures
            final(self).events@.len() == old(self).events@.len() + 1,
            final(self).events@.drop_last() == old(self).events@,
            final(self).events@.last()@ == (Said::Osc {
                fields: params@.map_values(|p: &[u8]| p@),
                bell_terminated,
            }),
    {
        let mut fields: Vec<Vec<u8>> = Vec::new();
        let mut i: usize = 0;
        while i < params.len()
            invariant
                i <= params@.len(),
                contents(fields@) == params@.take(i as int).map_values(|p: &[u8]| p@),
            decreases params@.len() - i,
        {
            let ghost before = fields@;
            let field: Vec<u8> = copy_bytes(params[i]);
            fields.push(field);
            assert(contents(fields@) =~= contents(before).push(field@));
            assert(params@.take(i + 1) =~= params@.take(i as int).push(params@[i as int]));
            assert(contents(fields@) =~= params@.take(i + 1).map_values(|p: &[u8]| p@));
            i += 1;
        }
        assert(params@.take(i as int) =~= params@);
        let event: Event = Event::Osc { fields, bell_terminated };
        self.events.push(event);
        assert(self.events@.drop_last() =~= old(self).events@);
    }
}

/// The DEC private modes a client sets once, for the whole terminal, and that another
/// client's exit turns off: application cursor keys, focus reports, bracketed paste,
/// grapheme clusters, colour-scheme reports and in-band size reports.
pub open spec fn modes() -> Seq<u16> {
    seq![1u16, 1004, 2004, 2027, 2031, 2048]
}

/// Where a mode stands among [`modes`].
pub open spec fn mode_index(mode: u16) -> Option<int> {
    if mode == 1 {
        Some(0)
    } else if mode == 1004 {
        Some(1)
    } else if mode == 2004 {
        Some(2)
    } else if mode == 2027 {
        Some(3)
    } else if mode == 2031 {
        Some(4)
    } else if mode == 2048 {
        Some(5)
    } else {
        None
    }
}

/// The last word a client has said on each thing it would not say again.
#[verifier::ext_equal]
pub struct Word {
    /// Mouse mode 1000: button presses.
    pub press: bool,
    /// 1002: presses, releases and drags.
    pub buttons: bool,
    /// 1003: every motion.
    pub motion: bool,
    /// The last word on each of [`modes`], or `None` for one never mentioned.
    pub modes: Seq<Option<bool>>,
    /// The keypad: application or numeric.
    pub keypad: Option<bool>,
    /// The kitty keyboard flags the client believes are in force.
    pub kitty: Option<u16>,
    /// The level of `modifyOtherKeys`.
    pub other_keys: Option<u16>,
    /// The last title, as the bytes that set it.
    pub title: Option<Seq<u8>>,
    /// The last cursor colour, set or reset, as the bytes that did.
    pub cursor_colour: Option<Seq<u8>>,
    /// The cursor's shape.
    pub cursor_shape: Option<u16>,
}

/// The first value of the `n`th parameter, nothing if there is no such parameter; zero if it
/// has no value.
pub open spec fn nth_value(params: Seq<Seq<u16>>, n: int) -> Option<u16> {
    if n < params.len() {
        Some(
            if params[n].len() > 0 {
                params[n][0]
            } else {
                0
            },
        )
    } else {
        None
    }
}

/// A value, or another in its place.
pub open spec fn value_or(value: Option<u16>, or: u16) -> u16 {
    match value {
        Some(v) => v,
        None => or,
    }
}

/// The fields with a `;` between each two.
pub open spec fn rejoined(fields: Seq<Seq<u8>>) -> Seq<u8>
    decreases fields.len(),
{
    if fields.len() == 0 {
        Seq::empty()
    } else if fields.len() == 1 {
        fields[0]
    } else {
        rejoined(fields.drop_last()) + seq![0x3bu8] + fields.last()
    }
}

/// An operating-system command as it was written.
pub open spec fn written(fields: Seq<Seq<u8>>, bell_terminated: bool) -> Seq<u8> {
    seq![0x1bu8, 0x5d] + rejoined(fields) + if bell_terminated {
        seq![0x07u8]
    } else {
        seq![0x1bu8, 0x5c]
    }
}

impl Word {
    /// A client that has said nothing.
    pub open spec fn none() -> Word {
        Word {
            press: false,
            buttons: false,
            motion: false,
            modes: seq![None, None, None, None, None, None],
            keypad: None,
            kitty: None,
            other_keys: None,
            title: None,
            cursor_colour: None,
            cursor_shape: None,
        }
    }

    /// A private mode set or reset.
    pub open spec fn on_mode(self, param: Seq<u16>, on: bool) -> Word {
        if param.len() != 1 {
            self
        } else if param[0] == 1000 {
            Word { press: on, ..self }
        } else if param[0] == 1002 {
            Word { buttons: on, ..self }
        } else if param[0] == 1003 {
            Word { motion: on, ..self }
        } else {
            match mode_index(param[0]) {
                Some(at) => Word { modes: self.modes.update(at, Some(on)), ..self },
                None => self,
            }
        }
    }

    /// Several private modes, one by one.
    pub open spec fn on_modes(self, params: Seq<Seq<u16>>, on: bool) -> Word
        decreases params.len(),
    {
        if params.len() == 0 {
            self
        } else {
            self.on_modes(params.drop_last(), on).on_mode(params.last(), on)
        }
    }

    /// A control sequence.
    pub open spec fn on_csi(
        self,
        params: Seq<Seq<u16>>,
        intermediates: Seq<u8>,
        ignore: bool,
        action: char,
    ) -> Word {
        let marked = |b: u8| intermediates == seq![b];
        if ignore {
            self
        } else if marked(0x3f) && (action == 'h' || action == 'l') {
            self.on_modes(params, action == 'h')
        } else if marked(0x3e) && action == 'u' {
            Word { kitty: Some(value_or(nth_value(params, 0), 0)), ..self }
        } else if marked(0x3c) && action == 'u' {
            Word { kitty: Some(0), ..self }
        } else if marked(0x3d) && action == 'u' {
            let flags = value_or(nth_value(params, 0), 0);
            let now = value_or(self.kitty, 0);
            let how = value_or(nth_value(params, 1), 1);
            Word {
                kitty: Some(
                    if how == 2 {
                        now | flags
                    } else if how == 3 {
                        now & !flags
                    } else {
                        flags
                    },
                ),
                ..self
            }
        } else if marked(0x20) && action == 'q' {
            Word { cursor_shape: Some(value_or(nth_value(params, 0), 0)), ..self }
        } else if marked(0x3e) && action == 'm' && nth_value(params, 0) == Some(4u16) {
            Word { other_keys: Some(value_or(nth_value(params, 1), 0)), ..self }
        } else {
            self
        }
    }

    /// An escape sequence.
    pub open spec fn on_esc(self, intermediates: Seq<u8>, byte: u8) -> Word {
        if intermediates.len() > 0 {
            self
        } else if byte == 0x3d {
            Word { keypad: Some(true), ..self }
        } else if byte == 0x3e {
            Word { keypad: Some(false), ..self }
        } else {
            self
        }
    }

    /// An operating-system command: one that sets the title or the cursor's colour is kept
    /// as it was written, unless it has come through cut short or is too long to be one.
    pub open spec fn on_osc(self, fields: Seq<Seq<u8>>, bell_terminated: bool) -> Word {
        let whole = written(fields, bell_terminated);
        if fields.len() == 0 || fields.len() >= MAX_OSC_FIELDS || whole.len() > MAX_OSC {
            self
        } else if fields[0] == seq![0x30u8] || fields[0] == seq![0x32u8] {
            Word { title: Some(whole), ..self }
        } else if fields[0] == seq![0x31u8, 0x32] || fields[0] == seq![0x31u8, 0x31, 0x32] {
            Word { cursor_colour: Some(whole), ..self }
        } else {
            self
        }
    }

    /// One whole sequence.
    pub open spec fn on(self, said: Said) -> Word {
        match said {
            Said::Csi { params, intermediates, ignore, action } => self.on_csi(
                params,
                intermediates,
                ignore,
                action,
            ),
            Said::Esc { intermediates, byte } => self.on_esc(intermediates, byte),
            Said::Osc { fields, bell_terminated } => self.on_osc(fields, bell_terminated),
        }
    }

    /// Several, in order.
    pub open spec fn after(self, said: Seq<Said>) -> Word
        decreases said.len(),
    {
        if said.len() == 0 {
            self
        } else {
            self.after(said.drop_last()).on(said.last())
        }
    }
}

/// The last words of a client, apart from the decoder that reads them out of its bytes.
#[derive(Debug)]
struct Told {
    press: bool,
    buttons: bool,
    motion: bool,
    modes: [Option<bool>; 6],
    keypad: Option<bool>,
    kitty: Option<u16>,
    other_keys: Option<u16>,
    title: Option<Vec<u8>>,
    cursor_colour: Option<Vec<u8>>,
    cursor_shape: Option<u16>,
}

spec fn kept_bytes(v: Option<Vec<u8>>) -> Option<Seq<u8>> {
    match v {
        Some(bytes) => Some(bytes@),
        None => None,
    }
}

impl View for Told {
    type V = Word;

    closed spec fn view(&self) -> Word {
        Word {
            press: self.press,
            buttons: self.buttons,
            motion: self.motion,
            modes: self.modes@,
            keypad: self.keypad,
            kitty: self.kitty,
            other_keys: self.other_keys,
            title: kept_bytes(self.title),
            cursor_colour: kept_bytes(self.cursor_colour),
            cursor_shape: self.cursor_shape,
        }
    }
}

/// Where a mode stands among the modes that are kept.
fn find_mode(mode: u16) -> (r: Option<usize>)
    ensures
        match r {
            Some(at) => mode_index(mode) == Some(at as int) && at < 6,
            None => mode_index(mode) is None,
        },
{
    match mode {
        1 => Some(0),
        1004 => Some(1),
        2004 => Some(2),
        2027 => Some(3),
        2031 => Some(4),
        2048 => Some(5),
        _ => None,
    }
}

/// The first value of the `n`th parameter.
fn value_at(params: &Vec<Vec<u16>>, n: usize) -> (r: Option<u16>)
    ensures
        r == nth_value(contents(params@), n as int),
{
    if n < params.len() {
        assert(contents(params@)[n as int] == params@[n as int]@);
        if params[n].len() > 0 {
            Some(params[n][0])
        } else {
            Some(0)
        }
    } else {
        None
    }
}

fn or(value: Option<u16>, other: u16) -> (r: u16)
    ensures
        r == value_or(value, other),
{
    match value {
        Some(v) => v,
        None => other,
    }
}

/// Whether the intermediates are this one byte.
fn is_marked(intermediates: &Vec<u8>, b: u8) -> (r: bool)
    ensures
        r == (intermediates@ == seq![b]),
{
    let r: bool = intermediates.len() == 1 && intermediates[0] == b;
    assert(r ==> intermediates@ =~= seq![b]);
    assert(intermediates@ == seq![b] ==> intermediates@.len() == 1 && intermediates@[0] == b);
    r
}

impl Told {
    /// A client that has said nothing.
    fn none() -> (r: Told)
        ensures
            r@ == Word::none(),
    {
        let told: Told = Told {
            press: false,
            buttons: false,
            motion: false,
            modes: [None, None, None, None, None, None],
            keypad: None,
            kitty: None,
            other_keys: None,
            title: None,
            cursor_colour: None,
            cursor_shape: None,
        };
        assert(told.modes@ =~= Word::none().modes);
        told
    }

    /// A private mode set or reset.
    fn mode_dispatch(&mut self, param: &Vec<u16>, on: bool)
        ensures
            final(self)@ == old(self)@.on_mode(param@, on),
    {
        if param.len() != 1 {
            return ;
        }
        let mode: u16 = param[0];
        if mode == 1000 {
            self.press = on;
        } else if mode == 1002 {
            self.buttons = on;
        } else if mode == 1003 {
            self.motion = on;
        } else if let Some(at) = find_mode(mode) {
            self.modes[at] = Some(on);
            assert(self@ =~= old(self)@.on_mode(param@, on));
        }
    }

    /// A control sequence.
    fn csi_dispatch(
        &mut self,
        params: &Vec<Vec<u16>>,
        intermediates: &Vec<u8>,
        ignore: bool,
        action: char,
    )
        ensures
            final(self)@ == old(self)@.on_csi(
                contents(params@),
                intermediates@,
                ignore,
                action,
            ),
    {
        let ghost first = self@;
        if ignore {
            return ;
        }
        let private: bool = is_marked(intermediates, 0x3f);
        let push: bool = is_marked(intermediates, 0x3e);
        let pop: bool = is_marked(intermediates, 0x3c);
        let set: bool = is_marked(intermediates, 0x3d);
        let space: bool = is_marked(intermediates, 0x20);
        if private && (action == 'h' || action == 'l') {
            // DECSET and DECRST: several modes in one sequence count one by one.
            let on: bool = action == 'h';
            let mut i: usize = 0;
            assert(contents(params@).take(0) =~= Seq::<Seq<u16>>::empty());
            while i < params.len()
                invariant
                    i <= params@.len(),
                    self@ == first.on_modes(contents(params@).take(i as int), on),
                decreases params@.len() - i,
            {
                assert(contents(params@).take(i + 1).drop_last() =~= contents(params@).take(
                    i as int,
                ));
                assert(contents(params@).take(i + 1).last() == params@[i as int]@);
                self.mode_dispatch(&params[i], on);
                i += 1;
            }
            assert(contents(params@).take(i as int) =~= contents(params@));
        } else if push && action == 'u' {
            self.kitty = Some(or(value_at(params, 0), 0));
        } else if pop && action == 'u' {
            self.kitty = Some(0);
        } else if set && action == 'u' {
            // 1 replaces the flags, 2 adds to them, 3 takes them away.
            let flags: u16 = or(value_at(params, 0), 0);
            let now: u16 = or(self.kitty, 0);
            let how: u16 = or(value_at(params, 1), 1);
            self.kitty = Some(
                if how == 2 {
                    now | flags
                } else if how == 3 {
                    now & !flags
                } else {
                    flags
                },
            );
        } else if space && action == 'q' {
            self.cursor_shape = Some(or(value_at(params, 0), 0));
        } else if push && action == 'm' {
            if let Some(resource) = value_at(params, 0) {
                if resource == 4 {
                    self.other_keys = Some(or(value_at(params, 1), 0));
                }
            }
        }
    }

    /// An escape sequence.
    fn esc_dispatch(&mut self, intermediates: &Vec<u8>, byte: u8)
        ensures
            final(self)@ == old(self)@.on_esc(intermediates@, byte),
    {
        if intermediates.len() > 0 {
            return ;
        }
        if byte == 0x3d {
            self.keypad = Some(true);
        } else if byte == 0x3e {
            self.keypad = Some(false);
        }
    }

    /// An operating-system command.
    fn osc_dispatch(&mut self, fields: &Vec<Vec<u8>>, bell_terminated: bool)
        ensures
            final(self)@ == old(self)@.on_osc(contents(fields@), bell_terminated),
    {
        if fields.len() == 0 || fields.len() >= MAX_OSC_FIELDS {
            return ;
        }
        assert(contents(fields@)[0] == fields@[0]@);
        let title: bool = is_marked(&fields[0], 0x30) || is_marked(&fields[0], 0x32);
        let set: [u8; 2] = [0x31, 0x32];
        let reset: [u8; 3] = [0x31, 0x31, 0x32];
        assert(set@ =~= seq![0x31u8, 0x32]);
        assert(reset@ =~= seq![0x31u8, 0x31, 0x32]);
        let colour: bool = equal(&fields[0], vstd::array::array_as_slice(&set)) || equal(
            &fields[0],
            vstd::array::array_as_slice(&reset),
        );
        if !title && !colour {
            return ;
        }
        // Put back together as it arrived: the decoder split it at every `;`.
        let mut whole: Vec<u8> = Vec::new();
        whole.push(0x1b);
        whole.push(0x5d);
        let ghost head = whole@;
        assert(head =~= seq![0x1bu8, 0x5d]);
        let mut i: usize = 0;
        while i < fields.len()
            invariant
                i <= fields@.len(),
                whole@ == head + rejoined(contents(fields@).take(i as int)),
            decreases fields@.len() - i,
        {
            let ghost before = contents(fields@).take(i as int);
            let ghost longer = contents(fields@).take(i + 1);
            assert(longer.drop_last() =~= before);
            assert(longer.last() == fields@[i as int]@);
            if i > 0 {
                whole.push(0x3b);
            }
            extend(&mut whole, &fields[i]);
            assert(whole@ =~= head + rejoined(longer));
            i += 1;
        }
        assert(contents(fields@).take(i as int) =~= contents(fields@));
        if bell_terminated {
            whole.push(0x07);
        } else {
            whole.push(0x1b);
            whole.push(0x5c);
        }
        assert(whole@ =~= written(contents(fields@), bell_terminated));
        if whole.len() <= MAX_OSC {
            if title {
                self.title = Some(whole);
            } else {
                self.cursor_colour = Some(whole);
            }
        }
    }

    /// One whole sequence.
    fn heard(&mut self, event: &Event)
        ensures
            final(self)@ == old(self)@.on(event@),
    {
        match event {
            Event::Csi { params, intermediates, ignore, action } => {
                self.csi_dispatch(params, intermediates, *ignore, *action);
            },
            Event::Esc { intermediates, byte } => {
                self.esc_dispatch(intermediates, *byte);
            },
            Event::Osc { fields, bell_terminated } => {
                self.osc_dispatch(fields, *bell_terminated);
            },
        }
    }
}

/// The mouse reporting a client asked for.
#[derive(Debug, Clone, Copy, PartialEq, Eq, Structural)]
pub enum MouseReporting {
    Off,
    Buttons,
    Motion,
}

impl Word {
    /// Size reports come in band.
    pub open spec fn in_band(self) -> bool {
        self.modes[5] == Some(true)
    }

    /// The mouse reporting asked for: motion on top of buttons, buttons, or nothing.
    pub open spec fn mouse(self) -> MouseReporting {
        if self.motion {
            MouseReporting::Motion
        } else if self.buttons || self.press {
            MouseReporting::Buttons
        } else {
            MouseReporting::Off
        }
    }
}

/// What the terminal had heard of the modes and the keypad.
#[verifier::ext_equal]
pub struct Heard {
    pub modes: Seq<Option<bool>>,
    pub keypad: Option<bool>,
}

/// What a ledger holds.
#[verifier::ext_equal]
pub struct Record {
    /// Every byte it has been shown.
    pub shown: Seq<u8>,
    /// The last words they say.
    pub told: Word,
    /// Where the client's output stands.
    pub terminal: Terminal,
    /// Nothing it holds is to be trusted.
    pub broken: bool,
    /// What the terminal had heard when the client last stopped being relayed.
    pub relayed: Option<Heard>,
}

impl Record {
    /// Unless it has been given up, what a ledger holds is what its bytes say, however they
    /// were cut up.
    pub open spec fn wf(self) -> bool {
        !self.broken ==> {
            &&& self.told == Word::none().after(dispatched(self.shown))
            &&& self.terminal == Terminal::start().fed(self.shown)
        }
    }

    /// What the terminal heard of the mode at this index before the client left.
    pub open spec fn heard_mode(self, at: int) -> Option<bool> {
        match self.relayed {
            Some(heard) => heard.modes[at],
            None => None,
        }
    }

    /// What the terminal heard of the keypad before the client left.
    pub open spec fn heard_keypad(self) -> Option<bool> {
        match self.relayed {
            Some(heard) => heard.keypad,
            None => None,
        }
    }

    /// The client's word on this mode, if that word is this one and the terminal may not
    /// have it.
    pub open spec fn owes(self, at: int, word: bool, after_an_exit: bool) -> bool {
        self.told.modes[at] == Some(word) && is_news(
            self.told.modes[at],
            self.heard_mode(at),
            after_an_exit,
        )
    }

    /// The numbers of the modes below `n` that are owed this word, with a `;` between each
    /// two.
    pub open spec fn owed_modes(self, word: bool, after_an_exit: bool, n: int) -> Seq<char>
        decreases n,
    {
        if n <= 0 {
            Seq::empty()
        } else {
            let before = self.owed_modes(word, after_an_exit, n - 1);
            if !self.owes(n - 1, word, after_an_exit) {
                before
            } else if before.len() == 0 {
                decimal(modes()[n - 1] as nat)
            } else {
                before + ";"@ + decimal(modes()[n - 1] as nat)
            }
        }
    }

    /// The sequence that gives the terminal the modes that are owed this word, if any are.
    pub open spec fn mode_bytes(self, word: bool, after_an_exit: bool) -> Seq<u8> {
        let owed = self.owed_modes(word, after_an_exit, 6);
        if owed.len() == 0 {
            Seq::empty()
        } else {
            utf8("\x1b[?"@) + utf8(owed) + utf8(
                if word {
                    "h"@
                } else {
                    "l"@
                },
            )
        }
    }

    /// The sequence that gives the terminal the keypad, if it is owed.
    pub open spec fn keypad_bytes(self, after_an_exit: bool) -> Seq<u8> {
        if !is_news(self.told.keypad, self.heard_keypad(), after_an_exit) {
            Seq::empty()
        } else if self.told.keypad == Some(true) {
            utf8("\x1b="@)
        } else {
            utf8("\x1b>"@)
        }
    }

    /// The sequences that set the keyboard protocol: set, never pushed.
    pub open spec fn keyboard_bytes(self) -> Seq<u8> {
        (match self.told.kitty {
            Some(flags) => utf8("\x1b[="@) + utf8(decimal(flags as nat)) + utf8(";1u"@),
            None => Seq::empty(),
        }) + match self.told.other_keys {
            Some(level) => utf8("\x1b[>4;"@) + utf8(decimal(level as nat)) + utf8("m"@),
            None => Seq::empty(),
        }
    }

    /// What is the client's own: its title, its cursor's shape and its cursor's colour, or
    /// the terminal's own colour if it never set one.
    pub open spec fn own_bytes(self) -> Seq<u8> {
        (match self.told.title {
            Some(title) => title,
            None => Seq::empty(),
        }) + (match self.told.cursor_shape {
            Some(shape) => utf8("\x1b["@) + utf8(decimal(shape as nat)) + utf8(" q"@),
            None => Seq::empty(),
        }) + match self.told.cursor_colour {
            Some(colour) => colour,
            None => utf8("\x1b]112\x07"@),
        }
    }

    /// The bytes that put back what the client told the terminal: resets before sets, then
    /// the keypad, the keyboard protocol and what is the client's own.
    pub open spec fn put_back(self, after_an_exit: bool) -> Seq<u8> {
        if self.broken {
            Seq::empty()
        } else {
            self.mode_bytes(false, after_an_exit) + self.mode_bytes(true, after_an_exit)
                + self.keypad_bytes(after_an_exit) + self.keyboard_bytes() + self.own_bytes()
        }
    }
}

/// A word that the terminal may not have: there is one, and it was said since the client was
/// last relayed, or another client's exit may have undone it.
pub open spec fn is_news(now: Option<bool>, heard: Option<bool>, after_an_exit: bool) -> bool {
    now is Some && (after_an_exit || now != heard)
}

/// Every byte a client wrote, reduced to the state it set and would not set again.
pub struct Ledger {
    parser: vte::Parser,
    told: Told,
    /// Where the client's output stands, as a terminal shown every byte would see it.
    stream: Boundary,
    /// Something went wrong on what the client wrote, so nothing it says is to be trusted.
    broken: bool,
    /// The modes and the keypad as they stood when the client last stopped being relayed.
    relayed: Option<([Option<bool>; 6], Option<bool>)>,
}

impl View for Ledger {
    type V = Record;

    closed spec fn view(&self) -> Record {
        Record {
            shown: read_by(self.parser),
            told: self.told@,
            terminal: self.stream@.terminal,
            broken: self.broken,
            relayed: match self.relayed {
                Some((modes, keypad)) => Some(Heard { modes: modes@, keypad }),
                None => None,
            },
        }
    }
}

fn news(now: Option<bool>, heard: Option<bool>, after_an_exit: bool) -> (r: bool)
    ensures
        r == is_news(now, heard, after_an_exit),
{
    match (now, heard) {
        (None, _) => false,
        (Some(now), Some(heard)) => after_an_exit || now != heard,
        (Some(_), None) => true,
    }
}

impl Default for Ledger {
    fn default() -> (r: Self)
        ensures
            r.inv(),
            r@.wf(),
            r@.shown == Seq::<u8>::empty(),
            r@.told == Word::none(),
            !r@.broken,
            r@.relayed is None,
    {
        Self::new()
    }
}

impl Ledger {
    /// What a ledger keeps to itself: nothing is ever held back from its reading, and there
    /// are as many modes as there are.
    pub closed spec fn inv(self) -> bool {
        self@.wf() && self.stream@.closing is None
    }

    /// A client that has said nothing yet, and so believes the terminal is as a terminal
    /// starts.
    pub fn new() -> (r: Self)
        ensures
            r.inv(),
            r@.wf(),
            r@.shown == Seq::<u8>::empty(),
            r@.told == Word::none(),
            !r@.broken,
            r@.relayed is None,
    {
        Self {
            parser: new_parser(),
            told: Told::none(),
            stream: Boundary::new(),
            broken: false,
            relayed: None,
        }
    }

    /// The client has stopped being relayed: whatever it says from here on reaches the
    /// ledger and not the terminal.
    pub fn left_the_terminal(&mut self)
        requires
            old(self).inv(),
        ensures
            final(self).inv(),
            final(self)@ == (Record {
                relayed: Some(
                    Heard { modes: old(self)@.told.modes, keypad: old(self)@.told.keypad },
                ),
                ..old(self)@
            }),
    {
        self.relayed = Some((self.told.modes, self.told.keypad));
    }

    /// Read these bytes too.
    fn read(&mut self, bytes: &[u8])
        requires
            old(self).inv(),
            !old(self)@.broken,
            !hides_an_escape(bytes@),
        ensures
            final(self).inv(),
            final(self)@.shown == old(self)@.shown + bytes@,
            final(self)@.told == Word::none().after(dispatched(old(self)@.shown + bytes@)),
            final(self)@.terminal == old(self)@.terminal.fed(bytes@),
            final(self)@.relayed == old(self)@.relayed,
            !final(self)@.broken,
    {
        let ghost first = self@;
        let events: Vec<Event> = advance(&mut self.parser, bytes);
        let ghost new = said(events@);
        let ghost old_events = dispatched(first.shown);
        let mut i: usize = 0;
        assert(old_events + new.take(0) =~= old_events);
        while i < events.len()
            invariant
                i <= events@.len(),
                new == said(events@),
                self.told@ == Word::none().after(old_events + new.take(i as int)),
                read_by(self.parser) == first.shown + bytes@,
                self.stream@.terminal == first.terminal,
                self.stream@.closing is None,
                !self.broken,
                self@.relayed == first.relayed,
            decreases events@.len() - i,
        {
            let ghost longer = old_events + new.take(i + 1);
            assert(longer.drop_last() =~= old_events + new.take(i as int));
            assert(longer.last() == events@[i as int]@);
            self.told.heard(&events[i]);
            i += 1;
        }
        assert(new.take(i as int) =~= new);
        self.stream.saw_session(bytes);
        proof {
            crate::boundary::law_fed_in_pieces(Terminal::start(), first.shown, bytes@);
        }
    }

    /// Watch these bytes go by. A sequence cut in half by a read is carried over to the next
    /// call: the decoder carries it, and where it would lose an escape behind a character that
    /// a read cut, the rest of that character is read on its own.
    pub fn saw(&mut self, bytes: &[u8])
        requires
            old(self).inv(),
        ensures
            final(self).inv(),
            final(self)@.wf(),
            old(self)@.broken ==> final(self)@ == old(self)@,
            !old(self)@.broken ==> {
                &&& final(self)@.shown == old(self)@.shown + bytes@
                &&& final(self)@.told == Word::none().after(
                    dispatched(old(self)@.shown + bytes@),
                )
                &&& final(self)@.terminal == old(self)@.terminal.fed(bytes@)
                &&& final(self)@.relayed == old(self)@.relayed
                &&& !final(self)@.broken
            },
    {
        if self.broken {
            return ;
        }
        if bytes.len() >= 3 && 0x80 <= bytes[0] && bytes[0] < 0xc0 && bytes[1] == 0x1b && bytes[2]
            >= 0x80 {
            let ghost first = self@;
            let rest: &[u8] = vstd::slice::slice_subrange(bytes, 0, 1);
            let behind: &[u8] = vstd::slice::slice_subrange(bytes, 1, bytes.len());
            self.read(rest);
            self.read(behind);
            proof {
                assert(rest@ + behind@ =~= bytes@);
                assert(first.shown + rest@ + behind@ =~= first.shown + bytes@);
                crate::boundary::law_fed_in_pieces(first.terminal, rest@, behind@);
            }
        } else {
            self.read(bytes);
        }
    }

    /// What the ledger holds is not to be trusted any more: the reading of what the client
    /// wrote went wrong. It is fed no more, and puts nothing back.
    pub fn retire(&mut self)
        requires
            old(self).inv(),
        ensures
            final(self).inv(),
            final(self)@ == (Record { broken: true, ..old(self)@ }),
    {
        self.broken = true;
    }

    /// Whether what the ledger holds can be trusted.
    pub fn is_usable(&self) -> (r: bool)
        ensures
            r == !self@.broken,
    {
        !self.broken
    }

    /// Whether the client's output stands between its frames: where whatever it writes next
    /// begins something whole.
    pub fn between_frames(&self) -> (r: bool)
        requires
            self.inv(),
        ensures
            r == (self@.broken || self@.terminal.at_rest()),
    {
        self.broken || self.stream.between_sequences()
    }

    /// The mouse reporting the client last asked for.
    pub fn mouse(&self) -> (r: MouseReporting)
        ensures
            r == self@.told.mouse(),
    {
        if self.told.motion {
            MouseReporting::Motion
        } else if self.told.buttons || self.told.press {
            MouseReporting::Buttons
        } else {
            MouseReporting::Off
        }
    }

    /// Whether the client has turned on in-band resize reports.
    pub fn reads_size_in_band(&self) -> (r: bool)
        ensures
            r == self@.told.in_band(),
    {
        match self.mode(2048) {
            Some(on) => on,
            None => false,
        }
    }

    /// The window title the client last set, as the bytes that set it.
    pub fn title(&self) -> (r: Option<&[u8]>)
        ensures
            match r {
                Some(bytes) => self@.told.title == Some(bytes@),
                None => self@.told.title is None,
            },
    {
        match &self.told.title {
            Some(title) => Some(title.as_slice()),
            None => None,
        }
    }

    /// The last word the client said on one of the modes that are kept.
    fn mode(&self, mode: u16) -> (r: Option<bool>)
        ensures
            r == match mode_index(mode) {
                Some(at) => self@.told.modes[at],
                None => None,
            },
    {
        match find_mode(mode) {
            Some(at) => self.told.modes[at],
            None => None,
        }
    }

    /// The bytes that put back, on a terminal something else has had, what the client told
    /// it: all but the mouse, which is put back from [`Ledger::mouse`].
    ///
    /// Always what is the client's own and differs from session to session, and its keyboard
    /// protocol. The modes every client sets alike, and the keypad, only where the terminal
    /// may not have them as the client does: all of them `after_an_exit`, and otherwise only
    /// those the client set while it was not being relayed.
    pub fn put_back(&self, after_an_exit: bool) -> (r: Vec<u8>)
        requires
            self.inv(),
        ensures
            r@ == self@.put_back(after_an_exit),
    {
        self.putting_back(after_an_exit).0
    }

    /// Whether [`Ledger::put_back`] turns in-band size reports on, which a terminal answers
    /// with a report of its own.
    pub fn puts_back_in_band_reports(&self, after_an_exit: bool) -> (r: bool)
        requires
            self.inv(),
        ensures
            r == (!self@.broken && self@.owes(5, true, after_an_exit)),
    {
        self.putting_back(after_an_exit).1
    }

    /// The numbers of the modes that are owed this word, and whether in-band size reports
    /// are among them.
    fn owed(&self, word: bool, after_an_exit: bool) -> (r: (String, bool))
        ensures
            r.0@ == self@.owed_modes(word, after_an_exit, 6),
            r.1 == self@.owes(5, word, after_an_exit),
    {
        let numbers: [u16; 6] = [1, 1004, 2004, 2027, 2031, 2048];
        assert(numbers@ =~= modes());
        let mut list: String = String::new();
        let mut in_band: bool = false;
        let mut i: usize = 0;
        while i < 6
            invariant
                i <= 6,
                numbers@ == modes(),
                list@ == self@.owed_modes(word, after_an_exit, i as int),
                in_band == (i == 6 && self@.owes(5, word, after_an_exit)),
            decreases 6 - i,
        {
            let now: Option<bool> = self.told.modes[i];
            let heard: Option<bool> = match self.relayed {
                Some((modes, _)) => modes[i],
                None => None,
            };
            let said: bool = match now {
                Some(said) => said == word,
                None => false,
            };
            if said && news(now, heard, after_an_exit) {
                if list.as_str().is_empty() {
                    list = number_text(numbers[i] as u64);
                } else {
                    list.append(";");
                    list.append(number_text(numbers[i] as u64).as_str());
                }
                in_band = i == 5;
            }
            i += 1;
        }
        (list, in_band)
    }

    /// Gives the terminal the modes that are owed this word, and says whether in-band size
    /// reports are among them.
    fn put_modes(&self, out: &mut Vec<u8>, word: bool, after_an_exit: bool) -> (in_band: bool)
        ensures
            final(out)@ == old(out)@ + self@.mode_bytes(word, after_an_exit),
            in_band == self@.owes(5, word, after_an_exit),
    {
        let ghost before = out@;
        let (owed, in_band) = self.owed(word, after_an_exit);
        if !owed.as_str().is_empty() {
            put(out, "\x1b[?");
            put(out, owed.as_str());
            if word {
                put(out, "h");
            } else {
                put(out, "l");
            }
        }
        assert(out@ =~= before + self@.mode_bytes(word, after_an_exit));
        in_band
    }

    /// Gives the terminal the keypad, if it is owed.
    fn put_keypad(&self, out: &mut Vec<u8>, after_an_exit: bool)
        ensures
            final(out)@ == old(out)@ + self@.keypad_bytes(after_an_exit),
    {
        let ghost before = out@;
        let heard: Option<bool> = match self.relayed {
            Some((_, keypad)) => keypad,
            None => None,
        };
        if news(self.told.keypad, heard, after_an_exit) {
            match self.told.keypad {
                Some(true) => put(out, "\x1b="),
                _ => put(out, "\x1b>"),
            }
        }
        assert(out@ =~= before + self@.keypad_bytes(after_an_exit));
    }

    /// Sets the keyboard protocol.
    fn put_keyboard(&self, out: &mut Vec<u8>)
        ensures
            final(out)@ == old(out)@ + self@.keyboard_bytes(),
    {
        let ghost before = out@;
        if let Some(flags) = self.told.kitty {
            put(out, "\x1b[=");
            put(out, number_text(flags as u64).as_str());
            put(out, ";1u");
        }
        if let Some(level) = self.told.other_keys {
            put(out, "\x1b[>4;");
            put(out, number_text(level as u64).as_str());
            put(out, "m");
        }
        assert(out@ =~= before + self@.keyboard_bytes());
    }

    /// Sets the title, the cursor's shape and the cursor's colour.
    fn put_own(&self, out: &mut Vec<u8>)
        ensures
            final(out)@ == old(out)@ + self@.own_bytes(),
    {
        let ghost before = out@;
        if let Some(title) = &self.told.title {
            extend(out, title);
        }
        if let Some(shape) = self.told.cursor_shape {
            put(out, "\x1b[");
            put(out, number_text(shape as u64).as_str());
            put(out, " q");
        }
        match &self.told.cursor_colour {
            Some(colour) => extend(out, colour),
            None => put(out, "\x1b]112\x07"),
        }
        assert(out@ =~= before + self@.own_bytes());
    }

    /// The bytes [`Ledger::put_back`] writes, and whether they turn in-band size reports on.
    fn putting_back(&self, after_an_exit: bool) -> (r: (Vec<u8>, bool))
        requires
            self.inv(),
        ensures
            r.0@ == self@.put_back(after_an_exit),
            r.1 == (!self@.broken && self@.owes(5, true, after_an_exit)),
    {
        let mut out: Vec<u8> = Vec::new();
        if self.broken {
            return (out, false);
        }
        let _ = self.put_modes(&mut out, false, after_an_exit);
        assert(out@ =~= self@.mode_bytes(false, after_an_exit));
        let in_band: bool = self.put_modes(&mut out, true, after_an_exit);
        self.put_keypad(&mut out, after_an_exit);
        self.put_keyboard(&mut out);
        self.put_own(&mut out);
        (out, in_band)
    }
}

/// Where the reads cut a client's output makes no difference: two ledgers that have seen the
/// same bytes, however they came, agree on everything the client said and on where its
/// output stands.
pub proof fn law_only_the_bytes_matter(a: Record, b: Record)
    requires
        a.wf(),
        b.wf(),
        !a.broken,
        !b.broken,
        a.shown == b.shown,
    ensures
        a.told == b.told,
        a.terminal == b.terminal,
{
}

/// What the terminal heard and nothing undid is left alone: a client that has said nothing
/// on the modes and the keypad since it was last relayed has none of them set again.
pub proof fn law_nothing_is_set_again_without_need(r: Record)
    requires
        r.told.modes.len() == 6,
        r.relayed == Some(Heard { modes: r.told.modes, keypad: r.told.keypad }),
    ensures
        r.mode_bytes(false, false) == Seq::<u8>::empty(),
        r.mode_bytes(true, false) == Seq::<u8>::empty(),
        r.keypad_bytes(false) == Seq::<u8>::empty(),
{
    reveal_with_fuel(Record::owed_modes, 7);
}

/// After an exit every mode the client spoke of is put back as it last said: reset if it
/// last reset it, set if it last set it.
pub proof fn law_after_an_exit_every_mode_is_owed(r: Record, at: int)
    requires
        0 <= at < 6,
    ensures
        r.owes(at, true, true) <==> r.told.modes[at] == Some(true),
        r.owes(at, false, true) <==> r.told.modes[at] == Some(false),
{
}

/// The keyboard protocol and what is the client's own come back every time, whatever else
/// has happened: they are the end of what is written.
pub proof fn law_the_clients_own_always_comes_back(r: Record, after_an_exit: bool)
    requires
        !r.broken,
    ensures
        ({
            let tail = r.keyboard_bytes() + r.own_bytes();
            let all = r.put_back(after_an_exit);
            tail.len() <= all.len() && all.skip(all.len() - tail.len()) == tail
        }),
{
    let tail = r.keyboard_bytes() + r.own_bytes();
    let all = r.put_back(after_an_exit);
    assert(all.skip(all.len() - tail.len()) =~= tail);
}

/// A private mode set or reset by itself, as a control sequence.
pub open spec fn switched(mode: u16, on: bool) -> Said {
    Said::Csi {
        params: seq![seq![mode]],
        intermediates: seq![0x3fu8],
        ignore: false,
        action: if on {
            'h'
        } else {
            'l'
        },
    }
}

/// A control sequence with these values.
pub open spec fn control(mark: u8, values: Seq<u16>, action: char) -> Said {
    Said::Csi {
        params: values.map_values(|v: u16| seq![v]),
        intermediates: seq![mark],
        ignore: false,
        action,
    }
}

/// A private mode that is set or reset is on or off from there on, and nothing else changes:
/// each mode is kept in its own place, and one that is not kept changes nothing.
pub proof fn law_a_mode_is_kept_in_its_own_place(w: Word, mode: u16, on: bool)
    requires
        w.modes.len() == 6,
    ensures
        ({
            let next = w.on(switched(mode, on));
            &&& mode == 1000 ==> next == Word { press: on, ..w }
            &&& mode == 1002 ==> next == Word { buttons: on, ..w }
            &&& mode == 1003 ==> next == Word { motion: on, ..w }
            &&& mode == 1 ==> next == Word { modes: w.modes.update(0, Some(on)), ..w }
            &&& mode == 1004 ==> next == Word { modes: w.modes.update(1, Some(on)), ..w }
            &&& mode == 2004 ==> next == Word { modes: w.modes.update(2, Some(on)), ..w }
            &&& mode == 2027 ==> next == Word { modes: w.modes.update(3, Some(on)), ..w }
            &&& mode == 2031 ==> next == Word { modes: w.modes.update(4, Some(on)), ..w }
            &&& mode == 2048 ==> next == Word { modes: w.modes.update(5, Some(on)), ..w }
            &&& !seq![1000u16, 1002, 1003, 1, 1004, 2004, 2027, 2031, 2048].contains(mode) ==> next
                == w
        }),
        modes() == seq![1u16, 1004, 2004, 2027, 2031, 2048],
{
    let p = seq![seq![mode]];
    assert(p.drop_last() =~= Seq::<Seq<u16>>::empty());
    reveal_with_fuel(Word::on_modes, 2);
    let known = seq![1000u16, 1002, 1003, 1, 1004, 2004, 2027, 2031, 2048];
    assert(known[0] == 1000 && known[1] == 1002 && known[2] == 1003 && known[3] == 1 && known[4]
        == 1004 && known[5] == 2004 && known[6] == 2027 && known[7] == 2031 && known[8] == 2048);
}

/// Modes that are set in one sequence are set as if each had come by itself, in order.
pub proof fn law_modes_come_one_by_one(w: Word, first: Seq<Seq<u16>>, second: Seq<Seq<u16>>, on: bool)
    ensures
        w.on_modes(first + second, on) == w.on_modes(first, on).on_modes(second, on),
    decreases second.len(),
{
    if second.len() == 0 {
        assert(first + second =~= first);
    } else {
        law_modes_come_one_by_one(w, first, second.drop_last(), on);
        assert((first + second).drop_last() =~= first + second.drop_last());
        assert((first + second).last() == second.last());
    }
}

/// The mouse reports what was last asked for: every motion while that is on, otherwise buttons
/// while either of their modes is on, and nothing once all are off, or before anything is said.
pub proof fn law_the_mouse_reports_what_was_last_asked_for(w: Word)
    requires
        w.modes.len() == 6,
    ensures
        w.on(switched(1003, true)).mouse() == MouseReporting::Motion,
        w.on(switched(1003, false)).on(switched(1002, true)).mouse() == MouseReporting::Buttons,
        w.on(switched(1003, false)).on(switched(1000, true)).mouse() == MouseReporting::Buttons,
        w.on(switched(1003, false)).on(switched(1002, false)).on(switched(1000, false)).mouse()
            == MouseReporting::Off,
        Word::none().mouse() == MouseReporting::Off,
{
    law_a_mode_is_kept_in_its_own_place(w, 1003, true);
    law_a_mode_is_kept_in_its_own_place(w, 1003, false);
    let still = w.on(switched(1003, false));
    law_a_mode_is_kept_in_its_own_place(still, 1002, true);
    law_a_mode_is_kept_in_its_own_place(still, 1000, true);
    law_a_mode_is_kept_in_its_own_place(still, 1002, false);
    law_a_mode_is_kept_in_its_own_place(still.on(switched(1002, false)), 1000, false);
}

/// The keyboard's flags are those last pushed or set: a pop leaves none, flags are set, added
/// or taken away as the sequence says, and nothing but the flags changes.
pub proof fn law_the_keyboard_is_as_it_was_last_set(w: Word, flags: u16, level: u16)
    ensures
        w.on(control(0x3e, seq![flags], 'u')) == (Word { kitty: Some(flags), ..w }),
        w.on(control(0x3d, seq![flags, 1], 'u')) == (Word { kitty: Some(flags), ..w }),
        w.on(control(0x3c, seq![], 'u')) == (Word { kitty: Some(0), ..w }),
        w.on(control(0x3d, seq![flags, 2], 'u')).kitty matches Some(now) && now & flags == flags
            && now & !flags == value_or(w.kitty, 0) & !flags,
        w.on(control(0x3d, seq![flags, 3], 'u')).kitty matches Some(now) && now & flags == 0 && now
            == value_or(w.kitty, 0) & !flags,
        w.on(control(0x3e, seq![4, level], 'm')) == (Word { other_keys: Some(level), ..w }),
        w.on(control(0x20, seq![level], 'q')) == (Word { cursor_shape: Some(level), ..w }),
        w.on((Said::Esc { intermediates: Seq::empty(), byte: 0x3d })) == (Word {
            keypad: Some(true),
            ..w
        }),
        w.on((Said::Esc { intermediates: Seq::empty(), byte: 0x3e })) == (Word {
            keypad: Some(false),
            ..w
        }),
{
    let now: u16 = value_or(w.kitty, 0);
    assert((now | flags) & flags == flags && (now | flags) & !flags == now & !flags)
        by (bit_vector);
    assert((now & !flags) & flags == 0) by (bit_vector);
    assert(seq![0x3eu8][0] == 0x3e && seq![0x3du8][0] == 0x3d && seq![0x3cu8][0] == 0x3c && seq![
        0x20u8,
    ][0] == 0x20 && seq![0x3fu8][0] == 0x3f);
}

/// A title and a cursor colour are kept as they were written, each apart from the other and
/// from everything else; other commands, and ones too long or cut short, change nothing.
pub proof fn law_a_title_is_kept_as_it_was_written(w: Word, fields: Seq<Seq<u8>>, bell: bool)
    requires
        fields.len() > 0,
    ensures
        ({
            let whole = written(fields, bell);
            let next = w.on((Said::Osc { fields, bell_terminated: bell }));
            let fits = fields.len() < 16 && whole.len() <= 1024;
            let title = fields[0] == seq![0x30u8] || fields[0] == seq![0x32u8];
            let colour = fields[0] == seq![0x31u8, 0x32] || fields[0] == seq![0x31u8, 0x31, 0x32];
            &&& fits && title ==> next == Word { title: Some(whole), ..w }
            &&& fits && colour ==> next == Word { cursor_colour: Some(whole), ..w }
            &&& !fits || !(title || colour) ==> next == w
        }),
        written(fields, bell).take(2) == seq![0x1bu8, 0x5d],
        bell ==> written(fields, bell).last() == 0x07,
        !bell ==> written(fields, bell).skip(written(fields, bell).len() - 2) == seq![0x1bu8, 0x5c],
{
    let whole = written(fields, bell);
    assert(whole.take(2) =~= seq![0x1bu8, 0x5d]);
    if !bell {
        assert(whole.skip(whole.len() - 2) =~= seq![0x1bu8, 0x5c]);
    }
    assert(seq![0x30u8].len() == 1 && seq![0x32u8].len() == 1);
    assert(seq![0x31u8, 0x32].len() == 2 && seq![0x31u8, 0x31, 0x32].len() == 3);
}

/// The values of a control sequence as they are written, with a `;` between each two.
pub open spec fn values_text(params: Seq<Seq<u16>>) -> Seq<char>
    decreases params.len(),
{
    if params.len() == 0 {
        Seq::empty()
    } else if params.len() == 1 {
        decimal(params[0][0] as nat)
    } else {
        values_text(params.drop_last()) + seq![';'] + decimal(params.last()[0] as nat)
    }
}

/// How a sequence is written: a control sequence with a private marker in front of its values
/// and any other mark behind them, an escape sequence, or an operating-system command.
pub open spec fn spelled(said: Said) -> Seq<u8> {
    match said {
        Said::Csi { params, intermediates, action, .. } => {
            let private = intermediates.len() > 0 && intermediates[0] >= 0x3c;
            seq![0x1bu8, 0x5b] + (if private {
                intermediates
            } else {
                Seq::empty()
            }) + utf8(values_text(params)) + (if private {
                Seq::empty()
            } else {
                intermediates
            }) + seq![action as u8]
        },
        Said::Esc { intermediates, byte } => seq![0x1bu8] + intermediates + seq![byte],
        Said::Osc { fields, bell_terminated } => written(fields, bell_terminated),
    }
}

/// Several, one behind the other.
pub open spec fn spelled_all(said: Seq<Said>) -> Seq<u8>
    decreases said.len(),
{
    if said.len() == 0 {
        Seq::empty()
    } else {
        spelled_all(said.drop_last()) + spelled(said.last())
    }
}

/// A listener that had heard nothing has now heard what the client's terminal may lack: the
/// client's title, cursor and keyboard as it last said them, the terminal's own cursor colour
/// where the client set none, and of the modes and the keypad those the terminal has not heard
/// or has had undone; and nothing of the mouse.
pub open spec fn told_again(r: Record, after_an_exit: bool, now: Word) -> bool {
    &&& now.title == r.told.title
    &&& now.cursor_shape == r.told.cursor_shape
    &&& now.cursor_colour == match r.told.cursor_colour {
        Some(colour) => Some(colour),
        None => Some(seq![0x1bu8, 0x5d, 0x31, 0x31, 0x32, 0x07]),
    }
    &&& now.kitty == r.told.kitty
    &&& now.other_keys == r.told.other_keys
    &&& now.modes.len() == 6
    &&& forall|at: int|
        0 <= at < 6 ==> #[trigger] now.modes[at] == if !after_an_exit && (r.relayed matches Some(h)
            && h.modes[at] == r.told.modes[at]) {
            None
        } else {
            r.told.modes[at]
        }
    &&& now.keypad == if !after_an_exit && (r.relayed matches Some(h) && h.keypad
        == r.told.keypad) {
        None
    } else {
        r.told.keypad
    }
    &&& !now.press && !now.buttons && !now.motion
}

/// What a ledger holds could have been written: a title and a colour are commands of theirs.
spec fn held_as_written(w: Word) -> bool {
    &&& w.modes.len() == 6
    &&& w.title matches Some(t) ==> exists|fields: Seq<Seq<u8>>, bell: bool|
        t == #[trigger] written(fields, bell) && 0 < fields.len() < 16 && t.len() <= 1024 && (
        fields[0] == seq![0x30u8] || fields[0] == seq![0x32u8])
    &&& w.cursor_colour matches Some(t) ==> exists|fields: Seq<Seq<u8>>, bell: bool|
        t == #[trigger] written(fields, bell) && 0 < fields.len() < 16 && t.len() <= 1024 && (
        fields[0] == seq![0x31u8, 0x32] || fields[0] == seq![0x31u8, 0x31, 0x32])
}

proof fn lemma_modes_keep_the_rest(w: Word, params: Seq<Seq<u16>>, on: bool)
    requires
        w.modes.len() == 6,
    ensures
        ({
            let next = w.on_modes(params, on);
            &&& next.modes.len() == 6
            &&& next.title == w.title && next.cursor_colour == w.cursor_colour
        }),
    decreases params.len(),
{
    if params.len() > 0 {
        lemma_modes_keep_the_rest(w, params.drop_last(), on);
    }
}

proof fn lemma_held_as_written(said: Seq<Said>)
    ensures
        held_as_written(Word::none().after(said)),
    decreases said.len(),
{
    if said.len() > 0 {
        lemma_held_as_written(said.drop_last());
        let before = Word::none().after(said.drop_last());
        match said.last() {
            Said::Csi { params, intermediates, ignore, action } => {
                lemma_modes_keep_the_rest(before, params, action == 'h');
            },
            Said::Esc { .. } => {},
            Said::Osc { fields, bell_terminated } => {
                let whole = written(fields, bell_terminated);
            },
        }
    }
}

proof fn lemma_spelled_concat(a: Seq<Said>, b: Seq<Said>)
    ensures
        spelled_all(a + b) == spelled_all(a) + spelled_all(b),
        forall|w: Word| #[trigger] w.after(a + b) == w.after(a).after(b),
    decreases b.len(),
{
    if b.len() == 0 {
        assert(a + b =~= a);
        assert(spelled_all(a) + spelled_all(b) =~= spelled_all(a));
    } else {
        lemma_spelled_concat(a, b.drop_last());
        assert((a + b).drop_last() =~= a + b.drop_last());
        assert((a + b).last() == b.last());
        assert(spelled_all(a + b) =~= spelled_all(a) + spelled_all(b));
        assert forall|w: Word| #[trigger] w.after(a + b) == w.after(a).after(b) by {
            assert(w.after(a + b.drop_last()) == w.after(a).after(b.drop_last()));
        }
    }
}

proof fn lemma_spelled_one(said: Said)
    ensures
        spelled_all(seq![said]) == spelled(said),
        forall|w: Word| #[trigger] w.after(seq![said]) == w.on(said),
{
    let s = seq![said];
    assert(s.drop_last() =~= Seq::<Said>::empty());
    assert(spelled_all(s.drop_last()) =~= Seq::<u8>::empty());
    assert(spelled_all(s) =~= spelled(said));
    assert forall|w: Word| #[trigger] w.after(seq![said]) == w.on(said) by {
        assert(w.after(s.drop_last()) == w);
    }
}

proof fn lemma_ascii(s: Seq<char>)
    requires
        vstd::utf8::is_ascii_chars(s),
    ensures
        utf8(s) == s.map_values(|c: char| c as u8),
{
    vstd::utf8::is_ascii_chars_encode_utf8(s);
    assert(utf8(s) =~= s.map_values(|c: char| c as u8));
}

proof fn lemma_decimal_is_ascii(n: nat)
    ensures
        vstd::utf8::is_ascii_chars(decimal(n)),
        decimal(n).len() > 0,
{
    crate::text::lemma_decimal_reads_back(n);
    let d = decimal(n);
    assert forall|i: int| 0 <= i < d.len() implies '\0' <= #[trigger] d[i] <= '\u{7f}' by {
        assert('0' <= d[i] && d[i] <= '9');
    }
}

/// The modes below `n` that are owed this word, as the values of a control sequence.
spec fn owed_params(r: Record, word: bool, after_an_exit: bool, n: int) -> Seq<Seq<u16>>
    decreases n,
{
    if n <= 0 {
        Seq::empty()
    } else {
        let before = owed_params(r, word, after_an_exit, n - 1);
        if r.owes(n - 1, word, after_an_exit) {
            before.push(seq![modes()[n - 1]])
        } else {
            before
        }
    }
}

proof fn lemma_owed_text(r: Record, word: bool, after_an_exit: bool, n: int)
    requires
        0 <= n <= 6,
    ensures
        ({
            let ps = owed_params(r, word, after_an_exit, n);
            &&& values_text(ps) == r.owed_modes(word, after_an_exit, n)
            &&& vstd::utf8::is_ascii_chars(values_text(ps))
            &&& ps.len() == 0 <==> values_text(ps).len() == 0
        }),
    decreases n,
{
    if n > 0 {
        lemma_owed_text(r, word, after_an_exit, n - 1);
        let before = owed_params(r, word, after_an_exit, n - 1);
        let ps = owed_params(r, word, after_an_exit, n);
        let d = decimal(modes()[n - 1] as nat);
        lemma_decimal_is_ascii(modes()[n - 1] as nat);
        reveal_strlit(";");
        assert(";"@ =~= seq![';']);
        if r.owes(n - 1, word, after_an_exit) {
            assert(ps.drop_last() =~= before);
            assert(ps.last() == seq![modes()[n - 1]]);
            if before.len() == 0 {
                assert(ps[0] == ps.last());
            }
            assert(vstd::utf8::is_ascii_chars(values_text(ps)));
        }
    }
}

proof fn lemma_owed_modes_arrive(w: Word, r: Record, word: bool, after_an_exit: bool, n: int)
    requires
        0 <= n <= 6,
        w.modes.len() == 6,
    ensures
        ({
            let next = w.on_modes(owed_params(r, word, after_an_exit, n), word);
            &&& next == Word { modes: next.modes, ..w }
            &&& next.modes.len() == 6
            &&& forall|at: int|
                0 <= at < 6 ==> #[trigger] next.modes[at] == if at < n && r.owes(
                    at,
                    word,
                    after_an_exit,
                ) {
                    Some(word)
                } else {
                    w.modes[at]
                }
        }),
    decreases n,
{
    if n > 0 {
        lemma_owed_modes_arrive(w, r, word, after_an_exit, n - 1);
        let before = owed_params(r, word, after_an_exit, n - 1);
        let ps = owed_params(r, word, after_an_exit, n);
        if r.owes(n - 1, word, after_an_exit) {
            assert(ps.drop_last() =~= before);
            assert(ps.last() == seq![modes()[n - 1]]);
            assert(mode_index(modes()[n - 1]) == Some(n - 1));
        }
    }
}

/// The sequence, if there is one, that gives the terminal the modes owed this word.
spec fn modes_again(r: Record, word: bool, after_an_exit: bool) -> Seq<Said> {
    let ps = owed_params(r, word, after_an_exit, 6);
    if ps.len() == 0 {
        Seq::empty()
    } else {
        seq![
            Said::Csi {
                params: ps,
                intermediates: seq![0x3fu8],
                ignore: false,
                action: if word {
                    'h'
                } else {
                    'l'
                },
            },
        ]
    }
}

proof fn lemma_modes_again(w: Word, r: Record, word: bool, after_an_exit: bool)
    requires
        w.modes.len() == 6,
    ensures
        spelled_all(modes_again(r, word, after_an_exit)) == r.mode_bytes(word, after_an_exit),
        ({
            let next = w.after(modes_again(r, word, after_an_exit));
            &&& next == Word { modes: next.modes, ..w }
            &&& next.modes.len() == 6
            &&& forall|at: int|
                0 <= at < 6 ==> #[trigger] next.modes[at] == if r.owes(at, word, after_an_exit) {
                    Some(word)
                } else {
                    w.modes[at]
                }
        }),
{
    let ps = owed_params(r, word, after_an_exit, 6);
    lemma_owed_text(r, word, after_an_exit, 6);
    lemma_owed_modes_arrive(w, r, word, after_an_exit, 6);
    if ps.len() > 0 {
        lemma_spelled_one(modes_again(r, word, after_an_exit)[0]);
        assert(modes_again(r, word, after_an_exit) =~= seq![
            modes_again(r, word, after_an_exit)[0],
        ]);
        reveal_strlit("\x1b[?");
        reveal_strlit("h");
        reveal_strlit("l");
        lemma_ascii("\x1b[?"@);
        lemma_ascii("h"@);
        lemma_ascii("l"@);
        assert(spelled_all(modes_again(r, word, after_an_exit)) =~= r.mode_bytes(
            word,
            after_an_exit,
        ));
    } else {
        assert(w.on_modes(ps, word) == w);
    }
}

spec fn keypad_again(r: Record, after_an_exit: bool) -> Seq<Said> {
    if !is_news(r.told.keypad, r.heard_keypad(), after_an_exit) {
        Seq::empty()
    } else {
        seq![
            Said::Esc {
                intermediates: Seq::empty(),
                byte: if r.told.keypad == Some(true) {
                    0x3d
                } else {
                    0x3e
                },
            },
        ]
    }
}

spec fn keyboard_again(r: Record) -> Seq<Said> {
    kitty_again(r) + other_keys_again(r)
}

/// A command that is written like this.
spec fn command_written(bytes: Seq<u8>, title: bool) -> Said {
    let (fields, bell) = choose|fields: Seq<Seq<u8>>, bell: bool|
        bytes == #[trigger] written(fields, bell) && 0 < fields.len() < 16 && bytes.len() <= 1024
            && if title {
            fields[0] == seq![0x30u8] || fields[0] == seq![0x32u8]
        } else {
            fields[0] == seq![0x31u8, 0x32] || fields[0] == seq![0x31u8, 0x31, 0x32]
        };
    Said::Osc { fields, bell_terminated: bell }
}

spec fn own_again(r: Record) -> Seq<Said> {
    (match r.told.title {
        Some(title) => seq![command_written(title, true)],
        None => Seq::empty(),
    }) + (match r.told.cursor_shape {
        Some(shape) => seq![control(0x20, seq![shape], 'q')],
        None => Seq::empty(),
    }) + match r.told.cursor_colour {
        Some(colour) => seq![command_written(colour, false)],
        None => seq![Said::Osc { fields: seq![seq![0x31u8, 0x31, 0x32]], bell_terminated: true }],
    }
}

proof fn lemma_two_values(a: u16, b: u16)
    ensures
        utf8(values_text(seq![a, b].map_values(|v: u16| seq![v]))) == utf8(decimal(a as nat))
            + seq![0x3bu8] + utf8(decimal(b as nat)),
        utf8(values_text(seq![a].map_values(|v: u16| seq![v]))) == utf8(decimal(a as nat)),
{
    let two = seq![a, b].map_values(|v: u16| seq![v]);
    let one = seq![a].map_values(|v: u16| seq![v]);
    assert(two.drop_last() =~= one);
    assert(two.last()[0] == b && one[0][0] == a);
    lemma_decimal_is_ascii(a as nat);
    lemma_decimal_is_ascii(b as nat);
    let x = decimal(a as nat);
    let y = decimal(b as nat);
    let all = x + seq![';'] + y;
    reveal_with_fuel(values_text, 2);
    assert(values_text(two) == all);
    lemma_ascii(x);
    lemma_ascii(y);
    assert(vstd::utf8::is_ascii_chars(all));
    lemma_ascii(all);
    assert(utf8(all) =~= utf8(x) + seq![0x3bu8] + utf8(y));
}

proof fn lemma_decimal_digit(n: u16, c: char)
    requires
        n < 10,
        c == (0x30 + n) as char,
    ensures
        utf8(decimal(n as nat)) == seq![c as u8],
{
    lemma_decimal_is_ascii(n as nat);
    lemma_ascii(decimal(n as nat));
    assert(utf8(decimal(n as nat)) =~= seq![c as u8]);
}

proof fn lemma_keypad_again(w: Word, r: Record, after_an_exit: bool)
    ensures
        spelled_all(keypad_again(r, after_an_exit)) == r.keypad_bytes(after_an_exit),
        w.after(keypad_again(r, after_an_exit)) == (Word {
            keypad: if is_news(r.told.keypad, r.heard_keypad(), after_an_exit) {
                r.told.keypad
            } else {
                w.keypad
            },
            ..w
        }),
{
    let s = keypad_again(r, after_an_exit);
    if s.len() > 0 {
        lemma_spelled_one(s[0]);
        assert(s =~= seq![s[0]]);
        reveal_strlit("\x1b=");
        reveal_strlit("\x1b>");
        lemma_ascii("\x1b="@);
        lemma_ascii("\x1b>"@);
        assert(spelled_all(s) =~= r.keypad_bytes(after_an_exit));
    }
}

spec fn kitty_again(r: Record) -> Seq<Said> {
    match r.told.kitty {
        Some(flags) => seq![control(0x3d, seq![flags, 1], 'u')],
        None => Seq::empty(),
    }
}

spec fn other_keys_again(r: Record) -> Seq<Said> {
    match r.told.other_keys {
        Some(level) => seq![control(0x3e, seq![4, level], 'm')],
        None => Seq::empty(),
    }
}

proof fn lemma_kitty_again(w: Word, r: Record)
    ensures
        spelled_all(kitty_again(r)) == match r.told.kitty {
            Some(flags) => utf8("\x1b[="@) + utf8(decimal(flags as nat)) + utf8(";1u"@),
            None => Seq::empty(),
        },
        w.after(kitty_again(r)) == (Word {
            kitty: if r.told.kitty is Some {
                r.told.kitty
            } else {
                w.kitty
            },
            ..w
        }),
{
    if let Some(flags) = r.told.kitty {
        let said = control(0x3d, seq![flags, 1], 'u');
        reveal_strlit("\x1b[=");
        reveal_strlit(";1u");
        lemma_ascii("\x1b[="@);
        lemma_ascii(";1u"@);
        lemma_decimal_digit(1, '1');
        lemma_spelled_one(said);
        lemma_two_values(flags, 1);
        law_the_keyboard_is_as_it_was_last_set(w, flags, 0);
        assert(spelled(said) =~= utf8("\x1b[="@) + utf8(decimal(flags as nat)) + utf8(";1u"@));
    }
}

proof fn lemma_other_keys_again(w: Word, r: Record)
    ensures
        spelled_all(other_keys_again(r)) == match r.told.other_keys {
            Some(level) => utf8("\x1b[>4;"@) + utf8(decimal(level as nat)) + utf8("m"@),
            None => Seq::empty(),
        },
        w.after(other_keys_again(r)) == (Word {
            other_keys: if r.told.other_keys is Some {
                r.told.other_keys
            } else {
                w.other_keys
            },
            ..w
        }),
{
    if let Some(level) = r.told.other_keys {
        let said = control(0x3e, seq![4, level], 'm');
        reveal_strlit("\x1b[>4;");
        reveal_strlit("m");
        lemma_ascii("\x1b[>4;"@);
        lemma_ascii("m"@);
        lemma_decimal_digit(4, '4');
        lemma_spelled_one(said);
        lemma_two_values(4, level);
        law_the_keyboard_is_as_it_was_last_set(w, 0, level);
        assert(spelled(said) =~= utf8("\x1b[>4;"@) + utf8(decimal(level as nat)) + utf8("m"@));
    }
}

proof fn lemma_keyboard_again(w: Word, r: Record)
    ensures
        spelled_all(keyboard_again(r)) == r.keyboard_bytes(),
        w.after(keyboard_again(r)) == (Word {
            kitty: if r.told.kitty is Some {
                r.told.kitty
            } else {
                w.kitty
            },
            other_keys: if r.told.other_keys is Some {
                r.told.other_keys
            } else {
                w.other_keys
            },
            ..w
        }),
{
    let a = kitty_again(r);
    let b = other_keys_again(r);
    lemma_spelled_concat(a, b);
    lemma_kitty_again(w, r);
    lemma_other_keys_again(w.after(a), r);
    assert(w.after(a + b) == w.after(a).after(b));
}

proof fn lemma_own_again(w: Word, r: Record)
    requires
        held_as_written(r.told),
    ensures
        spelled_all(own_again(r)) == r.own_bytes(),
        w.after(own_again(r)) == (Word {
            title: if r.told.title is Some {
                r.told.title
            } else {
                w.title
            },
            cursor_shape: if r.told.cursor_shape is Some {
                r.told.cursor_shape
            } else {
                w.cursor_shape
            },
            cursor_colour: if r.told.cursor_colour is Some {
                r.told.cursor_colour
            } else {
                Some(seq![0x1bu8, 0x5d, 0x31, 0x31, 0x32, 0x07])
            },
            ..w
        }),
{
    let a = match r.told.title {
        Some(title) => seq![command_written(title, true)],
        None => Seq::empty(),
    };
    let b = match r.told.cursor_shape {
        Some(shape) => seq![control(0x20, seq![shape], 'q')],
        None => Seq::empty(),
    };
    let reset = Said::Osc { fields: seq![seq![0x31u8, 0x31, 0x32]], bell_terminated: true };
    let c = match r.told.cursor_colour {
        Some(colour) => seq![command_written(colour, false)],
        None => seq![reset],
    };
    lemma_spelled_concat(a, b);
    lemma_spelled_concat(a + b, c);
    reveal_strlit("\x1b[");
    reveal_strlit(" q");
    reveal_strlit("\x1b]112\x07");
    lemma_ascii("\x1b["@);
    lemma_ascii(" q"@);
    lemma_ascii("\x1b]112\x07"@);
    let one = w.after(a);
    let two = one.after(b);
    if let Some(title) = r.told.title {
        lemma_spelled_one(a[0]);
        let said = command_written(title, true);
        if let Said::Osc { fields, bell_terminated } = said {
            law_a_title_is_kept_as_it_was_written(w, fields, bell_terminated);
        }
        assert(spelled_all(a) == title);
    }
    if let Some(shape) = r.told.cursor_shape {
        lemma_spelled_one(b[0]);
        lemma_two_values(shape, 0);
        law_the_keyboard_is_as_it_was_last_set(one, 0, shape);
        assert(spelled_all(b) =~= utf8("\x1b["@) + utf8(decimal(shape as nat)) + utf8(" q"@));
    }
    lemma_spelled_one(c[0]);
    if let Some(colour) = r.told.cursor_colour {
        let said = command_written(colour, false);
        if let Said::Osc { fields, bell_terminated } = said {
            law_a_title_is_kept_as_it_was_written(two, fields, bell_terminated);
        }
        assert(spelled_all(c) == colour);
    } else {
        let fields = seq![seq![0x31u8, 0x31, 0x32]];
        law_a_title_is_kept_as_it_was_written(two, fields, true);
        assert(rejoined(fields) == fields[0]);
        assert(written(fields, true) =~= seq![0x1bu8, 0x5d, 0x31, 0x31, 0x32, 0x07]);
        assert(written(fields, true) =~= utf8("\x1b]112\x07"@));
    }
    assert(w.after(own_again(r)) == two.after(c));
}

/// Everything that is put back, as the sequences that say it.
spec fn all_again(r: Record, after_an_exit: bool) -> Seq<Said> {
    modes_again(r, false, after_an_exit) + modes_again(r, true, after_an_exit) + keypad_again(
        r,
        after_an_exit,
    ) + keyboard_again(r) + own_again(r)
}

proof fn lemma_all_again_is_spelled(r: Record, after_an_exit: bool)
    requires
        !r.broken,
        held_as_written(r.told),
    ensures
        spelled_all(all_again(r, after_an_exit)) == r.put_back(after_an_exit),
{
    let w = Word::none();
    let a = modes_again(r, false, after_an_exit);
    let b = modes_again(r, true, after_an_exit);
    let c = keypad_again(r, after_an_exit);
    let d = keyboard_again(r);
    let e = own_again(r);
    lemma_modes_again(w, r, false, after_an_exit);
    lemma_modes_again(w, r, true, after_an_exit);
    lemma_keypad_again(w, r, after_an_exit);
    lemma_keyboard_again(w, r);
    lemma_own_again(w, r);
    lemma_spelled_concat(a, b);
    lemma_spelled_concat(a + b, c);
    lemma_spelled_concat(a + b + c, d);
    lemma_spelled_concat(a + b + c + d, e);
}

proof fn lemma_modes_told(r: Record, after_an_exit: bool)
    ensures
        ({
            let w = Word::none();
            let b = w.after(modes_again(r, false, after_an_exit)).after(
                modes_again(r, true, after_an_exit),
            );
            &&& b == Word { modes: b.modes, ..w }
            &&& b.modes.len() == 6
            &&& forall|at: int|
                0 <= at < 6 ==> #[trigger] b.modes[at] == if !after_an_exit && (
                r.relayed matches Some(h) && h.modes[at] == r.told.modes[at]) {
                    None
                } else {
                    r.told.modes[at]
                }
        }),
{
    let w = Word::none();
    let a = w.after(modes_again(r, false, after_an_exit));
    let b = a.after(modes_again(r, true, after_an_exit));
    lemma_modes_again(w, r, false, after_an_exit);
    lemma_modes_again(a, r, true, after_an_exit);
    assert forall|at: int| 0 <= at < 6 implies #[trigger] b.modes[at] == if !after_an_exit && (
    r.relayed matches Some(h) && h.modes[at] == r.told.modes[at]) {
        None
    } else {
        r.told.modes[at]
    } by {
        assert(w.modes[at] is None) by {
            assert(at == 0 || at == 1 || at == 2 || at == 3 || at == 4 || at == 5);
        }
        assert(a.modes[at] == if r.owes(at, false, after_an_exit) {
            Some(false)
        } else {
            w.modes[at]
        });
        assert(b.modes[at] == if r.owes(at, true, after_an_exit) {
            Some(true)
        } else {
            a.modes[at]
        });
        assert(r.told.modes[at] is None || r.told.modes[at] == Some(true) || r.told.modes[at]
            == Some(false));
    }
}

proof fn lemma_all_again_runs(r: Record, after_an_exit: bool)
    ensures
        Word::none().after(all_again(r, after_an_exit)) == Word::none().after(
            modes_again(r, false, after_an_exit),
        ).after(modes_again(r, true, after_an_exit)).after(keypad_again(r, after_an_exit)).after(
            keyboard_again(r),
        ).after(own_again(r)),
{
    let resets = modes_again(r, false, after_an_exit);
    let sets = modes_again(r, true, after_an_exit);
    let keypad = keypad_again(r, after_an_exit);
    let keyboard = keyboard_again(r);
    lemma_spelled_concat(resets, sets);
    lemma_spelled_concat(resets + sets, keypad);
    lemma_spelled_concat(resets + sets + keypad, keyboard);
    lemma_spelled_concat(resets + sets + keypad + keyboard, own_again(r));
}

proof fn lemma_all_again_tells(r: Record, after_an_exit: bool)
    requires
        held_as_written(r.told),
    ensures
        told_again(r, after_an_exit, Word::none().after(all_again(r, after_an_exit))),
{
    let b = Word::none().after(modes_again(r, false, after_an_exit)).after(
        modes_again(r, true, after_an_exit),
    );
    let c = b.after(keypad_again(r, after_an_exit));
    let d = c.after(keyboard_again(r));
    lemma_all_again_runs(r, after_an_exit);
    lemma_modes_told(r, after_an_exit);
    lemma_keypad_again(b, r, after_an_exit);
    lemma_keyboard_again(c, r);
    lemma_own_again(d, r);
}

/// What is put back says again what the client said. The bytes are a run of whole sequences,
/// and a listener that has heard nothing, once it has taken them in, holds the client's title,
/// cursor and keyboard as the ledger does, and the modes and the keypad that the terminal may
/// lack. A ledger that has been given up puts nothing back.
pub proof fn law_what_is_put_back_says_again_what_was_said(r: Record, after_an_exit: bool)
    requires
        r.wf(),
    ensures
        !r.broken ==> exists|again: Seq<Said>|
            #![trigger spelled_all(again)]
            r.put_back(after_an_exit) == spelled_all(again) && told_again(
                r,
                after_an_exit,
                Word::none().after(again),
            ),
        r.broken ==> r.put_back(after_an_exit) == Seq::<u8>::empty(),
{
    if !r.broken {
        lemma_held_as_written(dispatched(r.shown));
        lemma_all_again_is_spelled(r, after_an_exit);
        lemma_all_again_tells(r, after_an_exit);
    }
}

/// The title is among the bytes that are put back, as the client wrote it, and so are its cursor
/// colour, at the very end, and where it set none the sequence that resets it.
pub proof fn law_the_title_and_the_colour_are_put_back(r: Record, after_an_exit: bool)
    requires
        !r.broken,
    ensures
        r.told.title matches Some(title) ==> exists|at: int|
            0 <= at && at + title.len() <= r.put_back(after_an_exit).len()
                && #[trigger] r.put_back(after_an_exit).subrange(at, at + title.len()) == title,
        ({
            let all = r.put_back(after_an_exit);
            let colour = match r.told.cursor_colour {
                Some(colour) => colour,
                None => seq![0x1bu8, 0x5d, 0x31, 0x31, 0x32, 0x07],
            };
            colour.len() <= all.len() && all.skip(all.len() - colour.len()) == colour
        }),
{
    let all = r.put_back(after_an_exit);
    let front = r.mode_bytes(false, after_an_exit) + r.mode_bytes(true, after_an_exit)
        + r.keypad_bytes(after_an_exit) + r.keyboard_bytes();
    if let Some(title) = r.told.title {
        let at = front.len() as int;
        assert(all.subrange(at, at + title.len()) =~= title);
    }
    reveal_strlit("\x1b]112\x07");
    lemma_ascii("\x1b]112\x07"@);
    assert(utf8("\x1b]112\x07"@) =~= seq![0x1bu8, 0x5d, 0x31, 0x31, 0x32, 0x07]);
    let colour = match r.told.cursor_colour {
        Some(colour) => colour,
        None => seq![0x1bu8, 0x5d, 0x31, 0x31, 0x32, 0x07],
    };
    assert(all.skip(all.len() - colour.len()) =~= colour);
}

/// In-band size reports are said to be put back exactly when the client has them on and the
/// terminal may lack them.
pub proof fn law_in_band_reports_are_owed_when_on_and_unheard(r: Record, after_an_exit: bool)
    ensures
        r.owes(5, true, after_an_exit) <==> r.told.modes[5] == Some(true) && (after_an_exit
            || !(r.relayed matches Some(h) && h.modes[5] == Some(true))),
        modes()[5] == 2048,
{
}

/// A client reads its size in band from the moment it turns the reports on to the moment it
/// turns them off, and no other mode makes a difference; at first it does not.
pub proof fn law_size_is_read_in_band_while_the_reports_are_on(w: Word, mode: u16, on: bool)
    requires
        w.modes.len() == 6,
    ensures
        w.on(switched(2048, on)).in_band() == on,
        mode != 2048 ==> w.on(switched(mode, on)).in_band() == w.in_band(),
        !Word::none().in_band(),
{
    law_a_mode_is_kept_in_its_own_place(w, 2048, on);
    law_a_mode_is_kept_in_its_own_place(w, mode, on);
    let known = seq![1000u16, 1002, 1003, 1, 1004, 2004, 2027, 2031, 2048];
    if known.contains(mode) {
        let i = choose|i: int| 0 <= i < known.len() && known[i] == mode;
        assert(i == 0 || i == 1 || i == 2 || i == 3 || i == 4 || i == 5 || i == 6 || i == 7 || i
            == 8);
    }
}

} // verus!
