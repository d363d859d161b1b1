//! How a terminal spells a key as an escape sequence, and whether that key is the prefix.
//!
//! In its plainest form a `Ctrl` chord is one control byte. A terminal that was asked for
//! a richer keyboard encoding spells the same chord as an escape sequence instead:
//!
//! ```text
//! Ctrl-Space, legacy:          0x00
//! Ctrl-Space, kitty protocol:  ESC [ 32 ; 5 u       32 = ' ', 5 = 1 + ctrl
//! Ctrl-Space, modifyOtherKeys: ESC [ 27 ; 5 ; 32 ~
//! ```
//!
//! [`classify`] decides whether a sequence is the prefix (pressed or held down), reports
//! a key being released, is the terminal's reply to one of the editor's queries, or is
//! something else. No sequence is decoded any further than that.
//!
//! The kitty form is `CSI key[:shifted[:base]] ; modifiers[:event] [; text] u`, with
//! `modifiers` one plus a bitmask (shift 1, alt 2, ctrl 4, super 8, hyper 16, meta 32,
//! caps lock 64, num lock 128) and `event` 1 for a press, 2 for a repeat, 3 for a release.
//! The xterm form is `CSI 27 ; modifiers ; key ~`.

use vstd::prelude::*;

use crate::bytes::{
    all_digits, is_digit, law_digits_spell_a_number, law_pieces_stand_between_separators, nth_piece,
    number, piece, short_number,
};

verus! {

/// The byte every escape sequence starts with.
pub const ESC: u8 = 0x1b;

/// Longer than this and it is not a key report or a reply, whatever it is.
pub const MAX_LEN: usize = 64;

/// What a run of bytes beginning with [`ESC`] has turned out to be.
#[derive(Debug, Clone, Copy, PartialEq, Eq)]
pub enum Sequence {
    /// Not finished: more bytes could still make it any of the others.
    Partial,
    /// A complete report of the prefix chord being pressed or auto-repeated.
    Prefix,
    /// A complete report of the key with this code being released.
    Release(u32),
    /// A complete reply from the terminal to one of the editor's queries.
    Reply,
    /// The first `n` bytes are a whole key that is not the prefix, or a sequence that is
    /// no key report at all; any byte after them is input to be handled afresh.
    Other(usize),
}

/// A marker that only a reply has behind `ESC [`: `?`, `>` or `=`.
pub open spec fn is_marker(b: u8) -> bool {
    b == 0x3f || b == 0x3e || b == 0x3d
}

/// The sequence is a reply: its first parameter byte is a private marker.
pub open spec fn is_reply(seq: Seq<u8>) -> bool {
    seq.len() > 2 && is_marker(seq[2])
}

/// The byte at `i` can stand inside the sequence: a digit, a separator that is not
/// first, a leading marker, or, in a reply, an intermediate byte.
pub open spec fn goes_on(seq: Seq<u8>, i: int) -> bool {
    let b = seq[i];
    ||| 0x30 <= b <= 0x39
    ||| i == 2 && is_marker(b)
    ||| i > 2 && (b == 0x3b || b == 0x3a)
    ||| is_reply(seq) && 0x20 <= b <= 0x2f
}

/// The first byte at or after `i` at which the sequence ends, or the length if every byte
/// so far can stand inside it.
pub open spec fn stop(seq: Seq<u8>, i: int) -> int
    decreases seq.len() - i,
{
    if i >= seq.len() {
        seq.len() as int
    } else if goes_on(seq, i) {
        stop(seq, i + 1)
    } else {
        i
    }
}

/// Ctrl is held and nothing else, the two lock keys aside: `modifiers` is one plus a mask.
pub open spec fn ctrl_held_alone(modifiers: u32) -> bool {
    let mask = modifiers - 1;
    mask == 4 || mask == 4 + 64 || mask == 4 + 128 || mask == 4 + 64 + 128
}

/// The number in the `n`th `:`-separated part of the `m`th `;`-separated field.
pub open spec fn field_number(params: Seq<u8>, m: nat, n: nat) -> Option<u32> {
    match piece(params, 0x3b, m) {
        Some(field) => match piece(field, 0x3a, n) {
            Some(part) => short_number(part),
            None => None,
        },
        None => None,
    }
}

/// The kitty form has an event field: the second part of the second field.
pub open spec fn has_event(params: Seq<u8>) -> bool {
    piece(params, 0x3b, 1) matches Some(field) && piece(field, 0x3a, 1) is Some
}

/// What the parameters of a kitty report say. The second field may be left out, which
/// means no modifiers and a press; an event left out means a press.
pub open spec fn kitty_report(params: Seq<u8>, code: u8) -> Option<Sequence> {
    match field_number(params, 0, 0) {
        None => None,
        Some(reported) => {
            let modifiers = if piece(params, 0x3b, 1) is None {
                Some(1u32)
            } else {
                field_number(params, 1, 0)
            };
            let event = if has_event(params) {
                field_number(params, 1, 1)
            } else {
                Some(1u32)
            };
            match (modifiers, event) {
                (Some(m), Some(e)) => if e == 3 {
                    Some(Sequence::Release(reported))
                } else if (e == 1 || e == 2) && reported == code && ctrl_held_alone(m) {
                    Some(Sequence::Prefix)
                } else {
                    None
                },
                _ => None,
            }
        },
    }
}

/// What the parameters of an xterm report say.
pub open spec fn xterm_report(params: Seq<u8>, code: u8) -> Option<Sequence> {
    match (field_number(params, 0, 0), field_number(params, 1, 0), field_number(params, 2, 0)) {
        (Some(form), Some(m), Some(reported)) => if form == 27 && reported == code
            && ctrl_held_alone(m) {
            Some(Sequence::Prefix)
        } else {
            None
        },
        _ => None,
    }
}

/// What a complete sequence says, if it is one of the reports.
pub open spec fn report(params: Seq<u8>, fin: u8, code: u8) -> Option<Sequence> {
    if fin == 0x75 {
        kitty_report(params, code)
    } else if fin == 0x7e {
        xterm_report(params, code)
    } else {
        None
    }
}

/// What `seq`, which starts with [`ESC`], is for the chord with key code `code`.
pub open spec fn classified(seq: Seq<u8>, code: u8) -> Sequence {
    if seq.len() < 2 {
        Sequence::Partial
    } else if seq[1] != 0x5b {
        Sequence::Other(1)
    } else {
        let end = stop(seq, 2);
        if end >= seq.len() {
            if seq.len() >= MAX_LEN {
                Sequence::Other(seq.len() as usize)
            } else {
                Sequence::Partial
            }
        } else {
            let b = seq[end];
            if 0x40 <= b <= 0x7e {
                if is_reply(seq) {
                    Sequence::Reply
                } else {
                    match report(seq.subrange(2, end), b, code) {
                        Some(decided) => decided,
                        None => Sequence::Other((end + 1) as usize),
                    }
                }
            } else if 0x20 <= b <= 0x3f {
                Sequence::Other((end + 1) as usize)
            } else {
                Sequence::Other(end as usize)
            }
        }
    }
}

/// The stop lies in the sequence, everything before it goes on, and it does not.
pub proof fn lemma_stop(seq: Seq<u8>, i: int)
    requires
        2 <= i <= seq.len(),
    ensures
        i <= stop(seq, i) <= seq.len(),
        forall|j: int| i <= j < stop(seq, i) ==> goes_on(seq, j),
        stop(seq, i) < seq.len() ==> !goes_on(seq, stop(seq, i)),
    decreases seq.len() - i,
{
    if i < seq.len() && goes_on(seq, i) {
        lemma_stop(seq, i + 1);
    }
}

/// Where everything before `end` goes on and `end` does not, that is the stop.
proof fn lemma_stop_is(seq: Seq<u8>, i: int, end: int)
    requires
        2 <= i <= end <= seq.len(),
        forall|j: int| i <= j < end ==> goes_on(seq, j),
        end < seq.len() ==> !goes_on(seq, end),
    ensures
        stop(seq, i) == end,
    decreases end - i,
{
    if i < end {
        assert(goes_on(seq, i));
        lemma_stop_is(seq, i + 1, end);
    }
}

/// A sequence that is undecided was undecided at every byte on the way: a machine that
/// asks again after every byte decides on exactly the byte that decides.
pub proof fn law_partial_until_decided(seq: Seq<u8>, code: u8, cut: int)
    requires
        classified(seq, code) == Sequence::Partial,
        0 <= cut <= seq.len(),
    ensures
        classified(seq.take(cut), code) == Sequence::Partial,
{
    let short = seq.take(cut);
    if cut >= 2 {
        assert(short[1] == seq[1]);
        lemma_stop(seq, 2);
        assert(cut > 2 ==> short[2] == seq[2]);
        assert forall|j: int| 2 <= j < cut implies goes_on(short, j) by {
            assert(goes_on(seq, j));
            assert(short[j] == seq[j]);
        }
        lemma_stop_is(short, 2, cut);
    }
}

/// A decision never changes with more bytes. (A sequence given up at [`MAX_LEN`] is the
/// one thing decided by its length.)
pub proof fn law_a_decision_stands(seq: Seq<u8>, more: Seq<u8>, code: u8)
    requires
        classified(seq, code) != Sequence::Partial,
        seq.len() < MAX_LEN,
    ensures
        classified(seq + more, code) == classified(seq, code),
{
    let long = seq + more;
    assert(long[1] == seq[1]);
    if seq[1] == 0x5b {
        lemma_stop(seq, 2);
        let end = stop(seq, 2);
        assert(long[2] == seq[2]);
        assert(long[end] == seq[end]);
        assert forall|j: int| 2 <= j < end implies goes_on(long, j) by {
            assert(goes_on(seq, j));
            assert(long[j] == seq[j]);
        }
        lemma_stop_is(long, 2, end);
        assert(long.subrange(2, end) =~= seq.subrange(2, end));
    }
}

/// What [`Sequence::Other`] hands back is never empty and never longer than the sequence.
pub proof fn law_other_is_within(seq: Seq<u8>, code: u8)
    requires
        seq.len() >= 1,
        seq.len() <= usize::MAX,
    ensures
        classified(seq, code) matches Sequence::Other(n) ==> 1 <= n <= seq.len(),
{
    if seq.len() >= 2 {
        lemma_stop(seq, 2);
    }
}

/// One byte more than an undecided sequence: what `Other` leaves over is at most that byte.
pub proof fn lemma_other_leaves_one(seq: Seq<u8>, code: u8)
    requires
        2 <= seq.len() <= MAX_LEN,
        classified(seq.drop_last(), code) == Sequence::Partial,
    ensures
        classified(seq, code) matches Sequence::Other(n) ==> seq.len() - 1 <= n <= seq.len(),
{
    let short = seq.drop_last();
    lemma_stop(seq, 2);
    if seq[1] == 0x5b && seq.len() > 2 {
        lemma_stop(short, 2);
        assert(short[1] == seq[1]);
        assert(stop(short, 2) == short.len());
        assert(seq.len() > 3 ==> short[2] == seq[2]);
        assert forall|j: int| 2 <= j < short.len() implies goes_on(seq, j) by {
            assert(goes_on(short, j));
            assert(short[j] == seq[j]);
        }
        if stop(seq, 2) < short.len() {
            assert(goes_on(seq, stop(seq, 2)));
        }
    }
}

/// Classify `seq`, which starts with [`ESC`], as a spelling of the `Ctrl` chord a terminal
/// reports under the key code `code`.
///
/// Meant to be called again after every byte: a sequence is undecided until the byte that
/// decides it arrives.
pub fn classify(seq: &[u8], code: u8) -> (r: Sequence)
    requires
        seq@.len() > 0,
        seq@[0] == ESC,
    ensures
        r == classified(seq@, code),
        r matches Sequence::Other(n) ==> 1 <= n <= seq@.len(),
{
    if seq.len() < 2 {
        return Sequence::Partial;
    }
    if seq[1] != 0x5b {
        return Sequence::Other(1);
    }
    let reply: bool = seq.len() > 2 && (seq[2] == 0x3f || seq[2] == 0x3e || seq[2] == 0x3d);
    let mut i: usize = 2;
    while i < seq.len()
        invariant
            2 <= i <= seq@.len(),
            seq@[1] == 0x5b,
            reply == is_reply(seq@),
            stop(seq@, 2) == stop(seq@, i as int),
        decreases seq@.len() - i,
    {
        let b: u8 = seq[i];
        if 0x40 <= b && b <= 0x7e {
            if reply {
                return Sequence::Reply;
            }
            return match complete(vstd::slice::slice_subrange(seq, 2, i), b, code) {
                Some(decided) => decided,
                None => Sequence::Other(i + 1),
            };
        }
        let inside: bool = (0x30 <= b && b <= 0x39) || (i == 2 && reply) || (i > 2 && (b == 0x3b || b
            == 0x3a)) || (reply && 0x20 <= b && b <= 0x2f);
        if !inside {
            if 0x20 <= b && b <= 0x3f {
                return Sequence::Other(i + 1);
            }
            return Sequence::Other(i);
        }
        i += 1;
    }
    if seq.len() >= MAX_LEN {
        Sequence::Other(seq.len())
    } else {
        Sequence::Partial
    }
}

/// Decide a complete sequence: `params` is everything between `ESC [` and the final byte.
fn complete(params: &[u8], fin: u8, code: u8) -> (r: Option<Sequence>)
    ensures
        r == report(params@, fin, code),
        r matches Some(s) ==> s is Prefix || s is Release,
{
    if fin == 0x75 {
        kitty(params, code)
    } else if fin == 0x7e {
        xterm(params, code)
    } else {
        None
    }
}

/// The number in the `n`th part of the `m`th field.
fn numbered(params: &[u8], m: usize, n: usize) -> (r: Option<u32>)
    ensures
        r == field_number(params@, m as nat, n as nat),
{
    match nth_piece(params, 0x3b, m) {
        Some(field) => match nth_piece(field, 0x3a, n) {
            Some(part) => number(part),
            None => None,
        },
        None => None,
    }
}

/// `key[:shifted[:base]] ; modifiers[:event] [; text]`.
fn kitty(params: &[u8], code: u8) -> (r: Option<Sequence>)
    ensures
        r == kitty_report(params@, code),
        r matches Some(s) ==> s is Prefix || s is Release,
{
    let reported: u32 = match numbered(params, 0, 0) {
        Some(n) => n,
        None => return None,
    };
    let (modifiers, event): (u32, u32) = match nth_piece(params, 0x3b, 1) {
        None => (1, 1),
        Some(field) => {
            let modifiers: u32 = match numbered(params, 1, 0) {
                Some(n) => n,
                None => return None,
            };
            let event: u32 = match nth_piece(field, 0x3a, 1) {
                None => 1,
                Some(part) => match number(part) {
                    Some(n) => n,
                    None => return None,
                },
            };
            (modifiers, event)
        },
    };
    if event == 3 {
        Some(Sequence::Release(reported))
    } else if (event == 1 || event == 2) && reported == code as u32 && ctrl_only(modifiers) {
        Some(Sequence::Prefix)
    } else {
        None
    }
}

/// `27 ; modifiers ; key`.
fn xterm(params: &[u8], code: u8) -> (r: Option<Sequence>)
    ensures
        r == xterm_report(params@, code),
        r matches Some(s) ==> s is Prefix,
{
    match (numbered(params, 0, 0), numbered(params, 1, 0), numbered(params, 2, 0)) {
        (Some(form), Some(modifiers), Some(reported)) => if form == 27 && reported == code as u32
            && ctrl_only(modifiers) {
            Some(Sequence::Prefix)
        } else {
            None
        },
        _ => None,
    }
}

/// Ctrl and nothing else, lock keys aside.
fn ctrl_only(modifiers: u32) -> (r: bool)
    ensures
        r == ctrl_held_alone(modifiers),
{
    if modifiers == 0 {
        return false;
    }
    let mask: u32 = modifiers - 1;
    assert((mask & !(64u32 | 128u32)) == 4 <==> (mask == 4 || mask == 68 || mask == 132 || mask
        == 196)) by (bit_vector);
    (mask & !(64u32 | 128u32)) == 4
}

proof fn lemma_digits_go_on(seq: Seq<u8>, i: int)
    requires
        2 <= i < seq.len(),
        is_digit(seq[i]) || (i > 2 && (seq[i] == 0x3b || seq[i] == 0x3a)),
    ensures
        goes_on(seq, i),
{
}

/// One number, as a field or part of one by itself.
proof fn lemma_one_number(p: Seq<u8>)
    requires
        short_number(p) is Some,
    ensures
        field_number(p, 0, 0) == short_number(p),
        piece(p, 0x3b, 1) is None,
{
    assert forall|i: int| 0 <= i < p.len() implies #[trigger] p[i] != 0x3b && p[i] != 0x3a by {
        assert(is_digit(p[i]));
    }
    law_pieces_stand_between_separators(p, 0x3b, p, 0);
    law_pieces_stand_between_separators(p, 0x3a, p, 0);
}

/// The chord as the kitty protocol reports it, `ESC [ key ; modifiers u`: it is the prefix
/// exactly when the key is the prefix's and Ctrl is held with nothing but the lock keys, and it
/// is some other key otherwise. With `: 3` behind the modifiers it is the release of that key.
pub proof fn law_the_kitty_report_of_the_prefix(key: Seq<u8>, modifiers: Seq<u8>, code: u8)
    requires
        short_number(key) is Some,
        short_number(modifiers) is Some,
    ensures
        ({
            let seq = seq![0x1bu8, 0x5b] + (key + seq![0x3bu8] + modifiers) + seq![0x75u8];
            let m = short_number(modifiers)->0;
            classified(seq, code) == if short_number(key)->0 == code && (m == 5 || m == 69 || m
                == 133 || m == 197) {
                Sequence::Prefix
            } else {
                Sequence::Other(seq.len() as usize)
            }
        }),
        ({
            let seq = seq![0x1bu8, 0x5b] + (key + seq![0x3bu8] + (modifiers + seq![0x3au8] + seq![
                0x33u8,
            ])) + seq![0x75u8];
            classified(seq, code) == Sequence::Release(short_number(key)->0)
        }),
{
    assert forall|i: int| 0 <= i < key.len() implies is_digit(#[trigger] key[i]) by {}
    assert forall|i: int| 0 <= i < modifiers.len() implies is_digit(#[trigger] modifiers[i]) by {}
    let params = key + seq![0x3bu8] + modifiers;
    let seq = seq![0x1bu8, 0x5b] + params + seq![0x75u8];
    lemma_report_ends(params, 0x75);
    lemma_two_numbers(key, modifiers);
    let event = seq![0x33u8];
    let with_event = modifiers + seq![0x3au8] + event;
    let released = key + seq![0x3bu8] + with_event;
    lemma_report_ends(released, 0x75);
    assert forall|i: int| 0 <= i < modifiers.len() implies #[trigger] modifiers[i] != 0x3a by {
        assert(is_digit(modifiers[i]));
    }
    assert forall|i: int| 0 <= i < key.len() implies #[trigger] key[i] != 0x3b by {
        assert(is_digit(key[i]));
    }
    assert forall|i: int| 0 <= i < with_event.len() implies #[trigger] with_event[i] != 0x3b by {
        if i < modifiers.len() {
            assert(is_digit(modifiers[i]));
        }
    }
    law_pieces_stand_between_separators(key, 0x3b, with_event, 0);
    law_pieces_stand_between_separators(with_event, 0x3b, with_event, 0);
    law_pieces_stand_between_separators(modifiers, 0x3a, event, 0);
    law_pieces_stand_between_separators(event, 0x3a, event, 0);
    lemma_one_number(key);
    law_digits_spell_a_number(Seq::empty(), 0x33);
    law_pieces_stand_between_separators(key, 0x3b, key, 0);
    assert forall|i: int| 0 <= i < key.len() implies #[trigger] key[i] != 0x3a by {
        assert(is_digit(key[i]));
    }
    law_pieces_stand_between_separators(key, 0x3a, key, 0);
    assert(field_number(released, 0, 0) == short_number(key));
    assert(field_number(released, 1, 0) == short_number(modifiers));
    assert(field_number(released, 1, 1) == Some(3u32));
    assert(has_event(released));
}

/// Two numbers with a `;` between them, read as fields.
proof fn lemma_two_numbers(a: Seq<u8>, b: Seq<u8>)
    requires
        short_number(a) is Some,
        short_number(b) is Some,
    ensures
        ({
            let params = a + seq![0x3bu8] + b;
            &&& field_number(params, 0, 0) == short_number(a)
            &&& field_number(params, 1, 0) == short_number(b)
            &&& piece(params, 0x3b, 1) == Some(b)
            &&& !has_event(params)
        }),
{
    assert forall|i: int| 0 <= i < a.len() implies #[trigger] a[i] != 0x3b && a[i] != 0x3a by {
        assert(is_digit(a[i]));
    }
    assert forall|i: int| 0 <= i < b.len() implies #[trigger] b[i] != 0x3b && b[i] != 0x3a by {
        assert(is_digit(b[i]));
    }
    law_pieces_stand_between_separators(a, 0x3b, b, 0);
    law_pieces_stand_between_separators(b, 0x3b, b, 0);
    law_pieces_stand_between_separators(a, 0x3a, b, 0);
    law_pieces_stand_between_separators(b, 0x3a, b, 0);
}

/// A sequence whose parameters are digits and separators, a digit first, ends at its final byte.
proof fn lemma_report_ends(params: Seq<u8>, fin: u8)
    requires
        params.len() > 0,
        is_digit(params[0]),
        forall|i: int|
            0 <= i < params.len() ==> is_digit(#[trigger] params[i]) || params[i] == 0x3b
                || params[i] == 0x3a,
        fin == 0x75 || fin == 0x7e,
    ensures
        ({
            let seq = seq![0x1bu8, 0x5b] + params + seq![fin];
            &&& stop(seq, 2) == seq.len() - 1
            &&& seq.subrange(2, seq.len() - 1) == params
            &&& seq[seq.len() - 1] == fin
            &&& !is_reply(seq)
        }),
{
    let seq = seq![0x1bu8, 0x5b] + params + seq![fin];
    let end = seq.len() - 1;
    assert forall|j: int| 2 <= j < end implies goes_on(seq, j) by {
        assert(seq[j] == params[j - 2]);
        lemma_digits_go_on(seq, j);
    }
    assert(seq[2] == params[0]);
    assert(!is_reply(seq));
    assert(seq[end] == fin);
    assert(!goes_on(seq, end));
    lemma_stop_is(seq, 2, end);
    assert(seq.subrange(2, end) =~= params);
}

/// The chord as xterm reports it, `ESC [ 27 ; modifiers ; key ~`: it is the prefix exactly when
/// the key is the prefix's and Ctrl is held with nothing but the lock keys, and some other key
/// otherwise.
pub proof fn law_the_xterm_report_of_the_prefix(key: Seq<u8>, modifiers: Seq<u8>, code: u8)
    requires
        short_number(key) is Some,
        short_number(modifiers) is Some,
    ensures
        ({
            let seq = seq![0x1bu8, 0x5b] + (seq![0x32u8, 0x37] + seq![0x3bu8] + (modifiers + seq![
                0x3bu8,
            ] + key)) + seq![0x7eu8];
            let m = short_number(modifiers)->0;
            classified(seq, code) == if short_number(key)->0 == code && (m == 5 || m == 69 || m
                == 133 || m == 197) {
                Sequence::Prefix
            } else {
                Sequence::Other(seq.len() as usize)
            }
        }),
{
    let form = seq![0x32u8, 0x37];
    let rest = modifiers + seq![0x3bu8] + key;
    let params = form + seq![0x3bu8] + rest;
    assert forall|i: int| 0 <= i < key.len() implies is_digit(#[trigger] key[i]) by {}
    assert forall|i: int| 0 <= i < modifiers.len() implies is_digit(#[trigger] modifiers[i]) by {}
    lemma_report_ends(params, 0x7e);
    law_digits_spell_a_number(Seq::empty(), 0x32);
    assert(seq![0x32u8].push(0x37) =~= form);
    law_digits_spell_a_number(seq![0x32u8], 0x37);
    law_digits_spell_a_number(seq![0x32u8], 0x32);
    assert(short_number(form) == Some(27u32));
    law_pieces_stand_between_separators(form, 0x3b, rest, 0);
    law_pieces_stand_between_separators(form, 0x3b, rest, 1);
    law_pieces_stand_between_separators(form, 0x3a, rest, 0);
    lemma_two_numbers(modifiers, key);
    assert(piece(params, 0x3b, 2) == piece(rest, 0x3b, 1));
    assert(piece(params, 0x3b, 1) == piece(rest, 0x3b, 0));
    assert(field_number(params, 0, 0) == Some(27u32));
    assert(field_number(params, 1, 0) == short_number(modifiers));
    assert(field_number(params, 2, 0) == short_number(key));
}

/// A sequence with a private marker behind `ESC [` is a reply, whoever's key the prefix is, once
/// its final byte has come.
pub proof fn law_a_private_marker_makes_a_reply(mark: u8, digits: Seq<u8>, fin: u8, code: u8)
    requires
        mark == 0x3f || mark == 0x3e || mark == 0x3d,
        all_digits(digits),
        digits.len() < 32,
        0x40 <= fin <= 0x7e,
    ensures
        classified(seq![0x1bu8, 0x5b, mark] + digits + seq![fin], code) == Sequence::Reply,
        classified(seq![0x1bu8, 0x5b, mark] + digits, code) == Sequence::Partial,
{
    let seq = seq![0x1bu8, 0x5b, mark] + digits + seq![fin];
    let cut = seq![0x1bu8, 0x5b, mark] + digits;
    let end = seq.len() - 1;
    assert forall|j: int| 2 <= j < end implies goes_on(seq, j) by {
        if j > 2 {
            assert(seq[j] == digits[j - 3]);
            assert(is_digit(digits[j - 3]));
        }
    }
    assert forall|j: int| 2 <= j < cut.len() implies goes_on(cut, j) by {
        if j > 2 {
            assert(cut[j] == digits[j - 3]);
            assert(is_digit(digits[j - 3]));
        }
    }
    assert(seq[end] == fin);
    assert(!goes_on(seq, end));
    lemma_stop_is(seq, 2, end);
    lemma_stop_is(cut, 2, cut.len() as int);
}

/// An escape that no `[` follows is a key by itself, and what follows it is read afresh.
pub proof fn law_an_escape_alone_is_a_key(b: u8, code: u8)
    requires
        b != 0x5b,
    ensures
        classified(seq![0x1bu8, b], code) == Sequence::Other(1),
        classified(seq![0x1bu8], code) == Sequence::Partial,
{
}

} // verus!
