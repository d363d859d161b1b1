//! The terminal's own colours, asked for once at startup.
//!
//! A fade needs both ends of every interpolation to be real colours: what a cell is now, and
//! the terminal background it is dissolving into. So the terminal is asked what those are:
//! the default foreground and background (OSC 10 and 11) and the sixteen ANSI colours
//! (OSC 4). The request ends with a DSR, which every terminal answers after the replies it
//! is going to send, so the wait ends after one round trip whether the terminal knows OSC
//! or not.
//!
//! Only the terminals that answer OSC 4 give up their ANSI sixteen. For the others the xterm
//! defaults stand in; the default foreground and background are always the terminal's own,
//! or there is no palette.

use vstd::prelude::*;
use vstd::utf8::{decode_utf8, valid_utf8};

use crate::clock::{elapsed, later, passed, after, Duration, Instant};
use crate::text::{
    chars_of, decimal, decoded, find_char, first_char, number_text, parse_number, put,
    spelled_number, starts, starts_with, trim, trimmed, utf8,
};

verus! {

/// A colour, as the terminal draws it.
#[derive(Debug, Clone, Copy, PartialEq, Eq, Structural)]
pub struct Rgb(pub u8, pub u8, pub u8);

/// A part of the way from one thing to another: `num` of `den`. Below none of it counts as
/// none, above all of it as all.
#[derive(Debug, Clone, Copy, PartialEq, Eq, Structural)]
pub struct Share {
    pub num: i128,
    pub den: u64,
}

impl Share {
    /// There is a whole to take a part of.
    pub open spec fn wf(self) -> bool {
        self.den > 0
    }

    /// The numerator, held between none and all.
    pub open spec fn part(self) -> int {
        if self.num <= 0 {
            0
        } else if self.num >= self.den {
            self.den as int
        } else {
            self.num as int
        }
    }
}

/// The whole number nearest to the point `part` of `den` of the way from `a` to `b`, the
/// larger of two that are equally near.
pub open spec fn mixed(a: u8, b: u8, part: int, den: int) -> int {
    (2 * (a * (den - part) + b * part) + den) / (2 * den)
}

proof fn lemma_mixed_bounds(a: u8, b: u8, part: int, den: int)
    requires
        0 <= part <= den,
        den > 0,
    ensures
        a * (den - part) + b * part <= 255 * den,
        a * (den - part) + b * part >= 0,
        a <= b ==> a <= mixed(a, b, part, den) <= b,
        b <= a ==> b <= mixed(a, b, part, den) <= a,
        part == 0 ==> mixed(a, b, part, den) == a,
        part == den ==> mixed(a, b, part, den) == b,
        0 <= mixed(a, b, part, den) <= 255,
{
    let v = a * (den - part) + b * part;
    let d = 2 * den;
    let q = mixed(a, b, part, den);
    assert(v == a * den + (b - a) * part) by (nonlinear_arith)
        requires
            v == a * (den - part) + b * part,
    ;
    assert(v == b * den + (a - b) * (den - part)) by (nonlinear_arith)
        requires
            v == a * (den - part) + b * part,
    ;
    assert(a <= b ==> a * den <= v <= b * den) by (nonlinear_arith)
        requires
            0 <= part <= den,
            v == a * den + (b - a) * part,
            v == b * den + (a - b) * (den - part),
    ;
    assert(b <= a ==> b * den <= v <= a * den) by (nonlinear_arith)
        requires
            0 <= part <= den,
            v == a * den + (b - a) * part,
            v == b * den + (a - b) * (den - part),
    ;
    assert(a * den <= 255 * den && b * den <= 255 * den) by (nonlinear_arith)
        requires
            a <= 255,
            b <= 255,
            den > 0,
    ;
    assert(0 <= a * den && 0 <= b * den) by (nonlinear_arith)
        requires
            a >= 0,
            b >= 0,
            den > 0,
    ;
    lemma_nearest(v, a as int, b as int, den);
    lemma_nearest(v, b as int, a as int, den);
    if part == 0 {
        assert(v == a * den) by (nonlinear_arith)
            requires
                v == a * den + (b - a) * part,
                part == 0,
        ;
        lemma_nearest(v, a as int, a as int, den);
    }
    if part == den {
        assert(v == b * den) by (nonlinear_arith)
            requires
                v == b * den + (a - b) * (den - part),
                part == den,
        ;
        lemma_nearest(v, b as int, b as int, den);
    }
}

/// What lies between two whole numbers of wholes is rounded to one between them.
proof fn lemma_nearest(v: int, lo: int, hi: int, den: int)
    requires
        den > 0,
    ensures
        lo * den <= v <= hi * den ==> lo <= (2 * v + den) / (2 * den) <= hi,
{
    if lo * den <= v <= hi * den {
        let q = (2 * v + den) / (2 * den);
        let r = (2 * v + den) % (2 * den);
        vstd::arithmetic::div_mod::lemma_fundamental_div_mod(2 * v + den, 2 * den);
        vstd::arithmetic::div_mod::lemma_mod_bound(2 * v + den, 2 * den);
        assert(q >= lo) by (nonlinear_arith)
            requires
                2 * v + den == (2 * den) * q + r,
                0 <= r < 2 * den,
                lo * den <= v,
                den > 0,
        ;
        assert(q <= hi) by (nonlinear_arith)
            requires
                2 * v + den == (2 * den) * q + r,
                0 <= r < 2 * den,
                v <= hi * den,
                den > 0,
        ;
    }
}

/// One channel, part of the way.
fn mix(a: u8, b: u8, part: u64, den: u64) -> (r: u8)
    requires
        part <= den,
        den > 0,
    ensures
        r == mixed(a, b, part as int, den as int),
{
    proof {
        lemma_mixed_bounds(a, b, part as int, den as int);
        assert(a * (den - part) <= 255 * u64::MAX && b * part <= 255 * u64::MAX) by (
            nonlinear_arith)
            requires
                a <= 255,
                b <= 255,
                0 <= part <= den <= u64::MAX,
        ;
        assert(0 <= a * (den - part) && 0 <= b * part) by (nonlinear_arith)
            requires
                a >= 0,
                b >= 0,
                0 <= part <= den,
        ;
    }
    let v: u128 = (a as u128) * ((den - part) as u128) + (b as u128) * (part as u128);
    ((2 * v + den as u128) / (2 * (den as u128))) as u8
}

impl Rgb {
    /// The colour part of the way from this one to another, per channel.
    pub open spec fn blend(self, to: Rgb, t: Share) -> Rgb {
        Rgb(
            mixed(self.0, to.0, t.part(), t.den as int) as u8,
            mixed(self.1, to.1, t.part(), t.den as int) as u8,
            mixed(self.2, to.2, t.part(), t.den as int) as u8,
        )
    }

    /// The colour `t` of the way from `self` to `to`, per channel, rounded to the nearest.
    pub fn lerp(self, to: Rgb, t: Share) -> (r: Rgb)
        requires
            t.wf(),
        ensures
            r == self.blend(to, t),
    {
        let part: u64 = if t.num <= 0 {
            0
        } else if t.num >= t.den as i128 {
            t.den
        } else {
            t.num as u64
        };
        proof {
            lemma_mixed_bounds(self.0, to.0, t.part(), t.den as int);
            lemma_mixed_bounds(self.1, to.1, t.part(), t.den as int);
            lemma_mixed_bounds(self.2, to.2, t.part(), t.den as int);
        }
        Rgb(
            mix(self.0, to.0, part, t.den),
            mix(self.1, to.1, part, t.den),
            mix(self.2, to.2, part, t.den),
        )
    }
}

/// A blend runs from one end to the other: none of the way is the first colour, all of the
/// way the second, and every channel stays between its two ends.
pub proof fn law_a_blend_runs_from_end_to_end(from: Rgb, to: Rgb, t: Share)
    requires
        t.wf(),
    ensures
        t.num <= 0 ==> from.blend(to, t) == from,
        t.num >= t.den ==> from.blend(to, t) == to,
        from.0 <= to.0 ==> from.0 <= from.blend(to, t).0 <= to.0,
        to.0 <= from.0 ==> to.0 <= from.blend(to, t).0 <= from.0,
        from.1 <= to.1 ==> from.1 <= from.blend(to, t).1 <= to.1,
        to.1 <= from.1 ==> to.1 <= from.blend(to, t).1 <= from.1,
        from.2 <= to.2 ==> from.2 <= from.blend(to, t).2 <= to.2,
        to.2 <= from.2 ==> to.2 <= from.blend(to, t).2 <= from.2,
{
    lemma_mixed_bounds(from.0, to.0, t.part(), t.den as int);
    lemma_mixed_bounds(from.1, to.1, t.part(), t.den as int);
    lemma_mixed_bounds(from.2, to.2, t.part(), t.den as int);
}

/// What the terminal said its colours are.
#[derive(Debug, Clone, Copy, PartialEq, Eq)]
pub struct Palette {
    /// The default foreground: what text with no colour set is drawn in.
    pub fg: Rgb,
    /// The default background: what a fade dissolves into.
    pub bg: Rgb,
    /// The sixteen ANSI colours.
    pub ansi: [Rgb; 16],
}

/// The level of one step of the colour cube.
pub open spec fn cube_level(step: int) -> int {
    if step == 0 {
        0
    } else {
        55 + 40 * step
    }
}

impl Palette {
    /// The colour behind an index: the terminal's own for the first sixteen, then a cube of
    /// six steps a side, then a ramp of greys.
    pub open spec fn indexed(self, n: u8) -> Rgb {
        if n < 16 {
            self.ansi@[n as int]
        } else if n < 232 {
            let at = n - 16;
            Rgb(
                cube_level(at / 36) as u8,
                cube_level((at / 6) % 6) as u8,
                cube_level(at % 6) as u8,
            )
        } else {
            let v = (8 + 10 * (n - 232)) as u8;
            Rgb(v, v, v)
        }
    }

    /// The colour behind an indexed SGR.
    pub fn index(&self, n: u8) -> (r: Rgb)
        ensures
            r == self.indexed(n),
    {
        if n < 16 {
            self.ansi[n as usize]
        } else if n < 232 {
            let at: u8 = n - 16;
            Rgb(level(at / 36), level((at / 6) % 6), level(at % 6))
        } else {
            let v: u8 = 8 + 10 * (n - 232);
            Rgb(v, v, v)
        }
    }
}

fn level(step: u8) -> (r: u8)
    requires
        step < 6,
    ensures
        r == cube_level(step as int),
{
    if step == 0 {
        0
    } else {
        55 + 40 * step
    }
}

/// xterm's default sixteen, for a terminal that does not say.
pub open spec fn xterm_ansi() -> Seq<Rgb> {
    seq![
        Rgb(0x00, 0x00, 0x00),
        Rgb(0xcd, 0x00, 0x00),
        Rgb(0x00, 0xcd, 0x00),
        Rgb(0xcd, 0xcd, 0x00),
        Rgb(0x00, 0x00, 0xee),
        Rgb(0xcd, 0x00, 0xcd),
        Rgb(0x00, 0xcd, 0xcd),
        Rgb(0xe5, 0xe5, 0xe5),
        Rgb(0x7f, 0x7f, 0x7f),
        Rgb(0xff, 0x00, 0x00),
        Rgb(0x00, 0xff, 0x00),
        Rgb(0xff, 0xff, 0x00),
        Rgb(0x5c, 0x5c, 0xff),
        Rgb(0xff, 0x00, 0xff),
        Rgb(0x00, 0xff, 0xff),
        Rgb(0xff, 0xff, 0xff),
    ]
}

/// xterm's default sixteen.
pub fn default_ansi() -> (r: [Rgb; 16])
    ensures
        r@ == xterm_ansi(),
{
    let ansi: [Rgb; 16] = [
        Rgb(0x00, 0x00, 0x00),
        Rgb(0xcd, 0x00, 0x00),
        Rgb(0x00, 0xcd, 0x00),
        Rgb(0xcd, 0xcd, 0x00),
        Rgb(0x00, 0x00, 0xee),
        Rgb(0xcd, 0x00, 0xcd),
        Rgb(0x00, 0xcd, 0xcd),
        Rgb(0xe5, 0xe5, 0xe5),
        Rgb(0x7f, 0x7f, 0x7f),
        Rgb(0xff, 0x00, 0x00),
        Rgb(0x00, 0xff, 0x00),
        Rgb(0xff, 0xff, 0x00),
        Rgb(0x5c, 0x5c, 0xff),
        Rgb(0xff, 0x00, 0xff),
        Rgb(0x00, 0xff, 0xff),
        Rgb(0xff, 0xff, 0xff),
    ];
    assert(ansi@ =~= xterm_ansi());
    ansi
}

/// What the terminal answered, as far as it did.
#[derive(Debug, Clone, Copy)]
pub struct Replies {
    pub fg: Option<Rgb>,
    pub bg: Option<Rgb>,
    pub ansi: [Option<Rgb>; 16],
    /// The DSR reply arrived: the terminal has answered everything it is going to.
    pub dsr: bool,
}

/// What the terminal answered, as a value.
#[verifier::ext_equal]
pub struct Answers {
    pub fg: Option<Rgb>,
    pub bg: Option<Rgb>,
    pub ansi: Seq<Option<Rgb>>,
    pub dsr: bool,
}

impl View for Replies {
    type V = Answers;

    open spec fn view(&self) -> Answers {
        Answers { fg: self.fg, bg: self.bg, ansi: self.ansi@, dsr: self.dsr }
    }
}

impl Answers {
    /// No answer yet.
    pub open spec fn none() -> Answers {
        Answers { fg: None, bg: None, ansi: Seq::new(16, |i: int| None::<Rgb>), dsr: false }
    }

    /// There is no point waiting longer: the terminator has arrived, or every answer has.
    pub open spec fn complete(self) -> bool {
        self.dsr || (self.fg is Some && self.bg is Some && forall|i: int|
            0 <= i < 16 ==> #[trigger] self.ansi[i] is Some)
    }

    /// The palette these answers make: none unless the two that matter are in, and an entry that
    /// was not answered is xterm's.
    pub open spec fn make(self, palette: Option<Palette>) -> bool {
        match palette {
            Some(p) => {
                &&& self.fg == Some(p.fg)
                &&& self.bg == Some(p.bg)
                &&& forall|i: int|
                    0 <= i < 16 ==> #[trigger] p.ansi@[i] == match self.ansi[i] {
                        Some(colour) => colour,
                        None => xterm_ansi()[i],
                    }
            },
            None => self.fg is None || self.bg is None,
        }
    }
}

impl Default for Replies {
    fn default() -> (r: Self)
        ensures
            r@ == Answers::none(),
    {
        let ansi: [Option<Rgb>; 16] = [
            None,
            None,
            None,
            None,
            None,
            None,
            None,
            None,
            None,
            None,
            None,
            None,
            None,
            None,
            None,
            None,
        ];
        assert(ansi@ =~= Answers::none().ansi);
        Replies { fg: None, bg: None, ansi, dsr: false }
    }
}

impl Replies {
    /// Whether there is any point waiting longer: the terminator has arrived, or every
    /// answer already has.
    pub fn complete(&self) -> (r: bool)
        ensures
            r == self@.complete(),
    {
        if self.dsr {
            return true;
        }
        if self.fg.is_none() || self.bg.is_none() {
            return false;
        }
        let mut i: usize = 0;
        while i < 16
            invariant
                i <= 16,
                self@.fg is Some,
                self@.bg is Some,
                !self@.dsr,
                forall|j: int| 0 <= j < i ==> #[trigger] self@.ansi[j] is Some,
            decreases 16 - i,
        {
            if self.ansi[i].is_none() {
                assert(self@.ansi[i as int] is None);
                return false;
            }
            i += 1;
        }
        true
    }

    /// The palette these answers make, if the two that matter are in.
    pub fn palette(&self) -> (r: Option<Palette>)
        ensures
            self@.make(r),
    {
        let mut ansi: [Rgb; 16] = default_ansi();
        let mut i: usize = 0;
        while i < 16
            invariant
                i <= 16,
                ansi@.len() == 16,
                forall|j: int|
                    0 <= j < 16 ==> #[trigger] ansi@[j] == if j < i && self@.ansi[j] is Some {
                        self@.ansi[j]->0
                    } else {
                        xterm_ansi()[j]
                    },
            decreases 16 - i,
        {
            if let Some(colour) = self.ansi[i] {
                ansi[i] = colour;
            }
            i += 1;
        }
        match (self.fg, self.bg) {
            (Some(fg), Some(bg)) => Some(Palette { fg, bg, ansi }),
            _ => None,
        }
    }
}

/// Where the payload of an OSC that starts at the front of these bytes ends, and where what
/// follows it starts, looking from `k` on; nothing if it has no terminator yet. A bell or
/// `ESC \` terminates it; an `ESC` with anything else behind it was never a terminator, and
/// what follows starts there.
pub open spec fn payload_end(bytes: Seq<u8>, k: int) -> Option<(int, int)>
    decreases bytes.len() - k,
{
    if k >= bytes.len() {
        None
    } else if bytes[k] == 0x07 {
        Some((k, k + 1))
    } else if bytes[k] == 0x1b {
        if k + 1 >= bytes.len() {
            None
        } else if bytes[k + 1] == 0x5c {
            Some((k, k + 2))
        } else {
            Some((k, k))
        }
    } else {
        payload_end(bytes, k + 1)
    }
}

/// The payload of an OSC that starts at the front of these bytes, and the index just past
/// its terminator, or `None` if it has no terminator yet.
fn osc_payload(bytes: &[u8]) -> (r: Option<(&[u8], usize)>)
    ensures
        match r {
            Some((payload, end)) => {
                &&& payload_end(bytes@, 0) == Some((payload@.len() as int, end as int))
                &&& payload@ == bytes@.take(payload@.len() as int)
                &&& payload@.len() <= end <= bytes@.len()
            },
            None => payload_end(bytes@, 0) is None,
        },
{
    let mut k: usize = 0;
    while k < bytes.len()
        invariant
            k <= bytes@.len(),
            payload_end(bytes@, 0) == payload_end(bytes@, k as int),
        decreases bytes@.len() - k,
    {
        let b: u8 = bytes[k];
        if b == 0x07 || b == 0x1b {
            if b == 0x1b && k + 1 >= bytes.len() {
                return None;
            }
            let payload: &[u8] = vstd::slice::slice_subrange(bytes, 0, k);
            assert(payload@ =~= bytes@.take(k as int));
            let end: usize = if b == 0x07 {
                k + 1
            } else if bytes[k + 1] == 0x5c {
                k + 2
            } else {
                k
            };
            return Some((payload, end));
        }
        k += 1;
    }
    None
}

/// The character is a hexadecimal digit.
pub open spec fn is_hex(c: char) -> bool {
    ('0' <= c && c <= '9') || ('a' <= c && c <= 'f') || ('A' <= c && c <= 'F')
}

/// What a hexadecimal digit stands for.
pub open spec fn hex_digit(c: char) -> nat {
    if '0' <= c && c <= '9' {
        (c as u32 - 0x30) as nat
    } else if 'a' <= c && c <= 'f' {
        (c as u32 - 0x57) as nat
    } else {
        (c as u32 - 0x37) as nat
    }
}

/// The number that hexadecimal digits spell.
pub open spec fn hex_value(s: Seq<char>) -> nat
    decreases s.len(),
{
    if s.len() == 0 {
        0
    } else {
        hex_value(s.drop_last()) * 16 + hex_digit(s.last())
    }
}

/// The largest number that `digits` hexadecimal digits spell.
pub open spec fn hex_max(digits: nat) -> nat {
    if digits == 1 {
        0xf
    } else if digits == 2 {
        0xff
    } else if digits == 3 {
        0xfff
    } else {
        0xffff
    }
}

/// A level that is `value` of the largest that `digits` hexadecimal digits spell, as one of
/// 256: scaled so that all ones is 255, to the nearest.
pub open spec fn scaled(value: nat, digits: nat) -> nat {
    (value * 255 + hex_max(digits) / 2) / hex_max(digits)
}

/// What one channel of a colour says: one to four hexadecimal digits.
pub open spec fn channel(digits: Seq<char>) -> Option<u8> {
    if 1 <= digits.len() <= 4 && forall|i: int|
        0 <= i < digits.len() ==> is_hex(#[trigger] digits[i]) {
        Some(scaled(hex_value(digits), digits.len()) as u8)
    } else {
        None
    }
}

/// Two digits mean just what they say, and four digits that repeat two mean those two.
pub proof fn law_levels_scale_to_their_leading_digits(v: nat)
    requires
        v <= 0xff,
    ensures
        scaled(v, 2) == v,
        scaled(v * 0x101, 4) == v,
        scaled(0xf, 1) == 255,
        scaled(0xfff, 3) == 255,
        scaled(0, 1) == 0,
{
}

proof fn lemma_scaled_is_a_byte(value: nat, digits: nat)
    requires
        1 <= digits <= 4,
        value <= hex_max(digits),
    ensures
        scaled(value, digits) <= 255,
{
    if digits == 1 {
        assert((value * 255 + 7) / 15 <= 255);
    } else if digits == 2 {
        assert((value * 255 + 127) / 255 <= 255);
    } else if digits == 3 {
        assert((value * 255 + 2047) / 4095 <= 255);
    } else {
        assert((value * 255 + 32767) / 65535 <= 255);
    }
}

/// One to four hex digits, scaled so that all-ones is 255: `f` and `ffff` both mean full,
/// `1e1e` means `1e`.
fn scale(digits: &[char]) -> (r: Option<u8>)
    ensures
        r == channel(digits@),
{
    if digits.len() == 0 || digits.len() > 4 {
        return None;
    }
    let mut value: u32 = 0;
    let mut max: u32 = 0;
    let mut i: usize = 0;
    while i < digits.len()
        invariant
            1 <= digits@.len() <= 4,
            i <= digits@.len(),
            value == hex_value(digits@.take(i as int)),
            value <= max,
            i == 0 ==> max == 0,
            i > 0 ==> max == hex_max(i as nat),
            forall|j: int| 0 <= j < i ==> is_hex(#[trigger] digits@[j]),
        decreases digits@.len() - i,
    {
        let c: char = digits[i];
        let d: u32 = if '0' <= c && c <= '9' {
            c as u32 - 0x30
        } else if 'a' <= c && c <= 'f' {
            c as u32 - 0x57
        } else if 'A' <= c && c <= 'F' {
            c as u32 - 0x37
        } else {
            assert(!is_hex(digits@[i as int]));
            return None;
        };
        assert(digits@.take(i + 1).drop_last() =~= digits@.take(i as int));
        value = value * 16 + d;
        max = max * 16 + 15;
        i += 1;
    }
    assert(digits@.take(i as int) =~= digits@);
    proof {
        lemma_scaled_is_a_byte(value as nat, digits@.len());
    }
    Some(((value * 255 + max / 2) / max) as u8)
}

/// Three channels as a colour, if each of them is one.
pub open spec fn three(r: Option<u8>, g: Option<u8>, b: Option<u8>) -> Option<Rgb> {
    match (r, g, b) {
        (Some(r), Some(g), Some(b)) => Some(Rgb(r, g, b)),
        _ => None,
    }
}

/// The piece of a text from `from` up to the next slash or the end.
pub open spec fn until_slash(s: Seq<char>, from: int) -> Seq<char> {
    s.subrange(from, first_char(s, '/', from))
}

/// Three channels with slashes between them; what follows a further slash is ignored.
pub open spec fn slashed(body: Seq<char>) -> Option<Rgb> {
    let one = first_char(body, '/', 0);
    if one >= body.len() {
        None
    } else {
        let two = first_char(body, '/', one + 1);
        if two >= body.len() {
            None
        } else {
            three(
                channel(until_slash(body, 0)),
                channel(until_slash(body, one + 1)),
                channel(until_slash(body, two + 1)),
            )
        }
    }
}

/// What a colour spelled back by a terminal means: `#` and three channels of one to four
/// hexadecimal digits each, or `rgb:` or `rgba:` and channels with slashes between them.
pub open spec fn colour_meant(spec: Seq<char>) -> Option<Rgb> {
    let s = trimmed(spec);
    if s.len() > 0 && s[0] == '#' {
        let hex = s.skip(1);
        let w = (hex.len() / 3) as int;
        if hex.len() == 0 || hex.len() % 3 != 0 || hex.len() > 12 {
            None
        } else {
            three(
                channel(hex.subrange(0, w)),
                channel(hex.subrange(w, 2 * w)),
                channel(hex.subrange(2 * w, 3 * w)),
            )
        }
    } else if starts(s, "rgb:"@) {
        slashed(s.skip("rgb:"@.len() as int))
    } else if starts(s, "rgba:"@) {
        slashed(s.skip("rgba:"@.len() as int))
    } else {
        None
    }
}

fn read_slashed(body: &[char]) -> (r: Option<Rgb>)
    ensures
        r == slashed(body@),
{
    let one: usize = find_char(body, '/', 0);
    if one >= body.len() {
        return None;
    }
    let two: usize = find_char(body, '/', one + 1);
    if two >= body.len() {
        return None;
    }
    let end: usize = find_char(body, '/', two + 1);
    match (
        scale(vstd::slice::slice_subrange(body, 0, one)),
        scale(vstd::slice::slice_subrange(body, one + 1, two)),
        scale(vstd::slice::slice_subrange(body, two + 1, end)),
    ) {
        (Some(r), Some(g), Some(b)) => Some(Rgb(r, g, b)),
        _ => None,
    }
}

/// A colour as a terminal spells one back. Anything else is not a colour.
pub fn parse_colour(spec: &str) -> (r: Option<Rgb>)
    ensures
        r == colour_meant(spec@),
{
    let all: Vec<char> = chars_of(spec);
    let s: &[char] = trim(&all);
    if s.len() > 0 && s[0] == '#' {
        let hex: &[char] = vstd::slice::slice_subrange(s, 1, s.len());
        assert(hex@ =~= s@.skip(1));
        let n: usize = hex.len();
        if n == 0 || n % 3 != 0 || n > 12 {
            return None;
        }
        let w: usize = n / 3;
        return match (
            scale(vstd::slice::slice_subrange(hex, 0, w)),
            scale(vstd::slice::slice_subrange(hex, w, 2 * w)),
            scale(vstd::slice::slice_subrange(hex, 2 * w, 3 * w)),
        ) {
            (Some(r), Some(g), Some(b)) => Some(Rgb(r, g, b)),
            _ => None,
        };
    }
    if starts_with(s, "rgb:") {
        let body: &[char] = vstd::slice::slice_subrange(s, "rgb:".unicode_len(), s.len());
        assert(body@ =~= s@.skip("rgb:"@.len() as int));
        read_slashed(body)
    } else if starts_with(s, "rgba:") {
        let body: &[char] = vstd::slice::slice_subrange(s, "rgba:".unicode_len(), s.len());
        assert(body@ =~= s@.skip("rgba:"@.len() as int));
        read_slashed(body)
    } else {
        None
    }
}

/// The DSR reply, `ESC [ 0 n`, is at the front of these bytes.
pub open spec fn is_dsr_reply(bytes: Seq<u8>) -> bool {
    bytes.len() >= 4 && bytes[0] == 0x1b && bytes[1] == 0x5b && bytes[2] == 0x30 && bytes[3] == 0x6e
}

impl Answers {
    /// The answers with the one in this payload filed: `10;<colour>`, `11;<colour>` or
    /// `4;<n>;<colour>`. Any other payload is none of the answers that were asked for.
    pub open spec fn filed(self, payload: Seq<char>) -> Answers {
        let one = first_char(payload, ';', 0);
        if one >= payload.len() {
            self
        } else {
            let head = payload.take(one);
            let two = first_char(payload, ';', one + 1);
            let second = payload.subrange(one + 1, two);
            if two >= payload.len() {
                if head == "10"@ {
                    Answers { fg: colour_meant(second), ..self }
                } else if head == "11"@ {
                    Answers { bg: colour_meant(second), ..self }
                } else {
                    self
                }
            } else if head == "4"@ && spelled_number(second) is Some && spelled_number(second)->0
                < 16 {
                Answers {
                    ansi: self.ansi.update(
                        spelled_number(second)->0 as int,
                        colour_meant(payload.skip(two + 1)),
                    ),
                    ..self
                }
            } else {
                self
            }
        }
    }

    /// What stands at the front of these bytes, filed if it is a reply and passed over if it
    /// is not, and how many bytes it takes; nothing where a reply has not arrived whole.
    #[verifier::opaque]
    pub open spec fn front(self, bytes: Seq<u8>) -> Option<(Answers, int)> {
        if is_dsr_reply(bytes) {
            Some((Answers { dsr: true, ..self }, 4))
        } else if !(bytes.len() >= 2 && bytes[0] == 0x1b && bytes[1] == 0x5d) {
            Some((self, 1))
        } else {
            let rest = bytes.skip(2);
            match payload_end(rest, 0) {
                None => None,
                Some((len, end)) => Some(
                    (
                        if valid_utf8(rest.take(len)) {
                            self.filed(decode_utf8(rest.take(len)))
                        } else {
                            self
                        },
                        2 + end,
                    ),
                ),
            }
        }
    }

    /// The answers with every reply in these bytes filed, in order, and whatever else is in
    /// there passed over. A reply cut short by the end is not yet a reply.
    pub open spec fn read(self, bytes: Seq<u8>) -> Answers
        decreases bytes.len(),
    {
        if bytes.len() == 0 {
            self
        } else {
            match self.front(bytes) {
                None => self,
                Some((next, n)) => if 0 < n <= bytes.len() {
                    next.read(bytes.skip(n))
                } else {
                    next
                },
            }
        }
    }
}

/// Files the answer in this payload.
fn file(replies: &mut Replies, payload: &str)
    ensures
        final(replies)@ == old(replies)@.filed(payload@),
{
    let chars: Vec<char> = chars_of(payload);
    let one: usize = find_char(&chars, ';', 0);
    if one >= chars.len() {
        return ;
    }
    let head: &[char] = vstd::slice::slice_subrange(&chars, 0, one);
    assert(head@ =~= payload@.take(one as int));
    let two: usize = find_char(&chars, ';', one + 1);
    let second: &[char] = vstd::slice::slice_subrange(&chars, one + 1, two);
    if two >= chars.len() {
        let colour: Option<Rgb> = parse_colour(crate::text::string_of(second).as_str());
        if crate::text::same(head, "10") {
            replies.fg = colour;
        } else if crate::text::same(head, "11") {
            replies.bg = colour;
        }
        return ;
    }
    if crate::text::same(head, "4") {
        if let Some(slot) = parse_number(second) {
            if slot < 16 {
                let rest: &[char] = vstd::slice::slice_subrange(&chars, two + 1, chars.len());
                assert(rest@ =~= payload@.skip(two + 1));
                let at: usize = slot as usize;
                let colour: Option<Rgb> = parse_colour(crate::text::string_of(rest).as_str());
                replies.ansi[at] = colour;
            }
        }
    }
}

/// Reads what stands at the front of these bytes, and says how many of them it takes.
fn read_front(replies: &mut Replies, bytes: &[u8]) -> (r: Option<usize>)
    requires
        bytes@.len() > 0,
    ensures
        match r {
            Some(n) => old(replies)@.front(bytes@) == Some((final(replies)@, n as int)) && 0 < n
                <= bytes@.len(),
            None => old(replies)@.front(bytes@) is None && final(replies)@ == old(replies)@,
        },
{
    reveal(Answers::front);
    if bytes.len() >= 4 && bytes[0] == 0x1b && bytes[1] == 0x5b && bytes[2] == 0x30 && bytes[3]
        == 0x6e {
        replies.dsr = true;
        return Some(4);
    }
    if !(bytes.len() >= 2 && bytes[0] == 0x1b && bytes[1] == 0x5d) {
        return Some(1);
    }
    let rest: &[u8] = vstd::slice::slice_subrange(bytes, 2, bytes.len());
    assert(rest@ =~= bytes@.skip(2));
    match osc_payload(rest) {
        None => None,
        Some((payload, end)) => {
            if let Some(text) = decoded(payload) {
                file(replies, text.as_str());
            }
            Some(2 + end)
        },
    }
}

/// Read every reply out of `bytes`, ignoring whatever else is in there.
pub fn parse_replies(bytes: &[u8]) -> (r: Replies)
    ensures
        r@ == Answers::none().read(bytes@),
{
    let mut replies: Replies = Replies::default();
    let mut i: usize = 0;
    assert(bytes@.skip(0) =~= bytes@);
    while i < bytes.len()
        invariant
            i <= bytes@.len(),
            Answers::none().read(bytes@) == replies@.read(bytes@.skip(i as int)),
        decreases bytes@.len() - i,
    {
        let rest: &[u8] = vstd::slice::slice_subrange(bytes, i, bytes.len());
        assert(rest@ =~= bytes@.skip(i as int));
        match read_front(&mut replies, rest) {
            // Unterminated: wait for the rest.
            None => {
                return replies;
            },
            Some(n) => {
                assert(rest@.skip(n as int) =~= bytes@.skip(i + n));
                i += n;
            },
        }
    }
    assert(bytes@.skip(i as int) =~= Seq::<u8>::empty());
    replies
}

/// Whatever is not a reply is passed over: text without an `ESC` in front of the replies
/// changes nothing.
pub proof fn law_other_input_is_passed_over(answers: Answers, junk: Seq<u8>, bytes: Seq<u8>)
    requires
        forall|i: int| 0 <= i < junk.len() ==> junk[i] != 0x1b,
    ensures
        answers.read(junk + bytes) == answers.read(bytes),
    decreases junk.len(),
{
    reveal(Answers::front);
    if junk.len() == 0 {
        assert(junk + bytes =~= bytes);
    } else {
        let all = junk + bytes;
        let rest = junk.skip(1);
        assert forall|i: int| 0 <= i < rest.len() implies rest[i] != 0x1b by {
            assert(rest[i] == junk[i + 1]);
        }
        law_other_input_is_passed_over(answers, rest, bytes);
        assert(all.skip(1) =~= rest + bytes);
        assert(all[0] == junk[0]);
    }
}

/// A reply counts only once it is whole: while its terminator has not arrived, it changes
/// nothing.
pub proof fn law_an_unterminated_reply_changes_nothing(answers: Answers, payload: Seq<u8>)
    requires
        forall|i: int| 0 <= i < payload.len() ==> payload[i] != 0x1b && payload[i] != 0x07,
    ensures
        answers.read(seq![0x1bu8, 0x5d] + payload) == answers,
{
    reveal(Answers::front);
    let all = seq![0x1bu8, 0x5d] + payload;
    assert(all.skip(2) =~= payload);
    assert(all[1] == 0x5d);
    lemma_no_end(payload, 0);
}

proof fn lemma_no_end(payload: Seq<u8>, k: int)
    requires
        0 <= k <= payload.len(),
        forall|i: int| 0 <= i < payload.len() ==> payload[i] != 0x1b && payload[i] != 0x07,
    ensures
        payload_end(payload, k) is None,
    decreases payload.len() - k,
{
    if k < payload.len() {
        lemma_no_end(payload, k + 1);
    }
}

/// The requests for the first `n` of the ANSI sixteen.
pub open spec fn ansi_request(n: nat) -> Seq<u8>
    decreases n,
{
    if n == 0 {
        Seq::empty()
    } else {
        ansi_request((n - 1) as nat) + utf8("\x1b]4;"@) + utf8(decimal((n - 1) as nat)) + utf8(
            ";?\x1b\\"@,
        )
    }
}

/// The request, in the order the answers are wanted: foreground, background, the sixteen,
/// and the DSR that says the terminal is done answering.
pub fn request() -> (r: Vec<u8>)
    ensures
        r@ == utf8("\x1b]10;?\x1b\\\x1b]11;?\x1b\\"@) + ansi_request(16) + utf8("\x1b[5n"@),
{
    let mut out: Vec<u8> = Vec::new();
    put(&mut out, "\x1b]10;?\x1b\\\x1b]11;?\x1b\\");
    let ghost head = out@;
    assert(head =~= utf8("\x1b]10;?\x1b\\\x1b]11;?\x1b\\"@));
    let mut n: u64 = 0;
    assert(head + ansi_request(0) =~= head);
    while n < 16
        invariant
            n <= 16,
            out@ == head + ansi_request(n as nat),
        decreases 16 - n,
    {
        let ghost before = out@;
        put(&mut out, "\x1b]4;");
        put(&mut out, number_text(n).as_str());
        put(&mut out, ";?\x1b\\");
        n += 1;
        assert(out@ =~= head + ansi_request(n as nat));
    }
    put(&mut out, "\x1b[5n");
    out
}

/// The most a run will wait for its terminal: reached only by one that answers nothing, and
/// a reply that arrived after the wait would be taken for typing.
pub const QUERY_CAP: Duration = 1_500_000_000;

/// How long there is still to wait for answers, if there is.
pub open spec fn wait_left(complete: bool, until: Instant, now: Instant) -> Option<Duration> {
    if complete || passed(until, now) == 0 {
        None
    } else {
        Some(passed(until, now))
    }
}

/// The asking of a terminal for its colours: what has been read so far, and until when there
/// is to be any waiting for more.
#[derive(Debug)]
pub struct Query {
    bytes: Vec<u8>,
    deadline: Instant,
    replies: Replies,
}

impl Query {
    /// Everything that has been read.
    pub closed spec fn read_so_far(self) -> Seq<u8> {
        self.bytes@
    }

    /// Until when there is to be any waiting.
    pub closed spec fn until(self) -> Instant {
        self.deadline
    }

    /// What has been answered.
    pub closed spec fn answers(self) -> Answers {
        self.replies@
    }

    /// The answers are those in what has been read.
    pub open spec fn wf(self) -> bool {
        self.answers() == Answers::none().read(self.read_so_far())
    }

    /// The request has just been written.
    pub fn start(now: Instant) -> (r: Self)
        ensures
            r.wf(),
            r.read_so_far() == Seq::<u8>::empty(),
            r.until() == later(now, QUERY_CAP),
    {
        Query { bytes: Vec::new(), deadline: after(now, QUERY_CAP), replies: Replies::default() }
    }

    /// How long to wait for more, or `None` when there is nothing more to wait for: every
    /// answer is in, or the time is up.
    pub fn wait(&self, now: Instant) -> (r: Option<Duration>)
        ensures
            r == wait_left(self.answers().complete(), self.until(), now),
    {
        if self.replies.complete() {
            return None;
        }
        let left: Duration = elapsed(self.deadline, now);
        if left == 0 {
            None
        } else {
            Some(left)
        }
    }

    /// These bytes have been read from the terminal.
    pub fn read(&mut self, bytes: &[u8])
        requires
            old(self).wf(),
        ensures
            final(self).wf(),
            final(self).read_so_far() == old(self).read_so_far() + bytes@,
            final(self).until() == old(self).until(),
    {
        crate::bytes::extend(&mut self.bytes, bytes);
        self.replies = parse_replies(&self.bytes);
    }

    /// The palette the answers make, if the two that matter are in.
    pub fn palette(&self) -> (r: Option<Palette>)
        ensures
            self.answers().make(r),
    {
        self.replies.palette()
    }
}

/// A blend is the nearest colour to the point it stands for: in each channel it is off by no
/// more than half a step.
pub proof fn law_a_blend_is_the_nearest_colour(a: u8, b: u8, part: int, den: int)
    requires
        0 <= part <= den,
        den > 0,
    ensures
        ({
            let exact = a * (den - part) + b * part;
            -den <= 2 * (exact - mixed(a, b, part, den) * den) < den
        }),
{
    let exact = a * (den - part) + b * part;
    let n = 2 * exact + den;
    let m = mixed(a, b, part, den);
    assert(m * (2 * den) <= n < (m + 1) * (2 * den)) by (nonlinear_arith)
        requires
            m == n / (2 * den),
            den > 0,
    ;
    assert(m * (2 * den) == 2 * (m * den)) by (nonlinear_arith);
    assert((m + 1) * (2 * den) == 2 * (m * den) + 2 * den) by (nonlinear_arith);
}

/// The colours behind the indices: the terminal's own sixteen; then a cube whose six steps a
/// side are red, green and blue in that order, from dark to full; then greys, each lighter than
/// the one before.
pub proof fn law_the_indices_are_sixteen_a_cube_and_greys(p: Palette, r: u8, g: u8, b: u8, n: u8)
    requires
        r < 6,
        g < 6,
        b < 6,
    ensures
        n < 16 ==> p.indexed(n) == p.ansi@[n as int],
        p.indexed((16 + 36 * r + 6 * g + b) as u8) == Rgb(
            cube_level(r as int) as u8,
            cube_level(g as int) as u8,
            cube_level(b as int) as u8,
        ),
        cube_level(0) == 0 && cube_level(5) == 255,
        0 < r ==> cube_level(r as int) == 95 + 40 * (r - 1),
        n >= 232 ==> {
            let c = p.indexed(n);
            c.0 == c.1 && c.1 == c.2 && c.0 == 8 + 10 * (n - 232)
        },
{
    let at = 36 * r + 6 * g + b;
    assert(at / 36 == r && (at / 6) % 6 == g && at % 6 == b);
}

/// The hexadecimal digit for a number below sixteen, in lower case.
pub open spec fn hex_char(n: nat) -> char {
    if n < 10 {
        (0x30 + n) as char
    } else {
        (0x61 + (n - 10)) as char
    }
}

/// Two hexadecimal digits.
pub open spec fn two_hex(v: u8) -> Seq<char> {
    seq![hex_char(v as nat / 16), hex_char(v as nat % 16)]
}

proof fn lemma_two_hex(v: u8)
    ensures
        channel(two_hex(v)) == Some(v),
        channel(two_hex(v) + two_hex(v)) == Some(v),
{
    let hi = v as nat / 16;
    let lo = v as nat % 16;
    let a = hex_char(hi);
    let b = hex_char(lo);
    assert(is_hex(a) && is_hex(b) && hex_digit(a) == hi && hex_digit(b) == lo);
    let two = two_hex(v);
    let four = two + two;
    reveal_with_fuel(hex_value, 5);
    assert(two.drop_last() =~= seq![a]);
    assert(seq![a].drop_last() =~= Seq::<char>::empty());
    assert(hex_value(two) == hi * 16 + lo);
    assert(four.drop_last() =~= seq![a, b, a]);
    assert(seq![a, b, a].drop_last() =~= two);
    assert(hex_value(four) == ((hi * 16 + lo) * 16 + hi) * 16 + lo);
    assert(hex_value(four) == v as nat * 0x101);
    law_levels_scale_to_their_leading_digits(v as nat);
    assert forall|i: int| 0 <= i < two.len() implies is_hex(#[trigger] two[i]) by {}
    assert forall|i: int| 0 <= i < four.len() implies is_hex(#[trigger] four[i]) by {}
}

/// A colour as terminals spell one reads back: six hexadecimal digits behind `#`, red, green
/// and blue in that order; or behind `rgb:` two or four digits a channel with slashes between.
pub proof fn law_a_spelled_colour_reads_back(c: Rgb)
    ensures
        colour_meant(seq!['#'] + two_hex(c.0) + two_hex(c.1) + two_hex(c.2)) == Some(c),
        colour_meant(
            "rgb:"@ + two_hex(c.0) + seq!['/'] + two_hex(c.1) + seq!['/'] + two_hex(c.2),
        ) == Some(c),
        colour_meant(
            "rgb:"@ + (two_hex(c.0) + two_hex(c.0)) + seq!['/'] + (two_hex(c.1) + two_hex(c.1))
                + seq!['/'] + (two_hex(c.2) + two_hex(c.2)),
        ) == Some(c),
{
    lemma_two_hex(c.0);
    lemma_two_hex(c.1);
    lemma_two_hex(c.2);
    lemma_hex_is_no_mark(c.0);
    lemma_hex_is_no_mark(c.1);
    lemma_hex_is_no_mark(c.2);
    let s = seq!['#'] + two_hex(c.0) + two_hex(c.1) + two_hex(c.2);
    crate::text::lemma_trimmed_is_itself(s);
    let hex = s.skip(1);
    assert(hex.len() == 6);
    assert(hex.subrange(0, 2) =~= two_hex(c.0));
    assert(hex.subrange(2, 4) =~= two_hex(c.1));
    assert(hex.subrange(4, 6) =~= two_hex(c.2));
    lemma_slashed_reads_back(two_hex(c.0), two_hex(c.1), two_hex(c.2), c);
    lemma_slashed_reads_back(
        two_hex(c.0) + two_hex(c.0),
        two_hex(c.1) + two_hex(c.1),
        two_hex(c.2) + two_hex(c.2),
        c,
    );
}

proof fn lemma_hex_is_no_mark(v: u8)
    ensures
        ({
            let two = two_hex(v);
            let four = two + two;
            &&& forall|i: int|
                0 <= i < 2 ==> #[trigger] two[i] != '/' && !crate::text::white_space(two[i])
            &&& forall|i: int|
                0 <= i < 4 ==> #[trigger] four[i] != '/' && !crate::text::white_space(four[i])
        }),
{
    let a = hex_char(v as nat / 16);
    let b = hex_char(v as nat % 16);
    assert(a != '/' && b != '/' && !crate::text::white_space(a) && !crate::text::white_space(b));
}

proof fn lemma_slashed_reads_back(r: Seq<char>, g: Seq<char>, b: Seq<char>, c: Rgb)
    requires
        channel(r) == Some(c.0),
        channel(g) == Some(c.1),
        channel(b) == Some(c.2),
        r.len() > 0 && g.len() > 0 && b.len() > 0,
        forall|i: int| 0 <= i < r.len() ==> #[trigger] r[i] != '/',
        forall|i: int| 0 <= i < g.len() ==> #[trigger] g[i] != '/',
        forall|i: int|
            0 <= i < b.len() ==> #[trigger] b[i] != '/' && !crate::text::white_space(b[i]),
    ensures
        colour_meant("rgb:"@ + r + seq!['/'] + g + seq!['/'] + b) == Some(c),
{
    reveal_strlit("rgb:");
    let s = "rgb:"@ + r + seq!['/'] + g + seq!['/'] + b;
    assert(s.last() == b[b.len() - 1]);
    crate::text::lemma_trimmed_is_itself(s);
    assert(s.take(4) =~= "rgb:"@);
    let body = s.skip(4);
    assert(body =~= r + seq!['/'] + g + seq!['/'] + b);
    let one = r.len() as int;
    let two = one + 1 + g.len();
    crate::text::lemma_first_char(body, '/', 0);
    assert(body[one] == '/');
    assert forall|i: int| 0 <= i < one implies body[i] != '/' by {
        assert(body[i] == r[i]);
    }
    assert(first_char(body, '/', 0) == one);
    crate::text::lemma_first_char(body, '/', one + 1);
    assert(body[two] == '/');
    assert forall|i: int| one + 1 <= i < two implies body[i] != '/' by {
        assert(body[i] == g[i - one - 1]);
    }
    assert(first_char(body, '/', one + 1) == two);
    crate::text::lemma_first_char(body, '/', two + 1);
    let end = first_char(body, '/', two + 1);
    if end < body.len() {
        assert(body[end] == b[end - two - 1]);
    }
    assert(until_slash(body, 0) =~= r);
    assert(until_slash(body, one + 1) =~= g);
    assert(until_slash(body, two + 1) =~= b);
}

/// A reply is filed under what it answers: `10` is the foreground, `11` the background, `4` and
/// a number that one of the sixteen; and no reply changes any other answer.
pub proof fn law_a_reply_is_filed_under_what_it_answers(a: Answers, colour: Seq<char>, n: nat)
    requires
        !colour.contains(';'),
        n < 16,
        a.ansi.len() == 16,
    ensures
        a.filed("10;"@ + colour) == (Answers { fg: colour_meant(colour), ..a }),
        a.filed("11;"@ + colour) == (Answers { bg: colour_meant(colour), ..a }),
        a.filed("4;"@ + decimal(n) + ";"@ + colour) == (Answers {
            ansi: a.ansi.update(n as int, colour_meant(colour)),
            ..a
        }),
        a.filed(colour) == a,
{
    assert forall|i: int| 0 <= i < colour.len() implies colour[i] != ';' by {
        assert(colour.contains(colour[i]));
    }
    crate::text::lemma_first_char(colour, ';', 0);
    assert("10;"@ + colour =~= seq!['1', '0'] + seq![';'] + colour && "11;"@ + colour =~= seq![
        '1',
        '1',
    ] + seq![';'] + colour) by {
        reveal_strlit("10;");
        reveal_strlit("11;");
    }
    assert("10"@ =~= seq!['1', '0'] && "11"@ =~= seq!['1', '1']) by {
        reveal_strlit("10");
        reveal_strlit("11");
    }
    lemma_two_fields(seq!['1', '0'], colour);
    lemma_two_fields(seq!['1', '1'], colour);
    assert(seq!['1', '0'][1] != seq!['1', '1'][1]);
    lemma_filed_ansi(a, colour, n);
}

proof fn lemma_filed_ansi(a: Answers, colour: Seq<char>, n: nat)
    requires
        n < 16,
        a.ansi.len() == 16,
    ensures
        a.filed("4;"@ + decimal(n) + ";"@ + colour) == (Answers {
            ansi: a.ansi.update(n as int, colour_meant(colour)),
            ..a
        }),
{
    crate::text::lemma_decimal_reads_back(n);
    let d = decimal(n);
    assert forall|i: int| 0 <= i < d.len() implies d[i] != ';' by {
        assert('0' <= d[i] && d[i] <= '9');
    }
    let s = "4;"@ + d + ";"@ + colour;
    assert("4"@ =~= seq!['4'] && s =~= seq!['4', ';'] + d + seq![';'] + colour) by {
        reveal_strlit("4");
        reveal_strlit("4;");
        reveal_strlit(";");
    }
    let two = 2 + d.len() as int;
    crate::text::lemma_first_char(s, ';', 0);
    assert(s[0] == '4' && s[1] == ';');
    assert(first_char(s, ';', 0) == 1);
    crate::text::lemma_first_char(s, ';', 2);
    assert(s[two] == ';');
    assert forall|i: int| 2 <= i < two implies s[i] != ';' by {
        assert(s[i] == d[i - 2]);
    }
    assert(first_char(s, ';', 2) == two);
    assert(s.take(1) =~= seq!['4']);
    assert(s.subrange(2, two) =~= d);
    assert(s.skip(two + 1) =~= colour);
}

proof fn lemma_two_fields(head: Seq<char>, colour: Seq<char>)
    requires
        head.len() == 2,
        head[0] != ';' && head[1] != ';',
        forall|i: int| 0 <= i < colour.len() ==> colour[i] != ';',
    ensures
        ({
            let s = head + seq![';'] + colour;
            &&& first_char(s, ';', 0) == 2
            &&& first_char(s, ';', 3) == s.len()
            &&& s.take(2) == head
            &&& s.subrange(3, s.len() as int) == colour
        }),
{
    let s = head + seq![';'] + colour;
    crate::text::lemma_first_char(s, ';', 0);
    assert(s[2] == ';' && s[0] == head[0] && s[1] == head[1]);
    crate::text::lemma_first_char(s, ';', 3);
    let end = first_char(s, ';', 3);
    if end < s.len() {
        assert(s[end] == colour[end - 3]);
    }
    assert(s.take(2) =~= head);
    assert(s.subrange(3, s.len() as int) =~= colour);
}

/// The answers make a palette exactly when the foreground and the background are among them, and
/// its colours are the terminal's own: xterm's stand in only for those of the sixteen that were
/// not answered.
pub proof fn law_the_palette_is_the_terminals_own(a: Answers, p: Palette, i: int)
    requires
        0 <= i < 16,
    ensures
        a.make(None) <==> a.fg is None || a.bg is None,
        a.make(Some(p)) ==> a.fg == Some(p.fg) && a.bg == Some(p.bg),
        a.make(Some(p)) && a.ansi[i] is Some ==> a.ansi[i] == Some(p.ansi@[i]),
        a.make(Some(p)) && a.ansi[i] is None ==> p.ansi@[i] == xterm_ansi()[i],
{
    assert(p.ansi@[i] == p.ansi@[i]);
}

/// There is more to wait for until the terminal says it is done, or has answered everything:
/// before it has said anything there is, and its last reply ends the wait.
pub proof fn law_the_last_reply_ends_the_wait(a: Answers, rest: Seq<u8>)
    ensures
        !Answers::none().complete(),
        a.read(seq![0x1bu8, 0x5b, 0x30, 0x6e]).complete(),
        a.read(seq![0x1bu8, 0x5b, 0x30, 0x6e]) == (Answers { dsr: true, ..a }),
        a.fg is None && !a.dsr ==> !a.complete(),
        a.bg is None && !a.dsr ==> !a.complete(),
        forall|i: int| 0 <= i < 16 && #[trigger] a.ansi[i] is None && !a.dsr ==> !a.complete(),
{
    reveal(Answers::front);
    let s = seq![0x1bu8, 0x5b, 0x30, 0x6e];
    assert(s.skip(4) =~= Seq::<u8>::empty());
    reveal_with_fuel(Answers::read, 2);
}

/// A reply that has arrived whole is filed, whichever way it ends, and what follows it is read
/// on.
pub proof fn law_a_whole_reply_is_filed(a: Answers, payload: Seq<u8>, rest: Seq<u8>)
    requires
        forall|i: int| 0 <= i < payload.len() ==> payload[i] != 0x1b && payload[i] != 0x07,
        valid_utf8(payload),
    ensures
        a.read(seq![0x1bu8, 0x5d] + payload + seq![0x07u8] + rest) == a.filed(
            decode_utf8(payload),
        ).read(rest),
        a.read(seq![0x1bu8, 0x5d] + payload + seq![0x1bu8, 0x5c] + rest) == a.filed(
            decode_utf8(payload),
        ).read(rest),
{
    lemma_reply_is_read(a, payload, seq![0x07u8], rest);
    lemma_reply_is_read(a, payload, seq![0x1bu8, 0x5c], rest);
}

proof fn lemma_reply_is_read(a: Answers, payload: Seq<u8>, end: Seq<u8>, rest: Seq<u8>)
    requires
        forall|i: int| 0 <= i < payload.len() ==> payload[i] != 0x1b && payload[i] != 0x07,
        valid_utf8(payload),
        end == seq![0x07u8] || end == seq![0x1bu8, 0x5c],
    ensures
        a.read(seq![0x1bu8, 0x5d] + payload + end + rest) == a.filed(decode_utf8(payload)).read(
            rest,
        ),
{
    reveal(Answers::front);
    let all = seq![0x1bu8, 0x5d] + payload + end + rest;
    let behind = all.skip(2);
    assert(behind =~= payload + end + rest);
    let n = payload.len() as int;
    assert forall|i: int| 0 <= i < n implies behind[i] == payload[i] by {}
    assert(behind[n] == end[0]);
    if end.len() == 2 {
        assert(behind[n + 1] == end[1]);
    }
    lemma_payload_ends_at(behind, 0, n);
    assert(behind.take(n) =~= payload);
    assert(all.skip(2 + n + end.len()) =~= rest);
    assert(all[0] == 0x1b && all[1] == 0x5d);
}

proof fn lemma_payload_ends_at(bytes: Seq<u8>, k: int, n: int)
    requires
        0 <= k <= n < bytes.len(),
        forall|i: int| k <= i < n ==> bytes[i] != 0x1b && bytes[i] != 0x07,
        bytes[n] == 0x07 || (bytes[n] == 0x1b && n + 1 < bytes.len() && bytes[n + 1] == 0x5c),
    ensures
        payload_end(bytes, k) == Some(
            (
                n,
                if bytes[n] == 0x07 {
                    n + 1
                } else {
                    n + 2
                },
            ),
        ),
    decreases n - k,
{
    if k < n {
        lemma_payload_ends_at(bytes, k + 1, n);
    }
}

/// Each of the sixteen is asked for by its own number, one behind the other.
pub proof fn law_each_of_the_sixteen_is_asked_for(n: nat)
    ensures
        ansi_request(0) == Seq::<u8>::empty(),
        ansi_request(n + 1) == ansi_request(n) + utf8("\x1b]4;"@) + utf8(decimal(n)) + utf8(
            ";?\x1b\\"@,
        ),
{
}

/// Answers are waited for until they are all in or the time is up, whichever comes first.
pub proof fn law_answers_are_waited_for(complete: bool, until: Instant, now: Instant)
    ensures
        wait_left(complete, until, now) is None <==> complete || now >= until,
        wait_left(complete, until, now) matches Some(time) ==> time > 0 && now + time == until,
{
}

} // verus!
