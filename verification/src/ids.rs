//! Session ids and host tokens.
//!
//! Ids are short because socket paths are short: see [`crate::paths`] for the byte budget.

use vstd::prelude::*;

use crate::error::NvmuxError;
use crate::text::chars_of;

verus! {

/// The length of a session id, in characters and bytes.
pub const ID_LEN: usize = 8;

/// The `n`th character of the base32 alphabet, in lower case: letters, then `2` to `7`.
pub open spec fn letter(n: nat) -> char {
    if n < 26 {
        (0x61 + n) as char
    } else {
        (0x32 + (n - 26)) as char
    }
}

/// The character is one of the alphabet's.
pub open spec fn in_alphabet(c: char) -> bool {
    ('a' <= c && c <= 'z') || ('2' <= c && c <= '7')
}

/// The characters of the `groups` lowest groups of five bits, the highest first.
pub open spec fn base32(n: nat, groups: nat) -> Seq<char>
    decreases groups,
{
    if groups == 0 {
        Seq::empty()
    } else {
        base32(n / 32, (groups - 1) as nat).push(letter(n % 32))
    }
}

/// Forty bits as a number, the first byte highest.
pub open spec fn forty_bits(bytes: Seq<u8>) -> nat {
    (((bytes[0] * 256 + bytes[1]) * 256 + bytes[2]) * 256 + bytes[3]) as nat * 256 + bytes[4] as nat
}

/// A well-formed session id: eight characters of the alphabet.
pub open spec fn valid_id(id: Seq<char>) -> bool {
    id.len() == ID_LEN && forall|i: int| 0 <= i < id.len() ==> in_alphabet(#[trigger] id[i])
}

fn base32_text(n: u64, groups: u64) -> (r: String)
    ensures
        r@ == base32(n as nat, groups as nat),
    decreases groups,
{
    if groups == 0 {
        return String::new();
    }
    let mut out: String = base32_text(n / 32, groups - 1);
    let group: u8 = (n % 32) as u8;
    let c: char = if group < 26 {
        (0x61 + group) as char
    } else {
        (0x32 + (group - 26)) as char
    };
    out.push(c);
    out
}

/// Encode exactly forty bits as eight base32 characters.
pub fn b32_40(bytes: &[u8; 5]) -> (r: String)
    ensures
        r@ == base32(forty_bits(bytes@), 8),
        valid_id(r@),
{
    let n: u64 = (((bytes[0] as u64 * 256 + bytes[1] as u64) * 256 + bytes[2] as u64) * 256
        + bytes[3] as u64) * 256 + bytes[4] as u64;
    proof {
        law_tokens_are_valid_ids(n as nat);
    }
    base32_text(n, 8)
}

proof fn lemma_base32(n: nat, groups: nat)
    ensures
        base32(n, groups).len() == groups,
        forall|i: int| 0 <= i < groups ==> in_alphabet(#[trigger] base32(n, groups)[i]),
    decreases groups,
{
    if groups > 0 {
        lemma_base32(n / 32, (groups - 1) as nat);
    }
}

/// Whatever is encoded, eight groups of it make a well-formed id.
pub proof fn law_tokens_are_valid_ids(n: nat)
    ensures
        valid_id(base32(n, 8)),
{
    lemma_base32(n, 8);
}

proof fn lemma_base32_injective(a: nat, b: nat, groups: nat, bound: nat)
    requires
        base32(a, groups) == base32(b, groups),
        a < bound,
        b < bound,
        bound_fits(bound, groups),
    ensures
        a == b,
    decreases groups,
{
    if groups > 0 {
        let x = base32(a / 32, (groups - 1) as nat);
        let y = base32(b / 32, (groups - 1) as nat);
        assert(x.push(letter(a % 32)).drop_last() =~= x);
        assert(y.push(letter(b % 32)).drop_last() =~= y);
        assert(x.push(letter(a % 32)).last() == y.push(letter(b % 32)).last());
        assert(a % 32 == b % 32);
        lemma_base32_injective(a / 32, b / 32, (groups - 1) as nat, bound / 32);
    }
}

/// The bound is what that many groups can tell apart.
spec fn bound_fits(bound: nat, groups: nat) -> bool
    decreases groups,
{
    if groups == 0 {
        bound <= 1
    } else {
        bound % 32 == 0 && bound_fits(bound / 32, (groups - 1) as nat)
    }
}

/// Different bytes make different ids.
pub proof fn law_ids_tell_their_bytes_apart(a: Seq<u8>, b: Seq<u8>)
    requires
        a.len() == 5,
        b.len() == 5,
        base32(forty_bits(a), 8) == base32(forty_bits(b), 8),
    ensures
        a == b,
{
    let bound: nat = 0x100_0000_0000;
    assert(bound_fits(bound, 8)) by {
        reveal_with_fuel(bound_fits, 9);
    }
    lemma_base32_injective(forty_bits(a), forty_bits(b), 8, bound);
    assert(a =~= b);
}

/// `getrandom::Error`, which says why the system gave no random bytes.
#[verifier::external_type_specification]
#[verifier::external_body]
pub struct ExRandomError(getrandom::Error);

/// `getrandom::fill` overwrites the bytes with random ones or fails; there are as many of
/// them afterwards as before.
pub assume_specification[ getrandom::fill ](dest: &mut [u8]) -> (r: Result<
    (),
    getrandom::Error,
>)
    ensures
        final(dest)@.len() == old(dest)@.len(),
;

/// `ToString::to_string` on a `getrandom::Error`: what the error says of itself.
#[verifier::external_body]
fn why_not_random(e: &getrandom::Error) -> String {
    e.to_string()
}

/// A fresh random session id.
///
/// Which bytes come, and whether any do, is the system's business: every outcome is a
/// well-formed id, the encoding of the bytes by [`b32_40`], or the system's own error.
pub fn new_id() -> (r: Result<String, NvmuxError>)
    ensures
        match r {
            Ok(id) => valid_id(id@) && exists|bytes: Seq<u8>|
                #![trigger forty_bits(bytes)]
                bytes.len() == 5 && id@ == base32(forty_bits(bytes), 8),
            Err(e) => e is Io,
        },
{
    let mut dest: Vec<u8> = vec![0, 0, 0, 0, 0];
    match getrandom::fill(dest.as_mut_slice()) {
        Ok(_) => {
            let bytes: [u8; 5] = [dest[0], dest[1], dest[2], dest[3], dest[4]];
            let id: String = b32_40(&bytes);
            assert(bytes@.len() == 5 && id@ == base32(forty_bits(bytes@), 8));
            Ok(id)
        },
        Err(e) => Err(NvmuxError::Io(why_not_random(&e))),
    }
}

/// Reject anything that is not a well-formed session id. An id becomes a path, so one that
/// is not could name a file anywhere.
pub fn is_valid_id(id: &str) -> (r: bool)
    ensures
        r == valid_id(id@),
{
    let chars: Vec<char> = chars_of(id);
    if chars.len() != ID_LEN {
        return false;
    }
    let mut i: usize = 0;
    while i < chars.len()
        invariant
            chars@ == id@,
            chars@.len() == ID_LEN,
            i <= chars@.len(),
            forall|j: int| 0 <= j < i ==> in_alphabet(#[trigger] chars@[j]),
        decreases chars@.len() - i,
    {
        let c: char = chars[i];
        if !(('a' <= c && c <= 'z') || ('2' <= c && c <= '7')) {
            assert(!in_alphabet(id@[i as int]));
            return false;
        }
        i += 1;
    }
    true
}

/// Where the hash of a host starts.
pub const OFFSET: u64 = 0xcbf2_9ce4_8422_2325;

/// What the hash of a host is multiplied by for each byte. One nibble longer than the usual
/// multiplier, and never to be corrected: every forwarded socket name on disk depends on it.
pub const PRIME: u64 = 0x1000_0000_01b3;

/// The hash of these bytes: for each, mixed in and multiplied.
pub open spec fn host_hash(bytes: Seq<u8>) -> u64
    decreases bytes.len(),
{
    if bytes.len() == 0 {
        OFFSET
    } else {
        (host_hash(bytes.drop_last()) ^ (bytes.last() as u64)).wrapping_mul(PRIME)
    }
}

/// The token of a host: the forty lowest bits of its hash.
pub open spec fn token(host: Seq<char>) -> Seq<char> {
    base32((host_hash(crate::text::utf8(host)) % 0x100_0000_0000) as nat, 8)
}

/// A short, stable, filename-safe token for a host string, naming the local end of an SSH
/// forward. A fixed hash, so that an upgrade never orphans a live session's socket.
pub fn host_token(host: &str) -> (r: String)
    ensures
        r@ == token(host@),
        valid_id(r@),
{
    let bytes: &[u8] = host.as_bytes();
    let mut h: u64 = OFFSET;
    let mut i: usize = 0;
    while i < bytes.len()
        invariant
            i <= bytes@.len(),
            h == host_hash(bytes@.take(i as int)),
        decreases bytes@.len() - i,
    {
        assert(bytes@.take(i + 1).drop_last() =~= bytes@.take(i as int));
        h = (h ^ (bytes[i] as u64)).wrapping_mul(PRIME);
        i += 1;
    }
    assert(bytes@.take(i as int) =~= bytes@);
    proof {
        law_tokens_are_valid_ids((h % 0x100_0000_0000) as nat);
    }
    base32_text(h % 0x100_0000_0000, 8)
}

proof fn lemma_first_of_base32(n: nat, groups: nat)
    requires
        groups > 1,
    ensures
        base32(n, groups).len() == groups,
        base32(n, groups)[0] == base32(n / 32, (groups - 1) as nat)[0],
    decreases groups,
{
    lemma_base32_len(n / 32, (groups - 1) as nat);
}

proof fn lemma_base32_len(n: nat, groups: nat)
    ensures
        base32(n, groups).len() == groups,
    decreases groups,
{
    if groups > 0 {
        lemma_base32_len(n / 32, (groups - 1) as nat);
    }
}

/// An id spells its bits from the highest down, five to a character: the first character is the
/// five highest bits of the first byte, and the last the five lowest of the last.
pub proof fn law_an_id_spells_its_bits_from_the_highest(bytes: Seq<u8>)
    requires
        bytes.len() == 5,
    ensures
        base32(forty_bits(bytes), 8).len() == 8,
        base32(forty_bits(bytes), 8)[0] == letter(bytes[0] as nat / 8),
        base32(forty_bits(bytes), 8)[7] == letter(bytes[4] as nat % 32),
{
    let n = forty_bits(bytes);
    let n1 = n / 32;
    let n2 = n1 / 32;
    let n3 = n2 / 32;
    let n4 = n3 / 32;
    let n5 = n4 / 32;
    let n6 = n5 / 32;
    let n7 = n6 / 32;
    let b0 = bytes[0] as nat;
    assert(n % 32 == bytes[4] as nat % 32);
    assert(n7 == b0 / 8) by {
        let high = b0 * 0x1_0000_0000;
        assert(high <= n < high + 0x1_0000_0000);
        assert(b0 * 0x800_0000 <= n1 < (b0 + 1) * 0x800_0000);
        assert(b0 * 0x40_0000 <= n2 < (b0 + 1) * 0x40_0000);
        assert(b0 * 0x2_0000 <= n3 < (b0 + 1) * 0x2_0000);
        assert(b0 * 0x1000 <= n4 < (b0 + 1) * 0x1000);
        assert(b0 * 0x80 <= n5 < (b0 + 1) * 0x80);
        assert(b0 * 4 <= n6 < (b0 + 1) * 4);
    }
    lemma_first_of_base32(n, 8);
    lemma_first_of_base32(n1, 7);
    lemma_first_of_base32(n2, 6);
    lemma_first_of_base32(n3, 5);
    lemma_first_of_base32(n4, 4);
    lemma_first_of_base32(n5, 3);
    lemma_first_of_base32(n6, 2);
    assert(base32(n7, 0) =~= Seq::<char>::empty()) by {
        lemma_base32_len(n7, 0);
    }
    reveal_with_fuel(base32, 2);
    assert(base32(n7, 1)[0] == letter(n7 % 32));
    assert(base32(n, 8).last() == letter(n % 32));
}

/// The alphabet is the small letters and then the digits from 2 to 7.
pub proof fn law_the_alphabet_is_letters_and_digits(n: nat)
    requires
        n < 32,
    ensures
        in_alphabet(letter(n)),
        letter(0) == 'a' && letter(25) == 'z' && letter(26) == '2' && letter(31) == '7',
        n < 26 ==> letter(n) as nat == 'a' as nat + n,
        n >= 26 ==> letter(n) as nat == '2' as nat + (n - 26),
{
}

/// An id is well formed exactly when it is eight small letters and digits from 2 to 7.
pub proof fn law_what_ids_are_well_formed(id: Seq<char>)
    ensures
        valid_id(id) <==> id.len() == 8 && forall|i: int|
            0 <= i < id.len() ==> ('a' <= #[trigger] id[i] && id[i] <= 'z') || ('2' <= id[i]
                && id[i] <= '7'),
{
}

/// Mixing one more byte into the hash of a host depends on the hash so far and on that byte
/// alone, and the empty name hashes to where the hash starts.
pub proof fn law_a_hash_goes_byte_by_byte(bytes: Seq<u8>, b: u8)
    ensures
        host_hash(Seq::empty()) == 0xcbf2_9ce4_8422_2325,
        host_hash(bytes.push(b)) as int == ((host_hash(bytes) ^ (b as u64)) as int
            * 0x1000_0000_01b3) % 0x1_0000_0000_0000_0000,
{
    assert(bytes.push(b).drop_last() =~= bytes);
}

/// A host's token is eight characters of the alphabet, and two hosts share one exactly when the
/// forty lowest bits of their hashes are the same.
pub proof fn law_a_token_is_forty_bits_of_the_hash(a: Seq<char>, b: Seq<char>)
    ensures
        token(a).len() == 8,
        forall|i: int| 0 <= i < 8 ==> in_alphabet(#[trigger] token(a)[i]),
        token(a) == token(b) <==> host_hash(crate::text::utf8(a)) % 0x100_0000_0000 == host_hash(
            crate::text::utf8(b),
        ) % 0x100_0000_0000,
{
    let bound: nat = 0x100_0000_0000;
    let m = (host_hash(crate::text::utf8(a)) % 0x100_0000_0000) as nat;
    let n = (host_hash(crate::text::utf8(b)) % 0x100_0000_0000) as nat;
    law_tokens_are_valid_ids(m);
    lemma_base32(m, 8);
    lemma_base32_len(m, 8);
    assert(bound_fits(bound, 8)) by {
        reveal_with_fuel(bound_fits, 9);
    }
    if token(a) == token(b) {
        lemma_base32_injective(m, n, 8, bound);
    }
}

} // verus!
