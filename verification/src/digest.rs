//! BLAKE3 digests.

use vstd::prelude::*;

use crate::hex::{self, push_hex};
use crate::text;

verus! {

/// A hasher of the `blake3` crate.
#[verifier::external_type_specification]
#[verifier::external_body]
pub struct ExHasher(blake3::Hasher);

/// The bytes a hasher was fed.
pub uninterp spec fn fed(hasher: blake3::Hasher) -> Seq<u8>;

/// The BLAKE3 digest of some bytes.
pub uninterp spec fn blake3_digest(bytes: Seq<u8>) -> Seq<u8>;

/// `blake3::Hasher::new`: a hasher that was fed nothing.
#[verifier::external_body]
pub(crate) fn new_hasher() -> (hasher: blake3::Hasher)
    ensures
        fed(hasher) == Seq::<u8>::empty(),
{
    blake3::Hasher::new()
}

/// `blake3::Hasher::update`: feeds the hasher more bytes.
#[verifier::external_body]
pub(crate) fn feed(hasher: &mut blake3::Hasher, bytes: &Vec<u8>)
    ensures
        fed(*final(hasher)) == fed(*old(hasher)) + bytes@,
{
    hasher.update(bytes);
}

/// `blake3::Hasher::finalize`: the digest of what the hasher was fed so far,
/// 32 bytes, the same as that of the bytes all at once.
#[verifier::external_body]
pub(crate) fn digest_so_far(hasher: &blake3::Hasher) -> (digest: Vec<u8>)
    ensures
        digest@ == blake3_digest(fed(*hasher)),
        digest@.len() == 32,
{
    hasher.finalize().as_bytes().to_vec()
}

/// `blake3::hash`: the digest of some bytes, a function of them alone, named
/// [`blake3_digest`]. It is 32 bytes long.
#[verifier::external_body]
pub(crate) fn digest(bytes: &Vec<u8>) -> (digest: Vec<u8>)
    ensures
        digest@ == blake3_digest(bytes@),
        digest@.len() == 32,
{
    blake3::hash(bytes).as_bytes().to_vec()
}

/// Bytes as hexadecimal digits, two for each.
pub open spec fn hex_text(bytes: Seq<u8>) -> Seq<char>
    decreases bytes.len(),
{
    if bytes.len() == 0 {
        Seq::empty()
    } else {
        hex_text(bytes.drop_last()) + hex::hex(bytes.last() as nat, 2)
    }
}

/// The BLAKE3 digest of a text in UTF-8, as hexadecimal digits.
pub open spec fn blake3_hex(text: Seq<char>) -> Seq<char> {
    hex_text(blake3_digest(vstd::utf8::encode_utf8(text)))
}

/// The digest of a text, as hexadecimal digits.
pub fn hex_digest(text: &str) -> (out: String)
    ensures
        out@ == blake3_hex(text@),
{
    let bytes = text::bytes_of(text);
    let sum = digest(&bytes);
    let mut out = String::new();
    let mut i: usize = 0;
    while i < sum.len()
        invariant
            i <= sum@.len(),
            out@ == hex_text(sum@.take(i as int)),
        decreases sum@.len() - i,
    {
        assert(sum@.take(i + 1).drop_last() =~= sum@.take(i as int));
        push_hex(&mut out, sum[i] as u128, 2);
        i += 1;
    }
    assert(sum@.take(i as int) =~= sum@);
    out
}

/// The number that the first eight bytes are, the least significant first.
pub open spec fn first_u64(bytes: Seq<u8>) -> int {
    bytes[0] + 0x100 * bytes[1] + 0x1_0000 * bytes[2] + 0x100_0000 * bytes[3] + 0x1_0000_0000
        * bytes[4] + 0x100_0000_0000 * bytes[5] + 0x1_0000_0000_0000 * bytes[6]
        + 0x100_0000_0000_0000 * bytes[7]
}

/// The digest of some bytes, cut down to a number.
pub open spec fn hash_number(bytes: Seq<u8>) -> int {
    first_u64(blake3_digest(bytes))
}

/// The digest of some bytes, cut down to a number.
pub fn hash64(bytes: &Vec<u8>) -> (hash: u64)
    ensures
        hash == hash_number(bytes@),
{
    let d = digest(bytes);
    d[0] as u64 + 0x100 * d[1] as u64 + 0x1_0000 * d[2] as u64 + 0x100_0000 * d[3] as u64
        + 0x1_0000_0000 * d[4] as u64 + 0x100_0000_0000 * d[5] as u64 + 0x1_0000_0000_0000
        * d[6] as u64 + 0x100_0000_0000_0000 * d[7] as u64
}

// ---------------------------------------------------------------------------
// Laws
// ---------------------------------------------------------------------------

proof fn lemma_two_digits(bytes: Seq<u8>, i: int)
    requires
        0 <= i < bytes.len(),
    ensures
        hex_text(bytes).len() == 2 * bytes.len(),
        hex_text(bytes)[2 * i] == "0123456789abcdef"@[(bytes[i] / 16) as int],
        hex_text(bytes)[2 * i + 1] == "0123456789abcdef"@[(bytes[i] % 16) as int],
    decreases bytes.len(),
{
    let less = bytes.drop_last();
    let last = bytes.last() as nat;
    hex::digits_count_in_sixteens(last, 2);
    hex::digits_count_in_sixteens(last / 16, 1);
    assert((last / 16) % 16 == last / 16);
    assert(hex::hex(last, 2)[0] == hex::hex(last, 2).drop_last()[0]);
    assert(hex::hex(last, 2)[0] == "0123456789abcdef"@[(last / 16) as int]);
    assert(hex::hex(last, 2)[1] == "0123456789abcdef"@[(last % 16) as int]);
    if less.len() > 0 {
        lemma_two_digits(less, if i < less.len() {
            i
        } else {
            0
        });
    }
    assert(hex_text(less).len() == 2 * less.len());
    if i < less.len() {
        assert(less[i] == bytes[i]);
    }
}

/// Each byte of the digest is two digits, sixteens first.
pub proof fn each_byte_is_two_digits(text: &str, out: String, i: int)
    requires
        call_ensures(hex_digest, (text,), out),
        0 <= i < blake3_digest(vstd::utf8::encode_utf8(text@)).len(),
    ensures
        ({
            let bytes = blake3_digest(vstd::utf8::encode_utf8(text@));
            &&& out@.len() == 2 * bytes.len()
            &&& out@[2 * i] == "0123456789abcdef"@[(bytes[i] / 16) as int]
            &&& out@[2 * i + 1] == "0123456789abcdef"@[(bytes[i] % 16) as int]
        }),
{
    lemma_two_digits(blake3_digest(vstd::utf8::encode_utf8(text@)), i);
}

/// The number is made of the first eight bytes of the digest, the first
/// counting least: each counts 256 times as much as the one before it.
pub proof fn the_first_byte_counts_least(bytes: &Vec<u8>, hash: u64)
    requires
        call_ensures(hash64, (bytes,), hash),
    ensures
        ({
            let d = blake3_digest(bytes@);
            hash == d[0] + 256 * (d[1] + 256 * (d[2] + 256 * (d[3] + 256 * (d[4] + 256 * (d[5] + 256
                * (d[6] + 256 * d[7]))))))
        }),
{
}

} // verus!
