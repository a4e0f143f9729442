//! BLAKE3 digests, as hexadecimal text.
use crate::text;
use vstd::prelude::*;

verus! {

/// A hash state: the outside type `blake3::Hasher`.
#[verifier::external_type_specification]
#[verifier::external_body]
pub struct ExHasher(blake3::Hasher);

/// A digit of lowercase hexadecimal.
pub open spec fn hex_digit(c: char) -> bool {
    '0' <= c <= '9' || 'a' <= c <= 'f'
}

/// Whether a text is of lowercase hexadecimal digits alone.
pub open spec fn hex_text(s: Seq<char>) -> bool {
    forall|i: int| 0 <= i < s.len() ==> hex_digit(#[trigger] s[i])
}

/// The BLAKE3 digest of some bytes in lowercase hexadecimal.
pub uninterp spec fn blake3_hex(data: Seq<u8>) -> Seq<char>;

/// `blake3::hash` and `Hash::to_hex`: the digest of `data`, which depends on `data` alone, as 64
/// lowercase hexadecimal digits.
#[verifier::external_body]
pub(crate) fn hash(data: &[u8]) -> (r: String)
    ensures
        r@ == blake3_hex(data@),
        r@.len() == 64,
        hex_text(r@),
{
    blake3::hash(data).to_hex().to_string()
}

/// The bytes that a hasher of the default mode has taken in. A hasher of another mode (keyed, for
/// key derivation, or with an input offset) has none.
pub uninterp spec fn hasher_input(h: blake3::Hasher) -> Option<Seq<u8>>;

/// `blake3::Hasher::new` makes a hasher of the default mode that has taken in nothing.
#[verifier::external_body]
pub(crate) fn new_hasher() -> (r: blake3::Hasher)
    ensures
        hasher_input(r) == Some(Seq::<u8>::empty()),
{
    blake3::Hasher::new()
}

/// `blake3::Hasher::update` takes in further bytes.
#[verifier::external_body]
pub(crate) fn update(h: &mut blake3::Hasher, data: &[u8])
    requires
        hasher_input(*old(h)) is Some,
    ensures
        hasher_input(*final(h)) == Some(hasher_input(*old(h))->Some_0 + data@),
{
    h.update(data);
}

/// `blake3::Hasher::finalize` and `Hash::to_hex`: the digest of all bytes taken in, the same as
/// that of one buffer with them.
#[verifier::external_body]
pub(crate) fn finish(h: &blake3::Hasher) -> (r: String)
    requires
        hasher_input(*h) is Some,
    ensures
        r@ == blake3_hex(hasher_input(*h)->Some_0),
        r@.len() == 64,
        hex_text(r@),
{
    h.finalize().to_hex().to_string()
}

/// The first digits of a digest.
pub open spec fn short_hex(data: Seq<u8>, n: int) -> Seq<char> {
    blake3_hex(data).take(n)
}

/// Cuts a text after `n` characters.
pub(crate) fn cut(s: &str, n: usize) -> (r: String)
    requires
        n <= s@.len(),
    ensures
        r@ == s@.take(n as int),
        hex_text(s@) ==> hex_text(r@),
{
    let cs = text::chars_of(s);
    let r = text::string_of(text::part(cs.as_slice(), 0, n).as_slice());
    assert(r@ =~= s@.take(n as int));
    r
}

/// The first `n` digits of the digest of `data`.
pub fn short_hash(data: &[u8], n: usize) -> (r: String)
    requires
        n <= 64,
    ensures
        r@ == short_hex(data@, n as int),
        r@.len() == n,
        hex_text(r@),
{
    cut(hash(data).as_str(), n)
}

/// Appends bytes to a buffer.
pub fn push_bytes(out: &mut Vec<u8>, s: &[u8])
    ensures
        final(out)@ == old(out)@ + s@,
{
    for i in 0..s.len()
        invariant
            out@ == old(out)@ + s@.take(i as int),
    {
        out.push(s[i]);
        assert(s@.take(i + 1) =~= s@.take(i as int).push(s@[i as int]));
    }
    assert(s@.take(s@.len() as int) =~= s@);
}

/// A short digest is the beginning of the whole one.
pub proof fn short_digests_are_beginnings(data: Seq<u8>, n: int)
    requires
        0 <= n <= blake3_hex(data).len(),
    ensures
        short_hex(data, n).len() == n,
        short_hex(data, n).is_prefix_of(blake3_hex(data)),
{
    assert(blake3_hex(data).subrange(0, n) =~= short_hex(data, n));
}

} // verus!
