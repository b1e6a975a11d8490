//! Content digests: SHA-256 through the sha2 crate, with verified hex
//! encoding.  Digests key the chunk cache, so identical extracted text
//! shares cached work.

use vstd::prelude::*;

verus! {

/// The SHA-256 digest of a byte sequence, as the sha2 crate computes
/// it: a function of the input bytes alone.
pub uninterp spec fn sha256_of(data: Seq<u8>) -> Seq<u8>;

/// Relies on sha2::Sha256 (the Digest::digest associated function):
/// returns the SHA-256 digest of the input, which is 32 bytes long and
/// depends on the input bytes alone.
#[verifier::external_body]
pub(crate) fn sha256_digest(data: &[u8]) -> (r: Vec<u8>)
    ensures
        r@ == sha256_of(data@),
        r@.len() == 32,
{
    <sha2::Sha256 as sha2::Digest>::digest(data).to_vec()
}

/// The lower-case hex digit for a value below 16.
pub open spec fn hex_digit(n: int) -> u8 {
    if n < 10 {
        (48 + n) as u8
    } else {
        (87 + n) as u8
    }
}

/// The lower-case hex encoding of a byte sequence, two digits per
/// byte, most significant digit first.
pub open spec fn spec_hex(d: Seq<u8>) -> Seq<u8>
    decreases d.len(),
{
    if d.len() == 0 {
        Seq::empty()
    } else {
        spec_hex(d.drop_last()) + seq![
            hex_digit((d.last() as int) / 16),
            hex_digit((d.last() as int) % 16),
        ]
    }
}

/// Hex encoding doubles the length.
pub proof fn lemma_spec_hex_len(d: Seq<u8>)
    ensures
        spec_hex(d).len() == 2 * d.len(),
    decreases d.len(),
{
    if d.len() > 0 {
        lemma_spec_hex_len(d.drop_last());
    }
}

fn hex_digit_byte(n: u8) -> (r: u8)
    requires
        n < 16,
    ensures
        r == hex_digit(n as int),
{
    if n < 10 {
        48 + n
    } else {
        87 + n
    }
}

/// Encodes bytes as lower-case hex.
pub fn to_hex(d: &Vec<u8>) -> (r: Vec<u8>)
    ensures
        r@ == spec_hex(d@),
{
    let mut r: Vec<u8> = Vec::new();
    let mut i: usize = 0;
    proof {
        assert(d@.take(0) =~= Seq::<u8>::empty());
    }
    while i < d.len()
        invariant
            i <= d@.len(),
            r@ == spec_hex(d@.take(i as int)),
        decreases d@.len() - i,
    {
        let b = d[i];
        r.push(hex_digit_byte(b / 16));
        r.push(hex_digit_byte(b % 16));
        proof {
            assert(d@.take(i + 1).drop_last() =~= d@.take(i as int));
            assert(d@.take(i + 1).last() == d@[i as int]);
            assert(r@ =~= spec_hex(d@.take(i as int)) + seq![
                hex_digit((b as int) / 16),
                hex_digit((b as int) % 16),
            ]);
        }
        i = i + 1;
    }
    proof {
        assert(d@.take(d@.len() as int) =~= d@);
    }
    r
}

/// The lower-case hex SHA-256 digest of `content`: 64 hex digits.
pub fn hash_content(content: &[u8]) -> (r: Vec<u8>)
    ensures
        r@ == spec_hex(sha256_of(content@)),
        r@.len() == 64,
{
    let d = sha256_digest(content);
    proof {
        lemma_spec_hex_len(d@);
    }
    to_hex(&d)
}

} // verus!
