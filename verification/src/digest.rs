use vstd::prelude::*;

verus! {

/// The BLAKE3 digest of `data` as 64 lowercase hex digits; a function of the bytes alone.
pub uninterp spec fn blake3_hex_of(data: Seq<u8>) -> Seq<char>;

/// `blake3::hash(data)` rendered by `Hash::to_hex`.
#[verifier::external_body]
pub(crate) fn blake3_hex(data: &[u8]) -> (r: String)
    ensures
        r@ == blake3_hex_of(data@),
{
    blake3::hash(data).to_hex().to_string()
}

} // verus!
