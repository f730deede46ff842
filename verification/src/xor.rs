//! The byte-wise XOR transform.

use vstd::prelude::*;

verus! {

/// The byte-wise XOR of s with the single-byte key k.
pub open spec fn xor_seq(s: Seq<u8>, k: u8) -> Seq<u8> {
    s.map_values(|b: u8| b ^ k)
}

/// XOR every byte of data with key.
pub fn xor_transform(data: &Vec<u8>, key: u8) -> (r: Vec<u8>)
    ensures
        r@ == xor_seq(data@, key),
        r@.len() == data@.len(),
{
    let mut out: Vec<u8> = Vec::new();
    let mut i: usize = 0;
    while i < data.len()
        invariant
            i <= data@.len(),
            out@.len() == i,
            forall|j: int| 0 <= j < i ==> out@[j] == (data@[j] ^ key),
        decreases data@.len() - i,
    {
        let b = data[i];
        out.push(b ^ key);
        i = i + 1;
    }
    proof {
        assert(out@ =~= xor_seq(data@, key));
    }
    out
}

/// XOR with the same key is an involution: transforming twice restores the
/// input byte for byte.  A decoder relies on exactly this.
pub proof fn lemma_xor_involutive(s: Seq<u8>, k: u8)
    ensures
        xor_seq(xor_seq(s, k), k) == s,
{
    assert(forall|b: u8, key: u8| #[trigger] ((b ^ key) ^ key) == b) by (bit_vector);
    assert(xor_seq(xor_seq(s, k), k) =~= s);
}

} // verus!
