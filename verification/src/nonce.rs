use vstd::prelude::*;

verus! {

/// The nonce with every bit flipped: each byte XORed with `0xff`.
pub open spec fn complement(nonce: Seq<u8>) -> Seq<u8> {
    Seq::new(nonce.len(), |i: int| nonce[i] ^ 0xffu8)
}

/// Derives the write-direction nonce from the nonce that keys the read
/// direction.
pub fn complement_nonce(iv: [u8; 12]) -> (out: [u8; 12])
    ensures
        out@ == complement(iv@),
{
    let mut out: [u8; 12] = iv;
    let mut i: usize = 0;
    while i < 12
        invariant
            i <= 12,
            forall|j: int| 0 <= j < i ==> out@[j] == iv@[j] ^ 0xffu8,
            forall|j: int| i <= j < 12 ==> out@[j] == iv@[j],
        decreases 12 - i,
    {
        out[i] = out[i] ^ 0xff;
        i += 1;
    }
    assert(out@ =~= complement(iv@));
    out
}

/// Complementing twice gives the nonce back.
pub proof fn lemma_complement_involutive(nonce: Seq<u8>)
    ensures
        complement(complement(nonce)) == nonce,
{
    assert forall|i: int| 0 <= i < nonce.len() implies complement(complement(nonce))[i]
        == nonce[i] by {
        let b = nonce[i];
        assert((b ^ 0xffu8) ^ 0xffu8 == b) by (bit_vector);
    }
    assert(complement(complement(nonce)) =~= nonce);
}

/// The complement differs from the nonce in every byte, so the two
/// directions are never keyed with one nonce.
pub proof fn lemma_complement_differs(nonce: Seq<u8>)
    ensures
        complement(nonce).len() == nonce.len(),
        forall|i: int| 0 <= i < nonce.len() ==> #[trigger] complement(nonce)[i] != nonce[i],
        nonce.len() > 0 ==> complement(nonce) != nonce,
{
    assert forall|i: int| 0 <= i < nonce.len() implies #[trigger] complement(nonce)[i]
        != nonce[i] by {
        let b = nonce[i];
        assert(b ^ 0xffu8 != b) by (bit_vector);
    }
    if nonce.len() > 0 {
        assert(complement(nonce)[0] != nonce[0]);
    }
}

} // verus!
