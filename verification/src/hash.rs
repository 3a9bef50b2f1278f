//! The state fingerprint: BLAKE3 over the serialized books in market-id order.
use vstd::prelude::*;
use crate::wal::vec_views;

verus! {

/// The BLAKE3 digest of `data`.
pub uninterp spec fn blake3_digest(data: Seq<u8>) -> Seq<u8>;

/// Calls `blake3::hash` on the bytes; the result is the 32-byte digest of
/// exactly those bytes.
#[verifier::external_body]
fn blake3_hash(data: &[u8]) -> (res: [u8; 32])
    ensures
        res@ == blake3_digest(data@),
{
    *blake3::hash(data).as_bytes()
}

/// The byte strings one after another.
pub open spec fn concat(parts: Seq<Seq<u8>>) -> Seq<u8>
    decreases parts.len(),
{
    if parts.len() == 0 {
        seq![]
    } else {
        concat(parts.drop_last()) + parts.last()
    }
}

/// Fingerprint of a registry from its books serialized in market-id order:
/// the digest of their concatenation.
pub fn state_hash(parts: &Vec<Vec<u8>>) -> (res: [u8; 32])
    ensures
        res@ == blake3_digest(concat(vec_views(parts@))),
{
    let mut all: Vec<u8> = Vec::new();
    let mut i: usize = 0;
    let ghost ps = vec_views(parts@);
    assert(ps.subrange(0, 0) =~= Seq::<Seq<u8>>::empty());
    while i < parts.len()
        invariant
            i <= parts@.len(),
            ps == vec_views(parts@),
            all@ == concat(ps.subrange(0, i as int)),
        decreases parts@.len() - i,
    {
        let p = &parts[i];
        let mut j: usize = 0;
        let ghost base = all@;
        while j < p.len()
            invariant
                j <= p@.len(),
                all@ == base + p@.subrange(0, j as int),
            decreases p@.len() - j,
        {
            all.push(p[j]);
            j = j + 1;
            assert(all@ =~= base + p@.subrange(0, j as int));
        }
        assert(p@.subrange(0, p@.len() as int) =~= p@);
        assert(ps.subrange(0, i + 1).drop_last() =~= ps.subrange(0, i as int));
        assert(ps[i as int] == p@);
        i = i + 1;
    }
    assert(ps.subrange(0, parts@.len() as int) =~= ps);
    blake3_hash(all.as_slice())
}

} // verus!
