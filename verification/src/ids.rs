//! Peer and block identifiers: opaque byte strings compared by value.

use vstd::prelude::*;

verus! {

/// A peer identifier (public-key material).
pub type PeerId = Vec<u8>;

/// A block identifier.
pub type BlockId = Vec<u8>;

/// The part of a block that the consensus core reads.
pub struct Block {
    pub block_id: BlockId,
    pub block_num: u64,
    pub previous_id: BlockId,
}

/// Byte-string equality, by value.
pub fn bytes_eq(a: &Vec<u8>, b: &Vec<u8>) -> (r: bool)
    ensures
        r == (a@ == b@),
{
    if a.len() != b.len() {
        return false;
    }
    let mut i: usize = 0;
    while i < a.len()
        invariant
            i <= a@.len(),
            a@.len() == b@.len(),
            forall|m: int| 0 <= m < i ==> a@[m] == b@[m],
        decreases a@.len() - i,
    {
        if a[i] != b[i] {
            return false;
        }
        i += 1;
    }
    proof {
        assert(a@ =~= b@);
    }
    true
}

/// A copy of a byte string.
pub fn clone_bytes(v: &Vec<u8>) -> (r: Vec<u8>)
    ensures
        r@ == v@,
{
    let mut r: Vec<u8> = Vec::new();
    let mut i: usize = 0;
    while i < v.len()
        invariant
            i <= v@.len(),
            r@ == v@.take(i as int),
        decreases v@.len() - i,
    {
        r.push(v[i]);
        proof {
            assert(v@.take(i + 1) =~= v@.take(i as int).push(v@[i as int]));
        }
        i += 1;
    }
    proof {
        assert(v@.take(v@.len() as int) =~= v@);
    }
    r
}

/// A copy of a block.
pub fn clone_block(b: &Block) -> (r: Block)
    ensures
        r.block_id@ == b.block_id@,
        r.block_num == b.block_num,
        r.previous_id@ == b.previous_id@,
{
    Block {
        block_id: clone_bytes(&b.block_id),
        block_num: b.block_num,
        previous_id: clone_bytes(&b.previous_id),
    }
}

} // verus!
