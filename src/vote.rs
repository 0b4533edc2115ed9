//! A signed endorsement of a block by a node.
use crate::block::Block;
use vstd::prelude::*;

verus! {

/// A tuple (signature, block, voter id).
#[derive(Debug)]
pub struct Vote {
    /// The voter's signature over the block's identity encoding.
    pub vote: Vec<u8>,
    /// The block voted for.
    pub block: Block,
    /// The voter's node id.
    pub id: u64,
}

/// Whether two byte strings are equal.
pub fn bytes_equal(a: &Vec<u8>, b: &Vec<u8>) -> (r: bool)
    ensures
        r == (a@ == b@),
{
    if a.len() != b.len() {
        return false;
    }
    let mut i: usize = 0;
    while i < a.len()
        invariant
            a@.len() == b@.len(),
            0 <= i <= a@.len(),
            forall|j: int| 0 <= j < i ==> a@[j] == b@[j],
        decreases a@.len() - i,
    {
        if a[i] != b[i] {
            return false;
        }
        i = i + 1;
    }
    assert(a@ =~= b@);
    true
}

impl Vote {
    /// Equality of votes: same signature, same block identity, same voter.
    pub open spec fn same_vote(&self, o: &Vote) -> bool {
        &&& self.vote@ == o.vote@
        &&& self.block.same_identity(&o.block)
        &&& self.id == o.id
    }

    pub fn new(vote: Vec<u8>, block: Block, id: u64) -> (r: Vote)
        ensures
            r.vote == vote,
            r.block == block,
            r.id == id,
    {
        Vote { vote, block, id }
    }

    /// An equal vote, carrying a copy of the block with fresh metadata.
    pub fn copy(&self) -> (r: Vote)
        ensures
            r.same_vote(self),
            r.block.metadata.is_fresh(),
    {
        Vote { vote: self.vote.clone(), block: self.block.copy_identity(), id: self.id }
    }

    /// Whether `self` and `o` are the same vote.
    pub fn same_as(&self, o: &Vote) -> (r: bool)
        ensures
            r == self.same_vote(o),
    {
        self.id == o.id && bytes_equal(&self.vote, &o.vote) && self.block.same_as(&o.block)
    }
}

impl PartialEq for Vote {
    fn eq(&self, o: &Vote) -> (r: bool) {
        self.same_as(o)
    }
}

impl vstd::std_specs::cmp::PartialEqSpecImpl for Vote {
    open spec fn obeys_eq_spec() -> bool {
        true
    }

    open spec fn eq_spec(&self, o: &Vote) -> bool {
        self.same_vote(o)
    }
}

} // verus!
