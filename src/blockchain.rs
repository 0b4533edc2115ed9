//! An ordered sequence of blocks, root first and tip last.
use crate::block::Block;
use vstd::prelude::*;

verus! {

/// Each block names its predecessor's hash as parent and has a larger epoch.
pub open spec fn linked(blocks: Seq<Block>) -> bool {
    forall|i: int|
        0 < i < blocks.len() ==> (#[trigger] blocks[i]).h@ == blocks[i - 1].hash_spec()
            && blocks[i].e > blocks[i - 1].e
}

/// Every block is notarized.
pub open spec fn all_notarized(blocks: Seq<Block>) -> bool {
    forall|i: int| 0 <= i < blocks.len() ==> (#[trigger] blocks[i]).metadata.notarized
}

/// Same length and pairwise the same block identities.
pub open spec fn same_blocks(a: Seq<Block>, b: Seq<Block>) -> bool {
    &&& a.len() == b.len()
    &&& forall|i: int| 0 <= i < a.len() ==> (#[trigger] a[i]).same_identity(&b[i])
}

#[derive(Debug)]
pub struct Blockchain {
    pub blocks: Vec<Block>,
}

impl Blockchain {
    /// Non-empty and linked.
    pub open spec fn wf(&self) -> bool {
        &&& self.blocks@.len() > 0
        &&& linked(self.blocks@)
    }

    /// The last block.
    pub open spec fn tip_spec(&self) -> Block {
        self.blocks@.last()
    }

    /// The first block.
    pub open spec fn root_spec(&self) -> Block {
        self.blocks@[0]
    }

    /// A chain holding `init_block` alone.
    pub fn new(init_block: Block) -> (r: Blockchain)
        ensures
            r.blocks@ == seq![init_block],
            r.wf(),
    {
        let mut blocks: Vec<Block> = Vec::new();
        blocks.push(init_block);
        Blockchain { blocks }
    }

    /// Appends `block` as the new tip; the caller has checked that it links.
    pub fn add_block(&mut self, block: Block)
        ensures
            final(self).blocks@ == old(self).blocks@.push(block),
    {
        self.blocks.push(block);
    }

    /// Whether every block is notarized.
    pub fn is_notarized(&self) -> (r: bool)
        ensures
            r == all_notarized(self.blocks@),
    {
        let mut i: usize = 0;
        while i < self.blocks.len()
            invariant
                0 <= i <= self.blocks@.len(),
                forall|j: int| 0 <= j < i ==> (#[trigger] self.blocks@[j]).metadata.notarized,
            decreases self.blocks@.len() - i,
        {
            if !self.blocks[i].metadata.notarized {
                return false;
            }
            i = i + 1;
        }
        true
    }

    pub fn tip(&self) -> (r: &Block)
        requires
            self.blocks@.len() > 0,
        ensures
            *r == self.tip_spec(),
    {
        &self.blocks[self.blocks.len() - 1]
    }

    pub fn root(&self) -> (r: &Block)
        requires
            self.blocks@.len() > 0,
        ensures
            *r == self.root_spec(),
    {
        &self.blocks[0]
    }

    /// Whether both chains hold the same blocks, by identity, in the same order.
    pub fn same_as(&self, o: &Blockchain) -> (r: bool)
        ensures
            r == same_blocks(self.blocks@, o.blocks@),
    {
        if self.blocks.len() != o.blocks.len() {
            return false;
        }
        let mut i: usize = 0;
        while i < self.blocks.len()
            invariant
                self.blocks@.len() == o.blocks@.len(),
                0 <= i <= self.blocks@.len(),
                forall|j: int| 0 <= j < i ==> (#[trigger] self.blocks@[j]).same_identity(&o.blocks@[j]),
            decreases self.blocks@.len() - i,
        {
            if !self.blocks[i].same_as(&o.blocks[i]) {
                return false;
            }
            i = i + 1;
        }
        true
    }
}

impl PartialEq for Blockchain {
    fn eq(&self, o: &Blockchain) -> (r: bool) {
        self.same_as(o)
    }
}

impl vstd::std_specs::cmp::PartialEqSpecImpl for Blockchain {
    open spec fn obeys_eq_spec() -> bool {
        true
    }

    open spec fn eq_spec(&self, o: &Blockchain) -> bool {
        same_blocks(self.blocks@, o.blocks@)
    }
}

} // verus!
