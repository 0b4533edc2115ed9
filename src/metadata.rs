//! The mutable part of a block: its votes and its notarization and
//! finalization flags.
use crate::crypto::now;
use crate::vote::Vote;
use std::time::Instant;
use vstd::prelude::*;

verus! {

/// Protocol bookkeeping attached to a block; not part of its identity.
#[derive(Debug)]
pub struct Metadata {
    /// Votes received for the block, without duplicates.
    pub votes: Vec<Vote>,
    /// Set once more than two thirds of the nodes voted for the block.
    pub notarized: bool,
    /// Set once the block joins the canonical chain.
    pub finalized: bool,
    /// When the block was created on this node.
    pub timestamp: Instant,
}

impl Metadata {
    /// No votes, neither notarized nor finalized.
    pub open spec fn is_fresh(&self) -> bool {
        &&& self.votes@.len() == 0
        &&& !self.notarized
        &&& !self.finalized
    }

    /// Metadata of a block that was just created.
    pub fn new() -> (r: Metadata)
        ensures
            r.is_fresh(),
    {
        Metadata { votes: Vec::new(), notarized: false, finalized: false, timestamp: now() }
    }
}

} // verus!
