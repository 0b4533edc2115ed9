//! Properties every well-formed node has, and that its entry points keep.
use crate::blockchain::linked;
use crate::block::Block;
use crate::node::{
    lemma_location_after_record, recorded_then_finalized, vote_recorded_in, lemma_last_pos,
    lemma_location_fork, finalize_count, moved_and_pruned, votes_contain, block_at, chain_has_block, extends_tip, first_extended, lemma_linked_epochs, quorum_spec,
    vote_applied, vote_block_post, vote_recorded, votes_distinct, ChainIndex, Node, NodeError,
};
use crate::vote::Vote;
use vstd::prelude::*;

verus! {

/// If the canonical chain only grew, keeping the identities of its blocks,
/// its tip's epoch did not decrease. `Node::apply_vote` ensures that growth;
/// the other entry points leave the canonical chain as it was.
pub proof fn canonical_tip_epoch_monotonic(before: Node, after: Node)
    requires
        before.wf(),
        after.wf(),
        after.canonical_blockchain.blocks@.len() >= before.canonical_blockchain.blocks@.len(),
        forall|i: int|
            0 <= i < before.canonical_blockchain.blocks@.len() ==> (
            #[trigger] after.canonical_blockchain.blocks@[i]).same_identity(
                &before.canonical_blockchain.blocks@[i],
            ),
    ensures
        after.canonical_blockchain.tip_spec().e >= before.canonical_blockchain.tip_spec().e,
{
    let ob = before.canonical_blockchain.blocks@;
    let nb = after.canonical_blockchain.blocks@;
    assert(nb[ob.len() - 1].same_identity(&ob[ob.len() - 1]));
    lemma_linked_epochs(nb, ob.len() - 1, nb.len() - 1);
}

/// In a well-formed node every finalized block is notarized.
pub proof fn finalized_implies_notarized(n: Node)
    requires
        n.wf(),
    ensures
        forall|k: int|
            0 <= k < n.canonical_blockchain.blocks@.len() ==> (#[trigger] n.canonical_blockchain.blocks@[k]).metadata.finalized
                ==> n.canonical_blockchain.blocks@[k].metadata.notarized,
        forall|f: int, k: int|
            0 <= f < n.node_blockchains@.len() && 0 <= k < n.node_blockchains@[f].blocks@.len() ==> (
            #[trigger] n.node_blockchains@[f].blocks@[k]).metadata.finalized
                ==> n.node_blockchains@[f].blocks@[k].metadata.notarized,
{
    assert forall|f: int, k: int|
        0 <= f < n.node_blockchains@.len() && 0 <= k < n.node_blockchains@[f].blocks@.len() implies !(
        #[trigger] n.node_blockchains@[f].blocks@[k]).metadata.finalized by {
        assert(crate::node::fork_ok(n.node_blockchains@[f], n.canonical_blockchain.tip_spec()));
        assert(crate::node::fork_block_ok(n.node_blockchains@[f].blocks@[k]));
    }
    assert forall|k: int| 0 <= k < n.canonical_blockchain.blocks@.len() implies (
    #[trigger] n.canonical_blockchain.blocks@[k]).metadata.notarized by {
        assert(crate::node::canonical_block_ok(n.canonical_blockchain.blocks@[k]));
    }
}

/// In a well-formed node every chain is linked: each block names its
/// predecessor's hash as parent and has a larger epoch.
pub proof fn chains_are_linked(n: Node)
    requires
        n.wf(),
    ensures
        linked(n.canonical_blockchain.blocks@),
        forall|f: int| 0 <= f < n.node_blockchains@.len() ==> linked(#[trigger] n.node_blockchains@[f].blocks@),
{
    assert forall|f: int| 0 <= f < n.node_blockchains@.len() implies linked(
        #[trigger] n.node_blockchains@[f].blocks@) by {
        assert(crate::node::fork_ok(n.node_blockchains@[f], n.canonical_blockchain.tip_spec()));
    }
}

/// In a well-formed node no block holds two equal votes.
pub proof fn votes_never_repeat(n: Node)
    requires
        n.wf(),
    ensures
        forall|k: int|
            0 <= k < n.canonical_blockchain.blocks@.len() ==> votes_distinct(
                (#[trigger] n.canonical_blockchain.blocks@[k]).metadata.votes@,
            ),
        forall|f: int, k: int|
            0 <= f < n.node_blockchains@.len() && 0 <= k < n.node_blockchains@[f].blocks@.len()
                ==> votes_distinct((#[trigger] n.node_blockchains@[f].blocks@[k]).metadata.votes@),
{
    assert forall|f: int, k: int|
        0 <= f < n.node_blockchains@.len() && 0 <= k < n.node_blockchains@[f].blocks@.len() implies votes_distinct(
        (#[trigger] n.node_blockchains@[f].blocks@[k]).metadata.votes@) by {
        assert(crate::node::fork_ok(n.node_blockchains@[f], n.canonical_blockchain.tip_spec()));
        assert(crate::node::fork_block_ok(n.node_blockchains@[f].blocks@[k]));
    }
    assert forall|k: int| 0 <= k < n.canonical_blockchain.blocks@.len() implies votes_distinct(
        (#[trigger] n.canonical_blockchain.blocks@[k]).metadata.votes@) by {
        assert(crate::node::canonical_block_ok(n.canonical_blockchain.blocks@[k]));
    }
}

/// In a well-formed node the root of every fork may follow the canonical tip.
pub proof fn forks_extend_canonical_tip(n: Node)
    requires
        n.wf(),
    ensures
        forall|f: int|
            0 <= f < n.node_blockchains@.len() ==> extends_tip(
                (#[trigger] n.node_blockchains@[f]).root_spec(),
                n.canonical_blockchain.tip_spec(),
            ),
{
    assert forall|f: int| 0 <= f < n.node_blockchains@.len() implies extends_tip(
        (#[trigger] n.node_blockchains@[f]).root_spec(), n.canonical_blockchain.tip_spec()) by {
        assert(crate::node::fork_ok(n.node_blockchains@[f], n.canonical_blockchain.tip_spec()));
    }
}

/// Delivering the same proposed block twice: when the first delivery placed
/// it (or found it already held), the second abstains and changes nothing,
/// so no second fork appears.
pub proof fn redelivered_proposal_abstains(
    s0: Node,
    block: Block,
    s1: Node,
    r1: Result<Option<Vote>, NodeError>,
    s2: Node,
    r2: Result<Option<Vote>, NodeError>,
)
    requires
        s0.holds_block(block) || s0.extends_some_chain(block),
        vote_block_post(s0, block, s1, r1),
        vote_block_post(s1, block, s2, r2),
    ensures
        r2 == Ok::<Option<Vote>, NodeError>(None),
        s2 == s1,
{
    if !s0.holds_block(block) {
        let forks = s0.node_blockchains@;
        if exists|f: int| first_extended(forks, block, f) {
            let f = choose|f: int| first_extended(forks, block, f);
            let c = s1.node_blockchains@[f];
            let last = c.blocks@.len() - 1;
            assert(c.blocks@[last].same_identity(&block));
            assert(chain_has_block(c, block));
        } else {
            let c = s1.node_blockchains@.last();
            assert(c.blocks@[0].same_identity(&block));
            assert(chain_has_block(c, block));
            assert(chain_has_block(s1.node_blockchains@[s1.node_blockchains@.len() - 1], block));
        }
    }
}

/// Delivering the same vote twice, when the first delivery finalized
/// nothing: the second delivery changes nothing.
pub proof fn redelivered_vote_is_noop(s0: Node, vote: Vote, n: int, s1: Node, s2: Node)
    requires
        s0.wf(),
        s1.wf(),
        s0.node_blockchains@.len() <= usize::MAX,
        s0.location_of(vote.block) is Some,
        vote_applied(s0, vote, n, s1),
        s1.canonical_blockchain.blocks@.len() == s0.canonical_blockchain.blocks@.len(),
        vote_applied(s1, vote, n, s2),
    ensures
        s2 == s1,
{
    reveal(vote_applied);
    let (c, k) = s0.location_of(vote.block)->0;
    let q = quorum_spec(n);
    assert(recorded_then_finalized(s0, c, k, vote, q, s1));
    let mid = choose|mid: Node|
        #[trigger] vote_recorded_in(s0, c, k, vote, q, mid) && if !block_at(s0, c, k).metadata.notarized
            && block_at(mid, c, k).metadata.notarized {
            crate::node::finalized_post(mid, c, s1)
        } else {
            s1 == mid
        };
    let b = vote.block;
    match c {
        ChainIndex::Canonical => {
            let cb = s0.canonical_blockchain.blocks@;
            lemma_last_pos(cb, b, cb.len() as int);
            assert(s1 == mid);
        },
        ChainIndex::Fork(f) => {
            lemma_location_fork(s0, b, f, k);
            let fb = s0.node_blockchains@[f as int].blocks@;
            lemma_last_pos(fb, b, fb.len() as int);
            if !block_at(s0, c, k).metadata.notarized && block_at(mid, c, k).metadata.notarized {
                let oc = mid.node_blockchains@[f as int].blocks@;
                if finalize_count(oc) > 0 {
                    assert(moved_and_pruned(mid, f as int, finalize_count(oc) as int, s1));
                    assert(false);
                }
            }
            assert(s1 == mid);
        },
    }
    lemma_location_after_record(s0, s1, c, k, b);
    let nb = block_at(s1, c, k);
    let ob = block_at(s0, c, k);
    if !votes_contain(ob.metadata.votes@, vote) {
        let last = nb.metadata.votes@.len() - 1;
        assert(nb.metadata.votes@[last].same_vote(&vote));
    }
    assert(vote_recorded(nb, vote, q));
    recorded_vote_redelivery_is_noop(s1, vote, n, c, k, s2);
}

/// Delivering a vote that the block it lands on already records (it holds
/// the vote and is notarized if past the quorum threshold) changes nothing.
pub proof fn recorded_vote_redelivery_is_noop(
    s1: Node,
    vote: Vote,
    n: int,
    c: ChainIndex,
    k: int,
    s2: Node,
)
    requires
        s1.location_of(vote.block) == Some((c, k)),
        vote_recorded(block_at(s1, c, k), vote, quorum_spec(n)),
        vote_applied(s1, vote, n, s2),
    ensures
        s2 == s1,
{
    reveal(vote_applied);
}

} // verus!
