//! A protocol node: its chains, its transaction pool and the protocol entry points.
use crate::block::Block;
use crate::blockchain::{all_notarized, linked, Blockchain};
use crate::crypto::{
    elapsed_secs, generate_keypair, public_key_der, rsa_sha256_verifies, sha256, sha256_of, sign, verify,
};
use crate::encoding::{be_bytes, push_be_bytes};
use crate::vote::Vote;
use openssl::pkey::{PKey, Private};
use std::time::Instant;
use vstd::prelude::*;

verus! {

/// Half an epoch, in seconds.
pub const DELTA: u64 = 5;

/// Why a node refuses a message, or could not act.
#[derive(Debug, Clone, Copy, PartialEq, Eq, Structural)]
pub enum NodeError {
    /// The proposer is not the leader of the epoch.
    WrongLeader,
    /// A signature does not verify against the given key.
    BadSignature,
    /// A proposed block extends no chain the node holds.
    UnknownParent,
    /// A vote names a block the node does not hold.
    UnknownBlock,
    /// The signing library failed.
    CryptoFailure,
}

/// Where a chain stands in a node: the canonical chain, or a fork by position.
#[derive(Debug, Clone, Copy, PartialEq, Eq, Structural)]
pub enum ChainIndex {
    Canonical,
    Fork(usize),
}

/// `b` may follow `tip`: it names `tip`'s hash as parent and has a larger epoch.
pub open spec fn extends_tip(b: Block, tip: Block) -> bool {
    b.h@ == tip.hash_spec() && b.e > tip.e
}

/// No two votes of the list are equal.
pub open spec fn votes_distinct(v: Seq<Vote>) -> bool {
    forall|i: int, j: int|
        #![trigger v[i], v[j]]
        0 <= i < j < v.len() ==> !v[i].same_vote(&v[j])
}

/// A block of the canonical chain: notarized, finalized, votes without duplicates.
pub open spec fn canonical_block_ok(b: Block) -> bool {
    &&& b.metadata.notarized
    &&& b.metadata.finalized
    &&& votes_distinct(b.metadata.votes@)
}

/// A block of a fork chain: not finalized, votes without duplicates.
pub open spec fn fork_block_ok(b: Block) -> bool {
    &&& !b.metadata.finalized
    &&& votes_distinct(b.metadata.votes@)
}

/// A fork chain: non-empty, linked, rooted on `tip`, none of its blocks finalized.
pub open spec fn fork_ok(c: Blockchain, tip: Block) -> bool {
    &&& c.wf()
    &&& extends_tip(c.root_spec(), tip)
    &&& forall|k: int| 0 <= k < c.blocks@.len() ==> #[trigger] fork_block_ok(c.blocks@[k])
}

/// `t` is one of the block's transactions.
pub open spec fn block_has_tx(b: Block, t: Seq<char>) -> bool {
    b.txs.deep_view().contains(t)
}

/// `t` is a transaction of some block of the chain.
pub open spec fn chain_has_tx(c: Blockchain, t: Seq<char>) -> bool {
    exists|k: int| 0 <= k < c.blocks@.len() && #[trigger] block_has_tx(c.blocks@[k], t)
}

/// The number of blocks of the fork at `p`, or zero for no fork (`p < 0`).
pub open spec fn len_at(forks: Seq<Blockchain>, p: int) -> int {
    if p < 0 {
        0
    } else {
        forks[p].blocks@.len() as int
    }
}

/// Among the first `n` forks, the position of the first of the longest fully
/// notarized ones, or -1 when none is notarized.
pub open spec fn longest_upto(forks: Seq<Blockchain>, n: int) -> int
    decreases n,
{
    if n <= 0 {
        -1
    } else {
        let p = longest_upto(forks, n - 1);
        if all_notarized(forks[n - 1].blocks@) && forks[n - 1].blocks@.len() > len_at(forks, p) {
            n - 1
        } else {
            p
        }
    }
}

/// The position chosen among the first `n` forks is -1 or one of them.
pub proof fn lemma_longest_upto_bounds(forks: Seq<Blockchain>, n: int)
    requires
        0 <= n,
    ensures
        -1 <= longest_upto(forks, n) < n,
    decreases n,
{
    if n > 0 {
        lemma_longest_upto_bounds(forks, n - 1);
    }
}

/// Appending a block that may follow the tip keeps a chain linked.
pub proof fn lemma_linked_push(bs: Seq<Block>, b: Block)
    requires
        linked(bs),
        bs.len() > 0,
        extends_tip(b, bs.last()),
    ensures
        linked(bs.push(b)),
{
    let n = bs.push(b);
    assert forall|i: int| 0 < i < n.len() implies (#[trigger] n[i]).h@ == n[i - 1].hash_spec() && n[i].e
        > n[i - 1].e by {
        if i < bs.len() {
            assert(n[i] == bs[i]);
        }
        assert(n[i - 1] == bs[i - 1]);
    }
}

/// A contiguous part of a linked chain is linked.
pub proof fn lemma_linked_subrange(bs: Seq<Block>, lo: int, hi: int)
    requires
        linked(bs),
        0 <= lo <= hi <= bs.len(),
    ensures
        linked(bs.subrange(lo, hi)),
{
    let s = bs.subrange(lo, hi);
    assert forall|i: int| 0 < i < s.len() implies (#[trigger] s[i]).h@ == s[i - 1].hash_spec() && s[i].e
        > s[i - 1].e by {
        assert(s[i] == bs[lo + i]);
        assert(s[i - 1] == bs[lo + i - 1]);
    }
}

/// Whether some block of `blocks` from position `from` on contains `t`.
pub fn blocks_hold_tx(blocks: &Vec<Block>, from: usize, t: &String) -> (r: bool)
    requires
        from <= blocks@.len(),
    ensures
        r == blocks_have_tx(blocks@.subrange(from as int, blocks@.len() as int), t@),
{
    let ghost tail = blocks@.subrange(from as int, blocks@.len() as int);
    let mut k: usize = from;
    while k < blocks.len()
        invariant
            from <= k <= blocks@.len(),
            tail == blocks@.subrange(from as int, blocks@.len() as int),
            forall|j: int| 0 <= j < k - from ==> !#[trigger] block_has_tx(tail[j], t@),
        decreases blocks@.len() - k,
    {
        if contains_string(&blocks[k].txs, t) {
            assert(tail[k - from] == blocks@[k as int]);
            assert(block_has_tx(tail[k - from], t@));
            return true;
        }
        assert(tail[k - from] == blocks@[k as int]);
        k = k + 1;
    }
    false
}

/// Whether a list of strings holds `t`.
pub fn contains_string(v: &Vec<String>, t: &String) -> (r: bool)
    ensures
        r == v.deep_view().contains(t@),
{
    let mut i: usize = 0;
    while i < v.len()
        invariant
            0 <= i <= v@.len(),
            forall|j: int| 0 <= j < i ==> v.deep_view()[j] != t@,
        decreases v@.len() - i,
    {
        if v[i] == *t {
            assert(v.deep_view()[i as int] == t@);
            return true;
        }
        i = i + 1;
    }
    false
}

/// Whether some block of the chain holds `t`.
pub fn chain_holds(c: &Blockchain, t: &String) -> (r: bool)
    ensures
        r == chain_has_tx(*c, t@),
{
    let mut k: usize = 0;
    while k < c.blocks.len()
        invariant
            0 <= k <= c.blocks@.len(),
            forall|j: int| 0 <= j < k ==> !#[trigger] block_has_tx(c.blocks@[j], t@),
        decreases c.blocks@.len() - k,
    {
        if contains_string(&c.blocks[k].txs, t) {
            assert(block_has_tx(c.blocks@[k as int], t@));
            return true;
        }
        k = k + 1;
    }
    false
}

/// Some block of the chain has the identity of `b`.
pub open spec fn chain_has_block(c: Blockchain, b: Block) -> bool {
    exists|k: int| 0 <= k < c.blocks@.len() && (#[trigger] c.blocks@[k]).same_identity(&b)
}

/// `b` may follow the tip of fork `f`.
pub open spec fn extends_fork(forks: Seq<Blockchain>, f: int, b: Block) -> bool {
    extends_tip(b, forks[f].tip_spec())
}

/// Fork `f` is the first fork whose tip `b` may follow.
pub open spec fn first_extended(forks: Seq<Blockchain>, b: Block, f: int) -> bool {
    &&& 0 <= f < forks.len()
    &&& extends_fork(forks, f, b)
    &&& forall|j: int| 0 <= j < f ==> !#[trigger] extends_fork(forks, j, b)
}

/// `new` is `old` with `block`, under fresh metadata, appended to fork `f`.
pub open spec fn fork_grown(old: Node, new: Node, f: int, block: Block) -> bool {
    let forks = old.node_blockchains@;
    let nforks = new.node_blockchains@;
    &&& nforks.len() == forks.len()
    &&& forall|j: int| 0 <= j < forks.len() && j != f ==> #[trigger] nforks[j] == forks[j]
    &&& nforks[f].blocks@.drop_last() == forks[f].blocks@
    &&& nforks[f].blocks@.len() == forks[f].blocks@.len() + 1
    &&& nforks[f].blocks@.last().same_identity(&block)
    &&& nforks[f].blocks@.last().metadata.is_fresh()
}

/// `new` is `old` with a new fork holding `block`, under fresh metadata, alone.
pub open spec fn fork_added(old: Node, new: Node, block: Block) -> bool {
    let forks = old.node_blockchains@;
    let nforks = new.node_blockchains@;
    &&& nforks.drop_last() == forks
    &&& nforks.len() == forks.len() + 1
    &&& nforks.last().blocks@.len() == 1
    &&& nforks.last().blocks@[0].same_identity(&block)
    &&& nforks.last().blocks@[0].metadata.is_fresh()
}

/// Everything but the forks is as it was.
pub open spec fn same_but_forks(old: Node, new: Node) -> bool {
    &&& new.id == old.id
    &&& new.keypair == old.keypair
    &&& new.genesis_time == old.genesis_time
    &&& new.canonical_blockchain == old.canonical_blockchain
    &&& new.unconfirmed_transactions == old.unconfirmed_transactions
}

/// What placing `block` does to a node that did not hold it: the block, with
/// fresh metadata, goes on the first fork whose tip it extends, else on a new
/// fork off the canonical tip; the node votes for it exactly when every block
/// before it on its chain is notarized (signing may still fail).
pub open spec fn placed(old: Node, block: Block, new: Node, r: Result<Option<Vote>, NodeError>) -> bool {
    let forks = old.node_blockchains@;
    &&& same_but_forks(old, new)
    &&& if exists|f: int| first_extended(forks, block, f) {
        let f = choose|f: int| first_extended(forks, block, f);
        &&& fork_grown(old, new, f, block)
        &&& (all_notarized(forks[f].blocks@) <==> r != Ok::<Option<Vote>, NodeError>(None))
    } else {
        &&& extends_tip(block, old.canonical_blockchain.tip_spec())
        &&& fork_added(old, new, block)
        &&& r != Ok::<Option<Vote>, NodeError>(None)
    }
    &&& r matches Ok(Some(v)) ==> v.block.same_identity(&block) && v.id == old.id
    &&& r matches Err(e) ==> e == NodeError::CryptoFailure
}

/// `vote.vote` is a signature of `vote.block`'s encoding under the public key `pk`.
pub open spec fn signed_by(pk: Seq<u8>, vote: Vote) -> bool {
    rsa_sha256_verifies(pk, vote.block.encoding(), vote.vote@)
}

/// The outcome of handling a proposal `vote` for `epoch` on a node in state
/// `old`: refused, unchanged, for a wrong leader, a bad signature or an unknown
/// parent, or when the signing library fails; otherwise as `vote_block`.
pub open spec fn proposal_handled(
    old: Node,
    pk: Seq<u8>,
    vote: Vote,
    nodes_count: u64,
    epoch: u64,
    new: Node,
    r: Result<Option<Vote>, NodeError>,
) -> bool {
    let leads = leader_spec(epoch, nodes_count) == vote.id;
    let known = old.holds_block(vote.block) || old.extends_some_chain(vote.block);
    &&& (r == Err::<Option<Vote>, NodeError>(NodeError::WrongLeader)) == !leads
    &&& r == Err::<Option<Vote>, NodeError>(NodeError::BadSignature) ==> leads && !signed_by(pk, vote)
    &&& r == Err::<Option<Vote>, NodeError>(NodeError::UnknownParent) ==> leads && signed_by(pk, vote) && !known
    &&& leads && signed_by(pk, vote) && !known ==> r == Err::<Option<Vote>, NodeError>(NodeError::UnknownParent)
        || r == Err::<Option<Vote>, NodeError>(NodeError::CryptoFailure)
    &&& r is Ok ==> leads && signed_by(pk, vote)
    &&& (r matches Err(e) ==> e == NodeError::CryptoFailure || new == old)
    &&& leads && signed_by(pk, vote) && known ==> (r == Err::<Option<Vote>, NodeError>(
        NodeError::CryptoFailure) && new == old) || vote_block_post(old, vote.block, new, r)
}

/// The outcome of `vote_block` on a node in state `old`.
pub open spec fn vote_block_post(old: Node, block: Block, new: Node, r: Result<Option<Vote>, NodeError>) -> bool {
    if old.holds_block(block) {
        r == Ok::<Option<Vote>, NodeError>(None) && new == old
    } else if !old.extends_some_chain(block) {
        r == Err::<Option<Vote>, NodeError>(NodeError::UnknownParent) && new == old
    } else {
        placed(old, block, new, r)
    }
}

/// Whether some block of the chain has the identity of `b`.
pub fn chain_holds_block(c: &Blockchain, b: &Block) -> (r: bool)
    ensures
        r == chain_has_block(*c, *b),
{
    let mut k: usize = 0;
    while k < c.blocks.len()
        invariant
            0 <= k <= c.blocks@.len(),
            forall|j: int| 0 <= j < k ==> !(#[trigger] c.blocks@[j]).same_identity(b),
        decreases c.blocks@.len() - k,
    {
        if c.blocks[k].same_as(b) {
            return true;
        }
        k = k + 1;
    }
    false
}

/// The number of notarized blocks at the start of `bs`, before the first that is not.
pub open spec fn leading_notarized(bs: Seq<Block>) -> nat
    decreases bs.len(),
{
    if bs.len() == 0 || !bs[0].metadata.notarized {
        0
    } else {
        1 + leading_notarized(bs.drop_first())
    }
}

/// How many blocks finalization moves off a fork: when the fork has more than
/// two blocks and its first `k > 2` blocks are notarized, the first `k - 1`.
pub open spec fn finalize_count(bs: Seq<Block>) -> nat {
    let k = leading_notarized(bs);
    if bs.len() > 2 && k > 2 {
        (k - 1) as nat
    } else {
        0
    }
}

/// A block moved onto the canonical chain: same identity and votes, now finalized.
pub open spec fn moved_block(n: Block, o: Block) -> bool {
    &&& n.same_identity(&o)
    &&& n.metadata.votes == o.metadata.votes
    &&& n.metadata.notarized == o.metadata.notarized
    &&& n.metadata.finalized
}

/// Some block of `bs` contains `t`.
pub open spec fn blocks_have_tx(bs: Seq<Block>, t: Seq<char>) -> bool {
    exists|i: int| 0 <= i < bs.len() && #[trigger] block_has_tx(bs[i], t)
}

/// The entries of `pool`, in order, that no block of `bs` contains.
pub open spec fn keep_unconfirmed(pool: Seq<Seq<char>>, bs: Seq<Block>) -> Seq<Seq<char>>
    decreases pool.len(),
{
    if pool.len() == 0 {
        Seq::empty()
    } else if blocks_have_tx(bs, pool.last()) {
        keep_unconfirmed(pool.drop_last(), bs)
    } else {
        keep_unconfirmed(pool.drop_last(), bs).push(pool.last())
    }
}

/// The block lists of the forks, in order.
pub open spec fn chain_views(forks: Seq<Blockchain>) -> Seq<Seq<Block>> {
    forks.map_values(|c: Blockchain| c.blocks@)
}

/// The block lists of `v`, in order, whose first block may follow `tip`.
pub open spec fn kept_views(v: Seq<Seq<Block>>, tip: Block) -> Seq<Seq<Block>>
    decreases v.len(),
{
    if v.len() == 0 {
        Seq::empty()
    } else if v.last().len() > 0 && extends_tip(v.last()[0], tip) {
        kept_views(v.drop_last(), tip).push(v.last())
    } else {
        kept_views(v.drop_last(), tip)
    }
}

/// What `keep_unconfirmed` keeps came from the pool and is in no block of `bs`.
pub proof fn lemma_keep_unconfirmed(pool: Seq<Seq<char>>, bs: Seq<Block>, t: Seq<char>)
    ensures
        keep_unconfirmed(pool, bs).contains(t) ==> pool.contains(t) && !blocks_have_tx(bs, t),
    decreases pool.len(),
{
    if pool.len() > 0 {
        lemma_keep_unconfirmed(pool.drop_last(), bs, t);
        let k = keep_unconfirmed(pool, bs);
        if k.contains(t) {
            let i = choose|i: int| 0 <= i < k.len() && k[i] == t;
            let p = keep_unconfirmed(pool.drop_last(), bs);
            if i < p.len() {
                assert(p[i] == t);
                let j = choose|j: int| 0 <= j < pool.drop_last().len() && pool.drop_last()[j] == t;
                assert(pool[j] == t);
            } else {
                assert(pool[pool.len() - 1] == t);
            }
        }
    }
}

/// What `kept_views` keeps is one of its input lists, and may follow `tip`.
pub proof fn lemma_kept_views_sound(v: Seq<Seq<Block>>, tip: Block, i: int)
    requires
        0 <= i < kept_views(v, tip).len(),
    ensures
        kept_views(v, tip)[i].len() > 0,
        extends_tip(kept_views(v, tip)[i][0], tip),
        exists|j: int| 0 <= j < v.len() && v[j] == kept_views(v, tip)[i],
    decreases v.len(),
{
    let p = kept_views(v.drop_last(), tip);
    if v.last().len() > 0 && extends_tip(v.last()[0], tip) {
        if i < p.len() {
            lemma_kept_views_sound(v.drop_last(), tip, i);
            let j = choose|j: int| 0 <= j < v.drop_last().len() && v.drop_last()[j] == p[i];
            assert(v[j] == kept_views(v, tip)[i]);
        } else {
            assert(v[v.len() - 1] == kept_views(v, tip)[i]);
        }
    } else {
        lemma_kept_views_sound(v.drop_last(), tip, i);
        let j = choose|j: int| 0 <= j < v.drop_last().len() && v.drop_last()[j] == p[i];
        assert(v[j] == kept_views(v, tip)[i]);
    }
}

/// Every input list that may follow `tip` is kept.
pub proof fn lemma_kept_views_complete(v: Seq<Seq<Block>>, tip: Block, j: int)
    requires
        0 <= j < v.len(),
        v[j].len() > 0,
        extends_tip(v[j][0], tip),
    ensures
        exists|i: int| 0 <= i < kept_views(v, tip).len() && kept_views(v, tip)[i] == v[j],
    decreases v.len(),
{
    let k = kept_views(v, tip);
    if j == v.len() - 1 {
        assert(k[k.len() - 1] == v[j]);
    } else {
        lemma_kept_views_complete(v.drop_last(), tip, j);
        let i = choose|i: int|
            0 <= i < kept_views(v.drop_last(), tip).len() && kept_views(v.drop_last(), tip)[i]
                == v.drop_last()[j];
        assert(k[i] == v[j]);
    }
}

/// `leading_notarized` is `k` when the first `k` blocks are notarized and the next is not.
pub proof fn lemma_leading_notarized(bs: Seq<Block>, k: int)
    requires
        0 <= k <= bs.len(),
        forall|i: int| 0 <= i < k ==> (#[trigger] bs[i]).metadata.notarized,
        k == bs.len() || !bs[k].metadata.notarized,
    ensures
        leading_notarized(bs) == k,
    decreases k,
{
    if k > 0 {
        let t = bs.drop_first();
        assert forall|i: int| 0 <= i < k - 1 implies (#[trigger] t[i]).metadata.notarized by {
            assert(t[i] == bs[i + 1]);
        }
        if k - 1 < t.len() {
            assert(t[k - 1] == bs[k]);
        }
        lemma_leading_notarized(t, k - 1);
    }
}

/// `new` is `old` after the first `m` blocks of fork `f` moved, finalized,
/// onto the canonical chain, their transactions left the pool, and the forks
/// were pruned against the new canonical tip.
pub open spec fn moved_and_pruned(old: Node, f: int, m: int, new: Node) -> bool {
    let oc = old.node_blockchains@[f].blocks@;
    let ol = old.canonical_blockchain.blocks@.len() as int;
    let nc = new.canonical_blockchain.blocks@;
    &&& new.id == old.id
    &&& new.keypair == old.keypair
    &&& new.genesis_time == old.genesis_time
    &&& nc.len() == ol + m
    &&& forall|i: int| 0 <= i < ol ==> #[trigger] nc[i] == old.canonical_blockchain.blocks@[i]
    &&& forall|i: int| 0 <= i < m ==> moved_block(#[trigger] nc[ol + i], oc[i])
    &&& new.unconfirmed_transactions.deep_view() == keep_unconfirmed(
        old.unconfirmed_transactions.deep_view(),
        nc.subrange(ol, nc.len() as int),
    )
    &&& chain_views(new.node_blockchains@) == kept_views(
        chain_views(old.node_blockchains@).update(f, oc.subrange(m, oc.len() as int)),
        new.canonical_blockchain.tip_spec(),
    )
    &&& exists|g: int|
        0 <= g < new.node_blockchains@.len() && #[trigger] new.node_blockchains@[g].blocks@
            == oc.subrange(m, oc.len() as int)
}

/// What `check_blockchain_finalization` does: on a fork whose first `k > 2`
/// blocks are notarized, the first `k - 1` move, finalized, onto the
/// canonical chain, their transactions leave the pool, and every fork whose
/// root may not follow the new canonical tip is dropped. Otherwise nothing changes.
pub open spec fn finalized_post(old: Node, index: ChainIndex, new: Node) -> bool {
    match index {
        ChainIndex::Canonical => new == old,
        ChainIndex::Fork(f) => {
            let oc = old.node_blockchains@[f as int].blocks@;
            let m = finalize_count(oc) as int;
            let ol = old.canonical_blockchain.blocks@.len() as int;
            let nc = new.canonical_blockchain.blocks@;
            if m == 0 {
                new == old
            } else {
                moved_and_pruned(old, f as int, m, new)
            }
        },
    }
}

/// After finalization moved the first `m` blocks of fork `f` and pruned the
/// forks against the new canonical tip, every fork left is well formed and
/// rooted on that tip, and the rest of fork `f` is among them.
pub proof fn lemma_pruned_forks(pre: Node, fin: Node, f: int, m: int)
    requires
        pre.wf(),
        0 <= f < pre.node_blockchains@.len(),
        0 < m < pre.node_blockchains@[f].blocks@.len(),
        fin.canonical_blockchain.blocks@.len() > 0,
        extends_tip(pre.node_blockchains@[f].blocks@[m], fin.canonical_blockchain.tip_spec()),
        chain_views(fin.node_blockchains@) == kept_views(
            chain_views(pre.node_blockchains@).update(
                f,
                pre.node_blockchains@[f].blocks@.subrange(m, pre.node_blockchains@[f].blocks@.len() as int),
            ),
            fin.canonical_blockchain.tip_spec(),
        ),
    ensures
        forall|g: int|
            0 <= g < fin.node_blockchains@.len() ==> #[trigger] fork_ok(
                fin.node_blockchains@[g],
                fin.canonical_blockchain.tip_spec(),
            ),
        exists|g: int|
            0 <= g < fin.node_blockchains@.len() && #[trigger] fin.node_blockchains@[g].blocks@
                == pre.node_blockchains@[f].blocks@.subrange(m, pre.node_blockchains@[f].blocks@.len() as int),
{
    let oc = pre.node_blockchains@[f].blocks@;
    let rest = oc.subrange(m, oc.len() as int);
    let tip = fin.canonical_blockchain.tip_spec();
    let mv = chain_views(pre.node_blockchains@).update(f, rest);
    let kv = kept_views(mv, tip);
    assert forall|g: int| 0 <= g < fin.node_blockchains@.len() implies #[trigger] fork_ok(
        fin.node_blockchains@[g], tip) by {
        let c = fin.node_blockchains@[g];
        assert(chain_views(fin.node_blockchains@)[g] == c.blocks@);
        lemma_kept_views_sound(mv, tip, g);
        let j = choose|j: int| 0 <= j < mv.len() && mv[j] == kv[g];
        if j == f {
            assert(fork_ok(pre.node_blockchains@[f], pre.canonical_blockchain.tip_spec()));
            lemma_linked_subrange(oc, m, oc.len() as int);
            assert forall|i: int| 0 <= i < c.blocks@.len() implies #[trigger] fork_block_ok(c.blocks@[i]) by {
                assert(c.blocks@[i] == oc[m + i]);
            }
        } else {
            assert(mv[j] == pre.node_blockchains@[j].blocks@);
            assert(fork_ok(pre.node_blockchains@[j], pre.canonical_blockchain.tip_spec()));
        }
    }
    assert(mv[f] == rest);
    assert(rest[0] == oc[m]);
    lemma_kept_views_complete(mv, tip, f);
    let i = choose|i: int| 0 <= i < kv.len() && kv[i] == mv[f];
    assert(chain_views(fin.node_blockchains@)[i] == fin.node_blockchains@[i].blocks@);
}

/// The three steps of finalizing fork `f` (moving its first `m` blocks, then
/// dropping their transactions, then pruning) together keep the node's
/// invariant and do what `moved_and_pruned` says.
#[verifier::spinoff_prover]
#[verifier::rlimit(100)]
pub proof fn lemma_finalize_fork(pre: Node, mid: Node, mid2: Node, fin: Node, f: int, m: int)
    requires
        pre.wf(),
        0 <= f < pre.node_blockchains@.len(),
        0 < m < pre.node_blockchains@[f].blocks@.len(),
        mid.id == pre.id,
        mid.keypair == pre.keypair,
        mid.genesis_time == pre.genesis_time,
        mid.unconfirmed_transactions == pre.unconfirmed_transactions,
        mid.node_blockchains@.len() == pre.node_blockchains@.len(),
        forall|g: int|
            0 <= g < pre.node_blockchains@.len() && g != f ==> #[trigger] mid.node_blockchains@[g]
                == pre.node_blockchains@[g],
        mid.node_blockchains@[f].blocks@ == pre.node_blockchains@[f].blocks@.subrange(
            m,
            pre.node_blockchains@[f].blocks@.len() as int,
        ),
        mid.canonical_blockchain.blocks@.len() == pre.canonical_blockchain.blocks@.len() + m,
        forall|i: int|
            0 <= i < pre.canonical_blockchain.blocks@.len() ==> #[trigger] mid.canonical_blockchain.blocks@[i]
                == pre.canonical_blockchain.blocks@[i],
        forall|i: int|
            0 <= i < m ==> moved_block(
                #[trigger] mid.canonical_blockchain.blocks@[pre.canonical_blockchain.blocks@.len() + i],
                pre.node_blockchains@[f].blocks@[i],
            ),
        mid.canonical_blockchain.wf(),
        forall|k: int|
            0 <= k < mid.canonical_blockchain.blocks@.len() ==> #[trigger] canonical_block_ok(
                mid.canonical_blockchain.blocks@[k],
            ),
        extends_tip(mid.node_blockchains@[f].blocks@[0], mid.canonical_blockchain.tip_spec()),
        mid2.id == mid.id,
        mid2.keypair == mid.keypair,
        mid2.genesis_time == mid.genesis_time,
        mid2.canonical_blockchain == mid.canonical_blockchain,
        mid2.node_blockchains == mid.node_blockchains,
        mid2.unconfirmed_transactions.deep_view() == keep_unconfirmed(
            mid.unconfirmed_transactions.deep_view(),
            mid.canonical_blockchain.blocks@.subrange(
                pre.canonical_blockchain.blocks@.len() as int,
                mid.canonical_blockchain.blocks@.len() as int,
            ),
        ),
        fin.id == mid2.id,
        fin.keypair == mid2.keypair,
        fin.genesis_time == mid2.genesis_time,
        fin.canonical_blockchain == mid2.canonical_blockchain,
        fin.unconfirmed_transactions == mid2.unconfirmed_transactions,
        chain_views(fin.node_blockchains@) == kept_views(
            chain_views(mid2.node_blockchains@),
            mid2.canonical_blockchain.tip_spec(),
        ),
    ensures
        fin.wf(),
        moved_and_pruned(pre, f, m, fin),
        forall|t: Seq<char>|
            blocks_have_tx(
                fin.canonical_blockchain.blocks@.subrange(
                    pre.canonical_blockchain.blocks@.len() as int,
                    fin.canonical_blockchain.blocks@.len() as int,
                ),
                t,
            ) ==> !#[trigger] fin.unconfirmed_transactions.deep_view().contains(t),
{
    let oc = pre.node_blockchains@[f].blocks@;
    let rest = oc.subrange(m, oc.len() as int);
    let ol = pre.canonical_blockchain.blocks@.len() as int;
    let nc = fin.canonical_blockchain.blocks@;
    let mv = chain_views(mid.node_blockchains@);
    assert(mv =~= chain_views(pre.node_blockchains@).update(f, rest));
    assert(mid.node_blockchains@[f].blocks@[0] == oc[m]);
    lemma_pruned_forks(pre, fin, f, m);
    assert forall|t: Seq<char>| blocks_have_tx(nc.subrange(ol, nc.len() as int), t) implies
        !#[trigger] fin.unconfirmed_transactions.deep_view().contains(t) by {
        lemma_keep_unconfirmed(
            pre.unconfirmed_transactions.deep_view(),
            nc.subrange(ol, nc.len() as int),
            t,
        );
    }
}

/// `mid` is `old` with the block at position `k` of chain `c` replaced by one
/// of the same identity and finalization flag, whose votes are the old ones
/// plus `vote` when no equal vote was there, and which is notarized exactly
/// when it was or its votes exceed `q`.
pub open spec fn vote_recorded_in(old: Node, c: ChainIndex, k: int, vote: Vote, q: int, mid: Node) -> bool {
    let ob = block_at(old, c, k);
    let nb = block_at(mid, c, k);
    &&& mid.id == old.id
    &&& mid.keypair == old.keypair
    &&& mid.genesis_time == old.genesis_time
    &&& mid.unconfirmed_transactions == old.unconfirmed_transactions
    &&& nb.h == ob.h
    &&& nb.e == ob.e
    &&& nb.txs == ob.txs
    &&& nb.metadata.finalized == ob.metadata.finalized
    &&& if votes_contain(ob.metadata.votes@, vote) {
        nb.metadata.votes == ob.metadata.votes
    } else {
        &&& nb.metadata.votes@.drop_last() == ob.metadata.votes@
        &&& nb.metadata.votes@.len() == ob.metadata.votes@.len() + 1
        &&& nb.metadata.votes@.last().same_vote(&vote)
    }
    &&& nb.metadata.notarized == (ob.metadata.notarized || nb.metadata.votes@.len() > q)
    &&& match c {
        ChainIndex::Canonical => {
            &&& mid.node_blockchains == old.node_blockchains
            &&& mid.canonical_blockchain.blocks@ == old.canonical_blockchain.blocks@.update(k, nb)
        },
        ChainIndex::Fork(f) => {
            &&& mid.canonical_blockchain == old.canonical_blockchain
            &&& mid.node_blockchains@.len() == old.node_blockchains@.len()
            &&& forall|g: int|
                0 <= g < old.node_blockchains@.len() && g != f ==> #[trigger] mid.node_blockchains@[g]
                    == old.node_blockchains@[g]
            &&& mid.node_blockchains@[f as int].blocks@ == old.node_blockchains@[f as int].blocks@.update(k, nb)
        },
    }
}

/// The vote is recorded on the block at position `k` of chain `c` (giving
/// some `mid`, see `vote_recorded_in`); if that notarized the block, its chain
/// is then finalized as `finalized_post` says; otherwise nothing else changes.
pub open spec fn recorded_then_finalized(old: Node, c: ChainIndex, k: int, vote: Vote, q: int, new: Node) -> bool {
    exists|mid: Node|
        #[trigger] vote_recorded_in(old, c, k, vote, q, mid) && if !block_at(old, c, k).metadata.notarized
            && block_at(mid, c, k).metadata.notarized {
            finalized_post(mid, c, new)
        } else {
            new == mid
        }
}

/// The outcome of `apply_vote(vote, n)` on a node in state `old` that holds
/// the vote's block. The vote is recorded on the block `location_of` names
/// (see `vote_recorded_in`); if that notarized the block, its chain is then
/// finalized as `finalized_post` says, and otherwise nothing else changes.
/// Consequences stated too: the block, wherever finalization moved it, holds
/// the vote and is notarized past the threshold; a vote that block already
/// held changes nothing once the block is notarized or below the threshold;
/// the canonical chain only grows; no transaction of a newly finalized block
/// stays in the pool.
#[verifier::opaque]
pub open spec fn vote_applied(old: Node, vote: Vote, n: int, new: Node) -> bool {
    let q = quorum_spec(n);
    let oc = old.canonical_blockchain.blocks@;
    let nc = new.canonical_blockchain.blocks@;
    &&& old.location_of(vote.block) matches Some((c, k)) ==> recorded_then_finalized(old, c, k, vote, q, new)
    &&& exists|c: ChainIndex, k: int| is_loc(new, c, k) && #[trigger] vote_recorded(block_at(new, c, k), vote, q)
    &&& old.location_of(vote.block) matches Some((c, k)) ==> (votes_contain(
        block_at(old, c, k).metadata.votes@,
        vote,
    ) && (block_at(old, c, k).metadata.notarized || block_at(old, c, k).metadata.votes@.len() <= q)
        ==> new == old)
    &&& nc.len() >= oc.len()
    &&& forall|i: int| 0 <= i < oc.len() ==> (#[trigger] nc[i]).same_identity(&oc[i])
    &&& forall|t: Seq<char>|
        blocks_have_tx(nc.subrange(oc.len() as int, nc.len() as int), t)
            ==> !#[trigger] new.unconfirmed_transactions.deep_view().contains(t)
}

/// Some vote of the list equals `x`.
pub open spec fn votes_contain(v: Seq<Vote>, x: Vote) -> bool {
    exists|j: int| 0 <= j < v.len() && (#[trigger] v[j]).same_vote(&x)
}

/// More than two thirds of `n`, rounded down: a block with more votes than
/// this is notarized.
pub open spec fn quorum_spec(n: int) -> int {
    (2 * n) / 3
}

/// `b` is the block voted for, holds the vote, and is notarized if its votes
/// exceed the quorum threshold `q`.
pub open spec fn vote_recorded(b: Block, vote: Vote, q: int) -> bool {
    &&& b.same_identity(&vote.block)
    &&& votes_contain(b.metadata.votes@, vote)
    &&& b.metadata.votes@.len() > q ==> b.metadata.notarized
}

/// The last position among the first `n` blocks with the identity of `b`, or -1.
pub open spec fn last_pos(bs: Seq<Block>, b: Block, n: int) -> int
    decreases n,
{
    if n <= 0 {
        -1
    } else if bs[n - 1].same_identity(&b) {
        n - 1
    } else {
        last_pos(bs, b, n - 1)
    }
}

/// The position nearest the tip of a block of `c` with the identity of `b`, or -1.
pub open spec fn pos_in(c: Blockchain, b: Block) -> int {
    last_pos(c.blocks@, b, c.blocks@.len() as int)
}

/// Fork `f` is the first fork holding a block with the identity of `b`.
pub open spec fn first_holding(forks: Seq<Blockchain>, b: Block, f: int) -> bool {
    &&& 0 <= f < forks.len()
    &&& pos_in(forks[f], b) >= 0
    &&& forall|j: int| 0 <= j < f ==> #[trigger] pos_in(forks[j], b) < 0
}

/// The block at position `k` of the chain `c` of `n`.
pub open spec fn block_at(n: Node, c: ChainIndex, k: int) -> Block {
    match c {
        ChainIndex::Canonical => n.canonical_blockchain.blocks@[k],
        ChainIndex::Fork(f) => n.node_blockchains@[f as int].blocks@[k],
    }
}

/// Position `k` of chain `c` exists in `n`.
pub open spec fn is_loc(n: Node, c: ChainIndex, k: int) -> bool {
    &&& 0 <= k
    &&& match c {
        ChainIndex::Canonical => k < n.canonical_blockchain.blocks@.len(),
        ChainIndex::Fork(f) => f < n.node_blockchains@.len() && k < n.node_blockchains@[f as int].blocks@.len(),
    }
}

/// `last_pos` is -1 or a position below `n` holding a block with `b`'s identity,
/// and -1 only when no such position exists.
pub proof fn lemma_last_pos(bs: Seq<Block>, b: Block, n: int)
    requires
        0 <= n <= bs.len(),
    ensures
        -1 <= last_pos(bs, b, n) < n,
        last_pos(bs, b, n) >= 0 ==> bs[last_pos(bs, b, n)].same_identity(&b),
        last_pos(bs, b, n) < 0 ==> forall|i: int| 0 <= i < n ==> !(#[trigger] bs[i]).same_identity(&b),
    decreases n,
{
    if n > 0 {
        lemma_last_pos(bs, b, n - 1);
    }
}

/// Replacing a block by one of the same identity keeps a chain linked.
pub proof fn lemma_linked_update(bs: Seq<Block>, k: int, nb: Block)
    requires
        linked(bs),
        0 <= k < bs.len(),
        nb.same_identity(&bs[k]),
    ensures
        linked(bs.update(k, nb)),
{
    let n = bs.update(k, nb);
    assert forall|i: int| 0 < i < n.len() implies (#[trigger] n[i]).h@ == n[i - 1].hash_spec() && n[i].e
        > n[i - 1].e by {
        assert(bs[i].h@ == bs[i - 1].hash_spec());
    }
}

/// Along a linked chain, epochs grow.
pub proof fn lemma_linked_epochs(bs: Seq<Block>, i: int, j: int)
    requires
        linked(bs),
        0 <= i <= j < bs.len(),
    ensures
        bs[i].e <= bs[j].e,
    decreases j - i,
{
    if i < j {
        lemma_linked_epochs(bs, i, j - 1);
        assert(bs[j].e > bs[j - 1].e);
    }
}

/// The position of the block with `b`'s identity nearest the tip of `c`.
pub fn find_in_chain(c: &Blockchain, b: &Block) -> (r: Option<usize>)
    ensures
        r matches Some(k) ==> k as int == pos_in(*c, *b),
        r is None ==> pos_in(*c, *b) == -1,
{
    let mut i: usize = c.blocks.len();
    while i > 0
        invariant
            0 <= i <= c.blocks@.len(),
            last_pos(c.blocks@, *b, c.blocks@.len() as int) == last_pos(c.blocks@, *b, i as int),
        decreases i,
    {
        if c.blocks[i - 1].same_as(b) {
            return Some(i - 1);
        }
        i = i - 1;
    }
    None
}

/// The quorum threshold for `n` nodes: `2n / 3`, rounded down.
pub fn quorum(n: usize) -> (r: usize)
    ensures
        r as int == quorum_spec(n as int),
{
    let q = n / 3;
    let m = n % 3;
    assert(n as int == 3 * q + m);
    assert((2 * n as int) / 3 == 2 * q + (2 * m) / 3) by (nonlinear_arith)
        requires
            n as int == 3 * q + m,
            0 <= m < 3,
    {
        assert(2 * n as int == 3 * (2 * q) + 2 * m);
    }
    q * 2 + m * 2 / 3
}

/// Whether some vote of the list equals `x`.
pub fn votes_contain_exec(votes: &Vec<Vote>, x: &Vote) -> (r: bool)
    ensures
        r == votes_contain(votes@, *x),
{
    let mut j: usize = 0;
    while j < votes.len()
        invariant
            0 <= j <= votes@.len(),
            forall|i: int| 0 <= i < j ==> !(#[trigger] votes@[i]).same_vote(x),
        decreases votes@.len() - j,
    {
        if votes[j].same_as(x) {
            return true;
        }
        j = j + 1;
    }
    false
}

/// Adds `vote` to the block's votes unless an equal vote is there, and
/// notarizes the block once its votes exceed `q`. Returns whether this call
/// notarized it.
pub fn record_vote(b: &mut Block, vote: &Vote, q: usize) -> (newly: bool)
    requires
        old(b).same_identity(&vote.block),
    ensures
        final(b).h == old(b).h,
        final(b).e == old(b).e,
        final(b).txs == old(b).txs,
        final(b).metadata.finalized == old(b).metadata.finalized,
        votes_contain(old(b).metadata.votes@, *vote) ==> final(b).metadata.votes == old(b).metadata.votes,
        !votes_contain(old(b).metadata.votes@, *vote) ==> {
            &&& final(b).metadata.votes@.drop_last() == old(b).metadata.votes@
            &&& final(b).metadata.votes@.len() == old(b).metadata.votes@.len() + 1
            &&& final(b).metadata.votes@.last().same_vote(vote)
        },
        final(b).metadata.notarized == (old(b).metadata.notarized || final(b).metadata.votes@.len() > q),
        newly == (!old(b).metadata.notarized && final(b).metadata.notarized),
        votes_distinct(old(b).metadata.votes@) ==> votes_distinct(final(b).metadata.votes@),
        vote_recorded(*final(b), *vote, q as int),
{
    let ghost ov = b.metadata.votes@;
    if !votes_contain_exec(&b.metadata.votes, vote) {
        b.metadata.votes.push(vote.copy());
        proof {
            let nv = b.metadata.votes@;
            assert(nv.drop_last() =~= ov);
            assert(nv[nv.len() - 1].same_vote(vote));
            if votes_distinct(ov) {
                assert forall|i: int, j: int| 0 <= i < j < nv.len() implies !nv[i].same_vote(&nv[j]) by {
                    if j < ov.len() {
                        assert(nv[i] == ov[i] && nv[j] == ov[j]);
                    } else {
                        assert(nv[i] == ov[i]);
                        assert(!ov[i].same_vote(vote));
                    }
                }
            }
        }
    }
    assert(votes_contain(b.metadata.votes@, *vote));
    if !b.metadata.notarized && b.metadata.votes.len() > q {
        b.metadata.notarized = true;
        true
    } else {
        false
    }
}

/// Recording a vote on the block at position `k` of chain `c` keeps the
/// node's invariant.
pub proof fn lemma_record_keeps_wf(pre: Node, mid: Node, c: ChainIndex, k: int)
    requires
        pre.wf(),
        is_loc(pre, c, k),
        mid.id == pre.id,
        mid.keypair == pre.keypair,
        mid.genesis_time == pre.genesis_time,
        mid.unconfirmed_transactions == pre.unconfirmed_transactions,
        ({
            let ob = block_at(pre, c, k);
            let nb = block_at(mid, c, k);
            &&& nb.h == ob.h
            &&& nb.e == ob.e
            &&& nb.txs == ob.txs
            &&& nb.metadata.finalized == ob.metadata.finalized
            &&& ob.metadata.notarized ==> nb.metadata.notarized
            &&& votes_distinct(ob.metadata.votes@) ==> votes_distinct(nb.metadata.votes@)
        }),
        match c {
            ChainIndex::Canonical => {
                &&& mid.node_blockchains == pre.node_blockchains
                &&& mid.canonical_blockchain.blocks@ == pre.canonical_blockchain.blocks@.update(
                    k,
                    block_at(mid, c, k),
                )
            },
            ChainIndex::Fork(f) => {
                &&& mid.canonical_blockchain == pre.canonical_blockchain
                &&& mid.node_blockchains@.len() == pre.node_blockchains@.len()
                &&& forall|g: int|
                    0 <= g < pre.node_blockchains@.len() && g != f ==> #[trigger] mid.node_blockchains@[g]
                        == pre.node_blockchains@[g]
                &&& mid.node_blockchains@[f as int].blocks@ == pre.node_blockchains@[f as int].blocks@.update(
                    k,
                    block_at(mid, c, k),
                )
            },
        },
    ensures
        mid.wf(),
        is_loc(mid, c, k),
{
    let ob = block_at(pre, c, k);
    let nb = block_at(mid, c, k);
    match c {
        ChainIndex::Canonical => {
            let bs = pre.canonical_blockchain.blocks@;
            lemma_linked_update(bs, k, nb);
            assert(canonical_block_ok(bs[k]));
            assert forall|i: int| 0 <= i < bs.len() implies #[trigger] canonical_block_ok(
                mid.canonical_blockchain.blocks@[i]) by {
                if i != k {
                    assert(mid.canonical_blockchain.blocks@[i] == bs[i]);
                }
            }
            assert(mid.canonical_blockchain.tip_spec().same_identity(&pre.canonical_blockchain.tip_spec()));
            assert forall|g: int| 0 <= g < mid.node_blockchains@.len() implies #[trigger] fork_ok(
                mid.node_blockchains@[g], mid.canonical_blockchain.tip_spec()) by {
                assert(fork_ok(pre.node_blockchains@[g], pre.canonical_blockchain.tip_spec()));
            }
        },
        ChainIndex::Fork(f) => {
            let bs = pre.node_blockchains@[f as int].blocks@;
            let nc = mid.node_blockchains@[f as int];
            let tip = pre.canonical_blockchain.tip_spec();
            assert(fork_ok(pre.node_blockchains@[f as int], tip));
            lemma_linked_update(bs, k, nb);
            assert(fork_block_ok(bs[k]));
            assert forall|i: int| 0 <= i < nc.blocks@.len() implies #[trigger] fork_block_ok(nc.blocks@[i]) by {
                if i != k {
                    assert(nc.blocks@[i] == bs[i]);
                }
            }
            assert(fork_ok(nc, tip));
            assert forall|g: int| 0 <= g < mid.node_blockchains@.len() implies #[trigger] fork_ok(
                mid.node_blockchains@[g], mid.canonical_blockchain.tip_spec()) by {
                if g != f {
                    assert(fork_ok(pre.node_blockchains@[g], tip));
                }
            }
        },
    }
}

/// After the block at position `k` of chain `c` was notarized by a vote and
/// the chain checked for finalization, the block, with the vote, is still
/// held somewhere, and the canonical chain only grew.
#[verifier::spinoff_prover]
#[verifier::rlimit(50)]
pub proof fn lemma_finalization_keeps_vote(mid: Node, fin: Node, c: ChainIndex, k: int, vote: Vote, q: int)
    requires
        mid.wf(),
        is_loc(mid, c, k),
        vote_recorded(block_at(mid, c, k), vote, q),
        finalized_post(mid, c, fin),
        fin.node_blockchains@.len() <= usize::MAX,
    ensures
        exists|c2: ChainIndex, k2: int| is_loc(fin, c2, k2) && #[trigger] vote_recorded(block_at(fin, c2, k2), vote, q),
        fin.canonical_blockchain.blocks@.len() >= mid.canonical_blockchain.blocks@.len(),
        forall|i: int|
            0 <= i < mid.canonical_blockchain.blocks@.len() ==> (#[trigger] fin.canonical_blockchain.blocks@[i]).same_identity(
                &mid.canonical_blockchain.blocks@[i],
            ),
{
    match c {
        ChainIndex::Canonical => {
            assert(is_loc(fin, c, k));
        },
        ChainIndex::Fork(f) => {
            let oc = mid.node_blockchains@[f as int].blocks@;
            let m = finalize_count(oc) as int;
            if m == 0 {
                assert(is_loc(fin, c, k));
            } else {
                let ol = mid.canonical_blockchain.blocks@.len() as int;
                if k < m {
                    assert(moved_block(fin.canonical_blockchain.blocks@[ol + k], oc[k]));
                    assert(is_loc(fin, ChainIndex::Canonical, ol + k));
                    assert(vote_recorded(block_at(fin, ChainIndex::Canonical, ol + k), vote, q));
                } else {
                    let g = choose|g: int|
                        0 <= g < fin.node_blockchains@.len() && #[trigger] fin.node_blockchains@[g].blocks@
                            == oc.subrange(m, oc.len() as int);
                    assert(fin.node_blockchains@[g].blocks@[k - m] == oc[k]);
                    assert(is_loc(fin, ChainIndex::Fork(g as usize), k - m));
                    assert(vote_recorded(block_at(fin, ChainIndex::Fork(g as usize), k - m), vote, q));
                }
            }
        },
    }
}

/// A vote that the block it lands on already records leaves the node as it was.
pub proof fn lemma_vote_applied_unchanged(pre: Node, c: ChainIndex, k: int, vote: Vote, n: int)
    requires
        pre.location_of(vote.block) == Some((c, k)),
        is_loc(pre, c, k),
        vote_recorded_in(pre, c, k, vote, quorum_spec(n), pre),
        vote_recorded(block_at(pre, c, k), vote, quorum_spec(n)),
    ensures
        vote_applied(pre, vote, n, pre),
{
    reveal(vote_applied);
    let q = quorum_spec(n);
    assert(Seq::<Block>::empty() =~= pre.canonical_blockchain.blocks@.subrange(
        pre.canonical_blockchain.blocks@.len() as int,
        pre.canonical_blockchain.blocks@.len() as int,
    ));
    assert(vote_recorded_in(pre, c, k, vote, q, pre));
    assert(recorded_then_finalized(pre, c, k, vote, q, pre));
    assert(is_loc(pre, c, k) && vote_recorded(block_at(pre, c, k), vote, q));
}

/// Recording a vote, then finalizing the chain when that notarized the
/// block, does what `vote_applied` says.
#[verifier::spinoff_prover]
#[verifier::rlimit(50)]
pub proof fn lemma_vote_applied_step(pre: Node, mid: Node, fin: Node, c: ChainIndex, k: int, vote: Vote, n: int)
    requires
        pre.wf(),
        mid.wf(),
        fin.wf(),
        pre.location_of(vote.block) == Some((c, k)),
        is_loc(pre, c, k),
        is_loc(mid, c, k),
        !(votes_contain(block_at(pre, c, k).metadata.votes@, vote) && (block_at(pre, c, k).metadata.notarized
            || block_at(pre, c, k).metadata.votes@.len() <= quorum_spec(n))),
        vote_recorded_in(pre, c, k, vote, quorum_spec(n), mid),
        vote_recorded(block_at(mid, c, k), vote, quorum_spec(n)),
        !block_at(pre, c, k).metadata.notarized && block_at(mid, c, k).metadata.notarized ==> {
            &&& finalized_post(mid, c, fin)
            &&& fin.node_blockchains@.len() <= usize::MAX
            &&& forall|t: Seq<char>|
                blocks_have_tx(
                    fin.canonical_blockchain.blocks@.subrange(
                        mid.canonical_blockchain.blocks@.len() as int,
                        fin.canonical_blockchain.blocks@.len() as int,
                    ),
                    t,
                ) ==> !#[trigger] fin.unconfirmed_transactions.deep_view().contains(t)
        },
        !(!block_at(pre, c, k).metadata.notarized && block_at(mid, c, k).metadata.notarized) ==> fin == mid,
    ensures
        vote_applied(pre, vote, n, fin),
{
    reveal(vote_applied);
    let q = quorum_spec(n);
    let oc = pre.canonical_blockchain.blocks@;
    let mc = mid.canonical_blockchain.blocks@;
    assert(vote_recorded_in(pre, c, k, vote, q, mid));
    assert(recorded_then_finalized(pre, c, k, vote, q, fin));
    assert(mc.len() == oc.len());
    assert forall|i: int| 0 <= i < oc.len() implies (#[trigger] mc[i]).same_identity(&oc[i]) by {
        if c == ChainIndex::Canonical && i == k {
        } else {
            assert(mc[i] == oc[i]);
        }
    }
    if !block_at(pre, c, k).metadata.notarized && block_at(mid, c, k).metadata.notarized {
        lemma_finalization_keeps_vote(mid, fin, c, k, vote, q);
        let nc = fin.canonical_blockchain.blocks@;
        assert forall|i: int| 0 <= i < oc.len() implies (#[trigger] nc[i]).same_identity(&oc[i]) by {
            assert(nc[i].same_identity(&mc[i]));
            assert(mc[i].same_identity(&oc[i]));
        }
    } else {
        assert(is_loc(fin, c, k) && vote_recorded(block_at(fin, c, k), vote, q));
        assert(Seq::<Block>::empty() =~= fin.canonical_blockchain.blocks@.subrange(
            oc.len() as int,
            fin.canonical_blockchain.blocks@.len() as int,
        ));
    }
}

/// Along a linked chain, epochs grow strictly.
pub proof fn lemma_linked_epochs_strict(bs: Seq<Block>, i: int, j: int)
    requires
        linked(bs),
        0 <= i < j < bs.len(),
    ensures
        bs[i].e < bs[j].e,
    decreases j - i,
{
    if i < j - 1 {
        lemma_linked_epochs_strict(bs, i, j - 1);
    }
    assert(bs[j].e > bs[j - 1].e);
}

/// In a linked chain a block identity occurs at one position at most, so
/// `last_pos` finds it there.
pub proof fn lemma_last_pos_unique(bs: Seq<Block>, b: Block, i: int)
    requires
        linked(bs),
        0 <= i < bs.len(),
        bs[i].same_identity(&b),
    ensures
        last_pos(bs, b, bs.len() as int) == i,
{
    lemma_last_pos(bs, b, bs.len() as int);
    let j = last_pos(bs, b, bs.len() as int);
    if j != i {
        assert(j >= 0) by {
            assert(bs[i].same_identity(&b));
        }
        if j < i {
            lemma_linked_epochs_strict(bs, j, i);
        } else {
            lemma_linked_epochs_strict(bs, i, j);
        }
    }
}

/// A fork position is the first holding `b` when it holds it and no earlier fork does.
pub proof fn lemma_first_holding_unique(forks: Seq<Blockchain>, b: Block, f: int)
    requires
        first_holding(forks, b, f),
    ensures
        (choose|g: int| first_holding(forks, b, g)) == f,
{
    let g = choose|g: int| first_holding(forks, b, g);
    if g < f {
        assert(pos_in(forks[g], b) < 0);
    } else if g > f {
        assert(pos_in(forks[f], b) < 0);
    }
}

/// Where `location_of` points at a fork, that fork is the first holding `b`.
pub proof fn lemma_location_fork(n: Node, b: Block, f: usize, k: int)
    requires
        n.location_of(b) == Some((ChainIndex::Fork(f), k)),
        n.node_blockchains@.len() <= usize::MAX,
        n.node_blockchains@.len() <= usize::MAX,
    ensures
        first_holding(n.node_blockchains@, b, f as int),
        k == pos_in(n.node_blockchains@[f as int], b),
{
    if exists|g: int| first_holding(n.node_blockchains@, b, g) {
        let g = choose|g: int| first_holding(n.node_blockchains@, b, g);
        assert(g as usize == f);
    }
}

/// Recording a vote keeps where votes for the same block land.
pub proof fn lemma_location_after_record(pre: Node, mid: Node, c: ChainIndex, k: int, b: Block)
    requires
        pre.wf(),
        mid.wf(),
        pre.node_blockchains@.len() <= usize::MAX,
        pre.location_of(b) == Some((c, k)),
        is_loc(pre, c, k),
        block_at(pre, c, k).same_identity(&b),
        block_at(mid, c, k).same_identity(&b),
        match c {
            ChainIndex::Canonical => {
                &&& mid.node_blockchains == pre.node_blockchains
                &&& mid.canonical_blockchain.blocks@ == pre.canonical_blockchain.blocks@.update(
                    k,
                    block_at(mid, c, k),
                )
            },
            ChainIndex::Fork(f) => {
                &&& mid.node_blockchains@.len() == pre.node_blockchains@.len()
                &&& forall|g: int|
                    0 <= g < pre.node_blockchains@.len() && g != f ==> #[trigger] mid.node_blockchains@[g]
                        == pre.node_blockchains@[g]
                &&& mid.node_blockchains@[f as int].blocks@ == pre.node_blockchains@[f as int].blocks@.update(
                    k,
                    block_at(mid, c, k),
                )
            },
        },
    ensures
        mid.location_of(b) == Some((c, k)),
{
    match c {
        ChainIndex::Canonical => {
            lemma_last_pos_unique(mid.canonical_blockchain.blocks@, b, k);
            assert(mid.node_blockchains@ == pre.node_blockchains@);
        },
        ChainIndex::Fork(f) => {
            lemma_location_fork(pre, b, f, k);
            let c2 = mid.node_blockchains@[f as int];
            assert(fork_ok(c2, mid.canonical_blockchain.tip_spec()));
            lemma_last_pos_unique(c2.blocks@, b, k);
            assert forall|j: int| 0 <= j < f implies #[trigger] pos_in(mid.node_blockchains@[j], b) < 0 by {
                assert(mid.node_blockchains@[j] == pre.node_blockchains@[j]);
            }
            assert(first_holding(mid.node_blockchains@, b, f as int));
            lemma_first_holding_unique(mid.node_blockchains@, b, f as int);
        },
    }
}

/// The value of up to eight bytes read most significant first.
pub open spec fn be_u64(s: Seq<u8>) -> u64
    decreases s.len(),
{
    if s.len() == 0 {
        0
    } else {
        (be_u64(s.drop_last()) << 8u64) | (s.last() as u64)
    }
}

/// The epoch reached `secs` seconds after genesis.
pub open spec fn epoch_spec(secs: u64) -> u64 {
    (secs as int / (2 * DELTA as int)) as u64
}

/// The leader of `epoch` among `nodes_count` nodes: the first eight bytes of the
/// SHA-256 digest of the epoch's big-endian bytes, as a number, modulo the count.
pub open spec fn leader_spec(epoch: u64, nodes_count: u64) -> u64 {
    be_u64(sha256_of(be_bytes(epoch)).subrange(0, 8)) % nodes_count
}

/// The epoch reached `secs` seconds after genesis.
pub fn epoch_at(secs: u64) -> (r: u64)
    ensures
        r == epoch_spec(secs),
{
    secs / (2 * DELTA)
}

/// The leader of `epoch` among `nodes_count` nodes.
pub fn leader_of_epoch(epoch: u64, nodes_count: u64) -> (r: u64)
    requires
        nodes_count > 0,
    ensures
        r == leader_spec(epoch, nodes_count),
        r < nodes_count,
{
    let mut bytes: Vec<u8> = Vec::new();
    push_be_bytes(&mut bytes, epoch);
    assert(bytes@ =~= be_bytes(epoch));
    let d = sha256(&bytes);
    let mut acc: u64 = 0;
    let mut i: usize = 0;
    while i < 8
        invariant
            0 <= i <= 8,
            d@.len() == 32,
            acc == be_u64(d@.subrange(0, i as int)),
        decreases 8 - i,
    {
        let ghost s = d@.subrange(0, i + 1);
        assert(s.drop_last() =~= d@.subrange(0, i as int));
        acc = (acc << 8u64) | (d[i] as u64);
        i = i + 1;
    }
    acc % nodes_count
}

/// A protocol node. It holds a key pair to sign messages, the finalized
/// canonical chain, candidate fork chains (not all notarized) and a pool of
/// unconfirmed transactions.
#[derive(Debug)]
pub struct Node {
    pub id: u64,
    pub genesis_time: Instant,
    pub keypair: PKey<Private>,
    pub canonical_blockchain: Blockchain,
    pub node_blockchains: Vec<Blockchain>,
    pub unconfirmed_transactions: Vec<String>,
}

impl Node {
    /// The node's invariant: the canonical chain is linked and wholly
    /// finalized; every fork is linked, unfinalized and rooted on the canonical
    /// tip; no block holds two equal votes.
    pub open spec fn wf(&self) -> bool {
        &&& self.canonical_blockchain.wf()
        &&& forall|k: int|
            0 <= k < self.canonical_blockchain.blocks@.len() ==> #[trigger] canonical_block_ok(
                self.canonical_blockchain.blocks@[k],
            )
        &&& forall|f: int|
            0 <= f < self.node_blockchains@.len() ==> #[trigger] fork_ok(
                self.node_blockchains@[f],
                self.canonical_blockchain.tip_spec(),
            )
    }

    /// A node whose canonical chain holds `init_block` alone.
    pub fn new(id: u64, genesis_time: Instant, init_block: Block) -> (r: Result<Node, NodeError>)
        requires
            canonical_block_ok(init_block),
        ensures
            r matches Ok(n) ==> {
                &&& n.wf()
                &&& n.id == id
                &&& n.genesis_time == genesis_time
                &&& n.canonical_blockchain.blocks@ == seq![init_block]
                &&& n.node_blockchains@.len() == 0
                &&& n.unconfirmed_transactions@.len() == 0
            },
            r matches Err(e) ==> e == NodeError::CryptoFailure,
    {
        match generate_keypair() {
            Ok(keypair) => {
                let n = Node {
                    id,
                    genesis_time,
                    keypair,
                    canonical_blockchain: Blockchain::new(init_block),
                    node_blockchains: Vec::new(),
                    unconfirmed_transactions: Vec::new(),
                };
                Ok(n)
            },
            Err(_) => Err(NodeError::CryptoFailure),
        }
    }

    /// The node's output: the finalized canonical chain.
    pub fn output(&self) -> (r: &Blockchain)
        ensures
            *r == self.canonical_blockchain,
    {
        &self.canonical_blockchain
    }

    /// Appends a transaction to the unconfirmed pool.
    pub fn receive_transaction(&mut self, transaction: String)
        ensures
            final(self).unconfirmed_transactions@ == old(self).unconfirmed_transactions@.push(
                transaction,
            ),
            final(self).canonical_blockchain == old(self).canonical_blockchain,
            final(self).node_blockchains == old(self).node_blockchains,
            final(self).id == old(self).id,
            final(self).keypair == old(self).keypair,
            final(self).genesis_time == old(self).genesis_time,
    {
        self.unconfirmed_transactions.push(transaction);
    }

    /// `t` is a transaction of some block of some chain the node holds.
    pub open spec fn holds_tx(&self, t: Seq<char>) -> bool {
        ||| chain_has_tx(self.canonical_blockchain, t)
        ||| exists|f: int|
            0 <= f < self.node_blockchains@.len() && #[trigger] chain_has_tx(
                self.node_blockchains@[f],
                t,
            )
    }

    /// The entries of `pool`, in order, that no block the node holds contains.
    pub open spec fn unproposed_of(&self, pool: Seq<Seq<char>>) -> Seq<Seq<char>>
        decreases pool.len(),
    {
        if pool.len() == 0 {
            Seq::empty()
        } else if self.holds_tx(pool.last()) {
            self.unproposed_of(pool.drop_last())
        } else {
            self.unproposed_of(pool.drop_last()).push(pool.last())
        }
    }

    /// The chain a proposal extends: the longest fully notarized fork, the first
    /// one on ties, or the canonical chain when no fork is notarized.
    pub open spec fn longest_chain_spec(&self) -> Blockchain {
        let p = longest_upto(self.node_blockchains@, self.node_blockchains@.len() as int);
        if p < 0 {
            self.canonical_blockchain
        } else {
            self.node_blockchains@[p]
        }
    }

    /// Whether some block of some chain the node holds contains `t`.
    pub fn holds_transaction(&self, t: &String) -> (r: bool)
        ensures
            r == self.holds_tx(t@),
    {
        if chain_holds(&self.canonical_blockchain, t) {
            return true;
        }
        let mut f: usize = 0;
        while f < self.node_blockchains.len()
            invariant
                0 <= f <= self.node_blockchains@.len(),
                !chain_has_tx(self.canonical_blockchain, t@),
                forall|j: int| 0 <= j < f ==> !#[trigger] chain_has_tx(self.node_blockchains@[j], t@),
            decreases self.node_blockchains@.len() - f,
        {
            if chain_holds(&self.node_blockchains[f], t) {
                return true;
            }
            f = f + 1;
        }
        false
    }

    /// The unconfirmed transactions, in arrival order, that appear in no block
    /// of any chain the node holds.
    pub fn get_unproposed_transactions(&self) -> (r: Vec<String>)
        ensures
            r.deep_view() == self.unproposed_of(self.unconfirmed_transactions.deep_view()),
    {
        let pool = &self.unconfirmed_transactions;
        let mut out: Vec<String> = Vec::new();
        let mut i: usize = 0;
        while i < pool.len()
            invariant
                0 <= i <= pool@.len(),
                out.deep_view() == self.unproposed_of(pool.deep_view().subrange(0, i as int)),
            decreases pool@.len() - i,
        {
            let ghost prev = pool.deep_view().subrange(0, i as int);
            let ghost next = pool.deep_view().subrange(0, i + 1);
            assert(next.drop_last() =~= prev);
            assert(next.last() == pool@[i as int]@);
            if !self.holds_transaction(&pool[i]) {
                let ghost before = out.deep_view();
                out.push(pool[i].clone());
                assert(out.deep_view() =~= before.push(pool@[i as int]@));
            }
            i = i + 1;
        }
        assert(pool.deep_view().subrange(0, i as int) =~= pool.deep_view());
        out
    }

    /// The longest fully notarized chain the node holds (see `longest_chain_spec`).
    pub fn find_longest_notarized_chain(&self) -> (r: &Blockchain)
        ensures
            *r == self.longest_chain_spec(),
    {
        let forks = &self.node_blockchains;
        let mut found = false;
        let mut idx: usize = 0;
        let mut length: usize = 0;
        let mut i: usize = 0;
        while i < forks.len()
            invariant
                0 <= i <= forks@.len(),
                found ==> idx < i,
                longest_upto(forks@, i as int) == (if found { idx as int } else { -1 }),
                length == len_at(forks@, longest_upto(forks@, i as int)),
            decreases forks@.len() - i,
        {
            if forks[i].is_notarized() && forks[i].blocks.len() > length {
                found = true;
                idx = i;
                length = forks[i].blocks.len();
            }
            i = i + 1;
        }
        if found {
            &forks[idx]
        } else {
            &self.canonical_blockchain
        }
    }

    /// The proposal of this node for `epoch`, with the key that verifies it: a
    /// block on the tip of the longest notarized chain, holding the unproposed
    /// transactions, signed by this node.
    pub fn propose_block_at(&self, epoch: u64) -> (r: Result<(Vec<u8>, Vote), NodeError>)
        requires
            self.wf(),
        ensures
            r matches Ok((_, v)) ==> {
                &&& v.block.h@ == self.longest_chain_spec().tip_spec().hash_spec()
                &&& v.block.e == epoch
                &&& v.block.txs.deep_view() == self.unproposed_of(
                    self.unconfirmed_transactions.deep_view(),
                )
                &&& v.block.metadata.is_fresh()
                &&& v.id == self.id
            },
            r matches Err(e) ==> e == NodeError::CryptoFailure,
    {
        let chain = self.find_longest_notarized_chain();
        proof {
            let p = longest_upto(self.node_blockchains@, self.node_blockchains@.len() as int);
            lemma_longest_upto_bounds(self.node_blockchains@, self.node_blockchains@.len() as int);
            if p >= 0 {
                assert(fork_ok(self.node_blockchains@[p], self.canonical_blockchain.tip_spec()));
            }
        }
        let parent = chain.tip().digest();
        let txs = self.get_unproposed_transactions();
        let block = Block::new(parent, epoch, txs);
        let signature = match sign(&self.keypair, &block.signature_encode()) {
            Ok(signature) => signature,
            Err(_) => return Err(NodeError::CryptoFailure),
        };
        match public_key_der(&self.keypair) {
            Ok(key) => Ok((key, Vote::new(signature, block, self.id))),
            Err(_) => Err(NodeError::CryptoFailure),
        }
    }

    /// The DER encoding of this node's public key, which verifies its votes.
    pub fn public_key(&self) -> (r: Result<Vec<u8>, NodeError>)
        ensures
            r matches Err(e) ==> e == NodeError::CryptoFailure,
    {
        match public_key_der(&self.keypair) {
            Ok(key) => Ok(key),
            Err(_) => Err(NodeError::CryptoFailure),
        }
    }

    /// The proposal of this node for the current epoch (see `propose_block_at`).
    pub fn propose_block(&self) -> (r: Result<(Vec<u8>, Vote), NodeError>)
        requires
            self.wf(),
        ensures
            r matches Ok((_, v)) ==> {
                &&& v.block.h@ == self.longest_chain_spec().tip_spec().hash_spec()
                &&& v.block.txs.deep_view() == self.unproposed_of(
                    self.unconfirmed_transactions.deep_view(),
                )
                &&& v.id == self.id
            },
            r matches Ok((_, v)) ==> exists|secs: u64| v.block.e == epoch_spec(secs),
            r matches Err(e) ==> e == NodeError::CryptoFailure,
    {
        let epoch = self.get_current_epoch();
        self.propose_block_at(epoch)
    }

    /// Some chain the node holds has a block with the identity of `b`.
    pub open spec fn holds_block(&self, b: Block) -> bool {
        ||| chain_has_block(self.canonical_blockchain, b)
        ||| exists|f: int|
            0 <= f < self.node_blockchains@.len() && #[trigger] chain_has_block(
                self.node_blockchains@[f],
                b,
            )
    }

    /// `b` may follow the tip of some fork or of the canonical chain.
    pub open spec fn extends_some_chain(&self, b: Block) -> bool {
        ||| exists|f: int|
            0 <= f < self.node_blockchains@.len() && #[trigger] extends_fork(
                self.node_blockchains@,
                f,
                b,
            )
        ||| extends_tip(b, self.canonical_blockchain.tip_spec())
    }

    /// Whether some chain the node holds has a block with the identity of `b`.
    pub fn has_block(&self, b: &Block) -> (r: bool)
        ensures
            r == self.holds_block(*b),
    {
        if chain_holds_block(&self.canonical_blockchain, b) {
            return true;
        }
        let mut f: usize = 0;
        while f < self.node_blockchains.len()
            invariant
                0 <= f <= self.node_blockchains@.len(),
                !chain_has_block(self.canonical_blockchain, *b),
                forall|j: int| 0 <= j < f ==> !#[trigger] chain_has_block(self.node_blockchains@[j], *b),
            decreases self.node_blockchains@.len() - f,
        {
            if chain_holds_block(&self.node_blockchains[f], b) {
                return true;
            }
            f = f + 1;
        }
        false
    }

    /// The chain `block` extends: the first fork whose tip it may follow, else
    /// the canonical chain if it may follow the canonical tip.
    pub fn find_extended_blockchain_index(&self, block: &Block) -> (r: Result<ChainIndex, NodeError>)
        requires
            self.wf(),
        ensures
            r matches Ok(ChainIndex::Fork(f)) ==> {
                &&& f < self.node_blockchains@.len()
                &&& extends_fork(self.node_blockchains@, f as int, *block)
                &&& forall|j: int| 0 <= j < f ==> !#[trigger] extends_fork(self.node_blockchains@, j, *block)
            },
            r matches Ok(ChainIndex::Canonical) ==> {
                &&& forall|j: int|
                    0 <= j < self.node_blockchains@.len() ==> !#[trigger] extends_fork(
                        self.node_blockchains@,
                        j,
                        *block,
                    )
                &&& extends_tip(*block, self.canonical_blockchain.tip_spec())
            },
            r matches Err(e) ==> e == NodeError::UnknownParent && !self.extends_some_chain(*block),
    {
        let mut f: usize = 0;
        while f < self.node_blockchains.len()
            invariant
                self.wf(),
                0 <= f <= self.node_blockchains@.len(),
                forall|j: int| 0 <= j < f ==> !#[trigger] extends_fork(self.node_blockchains@, j, *block),
            decreases self.node_blockchains@.len() - f,
        {
            assert(fork_ok(self.node_blockchains@[f as int], self.canonical_blockchain.tip_spec()));
            let tip = self.node_blockchains[f].tip();
            if block.h == tip.digest() && block.e > tip.e {
                return Ok(ChainIndex::Fork(f));
            }
            f = f + 1;
        }
        let tip = self.canonical_blockchain.tip();
        if block.h == tip.digest() && block.e > tip.e {
            Ok(ChainIndex::Canonical)
        } else {
            Err(NodeError::UnknownParent)
        }
    }

    /// Whether every block of `blockchain` but the last is notarized.
    pub fn extends_notarized_blockchain(&self, blockchain: &Blockchain) -> (r: bool)
        requires
            blockchain.blocks@.len() > 0,
        ensures
            r == all_notarized(blockchain.blocks@.drop_last()),
    {
        let mut i: usize = 0;
        while i < blockchain.blocks.len() - 1
            invariant
                blockchain.blocks@.len() > 0,
                0 <= i <= blockchain.blocks@.len() - 1,
                forall|j: int| 0 <= j < i ==> (#[trigger] blockchain.blocks@[j]).metadata.notarized,
            decreases blockchain.blocks@.len() - i,
        {
            if !blockchain.blocks[i].metadata.notarized {
                assert(blockchain.blocks@.drop_last()[i as int] == blockchain.blocks@[i as int]);
                return false;
            }
            i = i + 1;
        }
        assert forall|j: int| 0 <= j < blockchain.blocks@.drop_last().len() implies
            (#[trigger] blockchain.blocks@.drop_last()[j]).metadata.notarized by {
            assert(blockchain.blocks@.drop_last()[j] == blockchain.blocks@[j]);
        }
        true
    }

    /// Appends a fresh-metadata copy of `block` to the chain `index` names: a
    /// fork, or a new fork off the canonical tip. Returns the fork's position.
    #[verifier::spinoff_prover]
    #[verifier::rlimit(50)]
    fn place_block(&mut self, block: &Block, index: ChainIndex) -> (at: usize)
        requires
            old(self).wf(),
            index matches ChainIndex::Fork(f) ==> f < old(self).node_blockchains@.len() && extends_fork(
                old(self).node_blockchains@,
                f as int,
                *block,
            ),
            index is Canonical ==> extends_tip(*block, old(self).canonical_blockchain.tip_spec()),
        ensures
            final(self).wf(),
            same_but_forks(*old(self), *final(self)),
            index matches ChainIndex::Fork(f) ==> at == f && fork_grown(*old(self), *final(self), f as int, *block),
            index is Canonical ==> at == old(self).node_blockchains@.len() && fork_added(*old(self), *final(self), *block),
            at < final(self).node_blockchains@.len(),
            final(self).node_blockchains@[at as int].blocks@.len() > 0,
    {
        let ghost pre = *self;
        let ghost tip = self.canonical_blockchain.tip_spec();
        match index {
            ChainIndex::Canonical => {
                self.node_blockchains.push(Blockchain::new(block.copy_identity()));
                assert(fork_ok(self.node_blockchains@.last(), tip));
                assert forall|f: int| 0 <= f < self.node_blockchains@.len() implies #[trigger] fork_ok(
                    self.node_blockchains@[f], tip) by {
                    if f < pre.node_blockchains@.len() {
                        assert(self.node_blockchains@[f] == pre.node_blockchains@[f]);
                    }
                }
                assert(self.node_blockchains@.drop_last() =~= pre.node_blockchains@);
                self.node_blockchains.len() - 1
            },
            ChainIndex::Fork(f) => {
                assert(fork_ok(self.node_blockchains@[f as int], tip));
                self.node_blockchains[f].add_block(block.copy_identity());
                proof {
                    let c = self.node_blockchains@[f as int];
                    let oc = pre.node_blockchains@[f as int];
                    assert(c.blocks@.drop_last() =~= oc.blocks@);
                    assert forall|i: int| 0 < i < c.blocks@.len() implies (#[trigger] c.blocks@[i]).h@
                        == c.blocks@[i - 1].hash_spec() && c.blocks@[i].e > c.blocks@[i - 1].e by {
                        if i < oc.blocks@.len() {
                            assert(oc.blocks@[i] == c.blocks@[i]);
                        }
                    }
                    assert forall|k: int| 0 <= k < c.blocks@.len() implies #[trigger] fork_block_ok(c.blocks@[k]) by {
                        if k < oc.blocks@.len() {
                            assert(oc.blocks@[k] == c.blocks@[k]);
                        }
                    }
                    assert(fork_ok(c, tip));
                    assert forall|g: int| 0 <= g < self.node_blockchains@.len() implies #[trigger] fork_ok(
                        self.node_blockchains@[g], tip) by {
                        if g != f {
                            assert(self.node_blockchains@[g] == pre.node_blockchains@[g]);
                        }
                    }
                }
                f
            },
        }
    }

    /// Places a proposed block on the chain it extends and votes for it when
    /// the rest of that chain is notarized. A block the node already holds is
    /// left alone, with no vote. A block that extends no chain is a protocol
    /// violation: callers test `find_extended_blockchain_index` first.
    pub fn vote_block(&mut self, block: &Block) -> (r: Result<Option<Vote>, NodeError>)
        requires
            old(self).wf(),
            old(self).holds_block(*block) || old(self).extends_some_chain(*block),
        ensures
            final(self).wf(),
            vote_block_post(*old(self), *block, *final(self), r),
    {
        if self.has_block(block) {
            return Ok(None);
        }
        let index = match self.find_extended_blockchain_index(block) {
            Ok(index) => index,
            Err(e) => return Err(e),
        };
        let ghost pre = *self;
        proof {
            if let ChainIndex::Fork(f) = index {
                assert(first_extended(pre.node_blockchains@, *block, f as int));
                let g = choose|g: int| first_extended(pre.node_blockchains@, *block, g);
                assert(g == f) by {
                    if g < f {
                        assert(!extends_fork(pre.node_blockchains@, g, *block));
                    } else if g > f {
                        assert(!extends_fork(pre.node_blockchains@, f as int, *block));
                    }
                }
            } else {
                assert(!exists|f: int| first_extended(pre.node_blockchains@, *block, f));
            }
        }
        let at = self.place_block(block, index);
        let ghost c = self.node_blockchains@[at as int];
        proof {
            if let ChainIndex::Fork(f) = index {
                assert(c.blocks@.drop_last() == pre.node_blockchains@[f as int].blocks@);
            } else {
                assert(c.blocks@.drop_last() =~= Seq::<Block>::empty());
            }
        }
        if self.extends_notarized_blockchain(&self.node_blockchains[at]) {
            let copy = block.copy_identity();
            match sign(&self.keypair, &copy.signature_encode()) {
                Ok(signature) => Ok(Some(Vote::new(signature, copy, self.id))),
                Err(_) => Err(NodeError::CryptoFailure),
            }
        } else {
            Ok(None)
        }
    }

    /// Handles a proposal for `epoch`. A proposer that does not lead the
    /// epoch, a signature that does not verify under `leader_public_key` and a
    /// block that extends no chain are protocol violations, refused in that
    /// order with the node unchanged; otherwise the block is placed and voted
    /// for as `vote_block` does.
    pub fn receive_proposed_block_at(
        &mut self,
        leader_public_key: &Vec<u8>,
        proposed_block_vote: &Vote,
        nodes_count: u64,
        epoch: u64,
    ) -> (r: Result<Option<Vote>, NodeError>)
        requires
            old(self).wf(),
            nodes_count > 0,
        ensures
            final(self).wf(),
            proposal_handled(*old(self), leader_public_key@, *proposed_block_vote, nodes_count, epoch, *final(self), r),
    {
        if leader_of_epoch(epoch, nodes_count) != proposed_block_vote.id {
            return Err(NodeError::WrongLeader);
        }
        let block = &proposed_block_vote.block;
        match verify(leader_public_key, &block.signature_encode(), &proposed_block_vote.vote) {
            Ok(true) => {},
            Ok(false) => return Err(NodeError::BadSignature),
            Err(_) => return Err(NodeError::CryptoFailure),
        }
        if !self.has_block(block) {
            if let Err(e) = self.find_extended_blockchain_index(block) {
                return Err(e);
            }
        }
        self.vote_block(block)
    }

    /// Handles a proposal for the current epoch: as `receive_proposed_block_at`
    /// does at the epoch the clock gives.
    pub fn receive_proposed_block(
        &mut self,
        leader_public_key: &Vec<u8>,
        proposed_block_vote: &Vote,
        nodes_count: u64,
    ) -> (r: Result<Option<Vote>, NodeError>)
        requires
            old(self).wf(),
            nodes_count > 0,
        ensures
            final(self).wf(),
            exists|e: u64|
                proposal_handled(
                    *old(self),
                    leader_public_key@,
                    *proposed_block_vote,
                    nodes_count,
                    e,
                    *final(self),
                    r,
                ),
    {
        let epoch = self.get_current_epoch();
        self.receive_proposed_block_at(leader_public_key, proposed_block_vote, nodes_count, epoch)
    }

    /// Moves the first `m` blocks of fork `f`, marked finalized, onto the
    /// tail of the canonical chain, in order.
    fn move_prefix(&mut self, f: usize, m: usize)
        requires
            old(self).wf(),
            f < old(self).node_blockchains@.len(),
            0 < m < old(self).node_blockchains@[f as int].blocks@.len(),
            forall|i: int|
                0 <= i < m ==> (#[trigger] old(self).node_blockchains@[f as int].blocks@[i]).metadata.notarized,
        ensures
            final(self).id == old(self).id,
            final(self).keypair == old(self).keypair,
            final(self).genesis_time == old(self).genesis_time,
            final(self).unconfirmed_transactions == old(self).unconfirmed_transactions,
            final(self).node_blockchains@.len() == old(self).node_blockchains@.len(),
            forall|g: int|
                0 <= g < old(self).node_blockchains@.len() && g != f ==> #[trigger] final(self).node_blockchains@[g]
                    == old(self).node_blockchains@[g],
            final(self).node_blockchains@[f as int].blocks@ == old(self).node_blockchains@[f as int].blocks@.subrange(
                m as int,
                old(self).node_blockchains@[f as int].blocks@.len() as int,
            ),
            final(self).canonical_blockchain.blocks@.len() == old(self).canonical_blockchain.blocks@.len() + m,
            forall|i: int|
                0 <= i < old(self).canonical_blockchain.blocks@.len() ==> #[trigger] final(self).canonical_blockchain.blocks@[i]
                    == old(self).canonical_blockchain.blocks@[i],
            forall|i: int|
                0 <= i < m ==> moved_block(
                    #[trigger] final(self).canonical_blockchain.blocks@[old(self).canonical_blockchain.blocks@.len() + i],
                    old(self).node_blockchains@[f as int].blocks@[i],
                ),
            final(self).canonical_blockchain.wf(),
            forall|k: int|
                0 <= k < final(self).canonical_blockchain.blocks@.len() ==> #[trigger] canonical_block_ok(
                    final(self).canonical_blockchain.blocks@[k],
                ),
            extends_tip(
                final(self).node_blockchains@[f as int].blocks@[0],
                final(self).canonical_blockchain.tip_spec(),
            ),
    {
        let ghost pre = *self;
        let ghost oc = self.node_blockchains@[f as int].blocks@;
        let ghost ol = self.canonical_blockchain.blocks@.len();
        assert(fork_ok(pre.node_blockchains@[f as int], pre.canonical_blockchain.tip_spec()));
        let mut i: usize = 0;
        while i < m
            invariant
                0 <= i <= m,
                m < oc.len(),
                oc == pre.node_blockchains@[f as int].blocks@,
                fork_ok(pre.node_blockchains@[f as int], pre.canonical_blockchain.tip_spec()),
                forall|j: int| 0 <= j < m ==> (#[trigger] oc[j]).metadata.notarized,
                self.id == pre.id,
                self.keypair == pre.keypair,
                self.genesis_time == pre.genesis_time,
                self.unconfirmed_transactions == pre.unconfirmed_transactions,
                self.node_blockchains@.len() == pre.node_blockchains@.len(),
                f < self.node_blockchains@.len(),
                forall|g: int|
                    0 <= g < pre.node_blockchains@.len() && g != f ==> #[trigger] self.node_blockchains@[g]
                        == pre.node_blockchains@[g],
                self.node_blockchains@[f as int].blocks@ == oc.subrange(i as int, oc.len() as int),
                ol == pre.canonical_blockchain.blocks@.len(),
                self.canonical_blockchain.blocks@.len() == ol + i,
                forall|j: int| 0 <= j < ol ==> #[trigger] self.canonical_blockchain.blocks@[j] == pre.canonical_blockchain.blocks@[j],
                forall|j: int| 0 <= j < i ==> moved_block(#[trigger] self.canonical_blockchain.blocks@[ol + j], oc[j]),
                self.canonical_blockchain.wf(),
                forall|k: int|
                    0 <= k < self.canonical_blockchain.blocks@.len() ==> #[trigger] canonical_block_ok(
                        self.canonical_blockchain.blocks@[k],
                    ),
                extends_tip(oc[i as int], self.canonical_blockchain.tip_spec()),
            decreases m - i,
        {
            let ghost canon = self.canonical_blockchain.blocks@;
            let mut b = self.node_blockchains[f].blocks.remove(0);
            assert(b == oc[i as int]);
            assert(self.node_blockchains@[f as int].blocks@ =~= oc.subrange(i + 1, oc.len() as int));
            b.metadata.finalized = true;
            assert(fork_block_ok(oc[i as int]));
            proof {
                lemma_linked_push(canon, b);
            }
            self.canonical_blockchain.blocks.push(b);
            assert(self.canonical_blockchain.blocks@ == canon.push(b));
            assert forall|k: int| 0 <= k < self.canonical_blockchain.blocks@.len() implies #[trigger] canonical_block_ok(
                self.canonical_blockchain.blocks@[k]) by {
                if k < canon.len() {
                    assert(self.canonical_blockchain.blocks@[k] == canon[k]);
                }
            }
            assert forall|j: int| 0 <= j < i + 1 implies moved_block(
                #[trigger] self.canonical_blockchain.blocks@[ol + j], oc[j]) by {
                if j < i {
                    assert(self.canonical_blockchain.blocks@[ol + j] == canon[ol + j]);
                }
            }
            assert forall|j: int| 0 <= j < ol implies #[trigger] self.canonical_blockchain.blocks@[j]
                == pre.canonical_blockchain.blocks@[j] by {
                assert(self.canonical_blockchain.blocks@[j] == canon[j]);
            }
            proof {
                if i + 1 < oc.len() {
                    assert(oc[i + 1].h@ == oc[i as int].hash_spec());
                }
            }
            i = i + 1;
        }
    }

    /// Drops from the pool every transaction that a canonical block from
    /// position `from` on contains.
    fn drop_confirmed(&mut self, from: usize)
        requires
            from <= old(self).canonical_blockchain.blocks@.len(),
        ensures
            final(self).id == old(self).id,
            final(self).keypair == old(self).keypair,
            final(self).genesis_time == old(self).genesis_time,
            final(self).canonical_blockchain == old(self).canonical_blockchain,
            final(self).node_blockchains == old(self).node_blockchains,
            final(self).unconfirmed_transactions.deep_view() == keep_unconfirmed(
                old(self).unconfirmed_transactions.deep_view(),
                old(self).canonical_blockchain.blocks@.subrange(
                    from as int,
                    old(self).canonical_blockchain.blocks@.len() as int,
                ),
            ),
    {
        let ghost bs = self.canonical_blockchain.blocks@.subrange(
            from as int,
            self.canonical_blockchain.blocks@.len() as int,
        );
        let mut kept: Vec<String> = Vec::new();
        let mut i: usize = 0;
        while i < self.unconfirmed_transactions.len()
            invariant
                from <= self.canonical_blockchain.blocks@.len(),
                bs == self.canonical_blockchain.blocks@.subrange(
                    from as int,
                    self.canonical_blockchain.blocks@.len() as int,
                ),
                0 <= i <= self.unconfirmed_transactions@.len(),
                kept.deep_view() == keep_unconfirmed(
                    self.unconfirmed_transactions.deep_view().subrange(0, i as int),
                    bs,
                ),
            decreases self.unconfirmed_transactions@.len() - i,
        {
            let ghost pool = self.unconfirmed_transactions.deep_view();
            assert(pool.subrange(0, i + 1).drop_last() =~= pool.subrange(0, i as int));
            assert(pool.subrange(0, i + 1).last() == self.unconfirmed_transactions@[i as int]@);
            if !blocks_hold_tx(&self.canonical_blockchain.blocks, from, &self.unconfirmed_transactions[i]) {
                let ghost before = kept.deep_view();
                kept.push(self.unconfirmed_transactions[i].clone());
                assert(kept.deep_view() =~= before.push(self.unconfirmed_transactions@[i as int]@));
            }
            i = i + 1;
        }
        assert(self.unconfirmed_transactions.deep_view().subrange(0, i as int)
            =~= self.unconfirmed_transactions.deep_view());
        self.unconfirmed_transactions = kept;
    }

    /// Drops every fork whose root may not follow the canonical tip, keeping
    /// the order of the others.
    fn prune_forks(&mut self)
        requires
            old(self).canonical_blockchain.blocks@.len() > 0,
        ensures
            final(self).id == old(self).id,
            final(self).keypair == old(self).keypair,
            final(self).genesis_time == old(self).genesis_time,
            final(self).canonical_blockchain == old(self).canonical_blockchain,
            final(self).unconfirmed_transactions == old(self).unconfirmed_transactions,
            chain_views(final(self).node_blockchains@) == kept_views(
                chain_views(old(self).node_blockchains@),
                old(self).canonical_blockchain.tip_spec(),
            ),
    {
        let ghost pre = *self;
        let ghost tip_block = self.canonical_blockchain.tip_spec();
        let tip = self.canonical_blockchain.tip();
        let tip_hash = tip.digest();
        let tip_e = tip.e;
        let mut rest: Vec<Blockchain> = Vec::new();
        std::mem::swap(&mut self.node_blockchains, &mut rest);
        let ghost orig = rest@;
        while rest.len() > 0
            invariant
                self.id == pre.id,
                self.keypair == pre.keypair,
                self.genesis_time == pre.genesis_time,
                self.canonical_blockchain == pre.canonical_blockchain,
                self.unconfirmed_transactions == pre.unconfirmed_transactions,
                tip_hash@ == tip_block.hash_spec(),
                tip_e == tip_block.e,
                rest@.len() <= orig.len(),
                rest@ == orig.subrange(orig.len() - rest@.len(), orig.len() as int),
                chain_views(self.node_blockchains@) == kept_views(
                    chain_views(orig.subrange(0, orig.len() - rest@.len())),
                    tip_block,
                ),
            decreases rest@.len(),
        {
            let ghost d = orig.len() - rest@.len();
            let ghost before = chain_views(self.node_blockchains@);
            let c = rest.remove(0);
            assert(c == orig[d]);
            assert(rest@ =~= orig.subrange(d + 1, orig.len() as int));
            let ghost v = chain_views(orig.subrange(0, d + 1));
            assert(v.drop_last() =~= chain_views(orig.subrange(0, d)));
            assert(v.last() == c.blocks@);
            if c.blocks.len() > 0 && c.blocks[0].h == tip_hash && c.blocks[0].e > tip_e {
                self.node_blockchains.push(c);
                assert(chain_views(self.node_blockchains@) =~= before.push(c.blocks@));
            }
        }
        assert(orig.subrange(0, orig.len() as int) =~= orig);
    }

    /// Finalizes what the chain at `blockchain_index` allows (see `finalized_post`).
    /// The canonical chain is wholly finalized already, so it is left alone.
    #[verifier::spinoff_prover]
    #[verifier::rlimit(50)]
    pub fn check_blockchain_finalization(&mut self, blockchain_index: ChainIndex)
        requires
            old(self).wf(),
            blockchain_index matches ChainIndex::Fork(f) ==> f < old(self).node_blockchains@.len(),
        ensures
            final(self).wf(),
            finalized_post(*old(self), blockchain_index, *final(self)),
            forall|t: Seq<char>|
                blocks_have_tx(
                    final(self).canonical_blockchain.blocks@.subrange(
                        old(self).canonical_blockchain.blocks@.len() as int,
                        final(self).canonical_blockchain.blocks@.len() as int,
                    ),
                    t,
                ) ==> !#[trigger] final(self).unconfirmed_transactions.deep_view().contains(t),
    {
        let f = match blockchain_index {
            ChainIndex::Canonical => {
                assert(Seq::<Block>::empty() =~= self.canonical_blockchain.blocks@.subrange(
                    self.canonical_blockchain.blocks@.len() as int,
                    self.canonical_blockchain.blocks@.len() as int,
                ));
                return;
            },
            ChainIndex::Fork(f) => f,
        };
        let ghost pre = *self;
        let ghost oc = self.node_blockchains@[f as int].blocks@;
        proof {
            assert(Seq::<Block>::empty() =~= self.canonical_blockchain.blocks@.subrange(
                self.canonical_blockchain.blocks@.len() as int,
                self.canonical_blockchain.blocks@.len() as int,
            ));
        }
        let len = self.node_blockchains[f].blocks.len();
        if len <= 2 {
            return;
        }
        let mut k: usize = 0;
        while k < len && self.node_blockchains[f].blocks[k].metadata.notarized
            invariant
                *self == pre,
                f < self.node_blockchains@.len(),
                oc == self.node_blockchains@[f as int].blocks@,
                len == oc.len(),
                0 <= k <= len,
                forall|i: int| 0 <= i < k ==> (#[trigger] oc[i]).metadata.notarized,
            decreases len - k,
        {
            k = k + 1;
        }
        proof {
            lemma_leading_notarized(oc, k as int);
        }
        if k <= 2 {
            return;
        }
        self.finalize_fork(f, k - 1);
    }

    /// Moves the first `m` blocks of fork `f` onto the canonical chain, drops
    /// their transactions from the pool and prunes the forks.
    #[verifier::spinoff_prover]
    fn finalize_fork(&mut self, f: usize, m: usize)
        requires
            old(self).wf(),
            f < old(self).node_blockchains@.len(),
            0 < m < old(self).node_blockchains@[f as int].blocks@.len(),
            forall|i: int|
                0 <= i < m ==> (#[trigger] old(self).node_blockchains@[f as int].blocks@[i]).metadata.notarized,
        ensures
            final(self).wf(),
            moved_and_pruned(*old(self), f as int, m as int, *final(self)),
            forall|t: Seq<char>|
                blocks_have_tx(
                    final(self).canonical_blockchain.blocks@.subrange(
                        old(self).canonical_blockchain.blocks@.len() as int,
                        final(self).canonical_blockchain.blocks@.len() as int,
                    ),
                    t,
                ) ==> !#[trigger] final(self).unconfirmed_transactions.deep_view().contains(t),
    {
        let ghost pre = *self;
        let ghost oc = self.node_blockchains@[f as int].blocks@;
        let ol = self.canonical_blockchain.blocks.len();
        self.move_prefix(f, m);
        let ghost mid = *self;
        self.drop_confirmed(ol);
        let ghost mid2 = *self;
        self.prune_forks();
        proof {
            lemma_finalize_fork(pre, mid, mid2, *self, f as int, m as int);
        }
    }

    /// Where a vote for `b` lands: the first fork holding a block with `b`'s
    /// identity, at the such block nearest its tip; else the canonical chain,
    /// likewise; else nowhere.
    pub open spec fn location_of(&self, b: Block) -> Option<(ChainIndex, int)> {
        if exists|f: int| first_holding(self.node_blockchains@, b, f) {
            let f = choose|f: int| first_holding(self.node_blockchains@, b, f);
            Some((ChainIndex::Fork(f as usize), pos_in(self.node_blockchains@[f], b)))
        } else if pos_in(self.canonical_blockchain, b) >= 0 {
            Some((ChainIndex::Canonical, pos_in(self.canonical_blockchain, b)))
        } else {
            None
        }
    }

    /// Finds the block a vote for `vote_block` lands on (see `location_of`).
    pub fn find_block(&self, vote_block: &Block) -> (r: Option<(ChainIndex, usize)>)
        ensures
            r is None ==> self.location_of(*vote_block) is None,
            r matches Some((c, k)) ==> self.location_of(*vote_block) == Some((c, k as int)) && is_loc(
                *self,
                c,
                k as int,
            ) && block_at(*self, c, k as int).same_identity(vote_block),
    {
        let mut f: usize = 0;
        while f < self.node_blockchains.len()
            invariant
                0 <= f <= self.node_blockchains@.len(),
                forall|j: int| 0 <= j < f ==> #[trigger] pos_in(self.node_blockchains@[j], *vote_block) < 0,
            decreases self.node_blockchains@.len() - f,
        {
            let ghost c = self.node_blockchains@[f as int];
            proof {
                lemma_last_pos(c.blocks@, *vote_block, c.blocks@.len() as int);
            }
            match find_in_chain(&self.node_blockchains[f], vote_block) {
                Some(k) => {
                    proof {
                        assert(first_holding(self.node_blockchains@, *vote_block, f as int));
                        let g = choose|g: int| first_holding(self.node_blockchains@, *vote_block, g);
                        assert(g == f) by {
                            if g < f {
                                assert(pos_in(self.node_blockchains@[g], *vote_block) < 0);
                            } else if g > f {
                                assert(pos_in(self.node_blockchains@[f as int], *vote_block) < 0);
                            }
                        }
                    }
                    return Some((ChainIndex::Fork(f), k));
                },
                None => {},
            }
            f = f + 1;
        }
        proof {
            lemma_last_pos(
                self.canonical_blockchain.blocks@,
                *vote_block,
                self.canonical_blockchain.blocks@.len() as int,
            );
            assert(!exists|g: int| first_holding(self.node_blockchains@, *vote_block, g));
        }
        match find_in_chain(&self.canonical_blockchain, vote_block) {
            Some(k) => Some((ChainIndex::Canonical, k)),
            None => None,
        }
    }

    /// Records a vote whose signature has been checked: adds it to the block it
    /// lands on unless an equal vote is there, notarizes that block once its
    /// votes exceed two thirds of `nodes_count`, and then checks its chain for
    /// finalization. A vote for a block the node does not hold is a protocol
    /// violation: callers test `find_block` first.
    #[verifier::spinoff_prover]
    #[verifier::rlimit(50)]
    pub fn apply_vote(&mut self, vote: &Vote, nodes_count: usize)
        requires
            old(self).wf(),
            old(self).location_of(vote.block) is Some,
        ensures
            final(self).wf(),
            vote_applied(*old(self), *vote, nodes_count as int, *final(self)),
    {
        let q = quorum(nodes_count);
        let (c, k) = match self.find_block(&vote.block) {
            None => return,
            Some(loc) => loc,
        };
        let target = match c {
            ChainIndex::Canonical => &self.canonical_blockchain.blocks[k],
            ChainIndex::Fork(f) => &self.node_blockchains[f].blocks[k],
        };
        if votes_contain_exec(&target.metadata.votes, vote) && (target.metadata.notarized
            || target.metadata.votes.len() <= q) {
            proof {
                assert(*target == block_at(*self, c, k as int));
                assert(vote_recorded(block_at(*self, c, k as int), *vote, q as int));
                match c {
                    ChainIndex::Canonical => {
                        assert(self.canonical_blockchain.blocks@.update(k as int, *target)
                            =~= self.canonical_blockchain.blocks@);
                    },
                    ChainIndex::Fork(f) => {
                        assert(self.node_blockchains@[f as int].blocks@.update(k as int, *target)
                            =~= self.node_blockchains@[f as int].blocks@);
                    },
                }
                assert(vote_recorded_in(*self, c, k as int, *vote, q as int, *self));
                lemma_vote_applied_unchanged(*self, c, k as int, *vote, nodes_count as int);
            }
            return;
        }
        let ghost pre = *self;
        let newly = match c {
            ChainIndex::Canonical => record_vote(&mut self.canonical_blockchain.blocks[k], vote, q),
            ChainIndex::Fork(f) => record_vote(&mut self.node_blockchains[f].blocks[k], vote, q),
        };
        proof {
            lemma_record_keeps_wf(pre, *self, c, k as int);
            assert(vote_recorded_in(pre, c, k as int, *vote, q as int, *self));
        }
        let ghost mid = *self;
        if newly {
            self.check_blockchain_finalization(c);
            // Reading the fork count bounds it by usize::MAX, which the lemma needs.
            let _fork_count = self.node_blockchains.len();
        }
        proof {
            lemma_vote_applied_step(pre, mid, *self, c, k as int, *vote, nodes_count as int);
        }
    }

    /// Handles a vote. A signature that does not verify under
    /// `node_public_key`, then a block the node does not hold, are protocol
    /// violations, refused in that order with the node unchanged; otherwise the
    /// vote is recorded as `apply_vote` does.
    pub fn receive_vote(
        &mut self,
        node_public_key: &Vec<u8>,
        vote: &Vote,
        nodes_count: usize,
    ) -> (r: Result<(), NodeError>)
        requires
            old(self).wf(),
        ensures
            final(self).wf(),
            r is Err ==> *final(self) == *old(self),
            r == Err::<(), NodeError>(NodeError::BadSignature) ==> !signed_by(node_public_key@, *vote),
            r == Err::<(), NodeError>(NodeError::UnknownBlock) ==> signed_by(node_public_key@, *vote)
                && old(self).location_of(vote.block) is None,
            r matches Err(e) ==> e == NodeError::BadSignature || e == NodeError::CryptoFailure
                || e == NodeError::UnknownBlock,
            signed_by(node_public_key@, *vote) && old(self).location_of(vote.block) is None ==> r == Err::<
                (),
                NodeError,
            >(NodeError::UnknownBlock) || r == Err::<(), NodeError>(NodeError::CryptoFailure),
            signed_by(node_public_key@, *vote) && old(self).location_of(vote.block) is Some ==> r is Ok || r
                == Err::<(), NodeError>(NodeError::CryptoFailure),
            r is Ok ==> signed_by(node_public_key@, *vote) && vote_applied(
                *old(self),
                *vote,
                nodes_count as int,
                *final(self),
            ),
    {
        match verify(node_public_key, &vote.block.signature_encode(), &vote.vote) {
            Ok(true) => {},
            Ok(false) => return Err(NodeError::BadSignature),
            Err(_) => return Err(NodeError::CryptoFailure),
        }
        if self.find_block(&vote.block).is_none() {
            return Err(NodeError::UnknownBlock);
        }
        self.apply_vote(vote, nodes_count);
        Ok(())
    }

    /// Hands a transaction to each of `nodes`, in order.
    pub fn broadcast_transaction(&mut self, nodes: Vec<&mut Node>, transaction: String)
        ensures
            forall|i: int|
                0 <= i < nodes@.len() ==> (*final(nodes@[i])).unconfirmed_transactions@ == (
                *nodes@[i]).unconfirmed_transactions@.push(transaction),
    {
        let ghost orig = nodes@;
        let mut rest = nodes;
        while rest.len() > 0
            invariant
                rest@.len() <= orig.len(),
                rest@ == orig.subrange(orig.len() - rest@.len(), orig.len() as int),
                forall|i: int|
                    0 <= i < orig.len() - rest@.len() ==> (*final(orig[i])).unconfirmed_transactions@ == (
                    *orig[i]).unconfirmed_transactions@.push(transaction),
            decreases rest@.len(),
        {
            let ghost d = orig.len() - rest@.len();
            let node = rest.remove(0);
            assert(node == orig[d]);
            assert(rest@ =~= orig.subrange(d + 1, orig.len() as int));
            node.receive_transaction(transaction.clone());
        }
    }

    /// The current epoch, from the time elapsed since genesis.
    pub fn get_current_epoch(&self) -> (r: u64)
        ensures
            exists|secs: u64| r == epoch_spec(secs),
    {
        let secs = elapsed_secs(&self.genesis_time);
        epoch_at(secs)
    }

    /// The leader of the current epoch.
    pub fn get_epoch_leader(&self, nodes_count: u64) -> (r: u64)
        requires
            nodes_count > 0,
        ensures
            r < nodes_count,
            exists|e: u64| r == leader_spec(e, nodes_count),
    {
        let epoch = self.get_current_epoch();
        leader_of_epoch(epoch, nodes_count)
    }

    /// Whether this node leads the current epoch.
    pub fn check_if_epoch_leader(&self, nodes_count: u64) -> (r: bool)
        requires
            nodes_count > 0,
        ensures
            exists|e: u64| r == (self.id == leader_spec(e, nodes_count)),
    {
        let epoch = self.get_current_epoch();
        self.id == leader_of_epoch(epoch, nodes_count)
    }

    /// Whether this node leads `epoch`.
    pub fn is_leader_at(&self, nodes_count: u64, epoch: u64) -> (r: bool)
        requires
            nodes_count > 0,
        ensures
            r == (self.id == leader_spec(epoch, nodes_count)),
    {
        self.id == leader_of_epoch(epoch, nodes_count)
    }
}

} // verus!
