//! Blocks: an identity `(parent_hash, epoch, transactions)` plus metadata.
use crate::crypto::{sha256, sha256_of};
use crate::encoding::{block_encoding, encode_identity, hex_of, to_hex};
use crate::metadata::Metadata;
use vstd::prelude::*;

verus! {

/// The hash of a block identity: the lowercase hex of the SHA-256 digest of its
/// canonical encoding.
pub open spec fn block_hash(h: Seq<char>, e: u64, txs: Seq<Seq<char>>) -> Seq<char> {
    hex_of(sha256_of(block_encoding(h, e, txs)))
}

/// A tuple (h, e, txs, metadata); `h` is the hash of the parent block.
#[derive(Debug)]
pub struct Block {
    /// Parent hash
    pub h: String,
    /// Epoch number
    pub e: u64,
    /// Transactions payload
    pub txs: Vec<String>,
    /// Additional block information
    pub metadata: Metadata,
}

/// Whether two lists of strings are equal.
pub fn strings_equal(a: &Vec<String>, b: &Vec<String>) -> (r: bool)
    ensures
        r == (a.deep_view() == b.deep_view()),
{
    if a.len() != b.len() {
        assert(a.deep_view().len() != b.deep_view().len());
        return false;
    }
    let mut i: usize = 0;
    while i < a.len()
        invariant
            a@.len() == b@.len(),
            0 <= i <= a@.len(),
            forall|j: int| 0 <= j < i ==> a.deep_view()[j] == b.deep_view()[j],
        decreases a@.len() - i,
    {
        if a[i] != b[i] {
            assert(a.deep_view()[i as int] != b.deep_view()[i as int]);
            return false;
        }
        i = i + 1;
    }
    assert(a.deep_view() =~= b.deep_view());
    true
}

/// A copy of a list of strings.
pub fn copy_strings(a: &Vec<String>) -> (r: Vec<String>)
    ensures
        r.deep_view() == a.deep_view(),
{
    let mut out: Vec<String> = Vec::new();
    let mut i: usize = 0;
    while i < a.len()
        invariant
            0 <= i <= a@.len(),
            out@.len() == i,
            forall|j: int| 0 <= j < i ==> out@[j]@ == a@[j]@,
        decreases a@.len() - i,
    {
        out.push(a[i].clone());
        i = i + 1;
    }
    assert(out.deep_view() =~= a.deep_view());
    out
}

impl Block {
    /// Two blocks are the same block when their identities agree; metadata does not count.
    pub open spec fn same_identity(&self, o: &Block) -> bool {
        &&& self.h@ == o.h@
        &&& self.e == o.e
        &&& self.txs.deep_view() == o.txs.deep_view()
    }

    /// The canonical encoding of the block's identity.
    pub open spec fn encoding(&self) -> Seq<u8> {
        block_encoding(self.h@, self.e, self.txs.deep_view())
    }

    /// The hash by which children refer to this block.
    pub open spec fn hash_spec(&self) -> Seq<char> {
        block_hash(self.h@, self.e, self.txs.deep_view())
    }

    pub fn new(h: String, e: u64, txs: Vec<String>) -> (r: Block)
        ensures
            r.h == h,
            r.e == e,
            r.txs == txs,
            r.metadata.is_fresh(),
    {
        Block { h, e, txs, metadata: Metadata::new() }
    }

    /// The bytes that are signed and hashed for this block.
    pub fn signature_encode(&self) -> (r: Vec<u8>)
        ensures
            r@ == self.encoding(),
    {
        encode_identity(&self.h, self.e, &self.txs)
    }

    /// The hash by which children refer to this block.
    pub fn digest(&self) -> (r: String)
        ensures
            r@ == self.hash_spec(),
    {
        let encoded = self.signature_encode();
        let d = sha256(&encoded);
        to_hex(&d)
    }

    /// Whether `self` and `o` are the same block.
    pub fn same_as(&self, o: &Block) -> (r: bool)
        ensures
            r == self.same_identity(o),
    {
        self.e == o.e && self.h == o.h && strings_equal(&self.txs, &o.txs)
    }

    /// A block with the same identity and fresh metadata.
    pub fn copy_identity(&self) -> (r: Block)
        ensures
            r.same_identity(self),
            r.metadata.is_fresh(),
    {
        Block::new(self.h.clone(), self.e, copy_strings(&self.txs))
    }
}

impl PartialEq for Block {
    fn eq(&self, o: &Block) -> (r: bool) {
        self.same_as(o)
    }
}

impl vstd::std_specs::cmp::PartialEqSpecImpl for Block {
    open spec fn obeys_eq_spec() -> bool {
        true
    }

    open spec fn eq_spec(&self, o: &Block) -> bool {
        self.same_identity(o)
    }
}

} // verus!
