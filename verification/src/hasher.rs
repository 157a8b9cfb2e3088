//! The hash capability and the digests of empty subtrees.

use core::marker::PhantomData;
use vstd::prelude::*;

verus! {

/// A deterministic hash function with a fixed output length.
pub trait Hasher {
    /// The length in bytes of every digest.
    spec fn spec_length() -> nat;

    /// The digest of `data`.
    spec fn spec_hash(data: Seq<u8>) -> Seq<u8>;

    /// Every digest has the declared length.
    proof fn lemma_digest_length(data: Seq<u8>)
        ensures
            Self::spec_hash(data).len() == Self::spec_length(),
    ;

    /// The length in bytes of every digest.
    fn length() -> (n: usize)
        ensures
            n == Self::spec_length(),
    ;

    /// Compute the digest of the provided bytes.
    fn hash(x: &[u8]) -> (out: Vec<u8>)
        ensures
            out@ == Self::spec_hash(x@),
    ;
}

/// The SHA3-256 digest of a byte string, as the `sha3` crate computes it.
pub uninterp spec fn sha3_256_digest(data: Seq<u8>) -> [u8; 32];

/// Calls `sha3::Sha3_256::digest` (through the `Digest` trait) on `data` and
/// copies the 32 output bytes. The digest depends on the input bytes alone;
/// the contract gives it the name `sha3_256_digest`.
#[verifier::external_body]
fn sha3_256(data: &[u8]) -> (out: Vec<u8>)
    ensures
        out@ == sha3_256_digest(data@)@,
{
    <sha3::Sha3_256 as sha3::Digest>::digest(data).to_vec()
}

/// SHA3-256.
#[derive(Clone, Copy, Debug, PartialEq, Eq)]
pub struct Sha3;

impl Hasher for Sha3 {
    open spec fn spec_length() -> nat {
        32
    }

    open spec fn spec_hash(data: Seq<u8>) -> Seq<u8> {
        sha3_256_digest(data)@
    }

    proof fn lemma_digest_length(data: Seq<u8>) {
    }

    fn length() -> (n: usize) {
        32
    }

    fn hash(x: &[u8]) -> (out: Vec<u8>) {
        sha3_256(x)
    }
}

/// The digest of the empty subtree rooted at `level` in a tree of `depth`
/// levels below the root: the digest of the empty byte string at the leaves,
/// and above them the digest of two copies of the level below.
pub open spec fn null_hash<H: Hasher>(depth: nat, level: nat) -> Seq<u8>
    decreases depth - level,
{
    if level >= depth {
        H::spec_hash(Seq::empty())
    } else {
        H::spec_hash(null_hash::<H>(depth, level + 1) + null_hash::<H>(depth, level + 1))
    }
}

/// The digests of the empty subtrees of a tree of the given depth, indexed
/// by level, the root's first.
pub fn compute_null_hashes<H: Hasher>(depth: usize) -> (hashes: Vec<Vec<u8>>)
    requires
        depth < usize::MAX,
    ensures
        hashes.len() == depth + 1,
        forall|level: int|
            0 <= level <= depth ==> (#[trigger] hashes[level])@ == null_hash::<H>(
                depth as nat,
                level as nat,
            ),
{
    // Built from the leaves up, then reversed.
    let mut rev: Vec<Vec<u8>> = Vec::new();
    let empty: Vec<u8> = Vec::new();
    rev.push(H::hash(empty.as_slice()));
    let mut i: usize = 0;
    while i < depth
        invariant
            i <= depth,
            depth < usize::MAX,
            rev.len() == i + 1,
            forall|j: int|
                0 <= j <= i ==> (#[trigger] rev[j])@ == null_hash::<H>(
                    depth as nat,
                    (depth - j) as nat,
                ),
        decreases depth - i,
    {
        let below = &rev[i];
        let mut both: Vec<u8> = Vec::new();
        both.extend_from_slice(below.as_slice());
        both.extend_from_slice(below.as_slice());
        assert(both@ =~= below@ + below@);
        let h = H::hash(both.as_slice());
        rev.push(h);
        i += 1;
    }
    let mut hashes: Vec<Vec<u8>> = Vec::new();
    let mut k: usize = 0;
    while k <= depth
        invariant
            k <= depth + 1,
            depth < usize::MAX,
            rev.len() == depth + 1,
            hashes.len() == k,
            forall|j: int|
                0 <= j <= depth ==> (#[trigger] rev[j])@ == null_hash::<H>(
                    depth as nat,
                    (depth - j) as nat,
                ),
            forall|level: int|
                0 <= level < k ==> (#[trigger] hashes[level])@ == null_hash::<H>(
                    depth as nat,
                    level as nat,
                ),
        decreases depth + 1 - k,
    {
        hashes.push(rev[depth - k].clone());
        k += 1;
    }
    hashes
}

/// The digests of the empty subtrees of a tree, computed once.
pub struct NullHashes<H: Hasher> {
    depth: usize,
    hashes: Vec<Vec<u8>>,
    hasher: PhantomData<H>,
}

impl<H: Hasher> NullHashes<H> {
    #[verifier::type_invariant]
    spec fn well_formed(self) -> bool {
        &&& self.hashes.len() == self.depth + 1
        &&& forall|level: int|
            0 <= level <= self.depth ==> (#[trigger] self.hashes[level])@ == null_hash::<H>(
                self.depth as nat,
                level as nat,
            )
    }

    /// The depth of the tree.
    pub closed spec fn spec_depth(&self) -> nat {
        self.depth as nat
    }

    /// The digests of the empty subtrees of a tree of the given depth.
    pub fn new(depth: usize) -> (hashes: Self)
        requires
            depth < usize::MAX,
        ensures
            hashes.spec_depth() == depth,
    {
        NullHashes { depth, hashes: compute_null_hashes::<H>(depth), hasher: PhantomData }
    }

    /// The depth of the tree.
    pub fn depth(&self) -> (depth: usize)
        ensures
            depth == self.spec_depth(),
    {
        self.depth
    }

    /// The digest of the empty subtree rooted at `level`.
    pub fn get(&self, level: usize) -> (hash: &Vec<u8>)
        requires
            level <= self.spec_depth(),
        ensures
            hash@ == null_hash::<H>(self.spec_depth(), level as nat),
    {
        proof {
            use_type_invariant(self);
        }
        &self.hashes[level]
    }
}

} // verus!
