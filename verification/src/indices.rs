//! Heap indices of the nodes along a bit path: the root is 1, and the
//! children of node `k` are `2k` and `2k + 1`.

use vstd::arithmetic::power2::{lemma_pow2_unfold, pow2};
use vstd::prelude::*;

verus! {

/// The heap index of the node that the path leads to.
pub open spec fn path_index(path: Seq<u8>) -> nat
    decreases path.len(),
{
    if path.len() == 0 {
        1
    } else {
        2 * path_index(path.drop_last()) + path.last() as nat
    }
}

/// The offset of the node among the nodes of its level: the path's bytes
/// weighted by descending powers of two.
pub open spec fn path_offset(path: Seq<u8>) -> nat
    decreases path.len(),
{
    if path.len() == 0 {
        0
    } else {
        2 * path_offset(path.drop_last()) + path.last() as nat
    }
}

/// Whether every byte of the path is 0 or 1.
pub open spec fn is_bit_path(path: Seq<u8>) -> bool {
    forall|i: int| 0 <= i < path.len() ==> #[trigger] path[i] <= 1
}

/// The left one of the two siblings among which `index` lies.
pub open spec fn left_sibling(index: nat) -> nat {
    if index % 2 == 0 {
        index
    } else {
        (index - 1) as nat
    }
}

/// The index is two to the power of the level, plus the offset in the level.
pub proof fn lemma_path_index_closed_form(path: Seq<u8>)
    ensures
        path_index(path) == pow2(path.len()) + path_offset(path),
    decreases path.len(),
{
    if path.len() == 0 {
        vstd::arithmetic::power2::lemma2_to64();
    } else {
        lemma_path_index_closed_form(path.drop_last());
        lemma_pow2_unfold(path.len());
    }
}

/// On a path of bits the offset stays within the level.
pub proof fn lemma_path_offset_bound(path: Seq<u8>)
    requires
        is_bit_path(path),
    ensures
        path_offset(path) < pow2(path.len()),
    decreases path.len(),
{
    if path.len() == 0 {
        vstd::arithmetic::power2::lemma2_to64();
    } else {
        let front = path.drop_last();
        assert(is_bit_path(front)) by {
            assert forall|i: int| 0 <= i < front.len() implies #[trigger] front[i] <= 1 by {
                assert(front[i] == path[i]);
            }
        }
        lemma_path_offset_bound(front);
        assert(path.last() == path[path.len() - 1]);
        lemma_pow2_unfold(path.len());
    }
}

/// On a path of bits the index lies in the range of its level.
pub proof fn lemma_path_index_bounds(path: Seq<u8>)
    requires
        is_bit_path(path),
    ensures
        pow2(path.len()) <= path_index(path) < pow2(path.len() + 1),
{
    lemma_path_index_closed_form(path);
    lemma_path_offset_bound(path);
    lemma_pow2_unfold(path.len() + 1);
}

/// The index of a prefix is at most the index of the whole path.
pub proof fn lemma_path_index_prefix(path: Seq<u8>, n: int)
    requires
        0 <= n <= path.len(),
    ensures
        path_index(path.take(n)) <= path_index(path),
    decreases path.len() - n,
{
    if n == path.len() {
        assert(path.take(n) =~= path);
    } else {
        lemma_path_index_prefix(path, n + 1);
        assert(path.take(n + 1).drop_last() =~= path.take(n));
    }
}

/// The root has index 1, and the two children of the node that a path
/// leads to are numbered twice its index and one more: each step of a bit
/// path lands on one of the two, and the left one is the even one.
pub proof fn lemma_sibling_indices(path: Seq<u8>, bit: u8)
    requires
        bit <= 1,
    ensures
        path_index(Seq::empty()) == 1,
        path_index(path.push(bit)) == 2 * path_index(path) + bit,
        left_sibling(path_index(path.push(bit))) == 2 * path_index(path),
        left_sibling(path_index(path.push(bit))) + 1 == 2 * path_index(path) + 1,
        left_sibling(path_index(path.push(bit))) <= path_index(path.push(bit))
            <= left_sibling(path_index(path.push(bit))) + 1,
{
    assert(path.push(bit).drop_last() =~= path);
    assert(path.push(bit).last() == bit);
}

/// The heap index of the node that the path of key bytes leads to.
pub fn compute_index(key: &[u8]) -> (index: usize)
    requires
        path_index(key@) <= usize::MAX,
    ensures
        index == path_index(key@),
{
    let len = key.len();
    let mut index: usize = 1;
    let mut i: usize = 0;
    while i < len
        invariant
            i <= len,
            len == key@.len(),
            index == path_index(key@.take(i as int)),
            path_index(key@) <= usize::MAX,
        decreases len - i,
    {
        proof {
            lemma_path_index_prefix(key@, i + 1);
            assert(key@.take(i + 1).drop_last() =~= key@.take(i as int));
            assert(key@.take(i + 1).last() == key@[i as int]);
        }
        index = 2 * index + key[i] as usize;
        i += 1;
    }
    proof {
        assert(key@.take(len as int) =~= key@);
    }
    index
}

} // verus!
