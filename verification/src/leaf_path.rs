//! From the index of a leaf block back to its location.

use vstd::prelude::*;
use crate::hash_index::{index_matches, unique_hashes};
use crate::leaves::{leaf_offset, leaves, leaves_of, lemma_branch_children, lemma_leaves_nonempty};
use crate::page_node::NodeView;

verus! {

/// The location of the leaf block with index `i` among the leaf blocks of
/// the block `n`.
pub open spec fn leaf_path(n: NodeView, i: nat) -> Seq<usize>
    decreases n, 0nat,
{
    if n.kind.is_branch_block_kind() {
        leaf_path_in(n.children, n.children.len(), i)
    } else {
        Seq::empty()
    }
}

/// The location, counted from their parent, of the leaf block with index
/// `i` among the leaf blocks of the first `k` trees of `s`.
pub open spec fn leaf_path_in(s: Seq<NodeView>, k: nat, i: nat) -> Seq<usize>
    decreases s, k,
{
    if k == 0 || k > s.len() {
        Seq::empty()
    } else if i >= leaves_of(s, (k - 1) as nat).len() {
        seq![(k - 1) as usize] + leaf_path(s[k - 1], (i - leaves_of(s, (k - 1) as nat).len()) as nat)
    } else {
        leaf_path_in(s, (k - 1) as nat, i)
    }
}

/// `leaf_path` leads to the leaf block with the index.
pub proof fn lemma_leaf_path(n: NodeView, i: nat)
    requires
        n.well_formed(),
        n.bounded(),
        n.kind.spec_is_block(),
        i < leaves(n).len(),
    ensures
        n.valid_path(leaf_path(n, i)),
        n.node_at(leaf_path(n, i)) == leaves(n)[i as int],
        n.node_at(leaf_path(n, i)).kind.is_leaf_block_kind(),
        leaf_offset(n, leaf_path(n, i)) == i,
    decreases n, 0nat,
{
    lemma_leaves_nonempty(n);
    if n.kind.is_branch_block_kind() {
        lemma_branch_children(n);
        lemma_leaf_path_in(n.children, n.children.len(), i);
    }
}

/// The same among the first `k` trees of a row of blocks.
pub proof fn lemma_leaf_path_in(s: Seq<NodeView>, k: nat, i: nat)
    requires
        k <= s.len() <= usize::MAX,
        forall|x: int| 0 <= x < s.len() ==> (#[trigger] s[x]).well_formed() && s[x].kind.spec_is_block() && s[x].bounded(),
        i < leaves_of(s, k).len(),
    ensures
        ({
            let p = leaf_path_in(s, k, i);
            &&& p.len() >= 1
            &&& (p[0] as int) < k
            &&& s[p[0] as int].valid_path(p.skip(1))
            &&& s[p[0] as int].node_at(p.skip(1)) == leaves_of(s, k)[i as int]
            &&& s[p[0] as int].node_at(p.skip(1)).kind.is_leaf_block_kind()
            &&& leaves_of(s, p[0] as nat).len() + leaf_offset(s[p[0] as int], p.skip(1)) == i
        }),
    decreases s, k,
{
    let a = leaves_of(s, (k - 1) as nat).len();
    if i >= a {
        let c = s[k - 1];
        let rest = leaf_path(c, (i - a) as nat);
        lemma_leaf_path(c, (i - a) as nat);
        let p = leaf_path_in(s, k, i);
        assert(p.skip(1) =~= rest);
    } else {
        lemma_leaf_path_in(s, (k - 1) as nat, i);
    }
}

/// Every leaf block has an entry in the index, at a location with as many
/// leaf blocks before it as its index says.
pub proof fn lemma_leaf_indexed(m: Map<u32, Seq<usize>>, root: NodeView, i: int)
    requires
        root.well_formed(),
        root.bounded(),
        root.kind.spec_is_block(),
        unique_hashes(root),
        index_matches(m, root),
        0 <= i < leaves(root).len(),
    ensures
        m.contains_key(leaves(root)[i].hash),
        root.valid_path(m[leaves(root)[i].hash]),
        root.node_at(m[leaves(root)[i].hash]) == leaves(root)[i],
        leaf_offset(root, m[leaves(root)[i].hash]) == i,
        leaves(root)[i].kind.is_leaf_block_kind(),
{
    lemma_leaf_path(root, i as nat);
    let p = leaf_path(root, i as nat);
    assert(root.valid_path(p));
}

} // verus!
