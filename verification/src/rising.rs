//! Why the blocks that rise or fall with a leaf block at an edge are the
//! blocks that hold no other rendered leaf block.

use vstd::prelude::*;
use crate::edit_leaves::lemma_offset_child;
use crate::enter::lemma_path_split;
use crate::leaves::{leaf_offset, leaves, leaves_of, lemma_leaves_nonempty, lemma_leaves_of_part, lemma_node_at_well_formed};
use crate::page_node::{kind_accepts, NodeView};
use crate::render_in_view::{edge_step, is_rising};
use crate::surgery::lemma_child_at;

verus! {

/// The number of leaf blocks up to the end of the node at `p`.
pub open spec fn leaf_stop(root: NodeView, p: Seq<usize>) -> int {
    (leaf_offset(root, p) + leaves(root.node_at(p)).len()) as int
}

/// One step down to a child that is a block: where the leaf blocks of the
/// child start and stop among those of its parent.
pub proof fn lemma_step_down(root: NodeView, p: Seq<usize>, j: int)
    requires
        root.well_formed(),
        root.kind.spec_is_block(),
        root.valid_path(p),
        root.node_at(p).kind.spec_is_block(),
        0 <= j < p.len(),
    ensures
        root.valid_path(p.subrange(0, j)),
        root.valid_path(p.subrange(0, j + 1)),
        root.node_at(p.subrange(0, j)).kind.is_branch_block_kind(),
        (p[j] as int) < root.node_at(p.subrange(0, j)).children.len(),
        leaf_offset(root, p.subrange(0, j)) <= leaf_offset(root, p.subrange(0, j + 1)),
        leaf_stop(root, p.subrange(0, j + 1)) <= leaf_stop(root, p.subrange(0, j)),
        p[j] == 0 ==> leaf_offset(root, p.subrange(0, j + 1)) == leaf_offset(root, p.subrange(0, j)),
        p[j] > 0 ==> leaf_offset(root, p.subrange(0, j + 1)) > leaf_offset(root, p.subrange(0, j)),
        p[j] + 1 == root.node_at(p.subrange(0, j)).children.len() ==> leaf_stop(root, p.subrange(0, j + 1))
            == leaf_stop(root, p.subrange(0, j)),
        p[j] + 1 < root.node_at(p.subrange(0, j)).children.len() ==> leaf_stop(root, p.subrange(0, j + 1))
            < leaf_stop(root, p.subrange(0, j)),
{
    let pre = p.subrange(0, j);
    let nxt = p.subrange(0, j + 1);
    let i = p[j];
    lemma_path_split(root, p, j);
    lemma_path_split(root, p, j + 1);
    assert(nxt =~= pre + seq![i]);
    let q = root.node_at(pre);
    lemma_node_at_well_formed(root, pre);
    lemma_node_at_well_formed(root, nxt);
    assert(p.skip(j)[0] == i);
    assert(q.valid_path(p.skip(j)));
    lemma_child_at(root, pre, i);
    let c = q.children[i as int];
    assert(kind_accepts(q.kind, c.kind));
    // the child is a block, for the node at the end of the location is one
    assert(c.kind.spec_is_block()) by {
        if !c.kind.spec_is_block() {
            assert(p.skip(j).skip(1) =~= p.skip(j + 1));
            crate::leaves::lemma_below_span(c, p.skip(j + 1));
        }
    }
    crate::leaves::lemma_branch_children(q);
    lemma_offset_child(root, pre, i);
    lemma_leaves_of_part(q.children, i as int, q.children.len());
    if i > 0 {
        lemma_leaves_nonempty(q.children[0]);
        lemma_leaves_of_part(q.children, 0, i as nat);
    }
    if i + 1 < q.children.len() {
        lemma_leaves_nonempty(q.children[i + 1]);
        lemma_leaves_of_part(q.children, i + 1, q.children.len());
        assert(leaves_of(q.children, (i + 1) as nat) == leaves_of(q.children, i as nat) + leaves(c));
    } else {
        assert(leaves_of(q.children, q.children.len()) == leaves_of(q.children, i as nat) + leaves(c));
    }
}

/// At the top edge: the blocks from the rising depth on stop with the leaf
/// block, so they hold no leaf block behind it; the block above them holds
/// the next leaf block too.
pub proof fn lemma_rising_last(root: NodeView, p: Seq<usize>, d: int, j: int)
    requires
        root.well_formed(),
        root.kind.spec_is_block(),
        root.valid_path(p),
        root.node_at(p).kind.is_leaf_block_kind(),
        is_rising(root, p, true, d),
        1 <= d <= j <= p.len(),
    ensures
        leaf_stop(root, p.subrange(0, j)) == leaf_offset(root, p) + 1,
        j == d ==> leaf_stop(root, p.subrange(0, d - 1)) > leaf_offset(root, p) + 1 || d == 1,
    decreases p.len() - j,
{
    if j == p.len() {
        assert(p.subrange(0, j) =~= p);
        assert(leaves(root.node_at(p)) =~= seq![root.node_at(p)]);
    } else {
        lemma_rising_last(root, p, d, j + 1);
        lemma_step_down(root, p, j);
        assert(edge_step(root, p, j, true));
    }
    if j == d && d > 1 {
        lemma_step_down(root, p, d - 1);
        assert(!edge_step(root, p, d - 1, true));
    }
}

/// At the bottom edge: the blocks from the rising depth on start with the
/// leaf block, so they hold no leaf block before it; the block above them
/// holds the leaf block before it too.
pub proof fn lemma_rising_first(root: NodeView, p: Seq<usize>, d: int, j: int)
    requires
        root.well_formed(),
        root.kind.spec_is_block(),
        root.valid_path(p),
        root.node_at(p).kind.is_leaf_block_kind(),
        is_rising(root, p, false, d),
        1 <= d <= j <= p.len(),
    ensures
        leaf_offset(root, p.subrange(0, j)) == leaf_offset(root, p),
        j == d ==> leaf_offset(root, p.subrange(0, d - 1)) < leaf_offset(root, p) || d == 1,
    decreases p.len() - j,
{
    if j == p.len() {
        assert(p.subrange(0, j) =~= p);
    } else {
        lemma_rising_first(root, p, d, j + 1);
        lemma_step_down(root, p, j);
        assert(edge_step(root, p, j, false));
    }
    if j == d && d > 1 {
        lemma_step_down(root, p, d - 1);
        assert(!edge_step(root, p, d - 1, false));
    }
}

} // verus!
