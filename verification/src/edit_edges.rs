//! How the edges of the rendered range follow the edits that add or remove
//! a leaf block.

use vstd::prelude::*;
use crate::children::{index_of_hash, lemma_index_of_hash, lemma_index_of_hash_is};
use crate::hash_index::unique_hashes;
use crate::leaf_algebra::{
    lemma_leaves_concat,
    lemma_leaves_cut,
    lemma_leaves_distinct,
    lemma_leaves_prefix_eq,
    lemma_replace_leaves,
};
use crate::leaves::{leaf_offset, leaves, leaves_of, lemma_branch_children, lemma_leaves_at, lemma_leaves_of_part};
use crate::merge::{bot_path, lemma_merge_target, lemma_merge_well_formed, lemma_merged_sound, merge_into, merged};
use crate::node_kind::PageNodeType;
use crate::page::EdgeElem;
use crate::page_node::NodeView;
use crate::view_state::{
    block_height, edges_fit, height_sum, lemma_height_sum_bounds, lemma_height_sum_cut, lemma_height_sum_same,
    lemma_index_at, lemma_leaf_index,
};

verus! {

/// The hashes of a row differ from one another.
pub open spec fn distinct(l: Seq<NodeView>) -> bool {
    forall|a: int, b: int| 0 <= a < b < l.len() ==> (#[trigger] l[a]).hash != (#[trigger] l[b]).hash
}

/// The bottom edge after Enter in the leaf block with hash `split`: where
/// that block was the bottom edge, the new block, which has the hash
/// `new_hash`, is.
pub open spec fn entered_bot(bot: EdgeElem, split: u32, new_hash: u32) -> EdgeElem {
    if bot.hash == split {
        EdgeElem { hash: new_hash, ..bot }
    } else {
        bot
    }
}

/// The top edge after the leaf block with index `i` was merged into the one
/// before it.
pub open spec fn merged_top(l: Seq<NodeView>, top: EdgeElem, i: int) -> EdgeElem {
    let lo = index_of_hash(l, top.hash);
    if i < lo {
        EdgeElem { pad: (top.pad - block_height(l[i])) as u32, ..top }
    } else if i == lo {
        EdgeElem { hash: l[i - 1].hash, pad: (top.pad - block_height(l[i - 1])) as u32, ..top }
    } else {
        top
    }
}

/// The bottom edge after the leaf block with index `i` was merged into the
/// one before it.
pub open spec fn merged_bot(l: Seq<NodeView>, bot: EdgeElem, i: int) -> EdgeElem {
    let hi = index_of_hash(l, bot.hash);
    if i > hi {
        EdgeElem { pad: (bot.pad - block_height(l[i])) as u32, ..bot }
    } else if i == hi {
        EdgeElem { hash: l[i - 1].hash, ..bot }
    } else {
        bot
    }
}

/// After Enter the edges fit again, with the bottom edge on the new block
/// where the split block was the bottom edge.
pub proof fn lemma_entered_edges_fit(
    l: Seq<NodeView>,
    l2: Seq<NodeView>,
    top: EdgeElem,
    bot: EdgeElem,
    i: int,
    new_hash: u32,
)
    requires
        edges_fit(l, top, bot),
        distinct(l),
        0 <= i < l.len(),
        l2.len() == l.len() + 1,
        forall|j: int| 0 <= j <= i ==> (#[trigger] l2[j]).hash == l[j].hash && block_height(l2[j]) == block_height(l[j]),
        l2[i + 1].hash == new_hash,
        block_height(l2[i + 1]) == 0,
        forall|j: int|
            i + 1 < j < l2.len() ==> (#[trigger] l2[j]).hash == l[j - 1].hash && block_height(l2[j]) == block_height(
                l[j - 1],
            ),
        forall|j: int| 0 <= j < l.len() ==> (#[trigger] l[j]).hash != new_hash,
    ensures
        edges_fit(l2, top, entered_bot(bot, l[i].hash, new_hash)),
        index_of_hash(l2, top.hash) == if index_of_hash(l, top.hash) <= i {
            index_of_hash(l, top.hash)
        } else {
            index_of_hash(l, top.hash) + 1
        },
        index_of_hash(l2, entered_bot(bot, l[i].hash, new_hash).hash) == if index_of_hash(l, bot.hash) < i {
            index_of_hash(l, bot.hash)
        } else {
            index_of_hash(l, bot.hash) + 1
        },
        (index_of_hash(l, bot.hash) == i) == (bot.hash == l[i].hash),
{
    let lo = index_of_hash(l, top.hash);
    let hi = index_of_hash(l, bot.hash);
    let n = l.len() as int;
    lemma_index_of_hash(l, top.hash);
    lemma_index_of_hash(l, bot.hash);
    let bot2 = entered_bot(bot, l[i].hash, new_hash);
    let lo2 = if lo <= i { lo } else { lo + 1 };
    let hi2 = if hi < i { hi } else { hi + 1 };
    assert(hi == i <==> bot.hash == l[i].hash) by {
        if bot.hash == l[i].hash && hi != i {
            assert(l[hi].hash == l[i].hash);
        }
    }
    assert forall|j: int| 0 <= j < lo2 implies (#[trigger] l2[j]).hash != top.hash by {
        if j <= i {
            assert(l2[j].hash == l[j].hash);
            if j >= lo {
                assert(l[j].hash != l[lo].hash);
            }
        } else if j == i + 1 {
            assert(l[lo].hash != new_hash);
        } else {
            assert(l2[j].hash == l[j - 1].hash);
        }
    }
    assert(l2[lo2].hash == top.hash) by {
        if lo > i {
            assert(l2[lo + 1].hash == l[lo].hash);
        }
    }
    lemma_index_of_hash_is(l2, top.hash, lo2);
    assert forall|j: int| 0 <= j < hi2 implies (#[trigger] l2[j]).hash != bot2.hash by {
        if j <= i {
            assert(l2[j].hash == l[j].hash);
            if hi == i {
                assert(l[j].hash != new_hash);
            } else if j >= hi {
                assert(l[j].hash != l[hi].hash);
            }
        } else if j == i + 1 {
            assert(l[hi].hash != new_hash);
        } else {
            assert(l2[j].hash == l[j - 1].hash);
        }
    }
    assert(l2[hi2].hash == bot2.hash) by {
        if hi > i {
            assert(l2[hi + 1].hash == l[hi].hash);
        }
    }
    lemma_index_of_hash_is(l2, bot2.hash, hi2);
    // the spacers
    if lo <= i {
        lemma_height_sum_same(l, l2, 0, lo, 0);
    } else {
        lemma_height_sum_cut(l2, 0, i + 1, lo + 1);
        lemma_height_sum_cut(l2, i + 1, i + 2, lo + 1);
        assert(height_sum(l2, i + 1, i + 2) == height_sum(l2, i + 1, i + 1) + block_height(l2[i + 1]));
        lemma_height_sum_same(l, l2, 0, i + 1, 0);
        assert forall|j: int| i + 1 <= j < lo implies block_height(#[trigger] l[j]) == block_height(l2[j + 1]) by {
            assert(l2[j + 1].hash == l[j].hash);
        }
        lemma_height_sum_same(l, l2, i + 1, lo, 1);
        lemma_height_sum_cut(l, 0, i + 1, lo);
    }
    if hi >= i {
        assert forall|j: int| hi + 1 <= j < n implies block_height(#[trigger] l[j]) == block_height(l2[j + 1]) by {
            assert(l2[j + 1].hash == l[j].hash);
        }
        lemma_height_sum_same(l, l2, hi + 1, n, 1);
    } else {
        lemma_height_sum_cut(l2, hi + 1, i + 1, n + 1);
        lemma_height_sum_cut(l2, i + 1, i + 2, n + 1);
        assert(height_sum(l2, i + 1, i + 2) == height_sum(l2, i + 1, i + 1) + block_height(l2[i + 1]));
        lemma_height_sum_same(l, l2, hi + 1, i + 1, 0);
        assert forall|j: int| i + 1 <= j < n implies block_height(#[trigger] l[j]) == block_height(l2[j + 1]) by {
            assert(l2[j + 1].hash == l[j].hash);
        }
        lemma_height_sum_same(l, l2, i + 1, n, 1);
        lemma_height_sum_cut(l, hi + 1, i + 1, n);
    }
}

/// Whether `l2` is `l` without its leaf block at index `i`, as far as
/// hashes and heights go.
#[verifier::opaque]
pub open spec fn without(l: Seq<NodeView>, l2: Seq<NodeView>, i: int) -> bool {
    &&& l2.len() == l.len() - 1
    &&& forall|j: int|
        0 <= j < i ==> (#[trigger] l2[j]).hash == l[j].hash && block_height(l2[j]) == block_height(l[j])
    &&& forall|j: int|
        i <= j < l2.len() ==> (#[trigger] l2[j]).hash == l[j + 1].hash && block_height(l2[j]) == block_height(
            l[j + 1],
        )
}

/// What `without` says of one index.
pub proof fn lemma_without_at(l: Seq<NodeView>, l2: Seq<NodeView>, i: int, j: int)
    requires
        without(l, l2, i),
        0 <= j < l2.len(),
    ensures
        l2.len() == l.len() - 1,
        j < i ==> l2[j].hash == l[j].hash && block_height(l2[j]) == block_height(l[j]),
        j >= i ==> l2[j].hash == l[j + 1].hash && block_height(l2[j]) == block_height(l[j + 1]),
{
    reveal(without);
}

/// `without` says how long the row is.
pub proof fn lemma_without_len(l: Seq<NodeView>, l2: Seq<NodeView>, i: int)
    requires
        without(l, l2, i),
    ensures
        l2.len() == l.len() - 1,
{
    reveal(without);
}

/// The top edge after a merge: its index and its spacer.
pub proof fn lemma_merged_top_fits(l: Seq<NodeView>, l2: Seq<NodeView>, top: EdgeElem, i: int)
    requires
        index_of_hash(l, top.hash) < l.len(),
        top.pad == height_sum(l, 0, index_of_hash(l, top.hash)),
        distinct(l),
        1 <= i < l.len(),
        without(l, l2, i),
    ensures
        index_of_hash(l2, merged_top(l, top, i).hash) == if index_of_hash(l, top.hash) < i {
            index_of_hash(l, top.hash)
        } else {
            index_of_hash(l, top.hash) - 1
        },
        merged_top(l, top, i).pad == height_sum(l2, 0, index_of_hash(l2, merged_top(l, top, i).hash)),
        top.pad - block_height(l[i]) >= 0 || i >= index_of_hash(l, top.hash),
        top.pad - block_height(l[i - 1]) >= 0 || i != index_of_hash(l, top.hash),
{
    let lo = index_of_hash(l, top.hash);
    lemma_index_of_hash(l, top.hash);
    let top2 = merged_top(l, top, i);
    let lo2 = if lo < i { lo } else { lo - 1 };
    lemma_without_len(l, l2, i);
    assert forall|j: int| 0 <= j < lo2 implies (#[trigger] l2[j]).hash != top2.hash by {
        lemma_without_at(l, l2, i, j);
        if j < i {
            if lo == i {
                assert(l[j].hash != l[i - 1].hash);
            }
        }
    }
    assert(l2[lo2].hash == top2.hash) by {
        lemma_without_at(l, l2, i, lo2);
    }
    lemma_index_of_hash_is(l2, top2.hash, lo2);
    lemma_without_sum_before(l, l2, i, lo);
}

/// The heights before an index, in a row without its leaf block at `i`.
pub proof fn lemma_without_sum_before(l: Seq<NodeView>, l2: Seq<NodeView>, i: int, lo: int)
    requires
        0 <= lo < l.len(),
        1 <= i < l.len(),
        without(l, l2, i),
    ensures
        lo < i ==> height_sum(l2, 0, lo) == height_sum(l, 0, lo),
        lo == i ==> height_sum(l2, 0, i - 1) == height_sum(l, 0, lo) - block_height(l[i - 1]),
        lo == i ==> height_sum(l2, 0, i - 1) >= 0,
        lo > i ==> height_sum(l2, 0, lo - 1) == height_sum(l, 0, lo) - block_height(l[i]),
        lo > i ==> height_sum(l2, 0, lo - 1) >= 0,
{
    lemma_without_len(l, l2, i);
    if lo <= i {
        let to = if lo < i { lo } else { i - 1 };
        assert forall|j: int| 0 <= j < to implies block_height(#[trigger] l[j]) == block_height(l2[j + 0]) by {
            lemma_without_at(l, l2, i, j);
        }
        lemma_height_sum_same(l, l2, 0, to, 0);
        lemma_height_sum_bounds(l2, 0, to);
    } else {
        lemma_height_sum_cut(l, 0, i, lo);
        lemma_height_sum_cut(l, i, i + 1, lo);
        assert(height_sum(l, i, i + 1) == height_sum(l, i, i) + block_height(l[i]));
        lemma_height_sum_cut(l2, 0, i, lo - 1);
        assert forall|j: int| 0 <= j < i implies block_height(#[trigger] l[j]) == block_height(l2[j + 0]) by {
            lemma_without_at(l, l2, i, j);
        }
        lemma_height_sum_same(l, l2, 0, i, 0);
        assert forall|j: int| i + 1 <= j < lo implies block_height(#[trigger] l[j]) == block_height(l2[j + (-1)]) by {
            lemma_without_at(l, l2, i, j - 1);
        }
        lemma_height_sum_same(l, l2, i + 1, lo, -1);
        lemma_height_sum_bounds(l2, 0, lo - 1);
    }
}

/// The heights behind an index, in a row without its leaf block at `i`.
pub proof fn lemma_without_sum_after(l: Seq<NodeView>, l2: Seq<NodeView>, i: int, hi: int)
    requires
        0 <= hi < l.len(),
        1 <= i < l.len(),
        without(l, l2, i),
    ensures
        hi >= i ==> height_sum(l2, hi, l2.len() as int) == height_sum(l, hi + 1, l.len() as int),
        hi < i ==> height_sum(l2, hi + 1, l2.len() as int) == height_sum(l, hi + 1, l.len() as int) - block_height(
            l[i],
        ),
        hi < i ==> height_sum(l2, hi + 1, l2.len() as int) >= 0,
{
    let n = l.len() as int;
    lemma_without_len(l, l2, i);
    if hi >= i {
        assert forall|j: int| hi + 1 <= j < n implies block_height(#[trigger] l[j]) == block_height(l2[j + (-1)]) by {
            lemma_without_at(l, l2, i, j - 1);
        }
        lemma_height_sum_same(l, l2, hi + 1, n, -1);
    } else {
        lemma_height_sum_cut(l, hi + 1, i, n);
        lemma_height_sum_cut(l, i, i + 1, n);
        assert(height_sum(l, i, i + 1) == height_sum(l, i, i) + block_height(l[i]));
        lemma_height_sum_cut(l2, hi + 1, i, n - 1);
        assert forall|j: int| hi + 1 <= j < i implies block_height(#[trigger] l[j]) == block_height(l2[j + 0]) by {
            lemma_without_at(l, l2, i, j);
        }
        lemma_height_sum_same(l, l2, hi + 1, i, 0);
        assert forall|j: int| i + 1 <= j < n implies block_height(#[trigger] l[j]) == block_height(l2[j + (-1)]) by {
            lemma_without_at(l, l2, i, j - 1);
        }
        lemma_height_sum_same(l, l2, i + 1, n, -1);
        lemma_height_sum_bounds(l2, hi + 1, n - 1);
    }
}

/// The index of the bottom edge after a merge.
pub proof fn lemma_merged_bot_index(l: Seq<NodeView>, l2: Seq<NodeView>, bot: EdgeElem, i: int)
    requires
        index_of_hash(l, bot.hash) < l.len(),
        distinct(l),
        1 <= i < l.len(),
        without(l, l2, i),
    ensures
        index_of_hash(l2, merged_bot(l, bot, i).hash) == if index_of_hash(l, bot.hash) < i {
            index_of_hash(l, bot.hash)
        } else {
            index_of_hash(l, bot.hash) - 1
        },
{
    let hi = index_of_hash(l, bot.hash);
    lemma_index_of_hash(l, bot.hash);
    let bot2 = merged_bot(l, bot, i);
    let hi2 = if hi < i { hi } else { hi - 1 };
    lemma_without_len(l, l2, i);
    assert forall|j: int| 0 <= j < hi2 implies (#[trigger] l2[j]).hash != bot2.hash by {
        lemma_without_at(l, l2, i, j);
        if j < i {
            if hi == i {
                assert(l[j].hash != l[i - 1].hash);
            }
        }
    }
    assert(l2[hi2].hash == bot2.hash) by {
        lemma_without_at(l, l2, i, hi2);
    }
    lemma_index_of_hash_is(l2, bot2.hash, hi2);
}

/// The bottom edge after a merge: its index and its spacer.
pub proof fn lemma_merged_bot_fits(l: Seq<NodeView>, l2: Seq<NodeView>, bot: EdgeElem, i: int)
    requires
        index_of_hash(l, bot.hash) < l.len(),
        bot.pad == height_sum(l, index_of_hash(l, bot.hash) + 1, l.len() as int),
        distinct(l),
        1 <= i < l.len(),
        without(l, l2, i),
    ensures
        index_of_hash(l2, merged_bot(l, bot, i).hash) == if index_of_hash(l, bot.hash) < i {
            index_of_hash(l, bot.hash)
        } else {
            index_of_hash(l, bot.hash) - 1
        },
        merged_bot(l, bot, i).pad == height_sum(
            l2,
            index_of_hash(l2, merged_bot(l, bot, i).hash) + 1,
            l2.len() as int,
        ),
        bot.pad - block_height(l[i]) >= 0 || i <= index_of_hash(l, bot.hash),
{
    lemma_index_of_hash(l, bot.hash);
    lemma_merged_bot_index(l, l2, bot, i);
    lemma_without_sum_after(l, l2, i, index_of_hash(l, bot.hash));
}

/// After a merge the edges fit again: an edge that was on the merged block
/// is on the block it was merged into, and a spacer that stood for the
/// merged block no longer does.
pub proof fn lemma_merged_edges_fit(l: Seq<NodeView>, l2: Seq<NodeView>, top: EdgeElem, bot: EdgeElem, i: int)
    requires
        edges_fit(l, top, bot),
        distinct(l),
        1 <= i < l.len(),
        without(l, l2, i),
    ensures
        edges_fit(l2, merged_top(l, top, i), merged_bot(l, bot, i)),
        top.pad - block_height(l[i]) >= 0 || i >= index_of_hash(l, top.hash),
        top.pad - block_height(l[i - 1]) >= 0 || i != index_of_hash(l, top.hash),
        bot.pad - block_height(l[i]) >= 0 || i <= index_of_hash(l, bot.hash),
{
    lemma_merged_top_fits(l, l2, top, i);
    lemma_merged_bot_fits(l, l2, bot, i);
    lemma_without_len(l, l2, i);
}

/// The page without its leaf block at child index `bi`: it is well formed,
/// and its row of leaf blocks is the old one without that block.
pub proof fn lemma_rest_leaves(root: NodeView, bi: int)
    requires
        root.kind == PageNodeType::Page,
        root.well_formed(),
        0 < bi < root.children.len(),
        root.children[bi].kind.is_leaf_block_kind(),
    ensures
        ({
            let rest = root.with_children(root.children.remove(bi));
            let l = leaves(root);
            let i = leaves_of(root.children, bi as nat).len() as int;
            &&& rest.well_formed()
            &&& 0 <= i < l.len()
            &&& l[i] == root.children[bi]
            &&& leaves(rest) == l.remove(i)
        }),
{
    let b = root.children[bi];
    let rest = root.with_children(root.children.remove(bi));
    let l = leaves(root);
    let head = root.children.subrange(0, bi);
    let tail = root.children.subrange(bi + 1, root.children.len() as int);
    lemma_leaves_cut(root.children, bi);
    assert(rest.children =~= head + tail);
    lemma_leaves_concat(head, tail);
    let i = leaves_of(root.children, bi as nat).len() as int;
    assert(leaves(b) =~= seq![b]);
    assert(leaves(rest) =~= l.remove(i));
    assert forall|x: int| 0 <= x < rest.children.len() implies crate::page_node::kind_accepts(
        rest.kind,
        (#[trigger] rest.children[x]).kind,
    ) && rest.children[x].well_formed() by {
        if x < bi {
            assert(rest.children[x] == root.children[x]);
            assert(crate::page_node::kind_accepts(root.kind, root.children[x].kind));
        } else {
            assert(rest.children[x] == root.children[x + 1]);
            assert(crate::page_node::kind_accepts(root.kind, root.children[x + 1].kind));
        }
    }
}

/// The leaf block that a top-level leaf block is merged into stands right
/// before it in the row, in the page and in the page without the block.
pub proof fn lemma_target_index(root: NodeView, bi: int)
    requires
        root.kind == PageNodeType::Page,
        root.well_formed(),
        root.bounded(),
        unique_hashes(root),
        0 < bi < root.children.len(),
        root.children[bi].kind.is_leaf_block_kind(),
    ensures
        ({
            let pp = seq![(bi - 1) as usize] + bot_path(root.children[bi - 1]);
            let rest = root.with_children(root.children.remove(bi));
            let l = leaves(root);
            let i = leaves_of(root.children, bi as nat).len() as int;
            &&& 1 <= i < l.len()
            &&& l[i - 1] == root.node_at(pp)
            &&& leaf_offset(rest, pp) == i - 1
            &&& rest.valid_path(pp)
            &&& rest.node_at(pp) == root.node_at(pp)
        }),
{
    let b = root.children[bi];
    let c = root.children[bi - 1];
    let pp = seq![(bi - 1) as usize] + bot_path(c);
    let rest = root.with_children(root.children.remove(bi));
    let l = leaves(root);
    let i = leaves_of(root.children, bi as nat).len() as int;
    lemma_merged_sound(root, bi);
    lemma_merge_target(root, bi);
    lemma_rest_leaves(root, bi);
    lemma_leaves_distinct(root);
    lemma_leaf_index(root, pp);
    let me = seq![bi as usize];
    assert(me.skip(1) =~= Seq::<usize>::empty());
    assert(crate::leaves::block_prefix(b, me.skip(1)) =~= Seq::<usize>::empty());
    assert(crate::leaves::block_prefix(root, me) =~= me);
    assert(leaf_offset(b, me.skip(1)) == 0);
    assert(crate::leaves::leaf_start(root, me) == i);
    assert(l[i - 1] == root.node_at(pp));
    lemma_index_at(l, i - 1);
    assert(leaf_offset(root, pp) == i - 1);
    assert(pp.skip(1) =~= bot_path(c));
    assert(rest.children.subrange(0, bi - 1) =~= root.children.subrange(0, bi - 1));
    lemma_leaves_prefix_eq(rest.children, root.children, (bi - 1) as nat);
    assert(rest.children[bi - 1] == c);
}

/// A merge takes the merged block out of the row of leaf blocks and leaves
/// the others with their hashes and heights.
pub proof fn lemma_merged_leaves(root: NodeView, bi: int)
    requires
        root.kind == PageNodeType::Page,
        root.well_formed(),
        root.bounded(),
        unique_hashes(root),
        0 < bi < root.children.len(),
        root.children[bi].kind.is_leaf_block_kind(),
    ensures
        ({
            let l = leaves(root);
            let l2 = leaves(merged(root, bi));
            let i = leaves_of(root.children, bi as nat).len() as int;
            &&& 1 <= i < l.len()
            &&& l[i] == root.children[bi]
            &&& l[i - 1] == root.node_at(seq![(bi - 1) as usize] + bot_path(root.children[bi - 1]))
            &&& without(l, l2, i)
        }),
{
    let b = root.children[bi];
    let pp = seq![(bi - 1) as usize] + bot_path(root.children[bi - 1]);
    let rest = root.with_children(root.children.remove(bi));
    let l = leaves(root);
    let i = leaves_of(root.children, bi as nat).len() as int;
    lemma_rest_leaves(root, bi);
    lemma_target_index(root, bi);
    lemma_merge_target(root, bi);
    let p = root.node_at(pp);
    let mp = merge_into(p, b);
    lemma_merge_well_formed(p, b);
    let lr = leaves(rest);
    lemma_replace_leaves(rest, pp, mp);
    assert(leaves(p) =~= seq![p]);
    assert(leaves(mp) =~= seq![mp]);
    let l2 = leaves(merged(root, bi));
    assert(l2 =~= lr.subrange(0, i - 1) + seq![mp] + lr.subrange(i, lr.len() as int));
    assert forall|j: int| 0 <= j < i implies (#[trigger] l2[j]).hash == l[j].hash && block_height(l2[j])
        == block_height(l[j]) by {
        if j == i - 1 {
            assert(l2[j] == mp);
        } else {
            assert(l2[j] == lr[j]);
        }
    }
    assert forall|j: int| i <= j < l2.len() implies (#[trigger] l2[j]).hash == l[j + 1].hash && block_height(l2[j])
        == block_height(l[j + 1]) by {
        assert(l2[j] == lr[j]);
    }
    reveal(without);
}

/// A leaf block below an earlier child of the root stands before a leaf
/// block that is a later child of the root, and the other way round.
pub proof fn lemma_top_level_order(root: NodeView, p: Seq<usize>, bi: int)
    requires
        root.well_formed(),
        root.kind.is_branch_block_kind(),
        root.valid_path(p),
        p.len() >= 1,
        root.node_at(p).kind.is_leaf_block_kind(),
        0 <= bi < root.children.len(),
        root.children[bi].kind.is_leaf_block_kind(),
    ensures
        (p[0] as int) < bi ==> leaf_offset(root, p) < leaves_of(root.children, bi as nat).len(),
        (p[0] as int) > bi ==> leaf_offset(root, p) > leaves_of(root.children, bi as nat).len(),
        (p[0] as int) == bi ==> leaf_offset(root, p) == leaves_of(root.children, bi as nat).len(),
{
    let j = p[0] as int;
    let c = root.children[j];
    lemma_branch_children(root);
    assert(c.node_at(p.skip(1)) == root.node_at(p));
    lemma_leaves_at(c, p.skip(1));
    assert(leaves(root.node_at(p)) =~= seq![root.node_at(p)]);
    if j < bi {
        lemma_leaves_of_part(root.children, j, bi as nat);
    } else if j > bi {
        lemma_leaves_of_part(root.children, bi, j as nat);
        assert(leaves(root.children[bi]) =~= seq![root.children[bi]]);
    } else {
        assert(leaves(c) =~= seq![c]);
    }
}

/// After Enter the edges fit the new tree, with the bottom edge on the new
/// block where the split block was the bottom edge.
pub proof fn lemma_entered_edges(
    m: Map<u32, Seq<usize>>,
    root: NodeView,
    path: Seq<usize>,
    k: int,
    ids: Seq<u32>,
    top: EdgeElem,
    bot: EdgeElem,
)
    requires
        root.kind == PageNodeType::Page,
        root.well_formed(),
        root.bounded(),
        unique_hashes(root),
        crate::hash_index::index_matches(m, root),
        root.valid_path(path),
        root.node_at(path).kind == PageNodeType::RawText,
        0 <= k <= root.node_at(path).text.len(),
        ids.len() == path.len() - crate::leaves::block_prefix(root, path).len() + 1,
        crate::issue::all_fresh(ids, m.dom()),
        edges_fit(leaves(root), top, bot),
    ensures
        edges_fit(
            leaves(crate::enter::entered(root, path, k, ids)),
            top,
            entered_bot(
                bot,
                root.node_at(crate::leaves::block_prefix(root, path)).hash,
                ids[path.len() - crate::leaves::block_prefix(root, path).len()],
            ),
        ),
{
    let b = crate::leaves::block_prefix(root, path);
    let q = path.skip(b.len() as int);
    let l = leaves(root);
    let l2 = leaves(crate::enter::entered(root, path, k, ids));
    let i = leaf_offset(root, b) as int;
    crate::enter::lemma_span_parts(root, path);
    crate::edit_leaves::lemma_entered_leaves(root, path, k, ids);
    lemma_leaves_distinct(root);
    let new_hash = ids[q.len() as int];
    assert forall|j: int| 0 <= j < l.len() implies (#[trigger] l[j]).hash != new_hash by {
        crate::leaf_path::lemma_leaf_indexed(m, root, j);
        assert(!m.dom().contains(ids[q.len() as int]));
    }
    let left = crate::enter::split_left(root.node_at(b), q, k);
    let right = crate::enter::split_right(root.node_at(b), q, k, ids);
    assert(l2 == l.subrange(0, i) + seq![left, right] + l.subrange(i + 1, l.len() as int));
    assert forall|j: int| 0 <= j <= i implies (#[trigger] l2[j]).hash == l[j].hash && block_height(l2[j])
        == block_height(l[j]) by {
        if j == i {
            assert(l2[j] == left);
        } else {
            assert(l2[j] == l[j]);
        }
    }
    assert(l2[i + 1] == right);
    assert forall|j: int| i + 1 < j < l2.len() implies (#[trigger] l2[j]).hash == l[j - 1].hash && block_height(
        l2[j],
    ) == block_height(l[j - 1]) by {
        assert(l2[j] == l[j - 1]);
    }
    lemma_entered_edges_fit(l, l2, top, bot, i, new_hash);
}

} // verus!
