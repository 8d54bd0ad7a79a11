//! The rendered range: which leaf blocks have elements, and how high the two
//! spacers are that stand for the others.

use vstd::prelude::*;
use crate::children::{index_of_hash, lemma_index_of_hash, lemma_index_of_hash_is};
use crate::hash_index::unique_hashes;
use crate::leaf_algebra::lemma_leaves_distinct;
use crate::leaves::{leaf_offset, leaves, lemma_leaves_at};
use crate::page::{EdgeElem, Page};
use crate::page_node::NodeView;

verus! {

/// The height that a leaf block takes when it is rendered: the height that
/// was measured, and what its kind adds.
pub open spec fn block_height(n: NodeView) -> int {
    n.height + n.kind.spec_innate_height()
}

/// The heights of the leaf blocks of `l` from index `from` up to `to`,
/// added up.
pub open spec fn height_sum(l: Seq<NodeView>, from: int, to: int) -> int
    decreases to - from,
{
    if from >= to {
        0
    } else {
        height_sum(l, from, to - 1) + block_height(l[to - 1])
    }
}

/// Whether the two edges fit the row `l` of leaf blocks: both name a leaf
/// block, the top one not behind the bottom one, and each spacer is as high
/// as the leaf blocks beyond its edge are together.
pub open spec fn edges_fit(l: Seq<NodeView>, top: EdgeElem, bot: EdgeElem) -> bool {
    let lo = index_of_hash(l, top.hash);
    let hi = index_of_hash(l, bot.hash);
    &&& 0 <= lo <= hi < l.len()
    &&& top.pad == height_sum(l, 0, lo)
    &&& bot.pad == height_sum(l, hi + 1, l.len() as int)
}

/// Two rows of leaf blocks with the same hashes and the same heights.
pub open spec fn same_sigs(a: Seq<NodeView>, b: Seq<NodeView>) -> bool {
    &&& a.len() == b.len()
    &&& forall|i: int|
        0 <= i < a.len() ==> (#[trigger] a[i]).hash == b[i].hash && block_height(a[i]) == block_height(b[i])
}

impl Page {
    /// The index, among the leaf blocks, of the top edge.
    pub open spec fn top_index(&self) -> int {
        index_of_hash(leaves(self.nodes@), self.top_elem.hash)
    }

    /// The index, among the leaf blocks, of the bottom edge.
    pub open spec fn bot_index(&self) -> int {
        index_of_hash(leaves(self.nodes@), self.bot_elem.hash)
    }

    /// The edges fit the document.
    pub open spec fn edges_ok(&self) -> bool {
        edges_fit(leaves(self.nodes@), self.top_elem, self.bot_elem)
    }

    /// The page is sound: the document is, and the edges fit it.
    pub open spec fn sound(&self) -> bool {
        self.wf() && self.edges_ok()
    }

    /// Whether the leaf block with index `i` is rendered: it lies between
    /// the edges.
    pub open spec fn leaf_attached(&self, i: int) -> bool {
        self.top_index() <= i <= self.bot_index()
    }
}

/// Heights add up to nothing less than nothing.
pub proof fn lemma_height_sum_bounds(l: Seq<NodeView>, from: int, to: int)
    requires
        0 <= from,
        to <= l.len(),
    ensures
        height_sum(l, from, to) >= 0,
    decreases to - from,
{
    if from < to {
        lemma_height_sum_bounds(l, from, to - 1);
    }
}

/// Heights of a range, cut at `mid`.
pub proof fn lemma_height_sum_cut(l: Seq<NodeView>, from: int, mid: int, to: int)
    requires
        from <= mid <= to,
    ensures
        height_sum(l, from, to) == height_sum(l, from, mid) + height_sum(l, mid, to),
    decreases to - mid,
{
    if mid < to {
        lemma_height_sum_cut(l, from, mid, to - 1);
    }
}

/// Heights of a range depend on the leaf blocks of that range alone.
pub proof fn lemma_height_sum_same(a: Seq<NodeView>, b: Seq<NodeView>, from: int, to: int, shift: int)
    requires
        0 <= from,
        to <= a.len(),
        0 <= from + shift,
        to + shift <= b.len(),
        forall|i: int| from <= i < to ==> block_height(#[trigger] a[i]) == block_height(b[i + shift]),
    ensures
        height_sum(a, from, to) == height_sum(b, from + shift, to + shift),
    decreases to - from,
{
    if from < to {
        lemma_height_sum_same(a, b, from, to - 1, shift);
        assert(block_height(a[to - 1]) == block_height(b[to - 1 + shift]));
    }
}

/// The spacers and the rendered leaf blocks together are as high as the
/// whole document.
pub proof fn lemma_heights_add_up(l: Seq<NodeView>, top: EdgeElem, bot: EdgeElem)
    requires
        edges_fit(l, top, bot),
    ensures
        top.pad + height_sum(l, index_of_hash(l, top.hash), index_of_hash(l, bot.hash) + 1) + bot.pad == height_sum(
            l,
            0,
            l.len() as int,
        ),
{
    let lo = index_of_hash(l, top.hash);
    let hi = index_of_hash(l, bot.hash);
    lemma_height_sum_cut(l, 0, lo, l.len() as int);
    lemma_height_sum_cut(l, lo, hi + 1, l.len() as int);
}

/// Where the hashes of a row differ from one another, the index of a hash
/// is the place where it stands.
pub proof fn lemma_index_at(l: Seq<NodeView>, i: int)
    requires
        0 <= i < l.len(),
        forall|a: int, b: int| 0 <= a < b < l.len() ==> (#[trigger] l[a]).hash != (#[trigger] l[b]).hash,
    ensures
        index_of_hash(l, l[i].hash) == i,
{
    assert forall|j: int| 0 <= j < i implies (#[trigger] l[j]).hash != l[i].hash by {
        assert(l[j].hash != l[i].hash);
    }
    lemma_index_of_hash_is(l, l[i].hash, i);
}

/// The index of a leaf block among the leaf blocks is the number of leaf
/// blocks before it.
pub proof fn lemma_leaf_index(root: NodeView, p: Seq<usize>)
    requires
        root.well_formed(),
        root.kind.spec_is_block(),
        unique_hashes(root),
        root.valid_path(p),
        root.node_at(p).kind.is_leaf_block_kind(),
    ensures
        leaf_offset(root, p) < leaves(root).len(),
        leaves(root)[leaf_offset(root, p) as int] == root.node_at(p),
        index_of_hash(leaves(root), root.node_at(p).hash) == leaf_offset(root, p),
{
    lemma_leaves_at(root, p);
    let off = leaf_offset(root, p) as int;
    let l = leaves(root);
    assert(l.subrange(off, off + 1)[0] == l[off]);
    lemma_leaves_distinct(root);
    lemma_index_at(l, off);
}

/// Rows with the same hashes and heights give every hash the same index and
/// every range the same height.
pub proof fn lemma_same_sigs(a: Seq<NodeView>, b: Seq<NodeView>, h: u32)
    requires
        same_sigs(a, b),
    ensures
        index_of_hash(a, h) == index_of_hash(b, h),
{
    lemma_index_of_hash(a, h);
    let i = index_of_hash(a, h);
    assert forall|j: int| 0 <= j < i implies (#[trigger] b[j]).hash != h by {
        assert(a[j].hash != h);
    }
    lemma_index_of_hash_is(b, h, i);
}

/// Edges that fit a row fit every row with the same hashes and heights.
pub proof fn lemma_edges_same_sigs(a: Seq<NodeView>, b: Seq<NodeView>, top: EdgeElem, bot: EdgeElem)
    requires
        same_sigs(a, b),
        edges_fit(a, top, bot),
    ensures
        edges_fit(b, top, bot),
{
    lemma_same_sigs(a, b, top.hash);
    lemma_same_sigs(a, b, bot.hash);
    let lo = index_of_hash(a, top.hash);
    let hi = index_of_hash(a, bot.hash);
    lemma_height_sum_same(a, b, 0, lo, 0);
    lemma_height_sum_same(a, b, hi + 1, a.len() as int, 0);
}

} // verus!
