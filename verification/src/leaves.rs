//! The leaf blocks of the document in document order, and the walk from one
//! leaf block to the next.

use vstd::prelude::*;
use crate::page_node::{kind_accepts, NodeView, PageNode};

verus! {

/// The leaf blocks of the tree in document order.
pub open spec fn leaves(n: NodeView) -> Seq<NodeView>
    decreases n, 0nat,
{
    if n.kind.is_leaf_block_kind() {
        seq![n]
    } else if n.kind.is_branch_block_kind() {
        leaves_of(n.children, n.children.len())
    } else {
        Seq::empty()
    }
}

/// The leaf blocks of the first `k` trees of `s` in document order.
pub open spec fn leaves_of(s: Seq<NodeView>, k: nat) -> Seq<NodeView>
    decreases s, k,
{
    if k == 0 || k > s.len() {
        Seq::empty()
    } else {
        leaves_of(s, (k - 1) as nat) + leaves(s[k - 1])
    }
}

/// The number of leaf blocks that stand before the node at `p` in document
/// order.
pub open spec fn leaf_offset(n: NodeView, p: Seq<usize>) -> nat
    decreases p.len(),
{
    if p.len() == 0 || (p[0] as int) >= n.children.len() {
        0
    } else {
        leaves_of(n.children, p[0] as nat).len() + leaf_offset(n.children[p[0] as int], p.skip(1))
    }
}

/// The part of a location that leads through blocks: it ends at the block
/// that the location names, or at the leaf block around the span that it
/// names.
pub open spec fn block_prefix(n: NodeView, p: Seq<usize>) -> Seq<usize>
    decreases p.len(),
{
    if p.len() == 0 || (p[0] as int) >= n.children.len() || !n.children[p[0] as int].kind.spec_is_block() {
        Seq::empty()
    } else {
        seq![p[0]] + block_prefix(n.children[p[0] as int], p.skip(1))
    }
}

/// The number of leaf blocks up to the end of the block that `p` names or
/// stands in.
pub open spec fn leaf_end(n: NodeView, p: Seq<usize>) -> nat {
    let b = block_prefix(n, p);
    leaf_offset(n, b) + leaves(n.node_at(b)).len()
}

/// The number of leaf blocks before the block that `p` names or stands in.
pub open spec fn leaf_start(n: NodeView, p: Seq<usize>) -> nat {
    leaf_offset(n, block_prefix(n, p))
}

/// The nearest leaf block after the node at `p` in document order.
pub open spec fn next_leaf(n: NodeView, p: Seq<usize>) -> Option<NodeView> {
    if leaf_end(n, p) < leaves(n).len() {
        Some(leaves(n)[leaf_end(n, p) as int])
    } else {
        None
    }
}

/// The nearest leaf block before the node at `p` in document order.
pub open spec fn prev_leaf(n: NodeView, p: Seq<usize>) -> Option<NodeView> {
    if leaf_start(n, p) > 0 {
        Some(leaves(n)[leaf_start(n, p) - 1])
    } else {
        None
    }
}

/// The leaf blocks of one tree among the first `k` stand together in the
/// leaf blocks of all of them, behind those of the trees before it.
pub proof fn lemma_leaves_of_part(s: Seq<NodeView>, j: int, k: nat)
    requires
        0 <= j < k <= s.len(),
    ensures
        leaves_of(s, j as nat).len() + leaves(s[j]).len() <= leaves_of(s, k).len(),
        leaves_of(s, k).subrange(
            leaves_of(s, j as nat).len() as int,
            (leaves_of(s, j as nat).len() + leaves(s[j]).len()) as int,
        ) == leaves(s[j]),
        leaves_of(s, k).subrange(0, leaves_of(s, j as nat).len() as int) == leaves_of(s, j as nat),
    decreases k,
{
    let a = leaves_of(s, j as nat).len() as int;
    let m = leaves(s[j]).len() as int;
    if k - 1 > j {
        lemma_leaves_of_part(s, j, (k - 1) as nat);
        let prev = leaves_of(s, (k - 1) as nat);
        assert(leaves_of(s, k) == prev + leaves(s[k - 1]));
        assert(leaves_of(s, k).subrange(a, a + m) =~= prev.subrange(a, a + m));
        assert(leaves_of(s, k).subrange(0, a) =~= prev.subrange(0, a));
    } else {
        assert(leaves_of(s, k) == leaves_of(s, j as nat) + leaves(s[j]));
        assert(leaves_of(s, k).subrange(a, a + m) =~= leaves(s[j]));
        assert(leaves_of(s, k).subrange(0, a) =~= leaves_of(s, j as nat));
    }
}

/// Below a span there are only spans.
pub proof fn lemma_below_span(n: NodeView, p: Seq<usize>)
    requires
        n.well_formed(),
        !n.kind.spec_is_block(),
        n.valid_path(p),
    ensures
        !n.node_at(p).kind.spec_is_block(),
    decreases p.len(),
{
    if p.len() > 0 {
        let c = n.children[p[0] as int];
        assert(kind_accepts(n.kind, c.kind));
        lemma_below_span(c, p.skip(1));
    }
}

/// The node at a valid location of a well-formed tree is well formed.
pub proof fn lemma_node_at_well_formed(n: NodeView, p: Seq<usize>)
    requires
        n.well_formed(),
        n.valid_path(p),
    ensures
        n.node_at(p).well_formed(),
    decreases p.len(),
{
    if p.len() > 0 {
        lemma_node_at_well_formed(n.children[p[0] as int], p.skip(1));
    }
}

/// Every block has a leaf block in it.
pub proof fn lemma_leaves_nonempty(n: NodeView)
    requires
        n.well_formed(),
        n.kind.spec_is_block(),
    ensures
        leaves(n).len() >= 1,
        forall|i: int| 0 <= i < leaves(n).len() ==> (#[trigger] leaves(n)[i]).kind.is_leaf_block_kind(),
    decreases n, 0nat,
{
    if n.kind.is_branch_block_kind() {
        lemma_leaves_of_blocks(n.children, n.children.len());
    }
}

/// Blocks, taken together, have as many leaf blocks as there are blocks, or
/// more, and all of them are leaf blocks.
pub proof fn lemma_leaves_of_blocks(s: Seq<NodeView>, k: nat)
    requires
        k <= s.len(),
        forall|i: int| 0 <= i < s.len() ==> (#[trigger] s[i]).well_formed() && s[i].kind.spec_is_block(),
    ensures
        leaves_of(s, k).len() >= k,
        forall|i: int| 0 <= i < leaves_of(s, k).len() ==> (#[trigger] leaves_of(s, k)[i]).kind.is_leaf_block_kind(),
    decreases s, k,
{
    if k > 0 {
        lemma_leaves_of_blocks(s, (k - 1) as nat);
        lemma_leaves_nonempty(s[k - 1]);
    }
}

/// The children of a well-formed branch block are well-formed blocks.
pub proof fn lemma_branch_children(n: NodeView)
    requires
        n.well_formed(),
        n.kind.is_branch_block_kind(),
    ensures
        n.children.len() >= 1,
        forall|i: int| 0 <= i < n.children.len() ==> (#[trigger] n.children[i]).well_formed() && n.children[i].kind.spec_is_block(),
{
    assert forall|i: int| 0 <= i < n.children.len() implies (#[trigger] n.children[i]).well_formed()
        && n.children[i].kind.spec_is_block() by {
        assert(kind_accepts(n.kind, n.children[i].kind));
    }
}

/// The leaf blocks of the block at `p` stand together in the leaf blocks of
/// the whole tree, from the offset of `p` on.
pub proof fn lemma_leaves_at(n: NodeView, p: Seq<usize>)
    requires
        n.well_formed(),
        n.kind.spec_is_block(),
        n.valid_path(p),
        n.node_at(p).kind.spec_is_block(),
    ensures
        leaf_offset(n, p) + leaves(n.node_at(p)).len() <= leaves(n).len(),
        leaves(n).subrange(leaf_offset(n, p) as int, (leaf_offset(n, p) + leaves(n.node_at(p)).len()) as int) == leaves(
            n.node_at(p),
        ),
        block_prefix(n, p) == p,
    decreases p.len(),
{
    if p.len() == 0 {
        assert(leaves(n).subrange(0, leaves(n).len() as int) =~= leaves(n));
    } else {
        let j = p[0] as int;
        let c = n.children[j];
        assert(kind_accepts(n.kind, c.kind));
        if !c.kind.spec_is_block() {
            lemma_below_span(c, p.skip(1));
        }
        lemma_leaves_at(c, p.skip(1));
        lemma_leaves_of_part(n.children, j, n.children.len());
        let a = leaves_of(n.children, j as nat).len() as int;
        let o = leaf_offset(c, p.skip(1)) as int;
        let l = leaves(c.node_at(p.skip(1))).len() as int;
        let all = leaves(n);
        assert(all.subrange(a + o, a + o + l) =~= all.subrange(a, a + leaves(c).len()).subrange(o, o + l));
        assert(seq![p[0]] + p.skip(1) =~= p);
    }
}

/// The block prefix of a location is a location of a block, and a prefix of
/// the location.
pub proof fn lemma_block_prefix(n: NodeView, p: Seq<usize>)
    requires
        n.well_formed(),
        n.kind.spec_is_block(),
        n.valid_path(p),
    ensures
        n.valid_path(block_prefix(n, p)),
        n.node_at(block_prefix(n, p)).kind.spec_is_block(),
        block_prefix(n, p).len() <= p.len(),
        block_prefix(n, p) == p.subrange(0, block_prefix(n, p).len() as int),
        n.node_at(p).kind.spec_is_block() ==> block_prefix(n, p) == p,
        !n.node_at(p).kind.spec_is_block() ==> n.node_at(block_prefix(n, p)).kind.is_leaf_block_kind(),
    decreases p.len(),
{
    if p.len() == 0 {
        assert(block_prefix(n, p) =~= p.subrange(0, 0));
    } else {
        let j = p[0] as int;
        let c = n.children[j];
        assert(kind_accepts(n.kind, c.kind));
        if c.kind.spec_is_block() {
            lemma_block_prefix(c, p.skip(1));
            let b = block_prefix(c, p.skip(1));
            let bp = seq![p[0]] + b;
            assert(bp.skip(1) =~= b);
            assert(bp =~= p.subrange(0, bp.len() as int));
            if n.node_at(p).kind.spec_is_block() {
                assert(seq![p[0]] + p.skip(1) =~= p);
            }
        } else {
            lemma_below_span(c, p.skip(1));
            assert(block_prefix(n, p) =~= p.subrange(0, 0));
        }
    }
}

/// The first, topmost leaf block of a block.
pub fn get_top_block_node(root: &PageNode) -> (r: &PageNode)
    requires
        root@.well_formed(),
        root@.kind.spec_is_block(),
    ensures
        leaves(root@).len() >= 1,
        r@ == leaves(root@).first(),
    decreases *root,
{
    proof {
        root.lemma_view_children();
        lemma_leaves_nonempty(root@);
    }
    if root.kind.is_branch() {
        proof {
            lemma_branch_children(root@);
            lemma_leaves_of_part(root@.children, 0, root@.children.len());
            lemma_leaves_nonempty(root@.children[0]);
            let c = leaves(root@.children[0]);
            assert(leaves(root@).subrange(0, c.len() as int)[0] == leaves(root@)[0]);
        }
        get_top_block_node(&root.children[0])
    } else {
        root
    }
}

/// The last, bottommost leaf block of a block.
pub fn get_bot_block_node(root: &PageNode) -> (r: &PageNode)
    requires
        root@.well_formed(),
        root@.kind.spec_is_block(),
    ensures
        leaves(root@).len() >= 1,
        r@ == leaves(root@).last(),
    decreases *root,
{
    proof {
        root.lemma_view_children();
        lemma_leaves_nonempty(root@);
    }
    if root.kind.is_branch() {
        let n: usize = root.children.len();
        proof {
            lemma_branch_children(root@);
            lemma_leaves_nonempty(root@.children[n - 1]);
        }
        get_bot_block_node(&root.children[n - 1])
    } else {
        root
    }
}

/// The hash of the topmost leaf block.
pub fn get_top_hash(root: &PageNode) -> (r: u32)
    requires
        root@.well_formed(),
        root@.kind.spec_is_block(),
    ensures
        leaves(root@).len() >= 1,
        r == leaves(root@).first().hash,
{
    get_top_block_node(root).hash
}

/// The hash of the bottommost leaf block.
pub fn get_bot_hash(root: &PageNode) -> (r: u32)
    requires
        root@.well_formed(),
        root@.kind.spec_is_block(),
    ensures
        leaves(root@).len() >= 1,
        r == leaves(root@).last().hash,
{
    get_bot_block_node(root).hash
}

/// The nearest leaf block after the node at `location`, read from step `d`
/// on, among the leaf blocks of `root`.
pub fn next_leaf_below<'a>(root: &'a PageNode, location: &Vec<usize>, d: usize) -> (r: Option<&'a PageNode>)
    requires
        d <= location@.len(),
        root@.well_formed(),
        root@.kind.spec_is_block(),
        root@.valid_path(location@.skip(d as int)),
    ensures
        r.is_some() == next_leaf(root@, location@.skip(d as int)).is_some(),
        r.is_some() ==> r.unwrap()@ == next_leaf(root@, location@.skip(d as int)).unwrap(),
    decreases location@.len() - d,
{
    let ghost p = location@.skip(d as int);
    proof {
        root.lemma_view_children();
        lemma_leaves_nonempty(root@);
    }
    if d == location.len() {
        return None;
    }
    let i: usize = location[d];
    proof {
        assert(p[0] == i);
        assert(p.skip(1) =~= location@.skip(d + 1));
        assert(kind_accepts(root@.kind, root@.children[i as int].kind));
    }
    if !root.children[i].kind.is_block() {
        return None;
    }
    let ghost c = root@.children[i as int];
    let ghost b = block_prefix(c, p.skip(1));
    proof {
        lemma_block_prefix(c, p.skip(1));
        lemma_leaves_at(c, b);
        lemma_leaves_of_part(root@.children, i as int, root@.children.len());
        let bp = seq![i] + b;
        assert(bp.skip(1) =~= b);
        assert(block_prefix(root@, p) == bp);
        assert(root@.node_at(bp) == c.node_at(b));
        assert(leaf_offset(root@, bp) == leaves_of(root@.children, i as nat).len() + leaf_offset(c, b));
    }
    let below = next_leaf_below(&root.children[i], location, d + 1);
    match below {
        Some(n) => {
            proof {
                let a = leaves_of(root@.children, i as nat).len() as int;
                let e = leaf_end(c, p.skip(1)) as int;
                assert(leaves(root@).subrange(a, a + leaves(c).len())[e] == leaves(root@)[a + e]);
            }
            Some(n)
        },
        None => {
            if i < root.children.len() - 1 {
                proof {
                    lemma_branch_children(root@);
                    lemma_leaves_of_part(root@.children, i + 1, root@.children.len());
                    let nx = root@.children[i + 1];
                    lemma_leaves_nonempty(nx);
                    let a2 = leaves_of(root@.children, (i + 1) as nat).len() as int;
                    assert(leaves(root@).subrange(a2, a2 + leaves(nx).len())[0] == leaves(root@)[a2]);
                }
                Some(get_top_block_node(&root.children[i + 1]))
            } else {
                None
            }
        },
    }
}

/// The nearest leaf block before the node at `location`, read from step `d`
/// on, among the leaf blocks of `root`.
pub fn prev_leaf_below<'a>(root: &'a PageNode, location: &Vec<usize>, d: usize) -> (r: Option<&'a PageNode>)
    requires
        d <= location@.len(),
        root@.well_formed(),
        root@.kind.spec_is_block(),
        root@.valid_path(location@.skip(d as int)),
    ensures
        r.is_some() == prev_leaf(root@, location@.skip(d as int)).is_some(),
        r.is_some() ==> r.unwrap()@ == prev_leaf(root@, location@.skip(d as int)).unwrap(),
    decreases location@.len() - d,
{
    let ghost p = location@.skip(d as int);
    proof {
        root.lemma_view_children();
        lemma_leaves_nonempty(root@);
    }
    if d == location.len() {
        return None;
    }
    let i: usize = location[d];
    proof {
        assert(p[0] == i);
        assert(p.skip(1) =~= location@.skip(d + 1));
        assert(kind_accepts(root@.kind, root@.children[i as int].kind));
    }
    if !root.children[i].kind.is_block() {
        return None;
    }
    let ghost c = root@.children[i as int];
    let ghost b = block_prefix(c, p.skip(1));
    proof {
        lemma_block_prefix(c, p.skip(1));
        lemma_leaves_at(c, b);
        lemma_leaves_of_part(root@.children, i as int, root@.children.len());
        let bp = seq![i] + b;
        assert(bp.skip(1) =~= b);
        assert(block_prefix(root@, p) == bp);
        assert(root@.node_at(bp) == c.node_at(b));
        assert(leaf_offset(root@, bp) == leaves_of(root@.children, i as nat).len() + leaf_offset(c, b));
    }
    let below = prev_leaf_below(&root.children[i], location, d + 1);
    match below {
        Some(n) => {
            proof {
                let a = leaves_of(root@.children, i as nat).len() as int;
                let e = leaf_start(c, p.skip(1)) as int;
                assert(leaves(root@).subrange(a, a + leaves(c).len())[e - 1] == leaves(root@)[a + e - 1]);
            }
            Some(n)
        },
        None => {
            if i > 0 {
                proof {
                    lemma_branch_children(root@);
                    lemma_leaves_of_part(root@.children, i - 1, root@.children.len());
                    let pv = root@.children[i - 1];
                    lemma_leaves_nonempty(pv);
                    let a0 = leaves_of(root@.children, (i - 1) as nat).len() as int;
                    let m = leaves(pv).len() as int;
                    assert(leaves(root@).subrange(a0, a0 + m)[m - 1] == leaves(root@)[a0 + m - 1]);
                    assert(leaves_of(root@.children, i as nat) == leaves_of(root@.children, (i - 1) as nat) + leaves(
                        pv,
                    ));
                }
                Some(get_bot_block_node(&root.children[i - 1]))
            } else {
                None
            }
        },
    }
}

} // verus!
