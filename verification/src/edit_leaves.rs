//! What each edit does to the row of leaf blocks.

use vstd::prelude::*;
use crate::enter::{entered, lemma_span_parts, lemma_split_well_formed, split_left, split_right};
use crate::leaf_algebra::{leaves_all, lemma_leaves_concat, lemma_leaves_cut, lemma_leaves_one, lemma_replace_leaves};
use crate::leaves::{block_prefix, leaf_offset, leaves, leaves_of, lemma_leaves_at};
use crate::node_kind::PageNodeType;
use crate::outdent::{lemma_child_parts, parted, split_out, unshelled, wrapped};
use crate::page_node::NodeView;
use crate::text_edit::{rekinded, with_kind};
use crate::view_state::{block_height, same_sigs};

verus! {

/// A replacement below a node is a replacement of that node by what the
/// replacement below makes of it.
pub proof fn lemma_replace_compose(root: NodeView, b: Seq<usize>, q: Seq<usize>, x: NodeView)
    requires
        root.valid_path(b),
        root.node_at(b).valid_path(q),
    ensures
        root.replace_at(b + q, x) == root.replace_at(b, root.node_at(b).replace_at(q, x)),
        root.valid_path(b + q),
    decreases b.len(),
{
    if b.len() == 0 {
        assert(b + q =~= q);
    } else {
        lemma_replace_compose(root.children[b[0] as int], b.skip(1), q, x);
        assert((b + q).skip(1) =~= b.skip(1) + q);
    }
}

/// A replacement below a leaf block leaves the hashes and the heights of
/// the leaf blocks as they are.
pub proof fn lemma_inner_replace_sigs(root: NodeView, r: Seq<usize>, x: NodeView)
    requires
        root.kind == PageNodeType::Page,
        root.well_formed(),
        root.valid_path(r),
        !root.node_at(r).kind.spec_is_block(),
    ensures
        same_sigs(leaves(root), leaves(root.replace_at(r, x))),
{
    lemma_span_parts(root, r);
    let b = block_prefix(root, r);
    let q = r.skip(b.len() as int);
    let blk = root.node_at(b);
    assert(r =~= b + q);
    lemma_replace_compose(root, b, q, x);
    let blk2 = blk.replace_at(q, x);
    assert(q.len() >= 1) by {
        if q.len() == 0 {
            assert(blk.node_at(q) == blk);
        }
    }
    lemma_replace_leaves(root, b, blk2);
    lemma_leaves_at(root, b);
    let l = leaves(root);
    let off = leaf_offset(root, b) as int;
    assert(leaves(blk) =~= seq![blk]);
    assert(leaves(blk2) =~= seq![blk2]);
    let l2 = leaves(root.replace_at(r, x));
    assert(l2 =~= l.subrange(0, off) + seq![blk2] + l.subrange(off + 1, l.len() as int));
    assert(l.subrange(off, off + 1)[0] == l[off]);
    assert forall|i: int| 0 <= i < l.len() implies (#[trigger] l[i]).hash == l2[i].hash && block_height(l[i])
        == block_height(l2[i]) by {
        if i == off {
            assert(l2[i] == blk2);
        }
    }
}

/// Another leaf-block kind for a leaf block leaves the hashes and the
/// heights of the leaf blocks as they are.
pub proof fn lemma_rekinded_sigs(root: NodeView, b: Seq<usize>, kind: PageNodeType)
    requires
        root.kind == PageNodeType::Page,
        root.well_formed(),
        root.valid_path(b),
        root.node_at(b).kind.is_leaf_block_kind(),
        kind.is_leaf_block_kind(),
    ensures
        same_sigs(leaves(root), leaves(rekinded(root, b, kind))),
{
    let blk = root.node_at(b);
    let blk2 = with_kind(blk, kind);
    lemma_replace_leaves(root, b, blk2);
    lemma_leaves_at(root, b);
    let l = leaves(root);
    let off = leaf_offset(root, b) as int;
    assert(leaves(blk) =~= seq![blk]);
    assert(leaves(blk2) =~= seq![blk2]);
    let l2 = leaves(rekinded(root, b, kind));
    assert(l2 =~= l.subrange(0, off) + seq![blk2] + l.subrange(off + 1, l.len() as int));
    assert(l.subrange(off, off + 1)[0] == l[off]);
    assert forall|i: int| 0 <= i < l.len() implies (#[trigger] l[i]).hash == l2[i].hash && block_height(l[i])
        == block_height(l2[i]) by {
        if i == off {
            assert(l2[i] == blk2);
        }
    }
}

/// The leaf blocks of a branch block whose children were replaced from `i`
/// up to `j`.
pub proof fn lemma_splice_leaves(o: NodeView, i: int, j: int, new: Seq<NodeView>)
    requires
        o.kind.is_branch_block_kind(),
        0 <= i <= j <= o.children.len(),
    ensures
        leaves(o) == leaves_all(o.children.subrange(0, i)) + leaves_all(o.children.subrange(i, j)) + leaves_all(
            o.children.subrange(j, o.children.len() as int),
        ),
        leaves(o.with_children(o.children.subrange(0, i) + new + o.children.subrange(j, o.children.len() as int)))
            == leaves_all(o.children.subrange(0, i)) + leaves_all(new) + leaves_all(
            o.children.subrange(j, o.children.len() as int),
        ),
{
    let a = o.children.subrange(0, i);
    let m = o.children.subrange(i, j);
    let z = o.children.subrange(j, o.children.len() as int);
    assert(o.children =~= a + m + z);
    lemma_leaves_concat(a + m, z);
    lemma_leaves_concat(a, m);
    lemma_leaves_concat(a + new, z);
    lemma_leaves_concat(a, new);
}

/// Where the new children of a branch block have the leaf blocks of the old
/// ones, the tree keeps its leaf blocks.
pub proof fn lemma_splice_keeps_leaves(root: NodeView, po: Seq<usize>, i: int, j: int, new: Seq<NodeView>)
    requires
        root.kind == PageNodeType::Page,
        root.well_formed(),
        root.valid_path(po),
        root.node_at(po).kind.is_branch_block_kind(),
        0 <= i <= j <= root.node_at(po).children.len(),
        leaves_all(new) == leaves_all(root.node_at(po).children.subrange(i, j)),
    ensures
        leaves(
            root.replace_at(
                po,
                root.node_at(po).with_children(
                    root.node_at(po).children.subrange(0, i) + new + root.node_at(po).children.subrange(
                        j,
                        root.node_at(po).children.len() as int,
                    ),
                ),
            ),
        ) == leaves(root),
{
    let o = root.node_at(po);
    let o2 = o.with_children(o.children.subrange(0, i) + new + o.children.subrange(j, o.children.len() as int));
    lemma_splice_leaves(o, i, j, new);
    lemma_replace_leaves(root, po, o2);
    lemma_leaves_at(root, po);
    let l = leaves(root);
    let off = leaf_offset(root, po) as int;
    let n = leaves(o).len() as int;
    assert(l.subrange(0, off) + l.subrange(off, off + n) + l.subrange(off + n, l.len() as int) =~= l);
}

/// Removing a block shell keeps the leaf blocks.
pub proof fn lemma_unshelled_leaves(root: NodeView, po: Seq<usize>)
    requires
        root.kind == PageNodeType::Page,
        root.well_formed(),
        root.valid_path(po),
        po.len() >= 1,
        root.node_at(po).kind.is_branch_block_kind(),
    ensures
        leaves(unshelled(root, po)) == leaves(root),
{
    lemma_child_parts(root, po);
    let gp = po.drop_last();
    let oi = po.last() as int;
    let g = root.node_at(gp);
    let o = g.children[oi];
    assert(g.children.subrange(oi, oi + 1) =~= seq![o]);
    lemma_leaves_one(o);
    lemma_splice_keeps_leaves(root, gp, oi, oi + 1, o.children);
}

/// Letting a block leave its parent keeps the leaf blocks.
pub proof fn lemma_split_out_leaves(root: NodeView, b: Seq<usize>, id: u32)
    requires
        root.kind == PageNodeType::Page,
        root.well_formed(),
        root.valid_path(b),
        b.len() >= 2,
        b.last() > 0,
        root.node_at(b).kind.spec_is_block(),
    ensures
        leaves(split_out(root, b, id)) == leaves(root),
{
    let po = b.drop_last();
    let bi = b.last() as int;
    lemma_child_parts(root, b);
    lemma_child_parts(root, po);
    let gp = po.drop_last();
    let oi = po.last() as int;
    let g = root.node_at(gp);
    let o = g.children[oi];
    let blk = o.children[bi];
    let new = parted(o, bi, id);
    let head = o.children.subrange(0, bi);
    let tail = o.children.subrange(bi + 1, o.children.len() as int);
    let before = o.with_children(head);
    let after = NodeView { hash: id, kind: o.kind, text: Seq::empty(), children: tail, height: 0 };
    assert(g.children.subrange(oi, oi + 1) =~= seq![o]);
    lemma_leaves_one(o);
    lemma_leaves_one(before);
    lemma_leaves_one(blk);
    lemma_leaves_one(after);
    assert(o.children =~= head + seq![blk] + tail);
    lemma_leaves_concat(head + seq![blk], tail);
    lemma_leaves_concat(head, seq![blk]);
    if bi + 1 < o.children.len() {
        assert(new =~= seq![before] + seq![blk] + seq![after]);
        lemma_leaves_concat(seq![before] + seq![blk], seq![after]);
        lemma_leaves_concat(seq![before], seq![blk]);
    } else {
        assert(new =~= seq![before] + seq![blk]);
        lemma_leaves_concat(seq![before], seq![blk]);
        assert(tail =~= Seq::<NodeView>::empty());
        assert(leaves_all(head) + leaves(blk) + leaves_all(tail) =~= leaves_all(head) + leaves(blk));
    }
    lemma_splice_keeps_leaves(root, gp, oi, oi + 1, new);
}

/// Putting a block inside a quote keeps the leaf blocks.
pub proof fn lemma_wrapped_leaves(root: NodeView, b: Seq<usize>, id: u32)
    requires
        root.kind == PageNodeType::Page,
        root.well_formed(),
        root.valid_path(b),
        root.node_at(b).kind.spec_is_block(),
    ensures
        leaves(wrapped(root, b, id)) == leaves(root),
{
    let blk = root.node_at(b);
    let new = NodeView { hash: id, kind: PageNodeType::Quote, text: Seq::empty(), children: seq![blk], height: 0 };
    lemma_leaves_one(blk);
    lemma_replace_leaves(root, b, new);
    lemma_leaves_at(root, b);
    let l = leaves(root);
    let off = leaf_offset(root, b) as int;
    let n = leaves(blk).len() as int;
    assert(l.subrange(0, off) + l.subrange(off, off + n) + l.subrange(off + n, l.len() as int) =~= l);
}

/// Enter puts one new leaf block, of no height yet, behind the leaf block
/// that was split; the other leaf blocks stay as they were.
pub proof fn lemma_entered_leaves(root: NodeView, r: Seq<usize>, k: int, ids: Seq<u32>)
    requires
        root.kind == PageNodeType::Page,
        root.well_formed(),
        root.valid_path(r),
        root.node_at(r).kind == PageNodeType::RawText,
        0 <= k <= root.node_at(r).text.len(),
    ensures
        ({
            let b = block_prefix(root, r);
            let q = r.skip(b.len() as int);
            let i = leaf_offset(root, b) as int;
            let l = leaves(root);
            let left = split_left(root.node_at(b), q, k);
            let right = split_right(root.node_at(b), q, k, ids);
            &&& i < l.len()
            &&& l[i] == root.node_at(b)
            &&& leaves(entered(root, r, k, ids)) == l.subrange(0, i) + seq![left, right] + l.subrange(
                i + 1,
                l.len() as int,
            )
            &&& left.hash == l[i].hash
            &&& left.height == l[i].height
            &&& left.kind == l[i].kind
            &&& right.hash == ids[q.len() as int]
            &&& right.height == 0
            &&& right.kind == l[i].kind
            &&& q.len() >= 1
        }),
{
    lemma_span_parts(root, r);
    let b = block_prefix(root, r);
    let pb = b.drop_last();
    let bi = b.last() as int;
    let q = r.skip(b.len() as int);
    let o = root.node_at(pb);
    let blk = o.children[bi];
    let left = split_left(blk, q, k);
    let right = split_right(blk, q, k, ids);
    let new = seq![left, right];
    assert(q.len() >= 1) by {
        if q.len() == 0 {
            assert(blk.node_at(q) == blk);
        }
    }
    lemma_split_well_formed(blk, q, k, ids);
    lemma_splice_leaves(o, bi, bi + 1, new);
    let o2 = o.with_children(o.children.subrange(0, bi) + new + o.children.subrange(bi + 1, o.children.len() as int));
    lemma_replace_leaves(root, pb, o2);
    lemma_leaves_at(root, pb);
    lemma_leaves_at(root, b);
    assert(o.children.subrange(bi, bi + 1) =~= seq![blk]);
    lemma_leaves_one(blk);
    lemma_leaves_one(left);
    lemma_leaves_one(right);
    assert(new =~= seq![left] + seq![right]);
    lemma_leaves_concat(seq![left], seq![right]);
    lemma_leaves_cut(o.children, bi);
    let l = leaves(root);
    let off = leaf_offset(root, pb) as int;
    let x = leaves_all(o.children.subrange(0, bi));
    let y = leaves_all(o.children.subrange(bi + 1, o.children.len() as int));
    let i = leaf_offset(root, b) as int;
    assert(b =~= pb + seq![b.last()]);
    lemma_offset_child(root, pb, b.last());
    assert(i == off + x.len());
    assert(leaves(blk) =~= seq![blk]);
    assert(leaves(left) =~= seq![left]);
    assert(leaves(right) =~= seq![right]);
    assert(leaves(o) == x + seq![blk] + y);
    assert(l.subrange(off, off + leaves(o).len()) == leaves(o));
    assert(l.subrange(i, i + 1)[0] == l[i]);
    assert(leaves(o)[x.len() as int] == blk);
    assert(l.subrange(off, off + leaves(o).len())[x.len() as int] == l[off + x.len()]);
    let n = leaves(o).len() as int;
    assert(leaves(entered(root, r, k, ids)) =~= l.subrange(0, i) + seq![left, right] + l.subrange(i + 1, l.len() as int))
        by {
        let e = leaves(entered(root, r, k, ids));
        assert(e == l.subrange(0, off) + (x + (seq![left] + seq![right]) + y) + l.subrange(off + n, l.len() as int));
        assert(l.subrange(0, off) + x =~= l.subrange(0, i)) by {
            assert(l.subrange(off, off + n).subrange(0, x.len() as int) =~= x);
        }
        assert(y + l.subrange(off + n, l.len() as int) =~= l.subrange(i + 1, l.len() as int)) by {
            assert(l.subrange(off, off + n).subrange((x.len() + 1) as int, n) =~= y);
        }
        assert(e =~= (l.subrange(0, off) + x) + seq![left, right] + (y + l.subrange(off + n, l.len() as int)));
    }
}

/// The leaf blocks before a child of the node at `p`: those before the
/// node, and those of the children before the child.
pub proof fn lemma_offset_child(root: NodeView, p: Seq<usize>, i: usize)
    requires
        root.valid_path(p),
        (i as int) < root.node_at(p).children.len(),
    ensures
        leaf_offset(root, p + seq![i]) == leaf_offset(root, p) + leaves_of(root.node_at(p).children, i as nat).len(),
    decreases p.len(),
{
    if p.len() == 0 {
        assert(p + seq![i] =~= seq![i]);
        assert(seq![i].skip(1) =~= Seq::<usize>::empty());
        assert(leaf_offset(root.children[i as int], seq![i].skip(1)) == 0);
    } else {
        lemma_offset_child(root.children[p[0] as int], p.skip(1), i);
        assert((p + seq![i]).skip(1) =~= p.skip(1) + seq![i]);
    }
}

} // verus!
