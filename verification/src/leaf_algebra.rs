//! How the row of leaf blocks changes when the tree changes.

use vstd::prelude::*;
use crate::hash_index::{bag, bags, unique_hashes};
use crate::issue::occ;
use crate::leaves::{leaf_offset, leaves, leaves_of, lemma_below_span, lemma_leaves_at};
use crate::page_node::{kind_accepts, NodeView};

verus! {

/// The leaf blocks of all the trees of `s` in document order.
pub open spec fn leaves_all(s: Seq<NodeView>) -> Seq<NodeView> {
    leaves_of(s, s.len())
}

/// The hashes of the nodes of `l`, one by one.
pub open spec fn hashes_of(l: Seq<NodeView>) -> Seq<u32> {
    l.map_values(|n: NodeView| n.hash)
}

/// The leaf blocks of the first `k` trees depend on those trees alone.
pub proof fn lemma_leaves_prefix_eq(s: Seq<NodeView>, t: Seq<NodeView>, k: nat)
    requires
        k <= s.len(),
        k <= t.len(),
        s.subrange(0, k as int) == t.subrange(0, k as int),
    ensures
        leaves_of(s, k) == leaves_of(t, k),
    decreases k,
{
    if k > 0 {
        assert(s.subrange(0, k - 1) =~= s.subrange(0, k as int).subrange(0, k - 1));
        assert(t.subrange(0, k - 1) =~= t.subrange(0, k as int).subrange(0, k - 1));
        lemma_leaves_prefix_eq(s, t, (k - 1) as nat);
        assert(s[k - 1] == s.subrange(0, k as int)[k - 1]);
        assert(t[k - 1] == t.subrange(0, k as int)[k - 1]);
    }
}

/// The leaf blocks of two rows of trees, one behind the other.
pub proof fn lemma_leaves_concat(a: Seq<NodeView>, b: Seq<NodeView>)
    ensures
        leaves_all(a + b) == leaves_all(a) + leaves_all(b),
    decreases b.len(),
{
    if b.len() == 0 {
        assert(a + b =~= a);
        assert(leaves_all(a) + leaves_all(b) =~= leaves_all(a));
    } else {
        let d = b.drop_last();
        let s = a + b;
        let n = s.len();
        lemma_leaves_concat(a, d);
        assert(s.subrange(0, n - 1) =~= (a + d).subrange(0, n - 1));
        lemma_leaves_prefix_eq(s, a + d, (n - 1) as nat);
        assert(b.subrange(0, b.len() - 1) =~= d.subrange(0, b.len() - 1));
        lemma_leaves_prefix_eq(b, d, (b.len() - 1) as nat);
        assert(s[n - 1] == b.last());
        assert(leaves_all(a) + (leaves_all(d) + leaves(b.last())) =~= leaves_all(a) + leaves_all(d) + leaves(
            b.last(),
        ));
    }
}

/// The leaf blocks of a row of one tree.
pub proof fn lemma_leaves_one(x: NodeView)
    ensures
        leaves_all(seq![x]) == leaves(x),
{
    let s = seq![x];
    assert(leaves_of(s, 1) == leaves_of(s, 0) + leaves(s[0]));
    assert(leaves_of(s, 0) + leaves(x) =~= leaves(x));
}

/// The leaf blocks of a row of trees, cut at a tree.
pub proof fn lemma_leaves_cut(s: Seq<NodeView>, j: int)
    requires
        0 <= j < s.len(),
    ensures
        leaves_all(s) == leaves_of(s, j as nat) + leaves(s[j]) + leaves_all(s.subrange(j + 1, s.len() as int)),
        leaves_of(s, j as nat) == leaves_all(s.subrange(0, j)),
{
    let a = s.subrange(0, j);
    let z = s.subrange(j + 1, s.len() as int);
    assert(s =~= a + seq![s[j]] + z);
    lemma_leaves_concat(a + seq![s[j]], z);
    lemma_leaves_concat(a, seq![s[j]]);
    lemma_leaves_one(s[j]);
    assert(a.subrange(0, j) =~= s.subrange(0, j));
    lemma_leaves_prefix_eq(s, a, j as nat);
}

/// The leaf blocks of the tree after one block was replaced by another:
/// those of the old block leave, those of the new block come in their place.
pub proof fn lemma_replace_leaves(root: NodeView, p: Seq<usize>, new: NodeView)
    requires
        root.well_formed(),
        root.kind.spec_is_block(),
        root.valid_path(p),
        root.node_at(p).kind.spec_is_block(),
        new.kind.spec_is_block(),
    ensures
        leaf_offset(root, p) + leaves(root.node_at(p)).len() <= leaves(root).len(),
        leaves(root.replace_at(p, new)) == leaves(root).subrange(0, leaf_offset(root, p) as int) + leaves(new)
            + leaves(root).subrange(
            (leaf_offset(root, p) + leaves(root.node_at(p)).len()) as int,
            leaves(root).len() as int,
        ),
    decreases p.len(),
{
    lemma_leaves_at(root, p);
    let l = leaves(root);
    if p.len() == 0 {
        assert(l.subrange(0, 0) + leaves(new) + l.subrange(l.len() as int, l.len() as int) =~= leaves(new));
    } else {
        let j = p[0] as int;
        let c = root.children[j];
        assert(kind_accepts(root.kind, c.kind));
        if !c.kind.spec_is_block() {
            lemma_below_span(c, p.skip(1));
        }
        let c2 = c.replace_at(p.skip(1), new);
        lemma_replace_leaves(c, p.skip(1), new);
        let s = root.children;
        let s2 = s.update(j, c2);
        lemma_leaves_cut(s, j);
        lemma_leaves_cut(s2, j);
        assert(s2.subrange(0, j) =~= s.subrange(0, j));
        assert(s2.subrange(j + 1, s2.len() as int) =~= s.subrange(j + 1, s.len() as int));
        let la = leaves_of(s, j as nat);
        let lz = leaves_all(s.subrange(j + 1, s.len() as int));
        let lc = leaves(c);
        let o = leaf_offset(c, p.skip(1)) as int;
        let m = leaves(c.node_at(p.skip(1))).len() as int;
        assert(l == la + lc + lz);
        assert(leaves(root.replace_at(p, new)) == la + leaves(c2) + lz);
        assert(la + (lc.subrange(0, o) + leaves(new) + lc.subrange(o + m, lc.len() as int)) + lz =~= l.subrange(
            0,
            la.len() + o,
        ) + leaves(new) + l.subrange(la.len() + o + m, l.len() as int));
    }
}

/// A hash is the hash of leaf blocks no more often than it occurs in the
/// tree.
pub proof fn lemma_leaf_hashes_bag(n: NodeView, h: u32)
    ensures
        occ(hashes_of(leaves(n)), h) <= bag(n).count(h),
    decreases n, 0nat,
{
    if n.kind.is_leaf_block_kind() {
        let hs = hashes_of(leaves(n));
        assert(hs =~= seq![n.hash]);
        assert(hs.drop_last() =~= Seq::<u32>::empty());
        assert(occ(hs.drop_last(), h) == 0);
    } else if n.kind.is_branch_block_kind() {
        lemma_leaf_hashes_bags(n.children, n.children.len(), h);
    } else {
        assert(hashes_of(leaves(n)) =~= Seq::<u32>::empty());
    }
}

/// The same of the first `k` trees of a row.
pub proof fn lemma_leaf_hashes_bags(s: Seq<NodeView>, k: nat, h: u32)
    requires
        k <= s.len(),
    ensures
        occ(hashes_of(leaves_of(s, k)), h) <= bags(s, k).count(h),
    decreases s, k,
{
    if k == 0 {
        assert(hashes_of(leaves_of(s, k)) =~= Seq::<u32>::empty());
    } else {
        lemma_leaf_hashes_bags(s, (k - 1) as nat, h);
        lemma_leaf_hashes_bag(s[k - 1], h);
        let a = leaves_of(s, (k - 1) as nat);
        let b = leaves(s[k - 1]);
        assert(hashes_of(a + b) =~= hashes_of(a) + hashes_of(b));
        lemma_occ_concat(hashes_of(a), hashes_of(b), h);
    }
}

/// A hash occurs in two rows as often as in the one and in the other.
pub proof fn lemma_occ_concat(a: Seq<u32>, b: Seq<u32>, h: u32)
    ensures
        occ(a + b, h) == occ(a, h) + occ(b, h),
    decreases b.len(),
{
    if b.len() == 0 {
        assert(a + b =~= a);
    } else {
        lemma_occ_concat(a, b.drop_last(), h);
        assert((a + b).drop_last() =~= a + b.drop_last());
    }
}

/// A hash that stands at two places occurs twice.
pub proof fn lemma_occ_two(ids: Seq<u32>, i: int, j: int)
    requires
        0 <= i < j < ids.len(),
        ids[i] == ids[j],
    ensures
        occ(ids, ids[i]) >= 2,
    decreases ids.len(),
{
    let d = ids.drop_last();
    if j == ids.len() - 1 {
        crate::issue::lemma_occ(d, ids[i]);
        assert(d[i] == ids[i]);
    } else {
        lemma_occ_two(d, i, j);
    }
}

/// In a tree with unique hashes the leaf blocks have hashes of their own.
pub proof fn lemma_leaves_distinct(root: NodeView)
    requires
        unique_hashes(root),
    ensures
        forall|i: int, j: int|
            0 <= i < j < leaves(root).len() ==> (#[trigger] leaves(root)[i]).hash != (#[trigger] leaves(root)[j]).hash,
{
    let l = leaves(root);
    let hs = hashes_of(l);
    assert forall|i: int, j: int| 0 <= i < j < l.len() implies (#[trigger] l[i]).hash != (#[trigger] l[j]).hash by {
        if l[i].hash == l[j].hash {
            assert(hs[i] == hs[j]);
            lemma_occ_two(hs, i, j);
            lemma_leaf_hashes_bag(root, l[i].hash);
            assert(bag(root).count(l[i].hash) <= 1);
        }
    }
}

} // verus!
