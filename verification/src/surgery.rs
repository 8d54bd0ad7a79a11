//! Putting one node in the place of another, and what that does to the rules
//! of the tree, to its hashes and to its index.

use vstd::multiset::Multiset;
use vstd::prelude::*;
use crate::hash_index::{bag, bags, index_matches};
use crate::node_kind::PageNodeType;
use crate::page_node::{kind_accepts, replace_node, NodeView, PageNode};

verus! {

/// Whether a node of kind `b` can stand wherever a node of kind `a` stands.
pub open spec fn stands_for(a: PageNodeType, b: PageNodeType) -> bool {
    a.spec_is_block() == b.spec_is_block() && (b == PageNodeType::Page) == (a == PageNodeType::Page)
}

/// The node that fills a place while its node is worked on.
pub open spec fn placeholder() -> NodeView {
    NodeView { hash: 0, kind: PageNodeType::RawText, text: Seq::empty(), children: Seq::empty(), height: 0 }
}

/// After a replacement the new node is found at the place.
pub proof fn lemma_replace_node_at(root: NodeView, p: Seq<usize>, new: NodeView)
    requires
        root.valid_path(p),
    ensures
        root.replace_at(p, new).valid_path(p),
        root.replace_at(p, new).node_at(p) == new,
    decreases p.len(),
{
    if p.len() > 0 {
        lemma_replace_node_at(root.children[p[0] as int], p.skip(1), new);
    }
}

/// Of two replacements at one place only the second one counts.
pub proof fn lemma_replace_twice(root: NodeView, p: Seq<usize>, x: NodeView, y: NodeView)
    requires
        root.valid_path(p),
    ensures
        root.replace_at(p, x).replace_at(p, y) == root.replace_at(p, y),
    decreases p.len(),
{
    if p.len() > 0 {
        let j = p[0] as int;
        lemma_replace_twice(root.children[j], p.skip(1), x, y);
        let c1 = root.children.update(j, root.children[j].replace_at(p.skip(1), x));
        assert(c1.update(j, c1[j].replace_at(p.skip(1), y)) =~= root.children.update(
            j,
            root.children[j].replace_at(p.skip(1), y),
        ));
    }
}

/// A replacement by the node that stands there changes nothing.
pub proof fn lemma_replace_same(root: NodeView, p: Seq<usize>)
    requires
        root.valid_path(p),
    ensures
        root.replace_at(p, root.node_at(p)) == root,
    decreases p.len(),
{
    if p.len() > 0 {
        let j = p[0] as int;
        lemma_replace_same(root.children[j], p.skip(1));
        assert(root.children.update(j, root.children[j]) =~= root.children);
    }
}

/// A well-formed node in the place of a node whose kind it can stand for
/// leaves the tree well formed.
pub proof fn lemma_replace_well_formed(root: NodeView, p: Seq<usize>, new: NodeView)
    requires
        root.well_formed(),
        root.valid_path(p),
        new.well_formed(),
        stands_for(root.node_at(p).kind, new.kind),
    ensures
        root.replace_at(p, new).well_formed(),
        root.replace_at(p, new).kind == if p.len() == 0 {
            new.kind
        } else {
            root.kind
        },
    decreases p.len(),
{
    if p.len() > 0 {
        let j = p[0] as int;
        let c = root.children[j];
        lemma_replace_well_formed(c, p.skip(1), new);
        let r = root.replace_at(p, new);
        assert forall|i: int| 0 <= i < r.children.len() implies kind_accepts(r.kind, (#[trigger] r.children[i]).kind)
            && r.children[i].well_formed() by {
            assert(kind_accepts(root.kind, root.children[i].kind));
            assert(root.children[i].well_formed());
        }
    }
}

/// The hashes of the first `k` trees after one of them was replaced.
pub proof fn lemma_bags_update(s: Seq<NodeView>, j: int, x: NodeView, k: nat, h: u32)
    requires
        0 <= j < s.len(),
        k <= s.len(),
    ensures
        j < k ==> bags(s.update(j, x), k).count(h) + bag(s[j]).count(h) == bags(s, k).count(h) + bag(x).count(h),
        j >= k ==> bags(s.update(j, x), k).count(h) == bags(s, k).count(h),
    decreases k,
{
    if k > 0 {
        lemma_bags_update(s, j, x, (k - 1) as nat, h);
        let t = s.update(j, x);
        assert(bags(t, k) == bags(t, (k - 1) as nat).add(bag(t[k - 1])));
        assert(bags(s, k) == bags(s, (k - 1) as nat).add(bag(s[k - 1])));
    }
}

/// The hashes of the tree after a replacement: those of the old node leave,
/// those of the new node come.
pub proof fn lemma_replace_bag(root: NodeView, p: Seq<usize>, new: NodeView, h: u32)
    requires
        root.valid_path(p),
    ensures
        bag(root.replace_at(p, new)).count(h) + bag(root.node_at(p)).count(h) == bag(root).count(h) + bag(
            new,
        ).count(h),
    decreases p.len(),
{
    if p.len() > 0 {
        let j = p[0] as int;
        let c = root.children[j];
        let c2 = c.replace_at(p.skip(1), new);
        lemma_replace_bag(c, p.skip(1), new, h);
        lemma_bags_update(root.children, j, c2, root.children.len(), h);
        let s2 = root.children.update(j, c2);
        assert(bag(root.replace_at(p, new)) == Multiset::singleton(root.hash).add(bags(s2, s2.len())));
    }
}

/// A new node with the hash and the children of the old one leaves every
/// location valid and every hash in its place.
pub proof fn lemma_replace_same_shape(root: NodeView, p: Seq<usize>, new: NodeView)
    requires
        root.valid_path(p),
        new.hash == root.node_at(p).hash,
        new.children == root.node_at(p).children,
    ensures
        forall|q: Seq<usize>| #[trigger] root.replace_at(p, new).valid_path(q) == root.valid_path(q),
        forall|q: Seq<usize>| #[trigger]
            root.valid_path(q) ==> root.replace_at(p, new).node_at(q).hash == root.node_at(q).hash,
        new.kind == root.node_at(p).kind ==> forall|q: Seq<usize>| #[trigger]
            root.valid_path(q) ==> root.replace_at(p, new).node_at(q).kind == root.node_at(q).kind,
        bag(root.replace_at(p, new)) == bag(root),
    decreases p.len(),
{
    let r = root.replace_at(p, new);
    if p.len() == 0 {
    } else {
        if new.kind == root.node_at(p).kind {
            assert forall|q: Seq<usize>| #[trigger] root.valid_path(q) implies r.node_at(q).kind == root.node_at(
                q,
            ).kind by {
                let j = p[0] as int;
                let c = root.children[j];
                let c2 = c.replace_at(p.skip(1), new);
                lemma_replace_same_shape(c, p.skip(1), new);
                if q.len() > 0 {
                    if q[0] as int == j {
                        assert(c.valid_path(q.skip(1)));
                        assert(c2.node_at(q.skip(1)).kind == c.node_at(q.skip(1)).kind);
                    }
                }
            }
        }
        let j = p[0] as int;
        let c = root.children[j];
        let c2 = c.replace_at(p.skip(1), new);
        lemma_replace_same_shape(c, p.skip(1), new);
        assert forall|q: Seq<usize>| #[trigger] r.valid_path(q) == root.valid_path(q) by {
            if q.len() > 0 && (q[0] as int) < root.children.len() {
                if q[0] as int == j {
                    assert(c2.valid_path(q.skip(1)) == c.valid_path(q.skip(1)));
                }
            }
        }
        assert forall|q: Seq<usize>| #[trigger] root.valid_path(q) implies r.node_at(q).hash == root.node_at(
            q,
        ).hash by {
            if q.len() > 0 {
                if q[0] as int == j {
                    assert(c.valid_path(q.skip(1)));
                    assert(c2.node_at(q.skip(1)).hash == c.node_at(q.skip(1)).hash);
                }
            }
        }
        let s2 = root.children.update(j, c2);
        assert(bags(s2, s2.len()) =~= bags(root.children, root.children.len())) by {
            assert forall|h: u32| bags(s2, s2.len()).count(h) == bags(root.children, root.children.len()).count(h) by {
                lemma_bags_update(root.children, j, c2, root.children.len(), h);
            }
        }
    }
}

/// A replacement that keeps the shape keeps the index true.
pub proof fn lemma_replace_keeps_index(m: Map<u32, Seq<usize>>, root: NodeView, p: Seq<usize>, new: NodeView)
    requires
        root.valid_path(p),
        new.hash == root.node_at(p).hash,
        new.children == root.node_at(p).children,
        index_matches(m, root),
    ensures
        index_matches(m, root.replace_at(p, new)),
{
    lemma_replace_same_shape(root, p, new);
    let r = root.replace_at(p, new);
    assert forall|q: Seq<usize>| #[trigger] r.valid_path(q) implies m.contains_key(r.node_at(q).hash) && m[r.node_at(
        q,
    ).hash] == q by {
        assert(root.valid_path(q));
    }
    assert forall|h: u32| #[trigger] m.contains_key(h) implies r.valid_path(m[h]) && r.node_at(m[h]).hash == h by {
        assert(root.valid_path(m[h]));
        assert(r.valid_path(m[h]) == root.valid_path(m[h]));
    }
}

/// The hashes in all the trees of `s`.
pub open spec fn bags_all(s: Seq<NodeView>) -> Multiset<u32> {
    bags(s, s.len())
}

/// The hashes in the first `k` trees depend on those trees alone.
pub proof fn lemma_bags_prefix_eq(s: Seq<NodeView>, t: Seq<NodeView>, k: nat, h: u32)
    requires
        k <= s.len(),
        k <= t.len(),
        s.subrange(0, k as int) == t.subrange(0, k as int),
    ensures
        bags(s, k).count(h) == bags(t, k).count(h),
    decreases k,
{
    if k > 0 {
        assert(s.subrange(0, k - 1) =~= s.subrange(0, k as int).subrange(0, k - 1));
        assert(t.subrange(0, k - 1) =~= t.subrange(0, k as int).subrange(0, k - 1));
        lemma_bags_prefix_eq(s, t, (k - 1) as nat, h);
        assert(s[k - 1] == s.subrange(0, k as int)[k - 1]);
        assert(t[k - 1] == t.subrange(0, k as int)[k - 1]);
    }
}

/// The hashes of two rows of trees, one behind the other.
pub proof fn lemma_bags_concat(a: Seq<NodeView>, b: Seq<NodeView>, h: u32)
    ensures
        bags_all(a + b).count(h) == bags_all(a).count(h) + bags_all(b).count(h),
    decreases b.len(),
{
    if b.len() == 0 {
        assert(a + b =~= a);
    } else {
        let d = b.drop_last();
        let s = a + b;
        let n = s.len();
        lemma_bags_concat(a, d, h);
        assert(s.subrange(0, n - 1) =~= (a + d).subrange(0, n - 1));
        lemma_bags_prefix_eq(s, a + d, (n - 1) as nat, h);
        assert(b.subrange(0, b.len() - 1) =~= d.subrange(0, b.len() - 1));
        lemma_bags_prefix_eq(b, d, (b.len() - 1) as nat, h);
        assert(s[n - 1] == b.last());
    }
}

/// The hashes of a row of trees after a part of it was replaced.
pub proof fn lemma_bags_splice(s: Seq<NodeView>, i: int, j: int, new: Seq<NodeView>, h: u32)
    requires
        0 <= i <= j <= s.len(),
    ensures
        bags_all(s.subrange(0, i) + new + s.subrange(j, s.len() as int)).count(h) + bags_all(
            s.subrange(i, j),
        ).count(h) == bags_all(s).count(h) + bags_all(new).count(h),
{
    let a = s.subrange(0, i);
    let m = s.subrange(i, j);
    let z = s.subrange(j, s.len() as int);
    lemma_bags_concat(a + new, z, h);
    lemma_bags_concat(a, new, h);
    lemma_bags_concat(a + m, z, h);
    lemma_bags_concat(a, m, h);
    assert(a + m + z =~= s);
}

/// The hashes of a row of one tree.
pub proof fn lemma_bags_one(x: NodeView, h: u32)
    ensures
        bags_all(seq![x]).count(h) == bag(x).count(h),
{
    let s = seq![x];
    assert(bags(s, 1) == bags(s, 0).add(bag(s[0])));
}

/// The child at index `i` of the node at `p` stands at `p` with `i` behind
/// it.
pub proof fn lemma_child_at(root: NodeView, p: Seq<usize>, i: usize)
    requires
        root.valid_path(p),
        (i as int) < root.node_at(p).children.len(),
    ensures
        root.valid_path(p + seq![i]),
        root.node_at(p + seq![i]) == root.node_at(p).children[i as int],
    decreases p.len(),
{
    if p.len() == 0 {
        assert(p + seq![i] =~= seq![i]);
        assert(seq![i].skip(1) =~= Seq::<usize>::empty());
        assert(root.children[i as int].node_at(seq![i].skip(1)) == root.children[i as int]);
        assert(root.children[i as int].valid_path(seq![i].skip(1)));
        assert(seq![i][0] == i);
    } else {
        lemma_child_at(root.children[p[0] as int], p.skip(1), i);
        assert((p + seq![i]).skip(1) =~= p.skip(1) + seq![i]);
        assert((p + seq![i])[0] == p[0]);
    }
}

/// In a document with an index a child is the first of its parent's
/// children that has its hash.
pub proof fn lemma_sibling_index(m: Map<u32, Seq<usize>>, root: NodeView, p: Seq<usize>, i: usize)
    requires
        index_matches(m, root),
        root.valid_path(p),
        (i as int) < root.node_at(p).children.len(),
    ensures
        crate::children::index_of_hash(root.node_at(p).children, root.node_at(p).children[i as int].hash) == i,
{
    let s = root.node_at(p).children;
    let h = s[i as int].hash;
    lemma_child_at(root, p, i);
    assert forall|j: int| 0 <= j < i implies (#[trigger] s[j]).hash != h by {
        if s[j].hash == h {
            lemma_child_at(root, p, j as usize);
            let a = p + seq![j as usize];
            let b = p + seq![i];
            assert(root.valid_path(a));
            assert(root.valid_path(b));
            assert(m[h] == a);
            assert(m[h] == b);
            assert(a[p.len() as int] == j);
            assert(b[p.len() as int] == i);
        }
    }
    crate::children::lemma_index_of_hash_is(s, h, i as int);
}

/// A node with no text, no children and no height, to fill a place.
pub fn blank_node() -> (r: PageNode)
    ensures
        r@ == placeholder(),
{
    let r = PageNode { hash: 0, kind: PageNodeType::RawText, text: Vec::new(), children: Vec::new(), height: 0 };
    proof {
        r.lemma_view_children();
        assert(r@.children =~= Seq::<NodeView>::empty());
        assert(r@.text =~= Seq::<char>::empty());
    }
    r
}

/// Takes the node at `location` out of the tree and leaves a blank node in
/// its place.
pub fn take_node(root: &mut PageNode, location: &Vec<usize>) -> (r: PageNode)
    requires
        old(root)@.valid_path(location@),
    ensures
        r@ == old(root)@.node_at(location@),
        final(root)@ == old(root)@.replace_at(location@, placeholder()),
        final(root)@.valid_path(location@),
{
    assert(location@.skip(0) =~= location@);
    proof {
        lemma_replace_node_at(root@, location@, placeholder());
    }
    replace_node(root, location, 0, blank_node())
}

/// Puts `node` in the place of the node at `location`.
pub fn put_node(root: &mut PageNode, location: &Vec<usize>, node: PageNode)
    requires
        old(root)@.valid_path(location@),
    ensures
        final(root)@ == old(root)@.replace_at(location@, node@),
{
    assert(location@.skip(0) =~= location@);
    let _ = replace_node(root, location, 0, node);
}

} // verus!
