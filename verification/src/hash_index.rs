//! The hash index: for every hash in the document, the location of its node.

use std::collections::HashMap;
use vstd::multiset::Multiset;
use vstd::prelude::*;
use crate::page_node::{NodeView, PageNode};

verus! {

broadcast use vstd::std_specs::hash::group_hash_axioms;

/// The hashes of a node and of all below it, each as often as it occurs.
pub open spec fn bag(n: NodeView) -> Multiset<u32>
    decreases n, 0nat,
{
    Multiset::singleton(n.hash).add(bags(n.children, n.children.len()))
}

/// The hashes in the first `k` trees of `s`.
pub open spec fn bags(s: Seq<NodeView>, k: nat) -> Multiset<u32>
    decreases s, k,
{
    if k == 0 || k > s.len() {
        Multiset::empty()
    } else {
        bags(s, (k - 1) as nat).add(bag(s[k - 1]))
    }
}

/// No hash occurs twice in the tree.
pub open spec fn unique_hashes(n: NodeView) -> bool {
    forall|h: u32| #[trigger] bag(n).count(h) <= 1
}

/// No hash occurs twice in the tree, and none of them is in `taken`.
pub open spec fn fresh_in(n: NodeView, taken: Set<u32>) -> bool {
    forall|h: u32| #[trigger] bag(n).count(h) <= 1 && (bag(n).count(h) > 0 ==> !taken.contains(h))
}

/// The index as a map from hashes to locations.
pub open spec fn index_view(m: Map<u32, Vec<usize>>) -> Map<u32, Seq<usize>> {
    m.map_values(|v: Vec<usize>| v@)
}

/// The index is complete and has nothing stale: every node of the tree is
/// found under its hash at its location, and every entry leads to the node
/// that has its hash.
pub open spec fn index_matches(m: Map<u32, Seq<usize>>, root: NodeView) -> bool {
    &&& forall|p: Seq<usize>| #[trigger]
        root.valid_path(p) ==> m.contains_key(root.node_at(p).hash) && m[root.node_at(p).hash] == p
    &&& forall|h: u32| #[trigger]
        m.contains_key(h) ==> root.valid_path(m[h]) && root.node_at(m[h]).hash == h
}

/// What indexing the tree `n`, which stands at `prefix`, adds to an index.
pub open spec fn indexed_below(
    before: Map<u32, Vec<usize>>,
    after: Map<u32, Vec<usize>>,
    n: NodeView,
    prefix: Seq<usize>,
) -> bool {
    &&& forall|h: u32| #[trigger] after.contains_key(h) <==> before.contains_key(h) || bag(n).count(h) > 0
    &&& forall|p: Seq<usize>| #[trigger]
        n.valid_path(p) ==> after.contains_key(n.node_at(p).hash) && after[n.node_at(p).hash]@ == prefix + p
    &&& forall|h: u32| #[trigger] before.contains_key(h) ==> after[h] == before[h]
}

/// A hash in one of the first `k` trees is a hash in the first `k` trees.
pub proof fn lemma_bags_prefix(s: Seq<NodeView>, i: int, k: nat, h: u32)
    requires
        0 <= i < k <= s.len(),
    ensures
        bags(s, k).count(h) >= bags(s, i as nat).count(h) + bag(s[i]).count(h),
    decreases k,
{
    if k - 1 > i {
        lemma_bags_prefix(s, i, (k - 1) as nat, h);
    }
}

/// A hash that the tree holds is the hash of a node at some location.
pub proof fn lemma_bag_has_path(n: NodeView, h: u32) -> (p: Seq<usize>)
    requires
        n.bounded(),
        bag(n).count(h) > 0,
    ensures
        n.valid_path(p),
        n.node_at(p).hash == h,
    decreases n, 0nat,
{
    if n.hash == h {
        Seq::empty()
    } else {
        let (j, q) = lemma_bags_has_path(n.children, n.children.len(), h);
        let p = seq![j as usize] + q;
        assert(p.skip(1) =~= q);
        p
    }
}

/// A hash that one of the first `k` trees holds is the hash of a node at
/// some location in one of them.
pub proof fn lemma_bags_has_path(s: Seq<NodeView>, k: nat, h: u32) -> (r: (int, Seq<usize>))
    requires
        k <= s.len() <= usize::MAX,
        forall|i: int| 0 <= i < s.len() ==> (#[trigger] s[i]).bounded(),
        bags(s, k).count(h) > 0,
    ensures
        0 <= r.0 < k,
        s[r.0].valid_path(r.1),
        s[r.0].node_at(r.1).hash == h,
    decreases s, k,
{
    if bag(s[k - 1]).count(h) > 0 {
        let q = lemma_bag_has_path(s[k - 1], h);
        (k - 1, q)
    } else {
        lemma_bags_has_path(s, (k - 1) as nat, h)
    }
}

/// The hash of a node of the tree is a hash that the tree holds.
pub proof fn lemma_path_in_bag(n: NodeView, p: Seq<usize>)
    requires
        n.valid_path(p),
    ensures
        bag(n).count(n.node_at(p).hash) > 0,
    decreases p.len(),
{
    if p.len() > 0 {
        let c = n.children[p[0] as int];
        lemma_path_in_bag(c, p.skip(1));
        lemma_bags_prefix(n.children, p[0] as int, n.children.len(), c.node_at(p.skip(1)).hash);
    }
}

/// Adds the tree `node`, which stands at `prefix`, to the index. Says no, and
/// leaves the index half filled, where a hash of the tree occurs twice or is
/// in the index already.
fn index_subtree(node: &PageNode, prefix: &mut Vec<usize>, m: &mut HashMap<u32, Vec<usize>>) -> (ok: bool)
    ensures
        final(prefix)@ == old(prefix)@,
        ok == fresh_in(node@, old(m)@.dom()),
        ok ==> indexed_below(old(m)@, final(m)@, node@, old(prefix)@),
    decreases *node,
{
    let ghost m0 = m@;
    let ghost p0 = prefix@;
    let ghost n = node@;
    proof {
        node.lemma_view_children();
    }
    if m.contains_key(&node.hash) {
        assert(bag(n).count(n.hash) > 0);
        return false;
    }
    let here = prefix.clone();
    assert(here@ =~= p0);
    m.insert(node.hash, here);
    let mut i: usize = 0;
    while i < node.children.len()
        invariant
            prefix@ == p0,
            p0 == old(prefix)@,
            m0 == old(m)@,
            i <= node.children@.len(),
            n == node@,
            n.children.len() == node.children@.len(),
            forall|j: int| 0 <= j < node.children@.len() ==> (#[trigger] n.children[j]) == node.children@[j]@,
            forall|h: u32| #[trigger]
                m@.contains_key(h) <==> m0.contains_key(h) || h == n.hash || bags(n.children, i as nat).count(h)
                    > 0,
            forall|h: u32| #[trigger] bags(n.children, i as nat).count(h) <= 1,
            bags(n.children, i as nat).count(n.hash) == 0,
            !m0.contains_key(n.hash),
            forall|h: u32| #[trigger] bags(n.children, i as nat).count(h) > 0 ==> !m0.contains_key(h),
            m@.contains_key(n.hash),
            m@[n.hash]@ == p0,
            forall|j: int, q: Seq<usize>|
                0 <= j < i && #[trigger] n.children[j].valid_path(q) ==> m@.contains_key(
                    n.children[j].node_at(q).hash,
                ) && m@[n.children[j].node_at(q).hash]@ == p0 + seq![j as usize] + q,
            forall|h: u32| #[trigger] m0.contains_key(h) ==> m@[h] == m0[h],
        decreases node.children@.len() - i,
    {
        let ghost m1 = m@;
        let ghost c = n.children[i as int];
        prefix.push(i);
        let ok = index_subtree(&node.children[i], prefix, m);
        prefix.pop();
        assert(prefix@ =~= p0);
        if !ok {
            proof {
                if fresh_in(n, m0.dom()) {
                    assert forall|h: u32| #[trigger]
                        bag(c).count(h) <= 1 && (bag(c).count(h) > 0 ==> !m1.dom().contains(h)) by {
                        lemma_bags_prefix(n.children, i as int, n.children.len(), h);
                        assert(bag(n).count(h) <= 1);
                    }
                    assert(false);
                }
            }
            return false;
        }
        proof {
            let m2 = m@;
            assert(bags(n.children, (i + 1) as nat) == bags(n.children, i as nat).add(bag(c)));
            assert forall|h: u32| #[trigger] bags(n.children, (i + 1) as nat).count(h) <= 1 by {
                assert(bag(c).count(h) <= 1);
                if bag(c).count(h) > 0 {
                    assert(!m1.dom().contains(h));
                    assert(!m1.contains_key(h));
                }
            }
            assert(bags(n.children, (i + 1) as nat).count(n.hash) == 0) by {
                if bag(c).count(n.hash) > 0 {
                    assert(!m1.dom().contains(n.hash));
                }
            }
            assert forall|h: u32| #[trigger] bags(n.children, (i + 1) as nat).count(h) > 0 implies !m0.contains_key(
                h,
            ) by {
                if bag(c).count(h) > 0 {
                    assert(!m1.dom().contains(h));
                    assert(!m1.contains_key(h));
                }
            }
            assert forall|h: u32| #[trigger]
                m2.contains_key(h) <==> m0.contains_key(h) || h == n.hash || bags(n.children, (i + 1) as nat).count(
                    h,
                ) > 0 by {
                assert(m1.contains_key(h) <==> m0.contains_key(h) || h == n.hash || bags(
                    n.children,
                    i as nat,
                ).count(h) > 0);
            }
            assert forall|j: int, q: Seq<usize>|
                0 <= j < i + 1 && #[trigger] n.children[j].valid_path(q) implies m2.contains_key(
                n.children[j].node_at(q).hash,
            ) && m2[n.children[j].node_at(q).hash]@ == p0 + seq![j as usize] + q by {
                if j < i {
                    let h = n.children[j].node_at(q).hash;
                    assert(m1.contains_key(h));
                    assert(m2[h] == m1[h]);
                } else {
                    assert(c.valid_path(q));
                    assert(p0.push(i) =~= p0 + seq![i]);
                }
            }
            assert forall|h: u32| #[trigger] m0.contains_key(h) implies m2[h] == m0[h] by {
                assert(m1.contains_key(h));
            }
            assert(m1.contains_key(n.hash));
        }
        i += 1;
    }
    proof {
        let m2 = m@;
        assert forall|h: u32| #[trigger]
            bag(n).count(h) <= 1 && (bag(n).count(h) > 0 ==> !m0.dom().contains(h)) by {
            assert(bags(n.children, i as nat).count(h) <= 1);
        }
        assert forall|h: u32| #[trigger]
            m2.contains_key(h) <==> m0.contains_key(h) || bag(n).count(h) > 0 by {
            assert(bags(n.children, i as nat).count(h) <= 1);
        }
        assert forall|p: Seq<usize>| #[trigger] n.valid_path(p) implies m2.contains_key(n.node_at(p).hash)
            && m2[n.node_at(p).hash]@ == p0 + p by {
            if p.len() == 0 {
                assert(p0 + p =~= p0);
            } else {
                let j = p[0] as int;
                assert(n.children[j].valid_path(p.skip(1)));
                assert(p0 + seq![j as usize] + p.skip(1) =~= p0 + p);
            }
        }
    }
    true
}

/// Rebuilds the index from the tree: afterwards it holds, for every node, the
/// node's location under the node's hash, and nothing else. Says no, and
/// leaves the index empty, where a hash occurs twice in the tree.
pub fn update_hash_locations(root: &PageNode, locations: &mut HashMap<u32, Vec<usize>>) -> (ok: bool)
    ensures
        ok == unique_hashes(root@),
        ok ==> index_matches(index_view(final(locations)@), root@),
        !ok ==> final(locations)@ == Map::<u32, Vec<usize>>::empty(),
{
    locations.clear();
    let mut prefix: Vec<usize> = Vec::new();
    let ok = index_subtree(root, &mut prefix, locations);
    if !ok {
        locations.clear();
        return false;
    }
    proof {
        let m = index_view(locations@);
        let r = root@;
        assert forall|p: Seq<usize>| #[trigger] r.valid_path(p) implies m.contains_key(r.node_at(p).hash) && m[r.node_at(
            p,
        ).hash] == p by {
            assert(Seq::<usize>::empty() + p =~= p);
        }
        assert forall|h: u32| #[trigger] m.contains_key(h) implies r.valid_path(m[h]) && r.node_at(m[h]).hash
            == h by {
            assert(locations@.contains_key(h));
            root.lemma_bounded();
            let p = lemma_bag_has_path(r, h);
            assert(r.valid_path(p));
            assert(Seq::<usize>::empty() + p =~= p);
        }
    }
    true
}

} // verus!
