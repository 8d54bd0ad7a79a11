//! Testing whether a page is sound, for those who hold a page that they did
//! not get from this library.

use std::collections::HashMap;
use vstd::prelude::*;
use crate::children::{index_of_hash, lemma_index_of_hash, lemma_index_of_hash_is};
use crate::hash_index::{index_matches, index_view, update_hash_locations};
use crate::leaves::{leaves, leaves_of, lemma_branch_children};
use crate::node_kind::PageNodeType;
use crate::page::{check_well_formed, Page};
use crate::page_node::{NodeView, PageNode};
use crate::view_state::{block_height, height_sum, lemma_height_sum_bounds, lemma_height_sum_cut};

verus! {

broadcast use vstd::std_specs::hash::group_hash_axioms;

/// Whether the index holds every node of the tree `n`, which stands at
/// `prefix`, at its location.
pub open spec fn holds_all(m: Map<u32, Vec<usize>>, n: NodeView, prefix: Seq<usize>) -> bool {
    forall|p: Seq<usize>| #[trigger]
        n.valid_path(p) ==> m.contains_key(n.node_at(p).hash) && m[n.node_at(p).hash]@ == prefix + p
}

/// Whether two locations are the same.
fn same_location(a: &Vec<usize>, b: &Vec<usize>) -> (r: bool)
    ensures
        r == (a@ == b@),
{
    if a.len() != b.len() {
        return false;
    }
    let mut i: usize = 0;
    while i < a.len()
        invariant
            i <= a@.len(),
            a@.len() == b@.len(),
            forall|j: int| 0 <= j < i ==> a@[j] == b@[j],
        decreases a@.len() - i,
    {
        if a[i] != b[i] {
            return false;
        }
        i += 1;
    }
    assert(a@ =~= b@);
    true
}

/// Whether the index holds every node of the tree `node`, which stands at
/// `prefix`, at its location.
fn index_holds(node: &PageNode, prefix: &mut Vec<usize>, locations: &HashMap<u32, Vec<usize>>) -> (r: bool)
    ensures
        final(prefix)@ == old(prefix)@,
        r == holds_all(locations@, node@, old(prefix)@),
    decreases *node,
{
    let ghost m = locations@;
    let ghost n = node@;
    let ghost p0 = prefix@;
    proof {
        node.lemma_view_children();
    }
    let here = match locations.get(&node.hash) {
        Some(v) => same_location(v, prefix),
        None => false,
    };
    if !here {
        proof {
            let e = Seq::<usize>::empty();
            assert(n.valid_path(e));
            assert(p0 + e =~= p0);
        }
        return false;
    }
    let mut i: usize = 0;
    while i < node.children.len()
        invariant
            i <= node.children@.len(),
            prefix@ == p0,
            p0 == old(prefix)@,
            m == locations@,
            n == node@,
            n.children.len() == node.children@.len(),
            forall|j: int| 0 <= j < node.children@.len() ==> (#[trigger] n.children[j]) == node.children@[j]@,
            m.contains_key(n.hash),
            m[n.hash]@ == p0,
            forall|j: int| 0 <= j < i ==> holds_all(m, #[trigger] n.children[j], p0.push(j as usize)),
        decreases node.children@.len() - i,
    {
        assert(node.children@[i as int]@ == n.children[i as int]);
        prefix.push(i);
        let ok = index_holds(&node.children[i], prefix, locations);
        prefix.pop();
        assert(prefix@ =~= p0);
        if !ok {
            proof {
                let c = n.children[i as int];
                let q = choose|q: Seq<usize>|
                    c.valid_path(q) && !(m.contains_key(c.node_at(q).hash) && m[c.node_at(q).hash]@ == p0.push(i) + q);
                let p = seq![i] + q;
                assert(p.skip(1) =~= q);
                assert(n.valid_path(p));
                assert(p0 + p =~= p0.push(i) + q);
            }
            return false;
        }
        i += 1;
    }
    proof {
        assert forall|p: Seq<usize>| #[trigger] n.valid_path(p) implies m.contains_key(n.node_at(p).hash) && m[n.node_at(
            p,
        ).hash]@ == p0 + p by {
            if p.len() == 0 {
                assert(p0 + p =~= p0);
            } else {
                let j = p[0] as int;
                assert(holds_all(m, n.children[j], p0.push(j as usize)));
                assert(n.children[j].valid_path(p.skip(1)));
                assert(p0.push(j as usize) + p.skip(1) =~= p0 + p);
            }
        }
    }
    true
}

/// Two indexes that both hold a tree exactly are the same index.
pub proof fn lemma_one_index(a: Map<u32, Seq<usize>>, b: Map<u32, Seq<usize>>, root: NodeView)
    requires
        index_matches(a, root),
        index_matches(b, root),
    ensures
        a =~= b,
{
    assert forall|h: u32| a.contains_key(h) == b.contains_key(h) by {
        if a.contains_key(h) {
            assert(root.valid_path(a[h]));
        }
        if b.contains_key(h) {
            assert(root.valid_path(b[h]));
        }
    }
    assert forall|h: u32| a.contains_key(h) implies a[h] == b[h] by {
        assert(root.valid_path(a[h]));
    }
}

/// Appends the leaf blocks of the block `node` to the row, each with its
/// hash and its height.
fn leaf_row(node: &PageNode, row: &mut Vec<(u32, u32)>, Ghost(l): Ghost<Seq<NodeView>>)
    requires
        node@.well_formed(),
        node@.kind.spec_is_block(),
        old(row)@.len() == l.len(),
        forall|i: int| 0 <= i < l.len() ==> (#[trigger] old(row)@[i]) == (l[i].hash, l[i].height),
    ensures
        final(row)@.len() == l.len() + leaves(node@).len(),
        forall|i: int|
            0 <= i < final(row)@.len() ==> (#[trigger] final(row)@[i]) == ((l + leaves(node@))[i].hash, (l + leaves(
                node@,
            ))[i].height),
    decreases *node,
{
    proof {
        node.lemma_view_children();
    }
    if !node.kind.is_branch() {
        proof {
            assert(leaves(node@) =~= seq![node@]);
        }
        row.push((node.hash, node.height));
    } else {
        proof {
            lemma_branch_children(node@);
            assert(l + leaves_of(node@.children, 0) =~= l);
        }
        let mut k: usize = 0;
        while k < node.children.len()
            invariant
                k <= node.children@.len(),
                node@.well_formed(),
                node@.kind.is_branch_block_kind(),
                node@.children.len() == node.children@.len(),
                forall|j: int| 0 <= j < node.children@.len() ==> (#[trigger] node@.children[j]) == node.children@[j]@,
                forall|j: int|
                    0 <= j < node@.children.len() ==> (#[trigger] node@.children[j]).well_formed()
                        && node@.children[j].kind.spec_is_block(),
                row@.len() == l.len() + leaves_of(node@.children, k as nat).len(),
                forall|i: int|
                    0 <= i < row@.len() ==> (#[trigger] row@[i]) == (
                        (l + leaves_of(node@.children, k as nat))[i].hash,
                        (l + leaves_of(node@.children, k as nat))[i].height,
                    ),
            decreases node.children@.len() - k,
        {
            let ghost acc = l + leaves_of(node@.children, k as nat);
            assert(node.children@[k as int]@ == node@.children[k as int]);
            leaf_row(&node.children[k], row, Ghost(acc));
            proof {
                assert(acc + leaves(node@.children[k as int]) =~= l + leaves_of(node@.children, (k + 1) as nat));
            }
            k += 1;
        }
        assert(leaves(node@) == leaves_of(node@.children, node@.children.len()));
    }
}

/// The index of the first entry of the row with the hash, or the length of
/// the row where there is none.
fn row_index(row: &Vec<(u32, u32)>, hash: u32, Ghost(l): Ghost<Seq<NodeView>>) -> (r: usize)
    requires
        row@.len() == l.len(),
        forall|i: int| 0 <= i < l.len() ==> (#[trigger] row@[i]) == (l[i].hash, l[i].height),
    ensures
        r == index_of_hash(l, hash),
{
    let mut i: usize = 0;
    while i < row.len()
        invariant
            i <= row@.len(),
            row@.len() == l.len(),
            forall|j: int| 0 <= j < l.len() ==> (#[trigger] row@[j]) == (l[j].hash, l[j].height),
            forall|j: int| 0 <= j < i ==> (#[trigger] l[j]).hash != hash,
        decreases row@.len() - i,
    {
        if row[i].0 == hash {
            proof {
                assert(row@[i as int] == (l[i as int].hash, l[i as int].height));
                lemma_index_of_hash_is(l, hash, i as int);
            }
            return i;
        }
        proof {
            assert(row@[i as int] == (l[i as int].hash, l[i as int].height));
        }
        i += 1;
    }
    proof {
        lemma_index_of_hash_is(l, hash, i as int);
    }
    i
}

/// Whether the heights of the row from `from` up to `to` add up to `pad`.
fn row_sum_is(row: &Vec<(u32, u32)>, from: usize, to: usize, pad: u32, Ghost(l): Ghost<Seq<NodeView>>) -> (r: bool)
    requires
        from <= to <= row@.len(),
        row@.len() == l.len(),
        forall|i: int| 0 <= i < l.len() ==> (#[trigger] row@[i]) == (l[i].hash, l[i].height),
    ensures
        r == (pad == height_sum(l, from as int, to as int)),
{
    let mut acc: u32 = 0;
    let mut i: usize = from;
    while i < to
        invariant
            from <= i <= to <= row@.len(),
            row@.len() == l.len(),
            forall|j: int| 0 <= j < l.len() ==> (#[trigger] row@[j]) == (l[j].hash, l[j].height),
            acc == height_sum(l, from as int, i as int),
            acc <= pad,
        decreases to - i,
    {
        let h: u32 = row[i].1;
        proof {
            assert(row@[i as int] == (l[i as int].hash, l[i as int].height));
            assert(block_height(l[i as int]) == h);
            assert(height_sum(l, from as int, i + 1) == height_sum(l, from as int, i as int) + block_height(l[i as int]));
        }
        if h > pad - acc {
            proof {
                lemma_height_sum_cut(l, from as int, i + 1, to as int);
                lemma_height_sum_bounds(l, i + 1, to as int);
            }
            return false;
        }
        acc = acc + h;
        i += 1;
    }
    acc == pad
}

impl Page {
    /// Whether the page is sound. The library hands out sound pages only
    /// and keeps them sound; this is for a page that was put together by
    /// hand.
    pub fn is_sound(&self) -> (r: bool)
        ensures
            r == self.sound(),
    {
        if self.nodes.kind != PageNodeType::Page || !check_well_formed(&self.nodes) {
            return false;
        }
        let mut fresh: HashMap<u32, Vec<usize>> = HashMap::new();
        if !update_hash_locations(&self.nodes, &mut fresh) {
            return false;
        }
        let ghost root = self.nodes@;
        let ghost mf = index_view(fresh@);
        let ghost m = self.index();
        proof {
            if index_matches(m, root) {
                lemma_one_index(m, mf, root);
                assert(self.locations@.dom() =~= m.dom());
                assert(fresh@.dom() =~= mf.dom());
            }
        }
        if self.locations.len() != fresh.len() {
            return false;
        }
        let mut prefix: Vec<usize> = Vec::new();
        let held = index_holds(&self.nodes, &mut prefix, &self.locations);
        proof {
            if index_matches(m, root) {
                assert forall|p: Seq<usize>| #[trigger] root.valid_path(p) implies self.locations@.contains_key(
                    root.node_at(p).hash,
                ) && self.locations@[root.node_at(p).hash]@ == Seq::<usize>::empty() + p by {
                    assert(m.contains_key(root.node_at(p).hash));
                    assert(Seq::<usize>::empty() + p =~= p);
                }
            }
        }
        if !held {
            return false;
        }
        proof {
            // every key of the fresh index is a key of the index, and there are as many
            assert forall|h: u32| fresh@.dom().contains(h) implies self.locations@.dom().contains(h) by {
                assert(mf.contains_key(h));
                assert(root.valid_path(mf[h]));
            }
            vstd::set_lib::lemma_subset_equality(fresh@.dom(), self.locations@.dom());
            assert forall|p: Seq<usize>| #[trigger] root.valid_path(p) implies m.contains_key(root.node_at(p).hash)
                && m[root.node_at(p).hash] == p by {
                assert(Seq::<usize>::empty() + p =~= p);
            }
            assert forall|h: u32| #[trigger] m.contains_key(h) implies root.valid_path(m[h]) && root.node_at(m[h]).hash
                == h by {
                assert(fresh@.dom().contains(h));
                assert(mf.contains_key(h));
                assert(root.valid_path(mf[h]));
                assert(Seq::<usize>::empty() + mf[h] =~= mf[h]);
            }
            assert(index_matches(m, root));
        }
        let mut row: Vec<(u32, u32)> = Vec::new();
        let ghost none = Seq::<NodeView>::empty();
        leaf_row(&self.nodes, &mut row, Ghost(none));
        let ghost l = leaves(root);
        proof {
            assert(none + l =~= l);
            lemma_index_of_hash(l, self.top_elem.hash);
            lemma_index_of_hash(l, self.bot_elem.hash);
        }
        let lo: usize = row_index(&row, self.top_elem.hash, Ghost(l));
        let hi: usize = row_index(&row, self.bot_elem.hash, Ghost(l));
        if hi >= row.len() || lo > hi {
            return false;
        }
        row_sum_is(&row, 0, lo, self.top_elem.pad, Ghost(l)) && row_sum_is(
            &row,
            hi + 1,
            row.len(),
            self.bot_elem.pad,
            Ghost(l),
        )
    }
}

} // verus!
