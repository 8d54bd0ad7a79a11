//! Giving every node of a new document a hash of its own.

use std::collections::HashMap;
use vstd::prelude::*;
use crate::hash_index::{bag, bags, index_matches, index_view, unique_hashes, update_hash_locations};
use crate::issue::{issue_hashes, issue_seq, lemma_occ, occ, IssueError};
use crate::leaf_algebra::lemma_occ_concat;
use crate::page_node::{NodeView, PageNode};

verus! {

broadcast use vstd::std_specs::hash::group_hash_axioms;

/// The number of nodes of the tree.
pub open spec fn size(n: NodeView) -> nat
    decreases n, 0nat,
{
    1 + sizes(n.children, n.children.len())
}

/// The number of nodes of the first `k` trees of `s`.
pub open spec fn sizes(s: Seq<NodeView>, k: nat) -> nat
    decreases s, k,
{
    if k == 0 || k > s.len() {
        0
    } else {
        sizes(s, (k - 1) as nat) + size(s[k - 1])
    }
}

/// The tree with new hashes: its nodes take the hashes of `ids` from index
/// `from` on, in document order, each node before its children.
pub open spec fn rehash(n: NodeView, ids: Seq<u32>, from: int) -> NodeView
    decreases n, 0nat,
{
    NodeView { hash: ids[from], children: rehash_all(n.children, n.children.len(), ids, from + 1), ..n }
}

/// The first `k` trees of `s` with new hashes from index `from` on.
pub open spec fn rehash_all(s: Seq<NodeView>, k: nat, ids: Seq<u32>, from: int) -> Seq<NodeView>
    decreases s, k,
{
    if k == 0 || k > s.len() {
        Seq::empty()
    } else {
        rehash_all(s, (k - 1) as nat, ids, from).push(rehash(s[k - 1], ids, from + sizes(s, (k - 1) as nat)))
    }
}

/// `rehash_all` gives the trees new hashes one by one.
pub proof fn lemma_rehash_all(s: Seq<NodeView>, k: nat, ids: Seq<u32>, from: int)
    requires
        k <= s.len(),
    ensures
        rehash_all(s, k, ids, from).len() == k,
        forall|j: int|
            0 <= j < k ==> (#[trigger] rehash_all(s, k, ids, from)[j]) == rehash(s[j], ids, from + sizes(s, j as nat)),
    decreases k,
{
    if k > 0 {
        lemma_rehash_all(s, (k - 1) as nat, ids, from);
    }
}

/// The hashes of a tree with new hashes are the hashes it was given.
pub proof fn lemma_rehash_bag(n: NodeView, ids: Seq<u32>, from: int, h: u32)
    requires
        0 <= from,
        from + size(n) <= ids.len(),
    ensures
        bag(rehash(n, ids, from)).count(h) == occ(ids.subrange(from, from + size(n)), h),
    decreases n, 0nat,
{
    let r = rehash(n, ids, from);
    let len = n.children.len();
    lemma_rehash_bags(n.children, len, ids, from + 1, h);
    lemma_rehash_all(n.children, len, ids, from + 1);
    let one = ids.subrange(from, from + 1);
    let rest = ids.subrange(from + 1, from + 1 + sizes(n.children, len));
    assert(ids.subrange(from, from + size(n)) =~= one + rest);
    lemma_occ_concat(one, rest, h);
    assert(one.drop_last() =~= Seq::<u32>::empty());
    assert(occ(one, h) == occ(one.drop_last(), h) + if one.last() == h { 1nat } else { 0nat });
    assert(occ(Seq::<u32>::empty(), h) == 0);
}

/// The same of the first `k` trees of a row.
pub proof fn lemma_rehash_bags(s: Seq<NodeView>, k: nat, ids: Seq<u32>, from: int, h: u32)
    requires
        k <= s.len(),
        0 <= from,
        from + sizes(s, k) <= ids.len(),
    ensures
        bags(rehash_all(s, s.len(), ids, from), k).count(h) == occ(ids.subrange(from, from + sizes(s, k)), h),
    decreases s, k,
{
    let t = rehash_all(s, s.len(), ids, from);
    lemma_rehash_all(s, s.len(), ids, from);
    if k == 0 {
        assert(ids.subrange(from, from + 0) =~= Seq::<u32>::empty());
        assert(occ(Seq::<u32>::empty(), h) == 0);
    } else {
        lemma_rehash_bags(s, (k - 1) as nat, ids, from, h);
        let a = sizes(s, (k - 1) as nat) as int;
        lemma_rehash_bag(s[k - 1], ids, from + a, h);
        assert(t[k - 1] == rehash(s[k - 1], ids, from + a));
        let x = ids.subrange(from, from + a);
        let y = ids.subrange(from + a, from + a + size(s[k - 1]));
        assert(ids.subrange(from, from + sizes(s, k)) =~= x + y);
        lemma_occ_concat(x, y, h);
    }
}

/// A hash occurs in a part of a row no more often than in the row.
pub proof fn lemma_occ_part(ids: Seq<u32>, from: int, to: int, h: u32)
    requires
        0 <= from <= to <= ids.len(),
    ensures
        occ(ids.subrange(from, to), h) <= occ(ids, h),
{
    let a = ids.subrange(0, from);
    let b = ids.subrange(from, to);
    let c = ids.subrange(to, ids.len() as int);
    assert(ids =~= a + b + c);
    lemma_occ_concat(a + b, c, h);
    lemma_occ_concat(a, b, h);
}

/// The number of nodes of the tree, where a machine can count them.
pub fn node_count(node: &PageNode) -> (r: Option<usize>)
    ensures
        match r {
            Some(n) => n == size(node@),
            None => size(node@) > usize::MAX,
        },
    decreases *node,
{
    proof {
        node.lemma_view_children();
    }
    let mut total: usize = 1;
    let mut k: usize = 0;
    while k < node.children.len()
        invariant
            k <= node.children@.len(),
            node@.children.len() == node.children@.len(),
            forall|j: int| 0 <= j < node.children@.len() ==> (#[trigger] node@.children[j]) == node.children@[j]@,
            total == 1 + sizes(node@.children, k as nat),
        decreases node.children@.len() - k,
    {
        assert(node.children@[k as int]@ == node@.children[k as int]);
        let c = match node_count(&node.children[k]) {
            Some(c) => c,
            None => {
                proof {
                    lemma_sizes_grow(node@.children, (k + 1) as nat, node@.children.len());
                }
                return None;
            },
        };
        if c > usize::MAX - total {
            proof {
                lemma_sizes_grow(node@.children, (k + 1) as nat, node@.children.len());
            }
            return None;
        }
        total = total + c;
        k += 1;
    }
    Some(total)
}

/// More trees have no fewer nodes.
pub proof fn lemma_sizes_grow(s: Seq<NodeView>, k: nat, n: nat)
    requires
        k <= n <= s.len(),
    ensures
        sizes(s, k) <= sizes(s, n),
    decreases n - k,
{
    if k < n {
        lemma_sizes_grow(s, k, (n - 1) as nat);
    }
}

/// Gives the nodes of the tree the hashes of `ids` from index `from` on, in
/// document order, and says where the next tree would go on.
pub fn assign_hashes(node: &mut PageNode, ids: &Vec<u32>, from: usize) -> (next: usize)
    requires
        from + size(old(node)@) <= ids@.len(),
    ensures
        next == from + size(old(node)@),
        final(node)@ == rehash(old(node)@, ids@, from as int),
    decreases size(old(node)@),
{
    let ghost orig = node@;
    proof {
        node.lemma_view_children();
        lemma_rehash_all(orig.children, orig.children.len(), ids@, from + 1);
    }
    assert(size(orig) >= 1);
    assert(ids@.len() == ids.len());
    node.hash = ids[from];
    let mut next: usize = from + 1;
    let mut k: usize = 0;
    let ghost before = *node;
    while k < node.children.len()
        invariant
            k <= node.children@.len(),
            node.children@.len() == orig.children.len(),
            node.hash == ids@[from as int],
            node.kind == orig.kind,
            node.text@ == orig.text,
            node.height == orig.height,
            from + size(orig) <= ids@.len(),
            size(orig) == 1 + sizes(orig.children, orig.children.len()),
            orig == old(node)@,
            next == from + 1 + sizes(orig.children, k as nat),
            forall|j: int|
                0 <= j < k ==> (#[trigger] node.children@[j])@ == rehash(
                    orig.children[j],
                    ids@,
                    from + 1 + sizes(orig.children, j as nat),
                ),
            forall|j: int| k <= j < node.children@.len() ==> (#[trigger] node.children@[j])@ == orig.children[j],
        decreases node.children@.len() - k,
    {
        proof {
            lemma_sizes_grow(orig.children, (k + 1) as nat, orig.children.len());
            assert(node.children@[k as int]@ == orig.children[k as int]);
            assert(sizes(orig.children, (k + 1) as nat) == sizes(orig.children, k as nat) + size(
                orig.children[k as int],
            ));
            assert(size(node.children@[k as int]@) < size(orig));
        }
        let ghost kids = node.children@;
        next = assign_hashes(&mut node.children[k], ids, next);
        proof {
            assert forall|j: int| 0 <= j < k + 1 implies (#[trigger] node.children@[j])@ == rehash(
                orig.children[j],
                ids@,
                from + 1 + sizes(orig.children, j as nat),
            ) by {
                if j < k {
                    assert(node.children@[j] == kids[j]);
                }
            }
            assert forall|j: int| k + 1 <= j < node.children@.len() implies (#[trigger] node.children@[j])@
                == orig.children[j] by {
                assert(node.children@[j] == kids[j]);
            }
        }
        k += 1;
    }
    proof {
        node.lemma_view_children();
        assert(node@.children =~= rehash_all(orig.children, orig.children.len(), ids@, from + 1));
    }
    next
}

/// Gives every node of the document a fresh hash and builds the index for
/// it. The hashes are issued from the draws, one for each node in document
/// order, none of them a key of the index as it was. Where too few can be
/// issued, or the document has more nodes than a machine can count, nothing
/// changes.
pub fn add_hashes(root: &mut PageNode, locations: &mut HashMap<u32, Vec<usize>>, draws: &Vec<u32>) -> (r: Result<
    (),
    IssueError,
>)
    ensures
        match issue_seq(old(locations)@.dom(), draws@, 0, size(old(root)@)) {
            Ok(ids) => size(old(root)@) <= usize::MAX ==> {
                &&& r.is_ok()
                &&& final(root)@ == rehash(old(root)@, ids, 0)
                &&& unique_hashes(final(root)@)
                &&& index_matches(index_view(final(locations)@), final(root)@)
            },
            Err(e) => size(old(root)@) <= usize::MAX ==> r == Err::<(), IssueError>(e),
        },
        size(old(root)@) > usize::MAX ==> r.is_err(),
        r.is_err() ==> final(root)@ == old(root)@ && final(locations)@ == old(locations)@,
{
    let n = match node_count(root) {
        Some(n) => n,
        None => {
            return Err(IssueError::OutOfDraws);
        },
    };
    let ids = match issue_hashes(locations, draws, n) {
        Ok(ids) => ids,
        Err(e) => {
            return Err(e);
        },
    };
    let ghost orig = root@;
    let _ = assign_hashes(root, &ids, 0);
    proof {
        assert forall|h: u32| #[trigger] bag(root@).count(h) <= 1 by {
            lemma_rehash_bag(orig, ids@, 0, h);
            lemma_occ_part(ids@, 0, size(orig) as int, h);
            lemma_occ(ids@, h);
        }
    }
    let ok = update_hash_locations(root, locations);
    assert(ok);
    Ok(())
}

} // verus!
