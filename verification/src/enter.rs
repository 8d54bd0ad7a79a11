//! Enter: one leaf block becomes two at the caret.

use vstd::multiset::Multiset;
use vstd::prelude::*;
use crate::hash_index::{bag, bags, index_matches, unique_hashes, update_hash_locations};
use crate::issue::{all_fresh, issue_hashes, issue_seq, lemma_occ, occ, IssueError};
use crate::text_edit::{block_depth, with_text, Caret};
use crate::leaves::{block_prefix, lemma_block_prefix, lemma_node_at_well_formed};
use crate::node_kind::PageNodeType;
use crate::children::InsertNodes;
use crate::page::Page;
use crate::page_node::{kind_accepts, lemma_views, views, NodeView, PageNode};
use crate::surgery::{
    bags_all, lemma_bags_concat, lemma_bags_one, lemma_bags_splice, lemma_replace_bag, lemma_replace_twice,
    lemma_replace_well_formed, placeholder, put_node, take_node,
};

verus! {

broadcast use vstd::std_specs::hash::group_hash_axioms;

/// What stays of a node that is split at offset `k` of the `RawText` at `q`
/// below it: the node up to the caret.
pub open spec fn split_left(n: NodeView, q: Seq<usize>, k: int) -> NodeView
    decreases q.len(),
{
    if q.len() == 0 || (q[0] as int) >= n.children.len() {
        with_text(n, n.text.subrange(0, k))
    } else {
        n.with_children(
            n.children.subrange(0, q[0] as int).push(split_left(n.children[q[0] as int], q.skip(1), k)),
        )
    }
}

/// What leaves a node that is split at offset `k` of the `RawText` at `q`
/// below it: a new node of the same kind that holds what stood behind the
/// caret. The new `RawText` has the first of `ids` as its hash, the node
/// above it the second, and so on upwards.
pub open spec fn split_right(n: NodeView, q: Seq<usize>, k: int, ids: Seq<u32>) -> NodeView
    decreases q.len(),
{
    if q.len() == 0 || (q[0] as int) >= n.children.len() {
        NodeView {
            hash: ids[0],
            kind: n.kind,
            text: n.text.subrange(k, n.text.len() as int),
            children: Seq::empty(),
            height: 0,
        }
    } else {
        NodeView {
            hash: ids[q.len() as int],
            kind: n.kind,
            text: Seq::empty(),
            children: seq![split_right(n.children[q[0] as int], q.skip(1), k, ids)] + n.children.subrange(
                q[0] + 1,
                n.children.len() as int,
            ),
            height: 0,
        }
    }
}

/// The tree after Enter at offset `k` of the `RawText` at `r`: the leaf
/// block around it is split, and the new block stands right behind it.
pub open spec fn entered(root: NodeView, r: Seq<usize>, k: int, ids: Seq<u32>) -> NodeView {
    let b = block_prefix(root, r);
    let pb = b.drop_last();
    let bi = b.last() as int;
    let q = r.skip(b.len() as int);
    let o = root.node_at(pb);
    let block = o.children[bi];
    root.replace_at(
        pb,
        o.with_children(
            o.children.subrange(0, bi) + seq![split_left(block, q, k), split_right(block, q, k, ids)]
                + o.children.subrange(bi + 1, o.children.len() as int),
        ),
    )
}

/// A location can be cut in two: the first part leads to a node, the second
/// part leads on from there.
pub proof fn lemma_path_split(root: NodeView, p: Seq<usize>, n: int)
    requires
        root.valid_path(p),
        0 <= n <= p.len(),
    ensures
        root.valid_path(p.subrange(0, n)),
        root.node_at(p.subrange(0, n)).valid_path(p.skip(n)),
        root.node_at(p.subrange(0, n)).node_at(p.skip(n)) == root.node_at(p),
    decreases n,
{
    if n == 0 {
        assert(p.skip(0) =~= p);
    } else {
        let c = root.children[p[0] as int];
        lemma_path_split(c, p.skip(1), n - 1);
        assert(p.subrange(0, n).skip(1) =~= p.skip(1).subrange(0, n - 1));
        assert(p.skip(1).skip(n - 1) =~= p.skip(n));
    }
}

/// Both halves of a split node are well formed and of the node's kind.
pub proof fn lemma_split_well_formed(n: NodeView, q: Seq<usize>, k: int, ids: Seq<u32>)
    requires
        n.well_formed(),
        n.valid_path(q),
        n.node_at(q).kind == PageNodeType::RawText,
        0 <= k <= n.node_at(q).text.len(),
    ensures
        split_left(n, q, k).well_formed(),
        split_right(n, q, k, ids).well_formed(),
        split_left(n, q, k).kind == n.kind,
        split_right(n, q, k, ids).kind == n.kind,
    decreases q.len(),
{
    if q.len() > 0 {
        let i = q[0] as int;
        let c = n.children[i];
        lemma_split_well_formed(c, q.skip(1), k, ids);
        let l = split_left(n, q, k);
        let r = split_right(n, q, k, ids);
        assert(kind_accepts(n.kind, c.kind));
        assert forall|j: int| 0 <= j < l.children.len() implies kind_accepts(l.kind, (#[trigger] l.children[j]).kind)
            && l.children[j].well_formed() by {
            if j < i {
                assert(l.children[j] == n.children[j]);
                assert(kind_accepts(n.kind, n.children[j].kind));
            }
        }
        assert forall|j: int| 0 <= j < r.children.len() implies kind_accepts(r.kind, (#[trigger] r.children[j]).kind)
            && r.children[j].well_formed() by {
            if j > 0 {
                assert(r.children[j] == n.children[i + j]);
                assert(kind_accepts(n.kind, n.children[i + j].kind));
            }
        }
    }
}

/// The two halves of a split node hold the hashes of the node and the new
/// hashes, and no others.
pub proof fn lemma_split_bag(n: NodeView, q: Seq<usize>, k: int, ids: Seq<u32>, h: u32)
    requires
        n.valid_path(q),
        ids.len() >= q.len() + 1,
    ensures
        bag(split_left(n, q, k)).count(h) + bag(split_right(n, q, k, ids)).count(h) == bag(n).count(h) + occ(
            ids.subrange(0, (q.len() + 1) as int),
            h,
        ),
    decreases q.len(),
{
    let used = ids.subrange(0, (q.len() + 1) as int);
    assert(used.drop_last() =~= ids.subrange(0, q.len() as int));
    assert(used.last() == ids[q.len() as int]);
    if q.len() == 0 {
        let r = split_right(n, q, k, ids);
        assert(r.children.len() == 0);
        assert(bags(r.children, 0) == Multiset::<u32>::empty());
        assert(occ(ids.subrange(0, 0), h) == 0);
        assert(bag(split_left(n, q, k)) == bag(n));
    } else {
        let i = q[0] as int;
        let c = n.children[i];
        let lc = split_left(c, q.skip(1), k);
        let rc = split_right(c, q.skip(1), k, ids);
        lemma_split_bag(c, q.skip(1), k, ids, h);
        let head = n.children.subrange(0, i);
        let tail = n.children.subrange(i + 1, n.children.len() as int);
        assert(head.push(lc) =~= head + seq![lc]);
        lemma_bags_concat(head, seq![lc], h);
        lemma_bags_one(lc, h);
        lemma_bags_concat(seq![rc], tail, h);
        lemma_bags_one(rc, h);
        assert(n.children =~= head + seq![c] + tail);
        lemma_bags_concat(head + seq![c], tail, h);
        lemma_bags_concat(head, seq![c], h);
        lemma_bags_one(c, h);
    }
}

/// Splits the node at offset `k` of the `RawText` at `q`, read from step `d`
/// on: the node keeps what stands before the caret, and what stands behind
/// it comes back as a new node.
pub fn split_node(n: &mut PageNode, q: &Vec<usize>, d: usize, k: usize, ids: &Vec<u32>) -> (r: PageNode)
    requires
        d <= q@.len(),
        old(n)@.valid_path(q@.skip(d as int)),
        k <= old(n)@.node_at(q@.skip(d as int)).text.len(),
        ids@.len() > q@.len() - d,
    ensures
        final(n)@ == split_left(old(n)@, q@.skip(d as int), k as int),
        r@ == split_right(old(n)@, q@.skip(d as int), k as int, ids@),
    decreases q@.len() - d,
{
    let ghost before = *n;
    let ghost p = q@.skip(d as int);
    proof {
        before.lemma_view_children();
    }
    if d == q.len() {
        let right_text = n.text.split_off(k);
        let r = PageNode { hash: ids[0], kind: n.kind, text: right_text, children: Vec::new(), height: 0 };
        proof {
            n.lemma_view_children();
            r.lemma_view_children();
            assert(n@.children =~= before@.children);
            assert(r@.children =~= Seq::<NodeView>::empty());
        }
        r
    } else {
        let i: usize = q[d];
        proof {
            assert(p[0] == i);
            assert(p.skip(1) =~= q@.skip(d + 1));
        }
        assert(i < n.children.len());
        let mut tail = n.children.split_off(i + 1);
        let ghost tail0 = tail@;
        let right_child = split_node(&mut n.children[i], q, d + 1, k, ids);
        let mut rc: Vec<PageNode> = Vec::new();
        rc.push(right_child);
        rc.append(&mut tail);
        let r = PageNode { hash: ids[q.len() - d], kind: n.kind, text: Vec::new(), children: rc, height: 0 };
        proof {
            n.lemma_view_children();
            r.lemma_view_children();
            lemma_views(tail0);
            assert(n@.children =~= before@.children.subrange(0, i as int).push(
                split_left(before@.children[i as int], p.skip(1), k as int),
            ));
            assert(r@.children =~= seq![split_right(before@.children[i as int], p.skip(1), k as int, ids@)]
                + before@.children.subrange(i + 1, before@.children.len() as int));
            assert(r@.text =~= Seq::<char>::empty());
        }
        r
    }
}

/// The part of `v` from `from` up to `to`.
pub fn sub_vec(v: &Vec<usize>, from: usize, to: usize) -> (r: Vec<usize>)
    requires
        from <= to <= v@.len(),
    ensures
        r@ == v@.subrange(from as int, to as int),
{
    let mut r: Vec<usize> = Vec::new();
    let mut i: usize = from;
    while i < to
        invariant
            from <= i <= to <= v@.len(),
            r@ == v@.subrange(from as int, i as int),
        decreases to - i,
    {
        r.push(v[i]);
        assert(r@ =~= v@.subrange(from as int, i + 1));
        i += 1;
    }
    r
}

/// Every hash of the tree has an entry in the index.
pub proof fn lemma_bag_in_index(m: Map<u32, Seq<usize>>, root: NodeView, h: u32)
    requires
        root.bounded(),
        index_matches(m, root),
        bag(root).count(h) > 0,
    ensures
        m.contains_key(h),
{
    let p = crate::hash_index::lemma_bag_has_path(root, h);
    assert(root.valid_path(p));
}

/// Rebuilds the index of a page whose tree is sound.
pub fn reindex(page: &mut Page)
    requires
        old(page).nodes@.kind == PageNodeType::Page,
        old(page).nodes@.well_formed(),
        unique_hashes(old(page).nodes@),
    ensures
        final(page).wf(),
        final(page).nodes == old(page).nodes,
        final(page).top_elem == old(page).top_elem,
        final(page).bot_elem == old(page).bot_elem,
{
    let ok = update_hash_locations(&page.nodes, &mut page.locations);
    assert(ok);
}

/// The parts of the location of a span: the block around it is no root, its
/// parent holds it, and the rest of the location leads from the block to the
/// span.
pub proof fn lemma_span_parts(root: NodeView, path: Seq<usize>)
    requires
        root.kind == PageNodeType::Page,
        root.well_formed(),
        root.valid_path(path),
        !root.node_at(path).kind.spec_is_block(),
    ensures
        ({
            let b = block_prefix(root, path);
            let pb = b.drop_last();
            let q = path.skip(b.len() as int);
            let o = root.node_at(pb);
            &&& 1 <= b.len() <= path.len()
            &&& b == path.subrange(0, b.len() as int)
            &&& root.valid_path(b)
            &&& root.valid_path(pb)
            &&& (b.last() as int) < o.children.len()
            &&& o.children[b.last() as int] == root.node_at(b)
            &&& root.node_at(b).kind.is_leaf_block_kind()
            &&& root.node_at(b).valid_path(q)
            &&& root.node_at(b).node_at(q) == root.node_at(path)
            &&& root.node_at(b).well_formed()
            &&& o.well_formed()
            &&& o.kind.is_branch_block_kind()
        }),
{
    let b = block_prefix(root, path);
    lemma_block_prefix(root, path);
    if b.len() == 0 {
        assert(root.node_at(b) == root);
    }
    lemma_path_split(root, path, b.len() as int);
    let pb = b.drop_last();
    let bi = b.last();
    let o = root.node_at(pb);
    lemma_path_split(root, b, b.len() - 1);
    assert(b.subrange(0, b.len() - 1) =~= pb);
    assert(b.skip(b.len() - 1) =~= seq![bi]);
    assert(seq![bi].skip(1) =~= Seq::<usize>::empty());
    assert(o.valid_path(seq![bi]));
    assert(o.node_at(seq![bi]) == o.children[bi as int].node_at(seq![bi].skip(1)));
    lemma_node_at_well_formed(root, pb);
    lemma_node_at_well_formed(root, b);
    assert(kind_accepts(o.kind, o.children[bi as int].kind));
}

/// A node whose children were replaced from `i` up to `j` is well formed
/// where the new children are, and where its kind accepts them.
pub proof fn lemma_splice_well_formed(o: NodeView, i: int, j: int, new: Seq<NodeView>)
    requires
        o.well_formed(),
        0 <= i <= j <= o.children.len(),
        o.kind != PageNodeType::RawText,
        new.len() + i + o.children.len() - j >= 1,
        forall|x: int| 0 <= x < new.len() ==> kind_accepts(o.kind, (#[trigger] new[x]).kind) && new[x].well_formed(),
    ensures
        o.with_children(o.children.subrange(0, i) + new + o.children.subrange(j, o.children.len() as int)).well_formed(),
{
    let c = o.children.subrange(0, i) + new + o.children.subrange(j, o.children.len() as int);
    let o1 = o.with_children(c);
    assert forall|x: int| 0 <= x < c.len() implies kind_accepts(o1.kind, (#[trigger] c[x]).kind) && c[x].well_formed() by {
        if x < i {
            assert(c[x] == o.children[x]);
            assert(kind_accepts(o.kind, o.children[x].kind));
        } else if x < i + new.len() {
            assert(c[x] == new[x - i]);
        } else {
            assert(c[x] == o.children[x - i - new.len() + j]);
            assert(kind_accepts(o.kind, o.children[x - i - new.len() + j].kind));
        }
    }
}

/// A tree in which one node's children were replaced from `i` up to `j`
/// keeps its hashes unique where the new children bring, besides hashes of
/// the old ones, only fresh hashes.
pub proof fn lemma_splice_unique(
    m: Map<u32, Seq<usize>>,
    root: NodeView,
    pb: Seq<usize>,
    i: int,
    j: int,
    new: Seq<NodeView>,
    ids: Seq<u32>,
)
    requires
        root.bounded(),
        unique_hashes(root),
        index_matches(m, root),
        root.valid_path(pb),
        0 <= i <= j <= root.node_at(pb).children.len(),
        all_fresh(ids, m.dom()),
        forall|h: u32|
            bags_all(new).count(h) <= #[trigger] bags_all(root.node_at(pb).children.subrange(i, j)).count(h) + occ(
                ids,
                h,
            ),
    ensures
        unique_hashes(
            root.replace_at(
                pb,
                root.node_at(pb).with_children(
                    root.node_at(pb).children.subrange(0, i) + new + root.node_at(pb).children.subrange(
                        j,
                        root.node_at(pb).children.len() as int,
                    ),
                ),
            ),
        ),
{
    let o = root.node_at(pb);
    let o1 = o.with_children(o.children.subrange(0, i) + new + o.children.subrange(j, o.children.len() as int));
    let new_root = root.replace_at(pb, o1);
    assert forall|h: u32| #[trigger] bag(new_root).count(h) <= 1 by {
        lemma_replace_bag(root, pb, o1, h);
        lemma_bags_splice(o.children, i, j, new, h);
        lemma_occ(ids, h);
        assert(bags_all(new).count(h) <= bags_all(o.children.subrange(i, j)).count(h) + occ(ids, h));
        assert(bag(new_root).count(h) <= bag(root).count(h) + occ(ids, h));
        if occ(ids, h) > 0 {
            let x = choose|x: int| 0 <= x < ids.len() && ids[x] == h;
            assert(!m.dom().contains(ids[x]));
            if bag(root).count(h) > 0 {
                lemma_bag_in_index(m, root, h);
            }
        }
        assert(bag(root).count(h) <= 1);
    }
}

/// A tree in which one node was replaced keeps its hashes unique where the
/// new node brings, besides hashes of the old one, only fresh hashes.
pub proof fn lemma_replace_unique_fresh(
    m: Map<u32, Seq<usize>>,
    root: NodeView,
    p: Seq<usize>,
    new: NodeView,
    ids: Seq<u32>,
)
    requires
        root.bounded(),
        unique_hashes(root),
        index_matches(m, root),
        root.valid_path(p),
        all_fresh(ids, m.dom()),
        forall|h: u32| #[trigger] bag(new).count(h) <= bag(root.node_at(p)).count(h) + occ(ids, h),
    ensures
        unique_hashes(root.replace_at(p, new)),
{
    let new_root = root.replace_at(p, new);
    assert forall|h: u32| #[trigger] bag(new_root).count(h) <= 1 by {
        lemma_replace_bag(root, p, new, h);
        lemma_occ(ids, h);
        assert(bag(new).count(h) <= bag(root.node_at(p)).count(h) + occ(ids, h));
        if occ(ids, h) > 0 {
            let x = choose|x: int| 0 <= x < ids.len() && ids[x] == h;
            assert(!m.dom().contains(ids[x]));
            if bag(root).count(h) > 0 {
                lemma_bag_in_index(m, root, h);
            }
        }
        assert(bag(root).count(h) <= 1);
    }
}

/// The tree after Enter is sound.
pub proof fn lemma_entered_sound(m: Map<u32, Seq<usize>>, root: NodeView, path: Seq<usize>, k: int, ids: Seq<u32>)
    requires
        root.kind == PageNodeType::Page,
        root.well_formed(),
        root.bounded(),
        unique_hashes(root),
        index_matches(m, root),
        root.valid_path(path),
        root.node_at(path).kind == PageNodeType::RawText,
        0 <= k <= root.node_at(path).text.len(),
        ids.len() == path.len() - block_prefix(root, path).len() + 1,
        all_fresh(ids, m.dom()),
    ensures
        entered(root, path, k, ids).kind == PageNodeType::Page,
        entered(root, path, k, ids).well_formed(),
        unique_hashes(entered(root, path, k, ids)),
{
    lemma_span_parts(root, path);
    let b = block_prefix(root, path);
    let pb = b.drop_last();
    let bi = b.last() as int;
    let q = path.skip(b.len() as int);
    let o = root.node_at(pb);
    let block = o.children[bi];
    let left = split_left(block, q, k);
    let right = split_right(block, q, k, ids);
    let new = seq![left, right];
    lemma_split_well_formed(block, q, k, ids);
    assert(kind_accepts(o.kind, block.kind));
    lemma_splice_well_formed(o, bi, bi + 1, new);
    let o1 = o.with_children(o.children.subrange(0, bi) + new + o.children.subrange(bi + 1, o.children.len() as int));
    lemma_replace_well_formed(root, pb, o1);
    assert(ids.subrange(0, (q.len() + 1) as int) =~= ids);
    assert forall|h: u32|
        bags_all(new).count(h) <= #[trigger] bags_all(o.children.subrange(bi, bi + 1)).count(h) + occ(ids, h) by {
        assert(o.children.subrange(bi, bi + 1) =~= seq![block]);
        lemma_bags_one(block, h);
        assert(new =~= seq![left] + seq![right]);
        lemma_bags_concat(seq![left], seq![right], h);
        lemma_bags_one(left, h);
        lemma_bags_one(right, h);
        lemma_split_bag(block, q, k, ids, h);
    }
    lemma_splice_unique(m, root, pb, bi, bi + 1, new, ids);
}

/// Enter at the caret: the leaf block around the caret is split in two at
/// the caret, and the caret goes to the start of the new block. The new
/// nodes take their hashes from the draws; where those give too few, nothing
/// changes.
pub fn split_block(page: &mut Page, caret: Caret, draws: &Vec<u32>) -> (r: Result<Caret, IssueError>)
    requires
        old(page).wf(),
        old(page).caret_ok(caret),
    ensures
        final(page).wf(),
        old(page).edges_ok() ==> final(page).edges_ok(),
        final(page).top_elem == old(page).top_elem,
        ({
            let root = old(page).nodes@;
            let path = old(page).caret_path(caret);
            let depth = path.len() - block_prefix(root, path).len();
            match issue_seq(old(page).locations@.dom(), draws@, 0, (depth + 1) as nat) {
                Ok(ids) => {
                    &&& r == Ok::<Caret, IssueError>(Caret { hash: ids[0], offset: 0 })
                    &&& final(page).nodes@ == entered(root, path, caret.offset as int, ids)
                    &&& final(page).bot_elem == crate::edit_edges::entered_bot(
                        old(page).bot_elem,
                        root.node_at(block_prefix(root, path)).hash,
                        ids[depth],
                    )
                },
                Err(e) => {
                    &&& r == Err::<Caret, IssueError>(e)
                    &&& final(page).nodes@ == root
                    &&& final(page).index() == old(page).index()
                    &&& final(page).bot_elem == old(page).bot_elem
                },
            }
        }),
{
    let loc = page.locate_caret(caret).unwrap();
    let ghost root = page.nodes@;
    let ghost m = page.index();
    let ghost path = loc@;
    let bd: usize = block_depth(&page.nodes, &loc);
    let ghost b = block_prefix(root, path);
    proof {
        page.nodes.lemma_bounded();
        lemma_span_parts(root, path);
    }
    let q = sub_vec(&loc, bd, loc.len());
    let pb = sub_vec(&loc, 0, bd - 1);
    let bi: usize = loc[bd - 1];
    let issued = issue_hashes(&page.locations, draws, q.len() + 1);
    let ids = match issued {
        Ok(ids) => ids,
        Err(e) => {
            return Err(e);
        },
    };
    let ghost o0 = root.node_at(pb@);
    let ghost block0 = root.node_at(b);
    proof {
        assert(q@ =~= path.skip(b.len() as int));
        assert(pb@ =~= b.drop_last());
        assert(b.last() == bi);
        assert(q@.skip(0) =~= q@);
        assert(m.dom() =~= page.locations@.dom());
        lemma_entered_sound(m, root, path, caret.offset as int, ids@);
        if old(page).edges_ok() {
            crate::edit_edges::lemma_entered_edges(
                m,
                root,
                path,
                caret.offset as int,
                ids@,
                page.top_elem,
                page.bot_elem,
            );
        }
    }
    let mut o = take_node(&mut page.nodes, &pb);
    let ghost o_before = o;
    proof {
        o.lemma_view_children();
        if bi + 1 < o0.children.len() {
            crate::surgery::lemma_sibling_index(m, root, pb@, (bi + 1) as usize);
            crate::children::lemma_index_of_hash(o0.children, o0.children[bi + 1].hash);
        }
    }
    let next: Option<u32> = if bi < o.children.len() - 1 {
        Some(o.children[bi + 1].hash)
    } else {
        None
    };
    let block_hash: u32 = o.children[bi].hash;
    let right = split_node(&mut o.children[bi], &q, 0, caret.offset, &ids);
    let mut news: Vec<PageNode> = Vec::new();
    news.push(right);
    proof {
        let left_v = split_left(block0, q@, caret.offset as int);
        let right_v = split_right(block0, q@, caret.offset as int, ids@);
        o.lemma_view_children();
        lemma_views(news@);
        assert(views(news@) =~= seq![right_v]);
        let s1 = o@.children;
        assert(s1 =~= o0.children.update(bi as int, left_v));
        lemma_split_well_formed(block0, q@, caret.offset as int, ids@);
        assert(kind_accepts(o0.kind, block0.kind));
        if bi + 1 < o0.children.len() {
            let h = o0.children[bi + 1].hash;
            assert forall|j: int| 0 <= j < bi + 1 implies (#[trigger] s1[j]).hash != h by {
                assert(o0.children[j].hash != h);
            }
            assert(s1[bi + 1] == o0.children[bi + 1]);
            crate::children::lemma_index_of_hash_is(s1, h, bi + 1);
        }
    }
    match o.insert_nodes(news, next) {
        Ok(()) => {},
        Err(_) => {
            assert(false);
        },
    }
    proof {
        let left_v = split_left(block0, q@, caret.offset as int);
        let right_v = split_right(block0, q@, caret.offset as int, ids@);
        let o1 = o0.with_children(
            o0.children.subrange(0, bi as int) + seq![left_v, right_v] + o0.children.subrange(
                bi + 1,
                o0.children.len() as int,
            ),
        );
        assert(o@.children =~= o1.children);
        assert(o@ == o1);
        lemma_replace_twice(root, pb@, placeholder(), o1);
    }
    put_node(&mut page.nodes, &pb, o);
    reindex(page);
    if page.bot_elem.hash == block_hash {
        page.bot_elem.hash = ids[q.len()];
    }
    Ok(Caret { hash: ids[0], offset: 0 })
}

} // verus!
