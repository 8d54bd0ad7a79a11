//! Backspace at the start of a top-level paragraph: the paragraph is merged
//! into the leaf block before it.

use vstd::prelude::*;
use crate::enter::{reindex, split_left, split_right};
use crate::hash_index::{bag, unique_hashes};
use crate::text_edit::{with_text, Caret};
use crate::leaves::{
    leaves, leaves_of, lemma_branch_children, lemma_leaves_nonempty, lemma_leaves_of_part,
    lemma_node_at_well_formed, prev_leaf,
};
use crate::node_kind::PageNodeType;
use crate::children::RemoveChild;
use crate::page::Page;
use crate::page_node::{kind_accepts, lemma_views, NodeView, PageNode};
use crate::surgery::{
    lemma_bags_concat,
    lemma_bags_one,
    lemma_replace_bag,
    lemma_replace_twice,
    lemma_replace_well_formed,
    placeholder,
    put_node,
    take_node,
};

verus! {

/// The node `p` after the node `b` was merged into it. The last child of
/// `p` and the first child of `b` become one where they are of one kind:
/// two `RawText`s by joining their texts, two branch spans by merging in
/// the same way. The other children of `b` follow in their order.
pub open spec fn merge_into(p: NodeView, b: NodeView) -> NodeView
    decreases p,
{
    if p.children.len() == 0 || b.children.len() == 0 {
        p.with_children(p.children + b.children)
    } else {
        let lp = p.children.last();
        let fb = b.children[0];
        if lp.kind != fb.kind {
            p.with_children(p.children + b.children)
        } else if lp.kind == PageNodeType::RawText {
            p.with_children(p.children.drop_last().push(with_text(lp, lp.text + fb.text)) + b.children.skip(1))
        } else {
            p.with_children(p.children.drop_last().push(merge_into(lp, fb)) + b.children.skip(1))
        }
    }
}

/// Where the caret stands after the merge, if two `RawText`s were joined:
/// in the joined one, where its old text ended.
pub open spec fn merge_caret(p: NodeView, b: NodeView) -> Option<Caret>
    decreases p,
{
    if p.children.len() == 0 || b.children.len() == 0 {
        None
    } else {
        let lp = p.children.last();
        let fb = b.children[0];
        if lp.kind != fb.kind {
            None
        } else if lp.kind == PageNodeType::RawText {
            if lp.text.len() <= usize::MAX {
                Some(Caret { hash: lp.hash, offset: lp.text.len() as usize })
            } else {
                None
            }
        } else {
            merge_caret(lp, fb)
        }
    }
}

/// The location of the last leaf block of a block, counted from the block.
pub open spec fn bot_path(n: NodeView) -> Seq<usize>
    decreases n,
{
    if n.kind.is_branch_block_kind() && 0 < n.children.len() <= usize::MAX {
        seq![(n.children.len() - 1) as usize] + bot_path(n.children.last())
    } else {
        Seq::empty()
    }
}

/// The tree after the top-level block at index `bi` was merged into the
/// leaf block before it.
pub open spec fn merged(root: NodeView, bi: int) -> NodeView {
    let b = root.children[bi];
    let pp = seq![(bi - 1) as usize] + bot_path(root.children[bi - 1]);
    let rest = root.with_children(root.children.remove(bi));
    rest.replace_at(pp, merge_into(root.node_at(pp), b))
}

/// Where the caret stands after that merge: in the joined `RawText`, or,
/// where none was joined, where it stood.
pub open spec fn merged_caret(root: NodeView, bi: int, caret: Caret) -> Caret {
    let b = root.children[bi];
    let pp = seq![(bi - 1) as usize] + bot_path(root.children[bi - 1]);
    match merge_caret(root.node_at(pp), b) {
        Some(c) => c,
        None => caret,
    }
}

/// `bot_path` leads to the last leaf block.
pub proof fn lemma_bot_path(n: NodeView)
    requires
        n.well_formed(),
        n.bounded(),
        n.kind.spec_is_block(),
    ensures
        n.valid_path(bot_path(n)),
        leaves(n).len() >= 1,
        n.node_at(bot_path(n)) == leaves(n).last(),
        n.node_at(bot_path(n)).kind.is_leaf_block_kind(),
    decreases n,
{
    lemma_leaves_nonempty(n);
    if n.kind.is_branch_block_kind() {
        lemma_branch_children(n);
        let c = n.children.last();
        lemma_bot_path(c);
        let p = bot_path(n);
        assert(p.skip(1) =~= bot_path(c));
        assert(leaves_of(n.children, n.children.len()) == leaves_of(n.children, (n.children.len() - 1) as nat)
            + leaves(c));
    }
}

/// The leaf block that a top-level block is merged into is the nearest leaf
/// block before it.
pub proof fn lemma_merge_target(root: NodeView, bi: int)
    requires
        root.well_formed(),
        root.bounded(),
        root.kind.is_branch_block_kind(),
        0 < bi < root.children.len(),
    ensures
        ({
            let pp = seq![(bi - 1) as usize] + bot_path(root.children[bi - 1]);
            &&& root.valid_path(pp)
            &&& prev_leaf(root, seq![bi as usize]) == Some(root.node_at(pp))
            &&& root.node_at(pp).kind.is_leaf_block_kind()
            &&& root.node_at(pp).well_formed()
        }),
{
    let c = root.children[bi - 1];
    let b = root.children[bi];
    let pp = seq![(bi - 1) as usize] + bot_path(c);
    lemma_branch_children(root);
    lemma_bot_path(c);
    assert(pp.skip(1) =~= bot_path(c));
    lemma_node_at_well_formed(root, pp);
    let me = seq![bi as usize];
    assert(me.skip(1) =~= Seq::<usize>::empty());
    assert(crate::leaves::block_prefix(b, me.skip(1)) =~= Seq::<usize>::empty());
    assert(crate::leaves::block_prefix(root, me) =~= me);
    assert(crate::leaves::leaf_offset(b, me.skip(1)) == 0);
    assert(crate::leaves::leaf_start(root, me) == leaves_of(root.children, bi as nat).len());
    assert(leaves_of(root.children, bi as nat) == leaves_of(root.children, (bi - 1) as nat) + leaves(c));
    lemma_leaves_of_part(root.children, bi - 1, root.children.len());
    let a0 = leaves_of(root.children, (bi - 1) as nat).len() as int;
    let m = leaves(c).len() as int;
    assert(leaves(root).subrange(a0, a0 + m)[m - 1] == leaves(root)[a0 + m - 1]);
}

/// A merge of two nodes that hold spans gives a well-formed node of the
/// first one's kind.
pub proof fn lemma_merge_well_formed(p: NodeView, b: NodeView)
    requires
        p.well_formed(),
        b.well_formed(),
        p.kind != PageNodeType::RawText,
        b.kind != PageNodeType::RawText,
        !p.kind.is_branch_block_kind(),
        !b.kind.is_branch_block_kind(),
    ensures
        merge_into(p, b).well_formed(),
        merge_into(p, b).kind == p.kind,
        merge_into(p, b).hash == p.hash,
    decreases p,
{
    let r = merge_into(p, b);
    let lp = p.children.last();
    let fb = b.children[0];
    assert(kind_accepts(p.kind, lp.kind));
    assert(kind_accepts(b.kind, fb.kind));
    if lp.kind == fb.kind && lp.kind != PageNodeType::RawText {
        lemma_merge_well_formed(lp, fb);
    }
    assert forall|i: int| 0 <= i < r.children.len() implies kind_accepts(r.kind, (#[trigger] r.children[i]).kind)
        && r.children[i].well_formed() by {
        let n = p.children.len() as int;
        if lp.kind != fb.kind {
            if i < n {
                assert(r.children[i] == p.children[i]);
                assert(kind_accepts(p.kind, p.children[i].kind));
            } else {
                assert(r.children[i] == b.children[i - n]);
                assert(kind_accepts(b.kind, b.children[i - n].kind));
            }
        } else {
            if i < n - 1 {
                assert(r.children[i] == p.children[i]);
                assert(kind_accepts(p.kind, p.children[i].kind));
            } else if i >= n {
                assert(r.children[i] == b.children[i - n + 1]);
                assert(kind_accepts(b.kind, b.children[i - n + 1].kind));
            } else {
                if lp.kind == PageNodeType::RawText {
                    assert(r.children[i] == with_text(lp, lp.text + fb.text));
                    assert(lp.well_formed());
                    assert(with_text(lp, lp.text + fb.text).well_formed());
                } else {
                    assert(r.children[i] == merge_into(lp, fb));
                }
            }
        }
    }
}

/// A merge brings no hash that the two nodes did not hold.
pub proof fn lemma_merge_bag(p: NodeView, b: NodeView, h: u32)
    ensures
        bag(merge_into(p, b)).count(h) <= bag(p).count(h) + bag(b).count(h),
    decreases p,
{
    if p.children.len() == 0 || b.children.len() == 0 {
        lemma_bags_concat(p.children, b.children, h);
    } else {
        let lp = p.children.last();
        let fb = b.children[0];
        let head = p.children.drop_last();
        let tail = b.children.skip(1);
        assert(p.children =~= head + seq![lp]);
        assert(b.children =~= seq![fb] + tail);
        lemma_bags_concat(head, seq![lp], h);
        lemma_bags_concat(seq![fb], tail, h);
        lemma_bags_one(lp, h);
        lemma_bags_one(fb, h);
        if lp.kind != fb.kind {
            lemma_bags_concat(p.children, b.children, h);
        } else {
            let mid = if lp.kind == PageNodeType::RawText {
                with_text(lp, lp.text + fb.text)
            } else {
                merge_into(lp, fb)
            };
            if lp.kind != PageNodeType::RawText {
                lemma_merge_bag(lp, fb, h);
            } else {
                assert(bag(mid) == bag(lp));
            }
            assert(head.push(mid) =~= head + seq![mid]);
            lemma_bags_concat(head + seq![mid], tail, h);
            lemma_bags_concat(head, seq![mid], h);
            lemma_bags_one(mid, h);
        }
    }
}

/// Merging the two halves of a split node gives back the node, and puts the
/// caret where the node was split.
pub proof fn lemma_merge_split(n: NodeView, q: Seq<usize>, k: int, ids: Seq<u32>)
    requires
        n.well_formed(),
        n.valid_path(q),
        q.len() >= 1,
        n.node_at(q).kind == PageNodeType::RawText,
        0 <= k <= n.node_at(q).text.len(),
        k <= usize::MAX,
    ensures
        merge_into(split_left(n, q, k), split_right(n, q, k, ids)) == n,
        merge_caret(split_left(n, q, k), split_right(n, q, k, ids)) == Some(
            Caret { hash: n.node_at(q).hash, offset: k as usize },
        ),
    decreases q.len(),
{
    let i = q[0] as int;
    let c = n.children[i];
    let l = split_left(n, q, k);
    let r = split_right(n, q, k, ids);
    let lc = split_left(c, q.skip(1), k);
    let rc = split_right(c, q.skip(1), k, ids);
    assert(l.children.last() == lc);
    assert(r.children[0] == rc);
    crate::enter::lemma_split_well_formed(c, q.skip(1), k, ids);
    let head = n.children.subrange(0, i);
    let tail = n.children.subrange(i + 1, n.children.len() as int);
    assert(l.children.drop_last() =~= head);
    assert(r.children.skip(1) =~= tail);
    if q.len() == 1 {
        assert(c.node_at(q.skip(1)) == c);
        assert(lc.text + rc.text =~= c.text);
        assert(with_text(lc, lc.text + rc.text) == c);
        assert(lc.text.len() == k);
    } else {
        assert(c.kind != PageNodeType::RawText) by {
            assert(c.valid_path(q.skip(1)));
        }
        lemma_merge_split(c, q.skip(1), k, ids);
    }
    assert(head.push(c) + tail =~= n.children);
}

/// Merges `b` into `p`, and says where two texts were joined.
pub fn merge_nodes(p: &mut PageNode, b: PageNode) -> (r: Option<Caret>)
    ensures
        final(p)@ == merge_into(old(p)@, b@),
        r == merge_caret(old(p)@, b@),
    decreases *old(p),
{
    let ghost p0 = *p;
    let ghost b0 = b;
    let mut b = b;
    proof {
        p0.lemma_view_children();
        b0.lemma_view_children();
    }
    if p.children.len() == 0 || b.children.len() == 0 {
        let ghost bc = b.children@;
        p.children.append(&mut b.children);
        proof {
            p.lemma_view_children();
            lemma_views(bc);
            assert(p@.children =~= p0@.children + b0@.children);
        }
        return None;
    }
    let n: usize = p.children.len();
    let first = b.children.remove(0);
    let ghost tail = b.children@;
    let ghost lp = p0@.children.last();
    let ghost fb = b0@.children[0];
    proof {
        lemma_views(tail);
        assert(first@ == fb);
    }
    if p.children[n - 1].kind != first.kind {
        p.children.push(first);
        p.children.append(&mut b.children);
        proof {
            p.lemma_view_children();
            assert(p@.children =~= p0@.children + b0@.children);
        }
        None
    } else if first.kind == PageNodeType::RawText {
        let off: usize = p.children[n - 1].text.len();
        let hash: u32 = p.children[n - 1].hash;
        let mut first = first;
        let ghost last0 = p.children@[n - 1];
        p.children[n - 1].text.append(&mut first.text);
        proof {
            let last1 = p.children@[n - 1];
            last0.lemma_view_children();
            last1.lemma_view_children();
            assert(last1@.children =~= last0@.children);
            assert(last1@ == with_text(lp, lp.text + fb.text));
        }
        p.children.append(&mut b.children);
        proof {
            p.lemma_view_children();
            assert(p@.children =~= p0@.children.drop_last().push(with_text(lp, lp.text + fb.text))
                + b0@.children.skip(1));
        }
        Some(Caret { hash, offset: off })
    } else {
        let r = merge_nodes(&mut p.children[n - 1], first);
        p.children.append(&mut b.children);
        proof {
            p.lemma_view_children();
            assert(p@.children =~= p0@.children.drop_last().push(merge_into(lp, fb)) + b0@.children.skip(1));
        }
        r
    }
}

/// Appends to `path` the steps from the block `node` to its last leaf block.
pub fn push_bot_path(node: &PageNode, path: &mut Vec<usize>)
    ensures
        final(path)@ == old(path)@ + bot_path(node@),
    decreases *node,
{
    proof {
        node.lemma_view_children();
    }
    let n: usize = node.children.len();
    if node.kind.is_block() && node.kind.is_branch() && n > 0 {
        path.push(n - 1);
        push_bot_path(&node.children[n - 1], path);
        proof {
            assert(old(path)@.push((n - 1) as usize) + bot_path(node@.children.last()) =~= old(path)@ + bot_path(
                node@,
            ));
        }
    } else {
        assert(old(path)@ + bot_path(node@) =~= old(path)@);
    }
}

/// The tree after a merge is sound.
pub proof fn lemma_merged_sound(root: NodeView, bi: int)
    requires
        root.kind == PageNodeType::Page,
        root.well_formed(),
        root.bounded(),
        unique_hashes(root),
        0 < bi < root.children.len(),
        root.children[bi].kind.is_leaf_block_kind(),
    ensures
        merged(root, bi).kind == PageNodeType::Page,
        merged(root, bi).well_formed(),
        unique_hashes(merged(root, bi)),
        root.with_children(root.children.remove(bi)).valid_path(
            seq![(bi - 1) as usize] + bot_path(root.children[bi - 1]),
        ),
        root.with_children(root.children.remove(bi)).node_at(
            seq![(bi - 1) as usize] + bot_path(root.children[bi - 1]),
        ) == root.node_at(seq![(bi - 1) as usize] + bot_path(root.children[bi - 1])),
{
    let b = root.children[bi];
    let c = root.children[bi - 1];
    let pp = seq![(bi - 1) as usize] + bot_path(c);
    let rest = root.with_children(root.children.remove(bi));
    lemma_merge_target(root, bi);
    let p = root.node_at(pp);
    assert(pp.skip(1) =~= bot_path(c));
    assert(rest.children[bi - 1] == c);
    assert(rest.valid_path(pp));
    assert(rest.node_at(pp) == p);
    lemma_branch_children(root);
    assert forall|i: int| 0 <= i < rest.children.len() implies kind_accepts(rest.kind, (#[trigger] rest.children[i]).kind)
        && rest.children[i].well_formed() by {
        if i < bi {
            assert(rest.children[i] == root.children[i]);
            assert(kind_accepts(root.kind, root.children[i].kind));
        } else {
            assert(rest.children[i] == root.children[i + 1]);
            assert(kind_accepts(root.kind, root.children[i + 1].kind));
        }
    }
    assert(rest.well_formed());
    lemma_merge_well_formed(p, b);
    lemma_replace_well_formed(rest, pp, merge_into(p, b));
    let new_root = rest.replace_at(pp, merge_into(p, b));
    assert forall|h: u32| #[trigger] bag(new_root).count(h) <= 1 by {
        lemma_replace_bag(rest, pp, merge_into(p, b), h);
        lemma_merge_bag(p, b, h);
        let head = root.children.subrange(0, bi);
        let tail = root.children.subrange(bi + 1, root.children.len() as int);
        assert(root.children =~= head + seq![b] + tail);
        assert(rest.children =~= head + tail);
        lemma_bags_concat(head + seq![b], tail, h);
        lemma_bags_concat(head, seq![b], h);
        lemma_bags_one(b, h);
        lemma_bags_concat(head, tail, h);
        assert(bag(rest).count(h) + bag(b).count(h) == bag(root).count(h));
        assert(bag(root).count(h) <= 1);
    }
}

/// Merges the top-level leaf block at index `bi` into the leaf block before
/// it and takes it out of the page. The caret goes to where two texts were
/// joined, or stays where nothing was joined. An edge that was on the merged
/// block goes to the block it was merged into, and a spacer that stood for
/// the merged block no longer does.
pub fn merge_block(page: &mut Page, bi: usize, caret: Caret) -> (r: Caret)
    requires
        old(page).wf(),
        old(page).edges_ok(),
        0 < bi < old(page).nodes@.children.len(),
        old(page).nodes@.children[bi as int].kind.is_leaf_block_kind(),
    ensures
        final(page).wf(),
        final(page).edges_ok(),
        final(page).nodes@ == merged(old(page).nodes@, bi as int),
        r == merged_caret(old(page).nodes@, bi as int, caret),
        final(page).top_elem == crate::edit_edges::merged_top(
            leaves(old(page).nodes@),
            old(page).top_elem,
            leaves_of(old(page).nodes@.children, bi as nat).len() as int,
        ),
        final(page).bot_elem == crate::edit_edges::merged_bot(
            leaves(old(page).nodes@),
            old(page).bot_elem,
            leaves_of(old(page).nodes@.children, bi as nat).len() as int,
        ),
{
    let ghost root = page.nodes@;
    let ghost l = leaves(root);
    let ghost i = leaves_of(root.children, bi as nat).len() as int;
    let ghost m = page.index();
    let ghost lo = crate::children::index_of_hash(l, page.top_elem.hash);
    let ghost hi = crate::children::index_of_hash(l, page.bot_elem.hash);
    proof {
        page.nodes.lemma_bounded();
        page.nodes.lemma_view_children();
        lemma_merged_sound(root, bi as int);
        crate::edit_edges::lemma_merged_leaves(root, bi as int);
        crate::leaf_algebra::lemma_leaves_distinct(root);
        crate::edit_edges::lemma_merged_edges_fit(l, leaves(merged(root, bi as int)), page.top_elem, page.bot_elem, i);
        crate::children::lemma_index_of_hash(l, page.top_elem.hash);
        crate::children::lemma_index_of_hash(l, page.bot_elem.hash);
        crate::leaf_path::lemma_leaf_indexed(m, root, lo);
        crate::leaf_path::lemma_leaf_indexed(m, root, hi);
        crate::view_state::lemma_index_at(l, i);
    }
    let mut pp: Vec<usize> = Vec::new();
    pp.push(bi - 1);
    push_bot_path(&page.nodes.children[bi - 1], &mut pp);
    assert(pp@ =~= seq![(bi - 1) as usize] + bot_path(root.children[bi - 1]));
    let b_hash: u32 = page.nodes.children[bi].hash;
    let b_height: u32 = page.nodes.children[bi].height;
    let target = crate::page_node::get_node_from_location(&pp, &page.nodes).unwrap();
    let p_hash: u32 = target.hash;
    let p_height: u32 = target.height;
    let top_loc = page.locations.get(&page.top_elem.hash);
    assert(m.contains_key(page.top_elem.hash));
    let top_loc = top_loc.unwrap();
    let bot_loc = page.locations.get(&page.bot_elem.hash);
    assert(m.contains_key(page.bot_elem.hash));
    let bot_loc = bot_loc.unwrap();
    proof {
        assert(top_loc@.len() >= 1) by {
            if top_loc@.len() == 0 {
                assert(root.node_at(top_loc@) == root);
            }
        }
        assert(bot_loc@.len() >= 1) by {
            if bot_loc@.len() == 0 {
                assert(root.node_at(bot_loc@) == root);
            }
        }
        crate::edit_edges::lemma_top_level_order(root, top_loc@, bi as int);
        crate::edit_edges::lemma_top_level_order(root, bot_loc@, bi as int);
    }
    let above_top: bool = bi < top_loc[0];
    let below_bot: bool = bi > bot_loc[0];
    proof {
        assert(root.node_at(Seq::<usize>::empty()) == root);
        crate::surgery::lemma_sibling_index(m, root, Seq::<usize>::empty(), bi);
    }
    let block = page.nodes.remove_child(&b_hash).unwrap();
    let ghost rest = page.nodes@;
    let mut target = take_node(&mut page.nodes, &pp);
    let r = merge_nodes(&mut target, block);
    proof {
        lemma_replace_twice(rest, pp@, placeholder(), target@);
    }
    put_node(&mut page.nodes, &pp, target);
    reindex(page);
    if b_hash == page.top_elem.hash {
        page.top_elem.hash = p_hash;
        page.top_elem.pad = page.top_elem.pad - p_height;
    } else if above_top {
        page.top_elem.pad = page.top_elem.pad - b_height;
    }
    if b_hash == page.bot_elem.hash {
        page.bot_elem.hash = p_hash;
    } else if below_bot {
        page.bot_elem.pad = page.bot_elem.pad - b_height;
    }
    match r {
        Some(c) => c,
        None => caret,
    }
}

} // verus!
