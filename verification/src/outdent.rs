//! Backspace at the start of a paragraph inside an indent or a quote: the
//! paragraph leaves the block around it.

use vstd::prelude::*;
use crate::enter::{lemma_path_split, lemma_splice_unique, lemma_splice_well_formed, reindex};
use crate::hash_index::{bag, index_matches, unique_hashes};
use crate::issue::occ;
use crate::leaves::lemma_node_at_well_formed;
use crate::node_kind::PageNodeType;
use crate::children::RemoveThisBlockShell;
use crate::page::Page;
use crate::page_node::{kind_accepts, lemma_views, NodeView, PageNode};
use crate::surgery::{
    bags_all, lemma_bags_concat, lemma_bags_one, lemma_replace_twice, lemma_replace_well_formed, placeholder,
    put_node, take_node,
};

verus! {

/// The tree after the block at `po` was taken away and its children were
/// put in its place.
pub open spec fn unshelled(root: NodeView, po: Seq<usize>) -> NodeView {
    let gp = po.drop_last();
    let oi = po.last() as int;
    let g = root.node_at(gp);
    let o = g.children[oi];
    root.replace_at(
        gp,
        g.with_children(g.children.subrange(0, oi) + o.children + g.children.subrange(oi + 1, g.children.len() as int)),
    )
}

/// What stands in the place of the block `o` after its child at index `bi`
/// has left it: the block with the children before that child, the child
/// itself, and, where children stood behind it, a new block of the same
/// kind around those.
pub open spec fn parted(o: NodeView, bi: int, id: u32) -> Seq<NodeView> {
    let before = o.with_children(o.children.subrange(0, bi));
    let after = NodeView {
        hash: id,
        kind: o.kind,
        text: Seq::empty(),
        children: o.children.subrange(bi + 1, o.children.len() as int),
        height: 0,
    };
    if bi + 1 < o.children.len() {
        seq![before, o.children[bi], after]
    } else {
        seq![before, o.children[bi]]
    }
}

/// The tree after the block at `b`, not the first child of its parent, has
/// left its parent to stand behind it.
pub open spec fn split_out(root: NodeView, b: Seq<usize>, id: u32) -> NodeView {
    let po = b.drop_last();
    let bi = b.last() as int;
    let gp = po.drop_last();
    let oi = po.last() as int;
    let g = root.node_at(gp);
    let o = g.children[oi];
    root.replace_at(
        gp,
        g.with_children(
            g.children.subrange(0, oi) + parted(o, bi, id) + g.children.subrange(oi + 1, g.children.len() as int),
        ),
    )
}

/// The parts of the location of a node that is not the root: its parent
/// holds it at the last step.
pub proof fn lemma_child_parts(root: NodeView, p: Seq<usize>)
    requires
        root.well_formed(),
        root.valid_path(p),
        p.len() >= 1,
    ensures
        root.valid_path(p.drop_last()),
        (p.last() as int) < root.node_at(p.drop_last()).children.len(),
        root.node_at(p.drop_last()).children[p.last() as int] == root.node_at(p),
        root.node_at(p.drop_last()).well_formed(),
        root.node_at(p).well_formed(),
        kind_accepts(root.node_at(p.drop_last()).kind, root.node_at(p).kind),
{
    let pp = p.drop_last();
    let i = p.last();
    lemma_path_split(root, p, p.len() - 1);
    assert(p.subrange(0, p.len() - 1) =~= pp);
    assert(p.skip(p.len() - 1) =~= seq![i]);
    let o = root.node_at(pp);
    assert(seq![i].skip(1) =~= Seq::<usize>::empty());
    assert(o.valid_path(seq![i]));
    assert(o.node_at(seq![i]) == o.children[i as int].node_at(seq![i].skip(1)));
    lemma_node_at_well_formed(root, pp);
    lemma_node_at_well_formed(root, p);
    assert(kind_accepts(o.kind, o.children[i as int].kind));
}

/// The tree after a block shell was removed is sound.
pub proof fn lemma_unshelled_sound(m: Map<u32, Seq<usize>>, root: NodeView, po: Seq<usize>)
    requires
        root.kind == PageNodeType::Page,
        root.well_formed(),
        root.bounded(),
        unique_hashes(root),
        index_matches(m, root),
        root.valid_path(po),
        po.len() >= 1,
        root.node_at(po).kind.is_branch_block_kind(),
    ensures
        unshelled(root, po).kind == PageNodeType::Page,
        unshelled(root, po).well_formed(),
        unique_hashes(unshelled(root, po)),
{
    lemma_child_parts(root, po);
    let gp = po.drop_last();
    let oi = po.last() as int;
    let g = root.node_at(gp);
    let o = g.children[oi];
    assert forall|x: int| 0 <= x < o.children.len() implies kind_accepts(g.kind, (#[trigger] o.children[x]).kind)
        && o.children[x].well_formed() by {
        assert(kind_accepts(o.kind, o.children[x].kind));
    }
    lemma_splice_well_formed(g, oi, oi + 1, o.children);
    let g1 = g.with_children(
        g.children.subrange(0, oi) + o.children + g.children.subrange(oi + 1, g.children.len() as int),
    );
    lemma_replace_well_formed(root, gp, g1);
    let ids = Seq::<u32>::empty();
    assert forall|h: u32|
        bags_all(o.children).count(h) <= #[trigger] bags_all(g.children.subrange(oi, oi + 1)).count(h) + occ(ids, h) by {
        assert(g.children.subrange(oi, oi + 1) =~= seq![o]);
        lemma_bags_one(o, h);
    }
    lemma_splice_unique(m, root, gp, oi, oi + 1, o.children, ids);
}

/// The tree after a block has left its parent is sound.
pub proof fn lemma_split_out_sound(m: Map<u32, Seq<usize>>, root: NodeView, b: Seq<usize>, id: u32)
    requires
        root.kind == PageNodeType::Page,
        root.well_formed(),
        root.bounded(),
        unique_hashes(root),
        index_matches(m, root),
        root.valid_path(b),
        b.len() >= 2,
        b.last() > 0,
        root.node_at(b).kind.spec_is_block(),
        (b.last() as int) + 1 < root.node_at(b.drop_last()).children.len() ==> !m.dom().contains(id),
    ensures
        split_out(root, b, id).kind == PageNodeType::Page,
        split_out(root, b, id).well_formed(),
        unique_hashes(split_out(root, b, id)),
{
    let po = b.drop_last();
    let bi = b.last() as int;
    lemma_child_parts(root, b);
    lemma_child_parts(root, po);
    let gp = po.drop_last();
    let oi = po.last() as int;
    let g = root.node_at(gp);
    let o = g.children[oi];
    let blk = o.children[bi];
    let new = parted(o, bi, id);
    let before = o.with_children(o.children.subrange(0, bi));
    let after = NodeView {
        hash: id,
        kind: o.kind,
        text: Seq::empty(),
        children: o.children.subrange(bi + 1, o.children.len() as int),
        height: 0,
    };
    assert(before.well_formed()) by {
        assert forall|x: int| 0 <= x < before.children.len() implies kind_accepts(
            before.kind,
            (#[trigger] before.children[x]).kind,
        ) && before.children[x].well_formed() by {
            assert(before.children[x] == o.children[x]);
            assert(kind_accepts(o.kind, o.children[x].kind));
        }
    }
    if bi + 1 < o.children.len() {
        assert(after.well_formed()) by {
            assert forall|x: int| 0 <= x < after.children.len() implies kind_accepts(
                after.kind,
                (#[trigger] after.children[x]).kind,
            ) && after.children[x].well_formed() by {
                assert(after.children[x] == o.children[bi + 1 + x]);
                assert(kind_accepts(o.kind, o.children[bi + 1 + x].kind));
            }
        }
    }
    lemma_splice_well_formed(g, oi, oi + 1, new);
    let g1 = g.with_children(g.children.subrange(0, oi) + new + g.children.subrange(oi + 1, g.children.len() as int));
    lemma_replace_well_formed(root, gp, g1);
    let ids = if bi + 1 < o.children.len() {
        seq![id]
    } else {
        Seq::<u32>::empty()
    };
    assert(seq![id].drop_last() =~= Seq::<u32>::empty());
    assert forall|h: u32|
        bags_all(new).count(h) <= #[trigger] bags_all(g.children.subrange(oi, oi + 1)).count(h) + occ(ids, h) by {
        assert(g.children.subrange(oi, oi + 1) =~= seq![o]);
        lemma_bags_one(o, h);
        let head = o.children.subrange(0, bi);
        let tail = o.children.subrange(bi + 1, o.children.len() as int);
        assert(o.children =~= head + seq![blk] + tail);
        lemma_bags_concat(head + seq![blk], tail, h);
        lemma_bags_concat(head, seq![blk], h);
        lemma_bags_one(blk, h);
        lemma_bags_one(before, h);
        lemma_bags_one(after, h);
        assert(occ(seq![id], h) == occ(seq![id].drop_last(), h) + if seq![id].last() == h { 1nat } else { 0nat });
        assert(occ(Seq::<u32>::empty(), h) == 0);
        if bi + 1 < o.children.len() {
            assert(new =~= seq![before] + seq![blk] + seq![after]);
            lemma_bags_concat(seq![before] + seq![blk], seq![after], h);
            lemma_bags_concat(seq![before], seq![blk], h);
        } else {
            assert(new =~= seq![before] + seq![blk]);
            lemma_bags_concat(seq![before], seq![blk], h);
            assert(tail.len() == 0);
        }
    }
    lemma_splice_unique(m, root, gp, oi, oi + 1, new, ids);
}

/// Takes the block at `po` away and puts its children in its place.
pub fn remove_shell(page: &mut Page, po: &Vec<usize>)
    requires
        old(page).wf(),
        old(page).nodes@.valid_path(po@),
        po@.len() >= 1,
        old(page).nodes@.node_at(po@).kind.is_branch_block_kind(),
    ensures
        final(page).wf(),
        old(page).edges_ok() ==> final(page).edges_ok(),
        final(page).nodes@ == unshelled(old(page).nodes@, po@),
        final(page).top_elem == old(page).top_elem,
        final(page).bot_elem == old(page).bot_elem,
{
    let ghost root = page.nodes@;
    proof {
        page.nodes.lemma_bounded();
        lemma_child_parts(root, po@);
        lemma_unshelled_sound(page.index(), root, po@);
        crate::edit_leaves::lemma_unshelled_leaves(root, po@);
    }
    let gp = crate::enter::sub_vec(po, 0, po.len() - 1);
    let oi: usize = po[po.len() - 1];
    assert(gp@ =~= po@.drop_last());
    let shell_hash: u32 = crate::page_node::get_node_from_location(po, &page.nodes).unwrap().hash;
    let mut g = take_node(&mut page.nodes, &gp);
    proof {
        let gv = root.node_at(gp@);
        let o = gv.children[oi as int];
        crate::surgery::lemma_sibling_index(page.index(), root, gp@, oi);
        assert forall|x: int| 0 <= x < o.children.len() implies kind_accepts(gv.kind, (#[trigger] o.children[x]).kind) by {
            assert(kind_accepts(o.kind, o.children[x].kind));
        }
    }
    match g.remove_this_block_shell(shell_hash) {
        Ok(_) => {},
        Err(_) => {
            assert(false);
        },
    }
    proof {
        lemma_replace_twice(root, gp@, placeholder(), g@);
    }
    put_node(&mut page.nodes, &gp, g);
    reindex(page);
}

/// Lets the block at `b`, not the first child of its parent and not a child
/// of the page, leave its parent: it comes to stand behind its parent, and
/// the blocks that stood behind it follow inside a new block of the
/// parent's kind, which has the hash `id`.
pub fn move_out(page: &mut Page, b: &Vec<usize>, id: u32)
    requires
        old(page).wf(),
        old(page).nodes@.valid_path(b@),
        b@.len() >= 2,
        b@.last() > 0,
        old(page).nodes@.node_at(b@).kind.spec_is_block(),
        (b@.last() as int) + 1 < old(page).nodes@.node_at(b@.drop_last()).children.len() ==> !old(
            page,
        ).index().contains_key(id),
    ensures
        final(page).wf(),
        old(page).edges_ok() ==> final(page).edges_ok(),
        final(page).nodes@ == split_out(old(page).nodes@, b@, id),
        final(page).top_elem == old(page).top_elem,
        final(page).bot_elem == old(page).bot_elem,
{
    let ghost root = page.nodes@;
    proof {
        page.nodes.lemma_bounded();
        lemma_child_parts(root, b@);
        lemma_child_parts(root, b@.drop_last());
        lemma_split_out_sound(page.index(), root, b@, id);
        crate::edit_leaves::lemma_split_out_leaves(root, b@, id);
    }
    let n: usize = b.len();
    let gp = crate::enter::sub_vec(b, 0, n - 2);
    let oi: usize = b[n - 2];
    let bi: usize = b[n - 1];
    proof {
        assert(gp@ =~= b@.drop_last().drop_last());
        assert(b@.drop_last().last() == oi);
    }
    let mut g = take_node(&mut page.nodes, &gp);
    let ghost g0 = g;
    proof {
        g0.lemma_view_children();
        g0.children@[oi as int].lemma_view_children();
    }
    assert(oi < g.children.len());
    let mut rest = g.children[oi].children.split_off(bi);
    let block = rest.remove(0);
    let ghost rest0 = rest@;
    let ghost ov = g0@.children[oi as int];
    proof {
        lemma_views(rest0);
        g.lemma_view_children();
        g.children@[oi as int].lemma_view_children();
        assert(g@.children[oi as int].children =~= ov.children.subrange(0, bi as int));
        assert(g@.children[oi as int] == ov.with_children(ov.children.subrange(0, bi as int)));
        assert(block@ == ov.children[bi as int]);
    }
    let kind = g.children[oi].kind;
    let has_after: bool = rest.len() > 0;
    g.children.insert(oi + 1, block);
    if has_after {
        let after = PageNode { hash: id, kind, text: Vec::new(), children: rest, height: 0 };
        proof {
            after.lemma_view_children();
            assert(after@.text =~= Seq::<char>::empty());
            assert(after@.children =~= ov.children.subrange(bi + 1, ov.children.len() as int));
        }
        let m: usize = g.children.len();
        assert(oi + 2 <= m);
        g.children.insert(oi + 2, after);
    }
    proof {
        g.lemma_view_children();
        let gv = g0@;
        let o = gv.children[oi as int];
        let new = parted(o, bi as int, id);
        assert(g@.children.len() == gv.children.len() - 1 + new.len());
        assert(g@.children[oi as int] == new[0]);
        assert(g@.children[oi + 1] == new[1]);
        assert(g@.children =~= gv.children.subrange(0, oi as int) + new + gv.children.subrange(
            oi + 1,
            gv.children.len() as int,
        ));
        lemma_replace_twice(root, gp@, placeholder(), g@);
    }
    put_node(&mut page.nodes, &gp, g);
    reindex(page);
}

/// The tree after the block at `b` was put inside a new quote, which has
/// the hash `id` and stands in the block's place.
pub open spec fn wrapped(root: NodeView, b: Seq<usize>, id: u32) -> NodeView {
    root.replace_at(
        b,
        NodeView {
            hash: id,
            kind: PageNodeType::Quote,
            text: Seq::empty(),
            children: seq![root.node_at(b)],
            height: 0,
        },
    )
}

/// The tree after a block was put inside a quote is sound.
pub proof fn lemma_wrapped_sound(m: Map<u32, Seq<usize>>, root: NodeView, b: Seq<usize>, id: u32)
    requires
        root.kind == PageNodeType::Page,
        root.well_formed(),
        root.bounded(),
        unique_hashes(root),
        index_matches(m, root),
        root.valid_path(b),
        b.len() >= 1,
        root.node_at(b).kind.spec_is_block(),
        !m.dom().contains(id),
    ensures
        wrapped(root, b, id).kind == PageNodeType::Page,
        wrapped(root, b, id).well_formed(),
        unique_hashes(wrapped(root, b, id)),
{
    lemma_child_parts(root, b);
    let blk = root.node_at(b);
    let new = NodeView { hash: id, kind: PageNodeType::Quote, text: Seq::empty(), children: seq![blk], height: 0 };
    assert(new.well_formed());
    lemma_replace_well_formed(root, b, new);
    let ids = seq![id];
    assert(ids.drop_last() =~= Seq::<u32>::empty());
    assert forall|h: u32| #[trigger] bag(new).count(h) <= bag(blk).count(h) + occ(ids, h) by {
        lemma_bags_one(blk, h);
        assert(occ(ids, h) == occ(ids.drop_last(), h) + if ids.last() == h { 1nat } else { 0nat });
        assert(occ(Seq::<u32>::empty(), h) == 0);
    }
    crate::enter::lemma_replace_unique_fresh(m, root, b, new, ids);
}

/// Puts the block at `b` inside a new quote, which has the hash `id` and
/// stands in the block's place.
pub fn wrap_block(page: &mut Page, b: &Vec<usize>, id: u32)
    requires
        old(page).wf(),
        old(page).nodes@.valid_path(b@),
        b@.len() >= 1,
        old(page).nodes@.node_at(b@).kind.spec_is_block(),
        !old(page).index().contains_key(id),
    ensures
        final(page).wf(),
        old(page).edges_ok() ==> final(page).edges_ok(),
        final(page).nodes@ == wrapped(old(page).nodes@, b@, id),
        final(page).top_elem == old(page).top_elem,
        final(page).bot_elem == old(page).bot_elem,
{
    let ghost root = page.nodes@;
    proof {
        page.nodes.lemma_bounded();
        lemma_wrapped_sound(page.index(), root, b@, id);
        crate::edit_leaves::lemma_wrapped_leaves(root, b@, id);
    }
    let block = take_node(&mut page.nodes, b);
    let mut children: Vec<PageNode> = Vec::new();
    children.push(block);
    let quote = PageNode { hash: id, kind: PageNodeType::Quote, text: Vec::new(), children, height: 0 };
    proof {
        quote.lemma_view_children();
        assert(quote@.children =~= seq![root.node_at(b@)]);
        assert(quote@.text =~= Seq::<char>::empty());
        lemma_replace_twice(root, b@, placeholder(), quote@);
    }
    put_node(&mut page.nodes, b, quote);
    reindex(page);
}

} // verus!
