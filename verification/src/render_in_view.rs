//! Which blocks are rendered: the two edges move as the view scrolls, one
//! leaf block at a time, and the spacers take up what leaves the view.

use vstd::prelude::*;
use crate::children::{index_of_hash, lemma_index_of_hash};
use crate::leaf_algebra::lemma_leaves_distinct;
use crate::leaf_path::lemma_leaf_indexed;
use crate::leaves::{leaves, lemma_leaves_at, next_leaf_below, prev_leaf_below};
use crate::page::{EdgeElem, Page};
use crate::page_node::{NodeView, PageNode};
use crate::view_state::{
    block_height, edges_fit, height_sum, lemma_height_sum_bounds, lemma_height_sum_cut, lemma_index_at,
};

verus! {

broadcast use vstd::std_specs::hash::group_hash_axioms;

/// How near to the edge of the view, in pixels, the edge block may come
/// before the next block is rendered.
pub const ADD_DISTANCE: i64 = 20;

/// How far beyond the edge of the view, in pixels, a block must lie before
/// it is taken out.
pub const REMOVE_DISTANCE: i64 = 50;

/// The upper and the lower side of a box on the screen, in pixels.
#[derive(Debug, Clone, Copy, PartialEq, Eq, Structural)]
pub struct Rect {
    pub top: i32,
    pub bottom: i32,
}

/// An element together with the scroll window that shows it.
#[derive(Debug, Clone, Copy, PartialEq, Eq, Structural)]
pub struct ElemInPage {
    pub elem: Rect,
    pub page: Rect,
}

/// Whether an element should be rendered.
pub trait ElemIsInView {
    spec fn in_view(&self) -> bool;

    fn elem_is_in_view(&self) -> (r: bool)
        ensures
            r == self.in_view(),
    ;
}

impl ElemIsInView for ElemInPage {
    /// The element lies neither more than `REMOVE_DISTANCE` above the view
    /// nor more than that below it.
    open spec fn in_view(&self) -> bool {
        self.page.top - self.elem.bottom <= REMOVE_DISTANCE && self.elem.top - self.page.bottom <= REMOVE_DISTANCE
    }

    fn elem_is_in_view(&self) -> (r: bool) {
        let above: i64 = self.page.top as i64 - self.elem.bottom as i64;
        let below: i64 = self.elem.top as i64 - self.page.bottom as i64;
        above <= REMOVE_DISTANCE && below <= REMOVE_DISTANCE
    }
}

/// One of the two edges of the rendered range.
#[derive(Debug, Clone, Copy, PartialEq, Eq, Structural)]
pub enum Edge {
    Top,
    Bot,
}

/// What the place of an edge block on the screen asks for.
#[derive(Debug, Clone, Copy, PartialEq, Eq, Structural)]
pub enum Want {
    /// The block beyond the edge comes into view: render it.
    Add,
    /// The edge block has left the view: take it out.
    Remove,
    /// The edge is where it should be.
    Rest,
}

/// What the place of the edge block asks for. At the top the block before it
/// is added while the block's upper side is less than `ADD_DISTANCE` above
/// the view, and the block is removed once its lower side is more than
/// `REMOVE_DISTANCE` above it; at the bottom the same, mirrored.
pub open spec fn wanted(edge: Edge, page: Rect, elem: Rect) -> Want {
    match edge {
        Edge::Top => if page.top - elem.top < ADD_DISTANCE {
            Want::Add
        } else if page.top - elem.bottom > REMOVE_DISTANCE {
            Want::Remove
        } else {
            Want::Rest
        },
        Edge::Bot => if elem.bottom - page.bottom < ADD_DISTANCE {
            Want::Add
        } else if elem.top - page.bottom > REMOVE_DISTANCE {
            Want::Remove
        } else {
            Want::Rest
        },
    }
}

/// What the place of the edge block asks for.
pub fn want(edge: Edge, page: Rect, elem: Rect) -> (r: Want)
    ensures
        r == wanted(edge, page, elem),
{
    let (near, far): (i64, i64) = match edge {
        Edge::Top => (page.top as i64 - elem.top as i64, page.top as i64 - elem.bottom as i64),
        Edge::Bot => (elem.bottom as i64 - page.bottom as i64, elem.top as i64 - page.bottom as i64),
    };
    if near < ADD_DISTANCE {
        Want::Add
    } else if far > REMOVE_DISTANCE {
        Want::Remove
    } else {
        Want::Rest
    }
}

/// What one step did.
#[derive(Debug, Clone, Copy, PartialEq, Eq, Structural)]
pub enum EdgeStep {
    /// The edge is at rest.
    Done,
    /// The leaf block with hash `leaf` joined the rendered range. The host
    /// creates its element and those of the blocks around it that have none:
    /// the outermost of them stands at the first `depth` steps of the leaf
    /// block's location.
    Attached { leaf: u32, depth: usize },
    /// The leaf block with hash `leaf` left the rendered range. The host
    /// removes the element of the block at the first `depth` steps of the
    /// leaf block's location, with all inside it.
    Detached { leaf: u32, depth: usize },
}

/// The edges after a step, and the leaf block that joined (`true`) or left
/// (`false`) the rendered range, if one did.
pub open spec fn step_effect(l: Seq<NodeView>, top: EdgeElem, bot: EdgeElem, edge: Edge, want: Want) -> (
    EdgeElem,
    EdgeElem,
    Option<(bool, u32)>,
) {
    let lo = index_of_hash(l, top.hash);
    let hi = index_of_hash(l, bot.hash);
    match (edge, want) {
        (Edge::Top, Want::Add) => if lo > 0 {
            (
                EdgeElem { hash: l[lo - 1].hash, pad: (top.pad - block_height(l[lo - 1])) as u32, ..top },
                bot,
                Some((true, l[lo - 1].hash)),
            )
        } else {
            (top, bot, None)
        },
        (Edge::Top, Want::Remove) => if lo < hi && top.pad + block_height(l[lo]) <= u32::MAX {
            (
                EdgeElem { hash: l[lo + 1].hash, pad: (top.pad + block_height(l[lo])) as u32, ..top },
                bot,
                Some((false, l[lo].hash)),
            )
        } else {
            (top, bot, None)
        },
        (Edge::Bot, Want::Add) => if hi + 1 < l.len() {
            (
                top,
                EdgeElem { hash: l[hi + 1].hash, pad: (bot.pad - block_height(l[hi + 1])) as u32, ..bot },
                Some((true, l[hi + 1].hash)),
            )
        } else {
            (top, bot, None)
        },
        (Edge::Bot, Want::Remove) => if lo < hi && bot.pad + block_height(l[hi]) <= u32::MAX {
            (
                top,
                EdgeElem { hash: l[hi - 1].hash, pad: (bot.pad + block_height(l[hi])) as u32, ..bot },
                Some((false, l[hi].hash)),
            )
        } else {
            (top, bot, None)
        },
        _ => (top, bot, None),
    }
}

/// A step keeps the edges fitting.
pub proof fn lemma_step_fits(l: Seq<NodeView>, top: EdgeElem, bot: EdgeElem, edge: Edge, want: Want)
    requires
        edges_fit(l, top, bot),
        forall|a: int, b: int| 0 <= a < b < l.len() ==> (#[trigger] l[a]).hash != (#[trigger] l[b]).hash,
    ensures
        edges_fit(l, step_effect(l, top, bot, edge, want).0, step_effect(l, top, bot, edge, want).1),
        top.pad - block_height(l[index_of_hash(l, top.hash) - 1]) >= 0 || index_of_hash(l, top.hash) == 0,
        index_of_hash(l, bot.hash) + 1 < l.len() ==> bot.pad - block_height(l[index_of_hash(l, bot.hash) + 1]) >= 0,
{
    let lo = index_of_hash(l, top.hash);
    let hi = index_of_hash(l, bot.hash);
    let n = l.len() as int;
    if lo > 0 {
        lemma_index_at(l, lo - 1);
        lemma_height_sum_bounds(l, 0, lo - 1);
    }
    if lo < hi {
        lemma_index_at(l, lo + 1);
        lemma_index_at(l, hi - 1);
        lemma_height_sum_cut(l, hi, hi + 1, n);
        assert(height_sum(l, hi, hi + 1) == height_sum(l, hi, hi) + block_height(l[hi]));
    }
    if hi + 1 < n {
        lemma_index_at(l, hi + 1);
        lemma_height_sum_cut(l, hi + 1, hi + 2, n);
        assert(height_sum(l, hi + 1, hi + 2) == height_sum(l, hi + 1, hi + 1) + block_height(l[hi + 1]));
        lemma_height_sum_bounds(l, hi + 2, n);
    }
}

/// Whether step `j` of the location goes to the child at the edge of its
/// parent: the last child where `last` holds, else the first.
pub open spec fn edge_step(root: NodeView, p: Seq<usize>, j: int, last: bool) -> bool {
    p[j] == if last {
        root.node_at(p.subrange(0, j)).children.len() - 1
    } else {
        0
    }
}

/// Whether `d` is the depth of the outermost block that rises or falls with
/// the leaf block at `p`: from that depth on every step goes to the child at
/// the edge, and the step before it does not. The page itself stays.
pub open spec fn is_rising(root: NodeView, p: Seq<usize>, last: bool, d: int) -> bool {
    &&& p.len() == 0 ==> d == 0
    &&& p.len() >= 1 ==> 1 <= d <= p.len()
    &&& forall|j: int| d <= j < p.len() ==> edge_step(root, p, j, last)
    &&& d > 1 ==> !edge_step(root, p, d - 1, last)
}

/// The depth of the outermost block that rises or falls with the leaf block
/// at `location`.
pub fn rising_depth(root: &PageNode, location: &Vec<usize>, last: bool) -> (d: usize)
    requires
        root@.valid_path(location@),
    ensures
        is_rising(root@, location@, last, d as int),
{
    if location.len() == 0 {
        return 0;
    }
    let mut node: &PageNode = root;
    let mut keep: usize = 1;
    let mut j: usize = 0;
    assert(location@.skip(0) =~= location@);
    assert(location@.subrange(0, 0) =~= Seq::<usize>::empty());
    while j < location.len()
        invariant
            j <= location@.len(),
            1 <= keep <= location@.len(),
            keep <= j + 1,
            root@.valid_path(location@),
            node@.valid_path(location@.skip(j as int)),
            node@ == root@.node_at(location@.subrange(0, j as int)),
            root@.valid_path(location@.subrange(0, j as int)),
            forall|x: int| keep <= x < j ==> edge_step(root@, location@, x, last),
            keep > 1 ==> !edge_step(root@, location@, keep - 1, last),
        decreases location@.len() - j,
    {
        let i: usize = location[j];
        proof {
            node.lemma_view_children();
            assert(location@.skip(j as int)[0] == i);
            assert(location@.skip(j as int).skip(1) =~= location@.skip(j + 1));
        }
        let e: usize = if last {
            node.children.len() - 1
        } else {
            0
        };
        if j >= 1 && i != e {
            keep = j + 1;
        }
        proof {
            let pre = location@.subrange(0, j as int);
            let nxt = location@.subrange(0, j + 1);
            assert(nxt =~= pre + seq![i]);
            crate::enter::lemma_path_split(root@, location@, j + 1);
            crate::enter::lemma_path_split(root@, nxt, j as int);
            assert(nxt.subrange(0, j as int) =~= pre);
            assert(nxt.skip(j as int) =~= seq![i]);
            assert(seq![i].skip(1) =~= Seq::<usize>::empty());
            assert(node@.node_at(seq![i]) == node@.children[i as int].node_at(seq![i].skip(1)));
        }
        node = &node.children[i];
        j += 1;
    }
    keep
}

/// Moves one edge by one leaf block where its place on the screen asks for
/// it: renders the leaf block beyond the edge, or takes the edge block out.
/// The spacer of that edge takes up or gives back the block's height. An
/// edge never passes the other one, and a spacer never grows beyond what a
/// `u32` holds: the step is not made then.
pub fn update_dom_nodes_in_view(page: &mut Page, edge: Edge, page_rect: Rect, elem_rect: Rect) -> (r: EdgeStep)
    requires
        old(page).wf(),
        old(page).edges_ok(),
    ensures
        final(page).wf(),
        final(page).edges_ok(),
        final(page).nodes == old(page).nodes,
        final(page).locations == old(page).locations,
        ({
            let eff = step_effect(
                leaves(old(page).nodes@),
                old(page).top_elem,
                old(page).bot_elem,
                edge,
                wanted(edge, page_rect, elem_rect),
            );
            &&& final(page).top_elem == eff.0
            &&& final(page).bot_elem == eff.1
            &&& match r {
                EdgeStep::Done => eff.2.is_none(),
                EdgeStep::Attached { leaf, depth } => eff.2 == Some((true, leaf)) && is_rising(
                    old(page).nodes@,
                    old(page).index()[leaf],
                    edge == Edge::Top,
                    depth as int,
                ),
                EdgeStep::Detached { leaf, depth } => eff.2 == Some((false, leaf)) && is_rising(
                    old(page).nodes@,
                    old(page).index()[leaf],
                    edge == Edge::Top,
                    depth as int,
                ),
            }
        }),
{
    let w = want(edge, page_rect, elem_rect);
    let ghost root = page.nodes@;
    let ghost l = leaves(root);
    let ghost lo = index_of_hash(l, page.top_elem.hash);
    let ghost hi = index_of_hash(l, page.bot_elem.hash);
    let ghost m = page.index();
    proof {
        page.nodes.lemma_bounded();
        lemma_leaves_distinct(root);
        lemma_step_fits(l, page.top_elem, page.bot_elem, edge, w);
        lemma_index_of_hash(l, page.top_elem.hash);
        lemma_index_of_hash(l, page.bot_elem.hash);
        lemma_leaf_indexed(m, root, lo);
        lemma_leaf_indexed(m, root, hi);
    }
    let one = page.top_elem.hash == page.bot_elem.hash;
    let own_hash: u32 = match edge {
        Edge::Top => page.top_elem.hash,
        Edge::Bot => page.bot_elem.hash,
    };
    let own_pad: u32 = match edge {
        Edge::Top => page.top_elem.pad,
        Edge::Bot => page.bot_elem.pad,
    };
    let ghost own = if edge == Edge::Top { lo } else { hi };
    let own_loc = page.locations.get(&own_hash);
    assert(m.contains_key(own_hash));
    let own_loc = own_loc.unwrap();
    proof {
        assert(own_loc@ == m[own_hash]);
        lemma_leaves_at(root, own_loc@);
        assert(own_loc@.skip(0) =~= own_loc@);
        assert(leaves(root.node_at(own_loc@)) =~= seq![root.node_at(own_loc@)]);
    }
    match w {
        Want::Rest => EdgeStep::Done,
        Want::Add => {
            let beyond = match edge {
                Edge::Top => prev_leaf_below(&page.nodes, own_loc, 0),
                Edge::Bot => next_leaf_below(&page.nodes, own_loc, 0),
            };
            match beyond {
                None => EdgeStep::Done,
                Some(n) => {
                    let leaf: u32 = n.hash;
                    let ghost at = if edge == Edge::Top { lo - 1 } else { hi + 1 };
                    proof {
                        assert(n@ == l[at]);
                        lemma_leaf_indexed(m, root, at);
                    }
                    let h: u32 = n.height + n.kind.innate_height();
                    let loc = page.locations.get(&leaf).unwrap();
                    let depth = rising_depth(&page.nodes, loc, matches!(edge, Edge::Top));
                    match edge {
                        Edge::Top => {
                            page.top_elem.hash = leaf;
                            page.top_elem.pad = own_pad - h;
                        },
                        Edge::Bot => {
                            page.bot_elem.hash = leaf;
                            page.bot_elem.pad = own_pad - h;
                        },
                    }
                    EdgeStep::Attached { leaf, depth }
                },
            }
        },
        Want::Remove => {
            if one {
                proof {
                    assert(lo == hi);
                }
                return EdgeStep::Done;
            }
            proof {
                if lo == hi {
                    assert(l[lo].hash == page.top_elem.hash);
                    assert(l[hi].hash == page.bot_elem.hash);
                }
                assert(lo < hi);
            }
            let me = crate::page_node::get_node_from_location(own_loc, &page.nodes).unwrap();
            let h: u32 = me.height + me.kind.innate_height();
            if h > u32::MAX - own_pad {
                return EdgeStep::Done;
            }
            let inward = match edge {
                Edge::Top => next_leaf_below(&page.nodes, own_loc, 0),
                Edge::Bot => prev_leaf_below(&page.nodes, own_loc, 0),
            };
            let next_hash: u32 = inward.unwrap().hash;
            let depth = rising_depth(&page.nodes, own_loc, matches!(edge, Edge::Top));
            match edge {
                Edge::Top => {
                    page.top_elem.hash = next_hash;
                    page.top_elem.pad = own_pad + h;
                },
                Edge::Bot => {
                    page.bot_elem.hash = next_hash;
                    page.bot_elem.pad = own_pad + h;
                },
            }
            EdgeStep::Detached { leaf: own_hash, depth }
        },
    }
}

/// The hashes of the leaf blocks that are rendered, from the top edge to
/// the bottom edge: a part of the row of leaf blocks without a gap, in
/// document order.
pub fn get_nodes_in_view(page: &Page) -> (r: Vec<u32>)
    requires
        page.sound(),
    ensures
        r@ == crate::leaf_algebra::hashes_of(
            leaves(page.nodes@).subrange(page.top_index(), page.bot_index() + 1),
        ),
{
    let ghost root = page.nodes@;
    let ghost l = leaves(root);
    let ghost lo = page.top_index();
    let ghost hi = page.bot_index();
    let ghost m = page.index();
    proof {
        page.nodes.lemma_bounded();
        lemma_leaves_distinct(root);
        lemma_index_of_hash(l, page.top_elem.hash);
        lemma_index_of_hash(l, page.bot_elem.hash);
    }
    let mut out: Vec<u32> = Vec::new();
    let mut cur: u32 = page.top_elem.hash;
    out.push(cur);
    let ghost mut k: int = lo;
    assert(out@ =~= crate::leaf_algebra::hashes_of(l.subrange(lo, lo + 1)));
    while cur != page.bot_elem.hash
        invariant
            page.sound(),
            root == page.nodes@,
            l == leaves(root),
            m == page.index(),
            root.bounded(),
            lo == index_of_hash(l, page.top_elem.hash),
            hi == index_of_hash(l, page.bot_elem.hash),
            crate::edit_edges::distinct(l),
            0 <= lo <= k <= hi < l.len(),
            cur == l[k].hash,
            l[hi].hash == page.bot_elem.hash,
            out@ == crate::leaf_algebra::hashes_of(l.subrange(lo, k + 1)),
        decreases hi - k,
    {
        proof {
            lemma_leaf_indexed(m, root, k);
            lemma_leaves_at(root, m[cur]);
            assert(leaves(root.node_at(m[cur])) =~= seq![root.node_at(m[cur])]);
            if k == hi {
                assert(cur == page.bot_elem.hash);
            }
        }
        let next = crate::page::get_next_block_node(&cur, page);
        let next = next.unwrap();
        cur = next.hash;
        out.push(cur);
        proof {
            k = k + 1;
            assert(out@ =~= crate::leaf_algebra::hashes_of(l.subrange(lo, k + 1)));
        }
    }
    proof {
        lemma_index_at(l, k);
    }
    out
}

/// The tree with the height `height` recorded for the node at `p`.
pub open spec fn heighted(root: NodeView, p: Seq<usize>, height: u32) -> NodeView {
    root.replace_at(p, NodeView { height, ..root.node_at(p) })
}

/// Edges that fit a row fit the row with another height for a leaf block
/// between them.
pub proof fn lemma_reheight_fit(l: Seq<NodeView>, l2: Seq<NodeView>, top: EdgeElem, bot: EdgeElem, i: int)
    requires
        edges_fit(l, top, bot),
        index_of_hash(l, top.hash) <= i <= index_of_hash(l, bot.hash),
        l2.len() == l.len(),
        forall|j: int| 0 <= j < l.len() ==> (#[trigger] l2[j]).hash == l[j].hash,
        forall|j: int| 0 <= j < l.len() && j != i ==> block_height(#[trigger] l[j]) == block_height(l2[j]),
    ensures
        edges_fit(l2, top, bot),
{
    let lo = index_of_hash(l, top.hash);
    let hi = index_of_hash(l, bot.hash);
    lemma_index_of_hash(l, top.hash);
    lemma_index_of_hash(l, bot.hash);
    assert forall|j: int| 0 <= j < lo implies (#[trigger] l2[j]).hash != top.hash by {
        assert(l[j].hash != top.hash);
    }
    crate::children::lemma_index_of_hash_is(l2, top.hash, lo);
    assert forall|j: int| 0 <= j < hi implies (#[trigger] l2[j]).hash != bot.hash by {
        assert(l[j].hash != bot.hash);
    }
    crate::children::lemma_index_of_hash_is(l2, bot.hash, hi);
    crate::view_state::lemma_height_sum_same(l, l2, 0, lo, 0);
    crate::view_state::lemma_height_sum_same(l, l2, hi + 1, l.len() as int, 0);
}

/// Records the height that the host measured for a rendered leaf block.
/// Says no, and changes nothing, where the hash is not that of a rendered
/// leaf block.
pub fn record_height(page: &mut Page, hash: u32, height: u32) -> (r: bool)
    requires
        old(page).sound(),
    ensures
        final(page).sound(),
        r == crate::leaf_algebra::hashes_of(
            leaves(old(page).nodes@).subrange(old(page).top_index(), old(page).bot_index() + 1),
        ).contains(hash),
        r ==> final(page).nodes@ == heighted(old(page).nodes@, old(page).index()[hash], height),
        !r ==> final(page).nodes@ == old(page).nodes@,
        final(page).index() == old(page).index(),
        final(page).top_elem == old(page).top_elem,
        final(page).bot_elem == old(page).bot_elem,
{
    let shown = get_nodes_in_view(page);
    if !crate::issue::is_among(&shown, hash) {
        return false;
    }
    let ghost root = page.nodes@;
    let ghost l = leaves(root);
    let ghost lo = page.top_index();
    let ghost hi = page.bot_index();
    let ghost m = page.index();
    let ghost part = l.subrange(lo, hi + 1);
    let ghost x = choose|x: int| 0 <= x < shown@.len() && shown@[x] == hash;
    let ghost i = lo + x;
    proof {
        page.nodes.lemma_bounded();
        lemma_index_of_hash(l, page.top_elem.hash);
        lemma_index_of_hash(l, page.bot_elem.hash);
        assert(part[x].hash == hash);
        assert(l[i].hash == hash);
        lemma_leaf_indexed(m, root, i);
    }
    let loc = page.locations.get(&hash).unwrap();
    let loc = crate::enter::sub_vec(loc, 0, loc.len());
    assert(loc@ =~= m[hash]);
    let mut node = crate::surgery::take_node(&mut page.nodes, &loc);
    let ghost before = node;
    node.height = height;
    proof {
        node.lemma_view_children();
        before.lemma_view_children();
        assert(node@.children =~= before@.children);
        assert(node@ == (NodeView { height, ..before@ }));
        crate::surgery::lemma_replace_twice(root, loc@, crate::surgery::placeholder(), node@);
        crate::leaves::lemma_node_at_well_formed(root, loc@);
        assert forall|j: int| 0 <= j < node@.children.len() implies crate::page_node::kind_accepts(
            node@.kind,
            (#[trigger] node@.children[j]).kind,
        ) && node@.children[j].well_formed() by {
            assert(crate::page_node::kind_accepts(before@.kind, before@.children[j].kind));
        }
        crate::text_edit::lemma_reshape_free(m, root, loc@, node@);
        crate::leaf_algebra::lemma_replace_leaves(root, loc@, node@);
        lemma_leaves_at(root, loc@);
        assert(leaves(before@) =~= seq![before@]);
        assert(leaves(node@) =~= seq![node@]);
        let l2 = leaves(root.replace_at(loc@, node@));
        assert(l2 =~= l.subrange(0, i) + seq![node@] + l.subrange(i + 1, l.len() as int));
        assert forall|j: int| 0 <= j < l.len() implies (#[trigger] l2[j]).hash == l[j].hash by {
            if j == i {
                assert(l2[j] == node@);
            }
        }
        assert forall|j: int| 0 <= j < l.len() && j != i implies block_height(#[trigger] l[j]) == block_height(
            l2[j],
        ) by {
            assert(l2[j] == l[j]);
        }
        lemma_reheight_fit(l, l2, page.top_elem, page.bot_elem, i);
    }
    crate::surgery::put_node(&mut page.nodes, &loc, node);
    true
}

} // verus!
