//! Setting a page up: the index is built, and the spacers are made as high
//! as the leaf blocks that are not rendered at first.

use std::collections::HashMap;
use vstd::prelude::*;
use crate::children::{index_of_hash, lemma_index_of_hash, lemma_index_of_hash_is};
use crate::hash_index::{unique_hashes, update_hash_locations};
use crate::leaves::{get_top_hash, leaves, leaves_of, lemma_branch_children};
use crate::node_kind::PageNodeType;
use crate::page::{check_well_formed, EdgeElem, Page};
use crate::page_node::{NodeView, PageNode};
use crate::view_state::{block_height, height_sum, lemma_height_sum_bounds, lemma_height_sum_same};

verus! {

/// What a walk along the leaf blocks has found so far.
pub struct PadScan {
    /// Whether the leaf block looked for was met.
    pub found: bool,
    /// The heights of the leaf blocks before it, added up.
    pub before: u32,
    /// The heights of the leaf blocks behind it, added up.
    pub after: u32,
    /// Whether both sums have stayed within what a `u32` holds.
    pub fits: bool,
}

/// The heights of the leaf blocks of `x` before the one with hash `h`.
pub open spec fn sum_before(x: Seq<NodeView>, h: u32) -> int {
    height_sum(x, 0, index_of_hash(x, h))
}

/// The heights of the leaf blocks of `x` behind the one with hash `h`.
pub open spec fn sum_after(x: Seq<NodeView>, h: u32) -> int {
    height_sum(x, index_of_hash(x, h) + 1, x.len() as int)
}

/// Whether the scan says what holds of the row `x`.
pub open spec fn scan_ok(x: Seq<NodeView>, h: u32, st: PadScan) -> bool {
    &&& st.found == (index_of_hash(x, h) < x.len())
    &&& st.fits == (sum_before(x, h) <= u32::MAX && sum_after(x, h) <= u32::MAX)
    &&& st.fits ==> st.before == sum_before(x, h) && st.after == sum_after(x, h)
}

/// The sums of a row with one more leaf block at its end.
pub proof fn lemma_scan_push(x: Seq<NodeView>, n: NodeView, h: u32)
    ensures
        index_of_hash(x, h) < x.len() ==> index_of_hash(x.push(n), h) == index_of_hash(x, h) && sum_before(
            x.push(n),
            h,
        ) == sum_before(x, h) && sum_after(x.push(n), h) == sum_after(x, h) + block_height(n),
        index_of_hash(x, h) == x.len() && n.hash == h ==> index_of_hash(x.push(n), h) == x.len() && sum_before(
            x.push(n),
            h,
        ) == sum_before(x, h) && sum_after(x.push(n), h) == 0,
        index_of_hash(x, h) == x.len() && n.hash != h ==> index_of_hash(x.push(n), h) == x.len() + 1 && sum_before(
            x.push(n),
            h,
        ) == sum_before(x, h) + block_height(n) && sum_after(x.push(n), h) == 0,
        sum_before(x, h) >= 0,
        sum_after(x, h) >= 0,
        0 <= index_of_hash(x, h) <= x.len(),
        index_of_hash(x, h) == x.len() ==> sum_after(x, h) == 0,
{
    let x2 = x.push(n);
    let i = index_of_hash(x, h);
    let len = x.len() as int;
    lemma_index_of_hash(x, h);
    lemma_height_sum_bounds(x, 0, i);
    if i < len {
        lemma_height_sum_bounds(x, i + 1, len);
    }
    assert forall|j: int| 0 <= j < len implies (#[trigger] x2[j]) == x[j] by {}
    if i < len {
        assert forall|j: int| 0 <= j < i implies (#[trigger] x2[j]).hash != h by {
            assert(x2[j] == x[j]);
        }
        assert(x2[i] == x[i]);
        lemma_index_of_hash_is(x2, h, i);
        lemma_height_sum_same(x, x2, 0, i, 0);
        lemma_height_sum_same(x, x2, i + 1, len, 0);
        assert(height_sum(x2, i + 1, len + 1) == height_sum(x2, i + 1, len) + block_height(x2[len]));
    } else {
        assert forall|j: int| 0 <= j < len implies (#[trigger] x2[j]).hash != h by {
            assert(x2[j] == x[j]);
        }
        lemma_height_sum_same(x, x2, 0, len, 0);
        if n.hash == h {
            lemma_index_of_hash_is(x2, h, len);
        } else {
            lemma_index_of_hash_is(x2, h, len + 1);
            assert(height_sum(x2, 0, len + 1) == height_sum(x2, 0, len) + block_height(x2[len]));
        }
    }
}

/// Walks along the leaf blocks of `node`, which follow those of `x`, and
/// adds their heights to the sum before or behind the leaf block with the
/// hash `hash`.
fn scan_pads(node: &PageNode, hash: u32, st: &mut PadScan, Ghost(x): Ghost<Seq<NodeView>>)
    requires
        node@.well_formed(),
        node@.kind.spec_is_block(),
        scan_ok(x, hash, *old(st)),
    ensures
        scan_ok(x + leaves(node@), hash, *final(st)),
    decreases *node,
{
    proof {
        node.lemma_view_children();
    }
    if !node.kind.is_branch() {
        proof {
            lemma_scan_push(x, node@, hash);
            assert(node@.kind.is_leaf_block_kind());
            assert(leaves(node@) =~= seq![node@]);
            assert(x + leaves(node@) =~= x.push(node@));
            assert(block_height(node@) == node.height);
        }
        let h: u32 = node.height;
        if st.found {
            if st.fits && h <= u32::MAX - st.after {
                st.after = st.after + h;
            } else {
                st.fits = false;
            }
        } else if node.hash == hash {
            st.found = true;
        } else {
            if st.fits && h <= u32::MAX - st.before {
                st.before = st.before + h;
            } else {
                st.fits = false;
            }
        }
    } else {
        proof {
            lemma_branch_children(node@);
            assert(x + leaves_of(node@.children, 0) =~= x);
        }
        let mut k: usize = 0;
        while k < node.children.len()
            invariant
                k <= node.children@.len(),
                node@.well_formed(),
                node@.kind.is_branch_block_kind(),
                node@.children.len() == node.children@.len(),
                forall|j: int| 0 <= j < node.children@.len() ==> (#[trigger] node@.children[j]) == node.children@[j]@,
                forall|j: int|
                    0 <= j < node@.children.len() ==> (#[trigger] node@.children[j]).well_formed()
                        && node@.children[j].kind.spec_is_block(),
                scan_ok(x + leaves_of(node@.children, k as nat), hash, *st),
            decreases node.children@.len() - k,
        {
            let ghost acc = x + leaves_of(node@.children, k as nat);
            assert(node.children@[k as int]@ == node@.children[k as int]);
            scan_pads(&node.children[k], hash, st, Ghost(acc));
            proof {
                assert(acc + leaves(node@.children[k as int]) =~= x + leaves_of(node@.children, (k + 1) as nat));
            }
            k += 1;
        }
        assert(leaves(node@) == leaves_of(node@.children, node@.children.len()));
    }
}

impl Page {
    /// A page around a document, with both edges at the leaf block that has
    /// the hash `top_hash`: that block alone is rendered at first, and the
    /// spacers stand for the leaf blocks before and behind it. The index is
    /// built here. Nothing comes back where the root is no page, a
    /// structural rule is broken, a hash occurs twice, no leaf block has the
    /// hash `top_hash`, or a spacer would be higher than a `u32` holds.
    pub fn new(nodes: PageNode, top_hash: u32) -> (r: Option<Page>)
        ensures
            r.is_some() == (nodes@.kind == PageNodeType::Page && nodes@.well_formed() && unique_hashes(nodes@)
                && index_of_hash(leaves(nodes@), top_hash) < leaves(nodes@).len() && sum_before(
                leaves(nodes@),
                top_hash,
            ) <= u32::MAX && sum_after(leaves(nodes@), top_hash) <= u32::MAX),
            r.is_some() ==> {
                let p = r.unwrap();
                &&& p.sound()
                &&& p.nodes@ == nodes@
                &&& p.top_elem == (EdgeElem {
                    hash: top_hash,
                    pad: sum_before(leaves(nodes@), top_hash) as u32,
                    scroll_offset: 0,
                })
                &&& p.bot_elem == (EdgeElem {
                    hash: top_hash,
                    pad: sum_after(leaves(nodes@), top_hash) as u32,
                    scroll_offset: 0,
                })
            },
    {
        if nodes.kind != PageNodeType::Page || !check_well_formed(&nodes) {
            return None;
        }
        let mut locations: HashMap<u32, Vec<usize>> = HashMap::new();
        if !update_hash_locations(&nodes, &mut locations) {
            return None;
        }
        let mut st = PadScan { found: false, before: 0, after: 0, fits: true };
        let ghost empty = Seq::<NodeView>::empty();
        scan_pads(&nodes, top_hash, &mut st, Ghost(empty));
        proof {
            assert(empty + leaves(nodes@) =~= leaves(nodes@));
            lemma_scan_push(leaves(nodes@), nodes@, top_hash);
            lemma_index_of_hash(leaves(nodes@), top_hash);
        }
        if !st.found || !st.fits {
            return None;
        }
        let top = EdgeElem { hash: top_hash, pad: st.before, scroll_offset: 0 };
        let bot = EdgeElem { hash: top_hash, pad: st.after, scroll_offset: 0 };
        Some(Page { nodes, top_elem: top, bot_elem: bot, locations })
    }
}

/// The hash of the leaf block that is rendered first: the saved one, or
/// without it that of the first leaf block of the document.
pub open spec fn first_shown(root: NodeView, saved_top: Option<u32>) -> u32 {
    match saved_top {
        Some(h) => h,
        None => leaves(root).first().hash,
    }
}

/// Sets a page up from a document and the hash of the leaf block that was
/// the top one when the page was last shown; without such a hash the first
/// leaf block of the document is taken. That block alone is rendered at
/// first. Nothing comes back where `Page::new` gives nothing.
pub fn init_page_nodes(nodes: PageNode, saved_top: Option<u32>) -> (r: Option<Page>)
    ensures
        r.is_some() == (nodes@.kind == PageNodeType::Page && nodes@.well_formed() && unique_hashes(nodes@)
            && index_of_hash(leaves(nodes@), first_shown(nodes@, saved_top)) < leaves(nodes@).len() && sum_before(
            leaves(nodes@),
            first_shown(nodes@, saved_top),
        ) <= u32::MAX && sum_after(leaves(nodes@), first_shown(nodes@, saved_top)) <= u32::MAX),
        r.is_some() ==> {
            let p = r.unwrap();
            let h = first_shown(nodes@, saved_top);
            &&& p.sound()
            &&& p.nodes@ == nodes@
            &&& p.top_elem == (EdgeElem { hash: h, pad: sum_before(leaves(nodes@), h) as u32, scroll_offset: 0 })
            &&& p.bot_elem == (EdgeElem { hash: h, pad: sum_after(leaves(nodes@), h) as u32, scroll_offset: 0 })
        },
{
    match saved_top {
        Some(h) => Page::new(nodes, h),
        None => {
            if nodes.kind != PageNodeType::Page || !check_well_formed(&nodes) {
                return None;
            }
            let h = get_top_hash(&nodes);
            Page::new(nodes, h)
        },
    }
}

} // verus!
