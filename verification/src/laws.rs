//! What holds of every document and of every edit.

use vstd::prelude::*;

use crate::enter::{entered, lemma_entered_sound, lemma_span_parts, lemma_split_well_formed, split_left, split_right};
use crate::hash_index::{index_matches, unique_hashes};

use crate::keypress::{backspace_effect, no_effect, Effect, Outcome};
use crate::leaf_algebra::lemma_leaves_distinct;
use crate::leaf_path::{leaf_path, lemma_leaf_path};
use crate::leaves::{
    block_prefix, leaf_end, leaf_offset, leaf_start, leaves, lemma_leaves_at, lemma_node_at_well_formed, next_leaf,
    prev_leaf,
};
use crate::merge::{bot_path, lemma_merge_split, merged, merged_caret};
use crate::node_kind::PageNodeType;
use crate::page::EdgeElem;
use crate::page_node::{kind_accepts, NodeView};
use crate::surgery::{lemma_child_at, lemma_replace_node_at, lemma_replace_same, lemma_replace_twice};
use crate::text_edit::{erased, line_start, rekinded, typed, with_kind, with_text, Caret};
use crate::view_state::lemma_leaf_index;

verus! {

/// Two kinds with the same token are the same kind.
pub proof fn lemma_token_injective(a: PageNodeType, b: PageNodeType)
    requires
        a.token() == b.token(),
    ensures
        a == b,
{
    let ta = a.token();
    let tb = b.token();
    assert(ta.len() == tb.len());
    assert(ta[0] == tb[0]);
    if ta.len() == 2 {
        assert(ta[1] == tb[1]);
    }
}

/// In a well-formed tree a block is a leaf block exactly when its kind is
/// not a branch kind.
pub proof fn lemma_leaf_block_by_kind(n: NodeView)
    requires
        n.well_formed(),
    ensures
        n.is_leaf_block() == n.kind.is_leaf_block_kind(),
{
    if n.children.len() > 0 {
        assert(kind_accepts(n.kind, n.children[0].kind));
    }
}

/// Typing a character and erasing it again gives back the text and the tree
/// as they were.
pub proof fn lemma_type_then_erase(root: NodeView, r: Seq<usize>, k: int, c: char)
    requires
        root.valid_path(r),
        0 <= k <= root.node_at(r).text.len(),
    ensures
        erased(typed(root, r, k, c), r, k + 1) == root,
        typed(root, r, k, c).node_at(r).text.remove(k) == root.node_at(r).text,
{
    let raw = root.node_at(r);
    let t1 = typed(root, r, k, c);
    lemma_replace_node_at(root, r, with_text(raw, raw.text.insert(k, c)));
    assert(raw.text.insert(k, c).remove(k) =~= raw.text);
    lemma_replace_twice(root, r, with_text(raw, raw.text.insert(k, c)), raw);
    lemma_replace_same(root, r);
}

/// Every node is found in the index exactly once, at its location: two
/// locations with the same hash are the same location, and every entry of
/// the index leads to a node of the document.
pub proof fn lemma_index_exactly_once(m: Map<u32, Seq<usize>>, root: NodeView)
    requires
        index_matches(m, root),
    ensures
        forall|p: Seq<usize>, q: Seq<usize>|
            #![trigger root.valid_path(p), root.valid_path(q)]
            root.valid_path(p) && root.valid_path(q) && root.node_at(p).hash == root.node_at(q).hash ==> p == q,
        forall|p: Seq<usize>| #[trigger] root.valid_path(p) ==> m.contains_key(root.node_at(p).hash) && m[root.node_at(p).hash] == p,
        forall|h: u32| #[trigger] m.contains_key(h) ==> root.valid_path(m[h]) && root.node_at(m[h]).hash == h,
{
}

/// Under one parent blocks and spans do not mix, anywhere in the document.
pub proof fn lemma_one_family(root: NodeView, p: Seq<usize>, i: int, j: int)
    requires
        root.well_formed(),
        root.valid_path(p),
        0 <= i < root.node_at(p).children.len(),
        0 <= j < root.node_at(p).children.len(),
    ensures
        root.node_at(p).children[i].kind.spec_is_block() == root.node_at(p).children[j].kind.spec_is_block(),
{
    lemma_node_at_well_formed(root, p);
    let n = root.node_at(p);
    assert(kind_accepts(n.kind, n.children[i].kind));
    assert(kind_accepts(n.kind, n.children[j].kind));
}

/// The walk from leaf block to leaf block: from the leaf block with index
/// `i` the next one is that with index `i + 1`, the one before it that with
/// index `i - 1`, and there is none beyond the first and the last. So a walk
/// forward from the first leaf block and back from the last meets every
/// leaf block, each once in either direction: the leaf blocks have hashes
/// of their own, and every leaf block of the document is in the row.
pub proof fn lemma_walk_meets_all(root: NodeView, i: int)
    requires
        root.well_formed(),
        root.bounded(),
        root.kind.spec_is_block(),
        unique_hashes(root),
        0 <= i < leaves(root).len(),
    ensures
        root.valid_path(leaf_path(root, i as nat)),
        root.node_at(leaf_path(root, i as nat)) == leaves(root)[i],
        next_leaf(root, leaf_path(root, i as nat)) == if i + 1 < leaves(root).len() {
            Some(leaves(root)[i + 1])
        } else {
            None
        },
        prev_leaf(root, leaf_path(root, i as nat)) == if i > 0 {
            Some(leaves(root)[i - 1])
        } else {
            None
        },
        forall|j: int| 0 <= j < leaves(root).len() && j != i ==> (#[trigger] leaves(root)[j]).hash != leaves(root)[i].hash,
{
    let p = leaf_path(root, i as nat);
    lemma_leaf_path(root, i as nat);
    lemma_leaves_at(root, p);
    assert(leaves(root.node_at(p)) =~= seq![root.node_at(p)]);
    assert(leaf_end(root, p) == i + 1);
    assert(leaf_start(root, p) == i);
    lemma_leaves_distinct(root);
}

/// Every leaf block of the document stands in the row of leaf blocks, at
/// the index that counts the leaf blocks before it.
pub proof fn lemma_every_leaf_in_row(root: NodeView, p: Seq<usize>)
    requires
        root.well_formed(),
        root.kind.spec_is_block(),
        unique_hashes(root),
        root.valid_path(p),
        root.node_at(p).kind.is_leaf_block_kind(),
    ensures
        leaf_offset(root, p) < leaves(root).len(),
        leaves(root)[leaf_offset(root, p) as int] == root.node_at(p),
{
    lemma_leaf_index(root, p);
}

/// Backspace at the very start of the first block of the page, a paragraph,
/// changes nothing.
pub proof fn lemma_first_backspace(
    root: NodeView,
    taken: Set<u32>,
    top: EdgeElem,
    bot: EdgeElem,
    c: Caret,
    r: Seq<usize>,
    draws: Seq<u32>,
)
    requires
        c.offset == 0,
        line_start(root, r),
        block_prefix(root, r) == seq![0usize],
        root.node_at(seq![0usize]).kind == PageNodeType::TextBlock,
    ensures
        backspace_effect(root, taken, top, bot, c, r, draws) == no_effect(root, top, bot, Outcome::Unchanged),
{
}

/// A block that was given another kind and then its old kind again is the
/// block it was: a paragraph that a trigger made a heading is, after
/// Backspace at its start, the paragraph again, with the text it had.
pub proof fn lemma_rekind_back(root: NodeView, b: Seq<usize>, kind: PageNodeType)
    requires
        root.valid_path(b),
    ensures
        rekinded(rekinded(root, b, kind), b, root.node_at(b).kind) == root,
        rekinded(root, b, kind).node_at(b).text == root.node_at(b).text,
        rekinded(root, b, kind).node_at(b).children == root.node_at(b).children,
{
    let blk = root.node_at(b);
    lemma_replace_node_at(root, b, with_kind(blk, kind));
    lemma_replace_twice(root, b, with_kind(blk, kind), blk);
    lemma_replace_same(root, b);
}

/// The location of the first `RawText` below a node that is `n` steps
/// above it.
pub open spec fn firsts(n: nat) -> Seq<usize> {
    Seq::new(n, |i: int| 0usize)
}

/// What the two halves of a split node hold at the caret: the left half
/// ends with the text before the caret, the right half starts with the text
/// behind it, in a `RawText` that has the first of the new hashes.
pub proof fn lemma_split_texts(n: NodeView, q: Seq<usize>, k: int, ids: Seq<u32>)
    requires
        n.valid_path(q),
        0 <= k <= n.node_at(q).text.len(),
    ensures
        split_left(n, q, k).valid_path(q),
        split_left(n, q, k).node_at(q).text == n.node_at(q).text.subrange(0, k),
        split_left(n, q, k).node_at(q).kind == n.node_at(q).kind,
        split_left(n, q, k).node_at(q).hash == n.node_at(q).hash,
        split_right(n, q, k, ids).valid_path(firsts(q.len())),
        split_right(n, q, k, ids).node_at(firsts(q.len())).text == n.node_at(q).text.subrange(
            k,
            n.node_at(q).text.len() as int,
        ),
        split_right(n, q, k, ids).node_at(firsts(q.len())).kind == n.node_at(q).kind,
        split_right(n, q, k, ids).node_at(firsts(q.len())).hash == ids[0],
    decreases q.len(),
{
    if q.len() > 0 {
        let c = n.children[q[0] as int];
        lemma_split_texts(c, q.skip(1), k, ids);
        assert(firsts(q.len()).skip(1) =~= firsts((q.len() - 1) as nat));
        let l = split_left(n, q, k);
        assert(l.children[q[0] as int] == split_left(c, q.skip(1), k));
    } else {
        assert(firsts(0) =~= Seq::<usize>::empty());
    }
}

/// The node at a valid location of a bounded tree is bounded.
pub proof fn lemma_node_at_bounded(n: NodeView, p: Seq<usize>)
    requires
        n.bounded(),
        n.valid_path(p),
    ensures
        n.node_at(p).bounded(),
    decreases p.len(),
{
    if p.len() > 0 {
        lemma_node_at_bounded(n.children[p[0] as int], p.skip(1));
    }
}

/// Enter in an empty `RawText` gives two sibling blocks of the kind of the
/// block that was split, each with an empty `RawText` at its start.
pub proof fn lemma_enter_in_empty(root: NodeView, r: Seq<usize>, ids: Seq<u32>)
    requires
        root.kind == PageNodeType::Page,
        root.well_formed(),
        root.bounded(),
        root.valid_path(r),
        root.node_at(r).kind == PageNodeType::RawText,
        root.node_at(r).text.len() == 0,
    ensures
        ({
            let b = block_prefix(root, r);
            let q = r.skip(b.len() as int);
            let after = b.drop_last().push((b.last() + 1) as usize);
            let t = entered(root, r, 0, ids);
            &&& t.valid_path(b)
            &&& t.valid_path(after)
            &&& t.node_at(b).kind == root.node_at(b).kind
            &&& t.node_at(after).kind == root.node_at(b).kind
            &&& t.node_at(b).valid_path(q)
            &&& t.node_at(b).node_at(q).kind == PageNodeType::RawText
            &&& t.node_at(b).node_at(q).text.len() == 0
            &&& t.node_at(after).valid_path(firsts(q.len()))
            &&& t.node_at(after).node_at(firsts(q.len())).kind == PageNodeType::RawText
            &&& t.node_at(after).node_at(firsts(q.len())).text.len() == 0
        }),
{
    lemma_span_parts(root, r);
    let b = block_prefix(root, r);
    let pb = b.drop_last();
    let bi = b.last() as int;
    let q = r.skip(b.len() as int);
    let o = root.node_at(pb);
    let blk = o.children[bi];
    let left = split_left(blk, q, 0);
    let right = split_right(blk, q, 0, ids);
    let o2 = o.with_children(
        o.children.subrange(0, bi) + seq![left, right] + o.children.subrange(bi + 1, o.children.len() as int),
    );
    lemma_replace_node_at(root, pb, o2);
    lemma_node_at_bounded(root, pb);
    lemma_split_well_formed(blk, q, 0, ids);
    lemma_split_texts(blk, q, 0, ids);
    let t = entered(root, r, 0, ids);
    assert(t == root.replace_at(pb, o2));
    assert(t.node_at(pb) == o2);
    assert(o2.children.len() == o.children.len() + 1);
    assert(bi + 1 <= usize::MAX);
    let after = pb.push((b.last() + 1) as usize);
    assert(b =~= pb + seq![b.last()]);
    assert(after =~= pb + seq![(b.last() + 1) as usize]);
    lemma_child_at(t, pb, b.last());
    lemma_child_at(t, pb, (b.last() + 1) as usize);
    assert(o2.children[bi] == left);
    assert(o2.children[bi + 1] == right);
    assert(blk.node_at(q) == root.node_at(r));
    assert(root.node_at(r).text.subrange(0, 0).len() == 0);
}

/// A paragraph of the page that was split with Enter and then merged again,
/// with Backspace at the start of the new block, is the paragraph it was,
/// and so is the page; the caret is back where the paragraph was split.
pub proof fn lemma_split_then_merge(root: NodeView, r: Seq<usize>, k: int, ids: Seq<u32>)
    requires
        root.kind == PageNodeType::Page,
        root.well_formed(),
        root.valid_path(r),
        root.node_at(r).kind == PageNodeType::RawText,
        0 <= k <= root.node_at(r).text.len(),
        k <= usize::MAX,
        block_prefix(root, r).len() == 1,
        root.node_at(block_prefix(root, r)).kind == PageNodeType::TextBlock,
    ensures
        ({
            let bi = block_prefix(root, r)[0] as int;
            let t = entered(root, r, k, ids);
            &&& merged(t, bi + 1) == root
            &&& merged_caret(t, bi + 1, Caret { hash: ids[0], offset: 0 }) == (Caret {
                hash: root.node_at(r).hash,
                offset: k as usize,
            })
            &&& t.node_at(seq![bi as usize] + bot_path(t.children[bi])).kind == PageNodeType::TextBlock
        }),
{
    lemma_span_parts(root, r);
    let b = block_prefix(root, r);
    let bi = b[0] as int;
    let q = r.skip(1);
    assert(b.drop_last() =~= Seq::<usize>::empty());
    assert(root.node_at(b.drop_last()) == root);
    let blk = root.children[bi];
    let left = split_left(blk, q, k);
    let right = split_right(blk, q, k, ids);
    let t = entered(root, r, k, ids);
    let c2 = root.children.subrange(0, bi) + seq![left, right] + root.children.subrange(
        bi + 1,
        root.children.len() as int,
    );
    assert(t == root.with_children(c2));
    assert(q.len() >= 1) by {
        if q.len() == 0 {
            assert(blk.node_at(q) == blk);
        }
    }
    lemma_split_well_formed(blk, q, k, ids);
    lemma_merge_split(blk, q, k, ids);
    assert(t.children[bi] == left);
    assert(t.children[bi + 1] == right);
    assert(bot_path(left) =~= Seq::<usize>::empty());
    let pp = seq![bi as usize] + bot_path(t.children[bi]);
    assert(pp =~= seq![bi as usize]);
    assert(pp.skip(1) =~= Seq::<usize>::empty());
    let rest = t.with_children(t.children.remove(bi + 1));
    assert(rest.children =~= root.children.update(bi, left));
    assert(t.children[bi].node_at(pp.skip(1)) == t.children[bi]);
    assert(t.node_at(pp) == left);
    assert(rest.children[bi].replace_at(pp.skip(1), blk) == blk);
    assert(rest.replace_at(pp, blk).children =~= root.children);
}

/// Another node with the children of the old one, and a block where the
/// old one was a block, leaves the block prefix of every location as it
/// was.
pub proof fn lemma_replace_keeps_block_prefix(root: NodeView, p: Seq<usize>, new: NodeView, r: Seq<usize>)
    requires
        root.valid_path(p),
        new.children == root.node_at(p).children,
        new.kind.spec_is_block() == root.node_at(p).kind.spec_is_block(),
    ensures
        block_prefix(root.replace_at(p, new), r) == block_prefix(root, r),
    decreases r.len(),
{
    let t = root.replace_at(p, new);
    if r.len() > 0 && (r[0] as int) < root.children.len() {
        if p.len() == 0 {
            assert(t.children == root.children);
        } else {
            let j = p[0] as int;
            let c = root.children[j];
            let c2 = c.replace_at(p.skip(1), new);
            if r[0] as int == j {
                lemma_replace_keeps_block_prefix(c, p.skip(1), new, r.skip(1));
                assert(c2.kind.spec_is_block() == c.kind.spec_is_block()) by {
                    if p.len() == 1 {
                        assert(c.node_at(p.skip(1)) == c);
                    }
                }
            } else {
                assert(t.children[r[0] as int] == root.children[r[0] as int]);
            }
        }
    } else if r.len() > 0 {
        if p.len() == 0 {
            assert(t.children == root.children);
        }
    }
}

/// A paragraph that the trigger `#` made a heading is, after Backspace at
/// its start, a paragraph again with the text it had behind the trigger:
/// the second key undoes what the first did to the kind.
pub proof fn lemma_trigger_then_backspace(
    root: NodeView,
    taken: Set<u32>,
    top: EdgeElem,
    bot: EdgeElem,
    c: Caret,
    r: Seq<usize>,
    draws: Seq<u32>,
    draws2: Seq<u32>,
)
    requires
        root.kind == PageNodeType::Page,
        root.well_formed(),
        root.valid_path(r),
        root.node_at(r).kind == PageNodeType::RawText,
        root.node_at(r).text.len() >= 1,
        crate::keypress::at_trigger(root, c, r),
        root.node_at(r).text[0] == '#',
    ensures
        ({
            let first = crate::keypress::space_effect(root, taken, top, bot, c, r, draws);
            let start = Caret { hash: c.hash, offset: 0 };
            &&& first.tree.node_at(block_prefix(root, r)).kind == PageNodeType::H1
            &&& first.outcome == Outcome::Edited { caret: start, structural: false }
            &&& backspace_effect(first.tree, taken, first.top, first.bot, start, r, draws2) == (Effect {
                tree: erased(root, r, 1),
                top,
                bot,
                outcome: Outcome::Edited { caret: start, structural: false },
            })
            &&& erased(root, r, 1).node_at(block_prefix(root, r)).kind == PageNodeType::TextBlock
            &&& erased(root, r, 1).node_at(r).text == root.node_at(r).text.skip(1)
        }),
{
    lemma_span_parts(root, r);
    let b = block_prefix(root, r);
    let raw = root.node_at(r);
    let raw2 = crate::text_edit::with_text(raw, raw.text.remove(0));
    let t0 = erased(root, r, 1);
    assert(raw.text.remove(0) =~= raw.text.skip(1));
    lemma_replace_node_at(root, r, raw2);
    crate::surgery::lemma_replace_same_shape(root, r, raw2);
    lemma_replace_keeps_block_prefix(root, r, raw2, r);
    assert(t0.valid_path(b));
    assert(t0.node_at(b).kind == root.node_at(b).kind);
    let blk = t0.node_at(b);
    let t1 = rekinded(t0, b, PageNodeType::H1);
    lemma_replace_node_at(t0, b, with_kind(blk, PageNodeType::H1));
    lemma_replace_keeps_block_prefix(t0, b, with_kind(blk, PageNodeType::H1), r);
    lemma_rekind_back(t0, b, PageNodeType::H1);
    assert(block_prefix(t1, r) == b);
    assert(line_start(t1, r));
}

/// The spacers and the rendered leaf blocks together are as high as the
/// whole document, and the rendered leaf blocks are those from the top edge
/// to the bottom edge: a part of the row without a gap.
pub proof fn lemma_view_of_page(page: crate::page::Page)
    requires
        page.edges_ok(),
    ensures
        0 <= page.top_index() <= page.bot_index() < leaves(page.nodes@).len(),
        leaves(page.nodes@)[page.top_index()].hash == page.top_elem.hash,
        leaves(page.nodes@)[page.bot_index()].hash == page.bot_elem.hash,
        forall|i: int| page.leaf_attached(i) <==> page.top_index() <= i <= page.bot_index(),
        page.top_elem.pad + crate::view_state::height_sum(
            leaves(page.nodes@),
            page.top_index(),
            page.bot_index() + 1,
        ) + page.bot_elem.pad == crate::view_state::height_sum(
            leaves(page.nodes@),
            0,
            leaves(page.nodes@).len() as int,
        ),
{
    let l = leaves(page.nodes@);
    crate::children::lemma_index_of_hash(l, page.top_elem.hash);
    crate::children::lemma_index_of_hash(l, page.bot_elem.hash);
    crate::view_state::lemma_heights_add_up(l, page.top_elem, page.bot_elem);
}

/// Enter in a paragraph of the page and then Backspace at the start of the
/// new block give back the page as it was: the document, the edges of the
/// rendered range, and the caret.
pub proof fn lemma_enter_then_backspace(
    root: NodeView,
    m: Map<u32, Seq<usize>>,
    top: EdgeElem,
    bot: EdgeElem,
    c: Caret,
    draws: Seq<u32>,
    taken2: Set<u32>,
    draws2: Seq<u32>,
)
    requires
        root.kind == PageNodeType::Page,
        root.well_formed(),
        root.bounded(),
        unique_hashes(root),
        index_matches(m, root),
        crate::view_state::edges_fit(leaves(root), top, bot),
        m.contains_key(c.hash),
        root.node_at(m[c.hash]).kind == PageNodeType::RawText,
        c.offset <= root.node_at(m[c.hash]).text.len(),
        block_prefix(root, m[c.hash]).len() == 1,
        root.node_at(block_prefix(root, m[c.hash])).kind == PageNodeType::TextBlock,
        crate::issue::issue_seq(m.dom(), draws, 0, m[c.hash].len() as nat) is Ok,
    ensures
        ({
            let r = m[c.hash];
            let first = crate::keypress::enter_effect(root, m.dom(), top, bot, c, r, draws);
            let ids = crate::issue::issue_seq(m.dom(), draws, 0, r.len() as nat)->Ok_0;
            let r1 = seq![(r[0] + 1) as usize] + firsts((r.len() - 1) as nat);
            let c1 = Caret { hash: ids[0], offset: 0 };
            &&& first.outcome == Outcome::Edited { caret: c1, structural: true }
            &&& first.tree.valid_path(r1)
            &&& first.tree.node_at(r1).hash == c1.hash
            &&& backspace_effect(first.tree, taken2, first.top, first.bot, c1, r1, draws2) == (Effect {
                tree: root,
                top,
                bot,
                outcome: Outcome::Edited { caret: c, structural: true },
            })
        }),
{
    let r = m[c.hash];
    let k = c.offset as int;
    assert(root.valid_path(r));
    lemma_span_parts(root, r);
    let b = block_prefix(root, r);
    let bi = b[0] as int;
    assert(b =~= seq![r[0]]);
    let q = r.skip(1);
    let ids = crate::issue::issue_seq(m.dom(), draws, 0, r.len() as nat)->Ok_0;
    crate::issue::lemma_issue_fresh(m.dom(), draws, 0, r.len() as nat);
    assert(b.drop_last() =~= Seq::<usize>::empty());
    assert(root.node_at(b.drop_last()) == root);
    let blk = root.children[bi];
    let left = split_left(blk, q, k);
    let right = split_right(blk, q, k, ids);
    let t = entered(root, r, k, ids);
    let first = crate::keypress::enter_effect(root, m.dom(), top, bot, c, r, draws);
    assert(first.tree == t);
    let c2 = root.children.subrange(0, bi) + seq![left, right] + root.children.subrange(
        bi + 1,
        root.children.len() as int,
    );
    assert(t == root.with_children(c2));
    assert(t.children[bi] == left);
    assert(t.children[bi + 1] == right);
    lemma_split_well_formed(blk, q, k, ids);
    lemma_split_texts(blk, q, k, ids);
    lemma_split_then_merge(root, r, k, ids);
    // the caret after Enter
    let r1 = seq![(r[0] + 1) as usize] + firsts(q.len());
    assert(bi + 1 <= usize::MAX);
    assert(r1.skip(1) =~= firsts(q.len()));
    assert(t.valid_path(r1));
    assert(t.node_at(r1) == right.node_at(firsts(q.len())));
    // the block around it
    lemma_entered_sound(m, root, r, k, ids);
    lemma_first_steps(right, q.len());
    assert(block_prefix(t, r1) =~= seq![(r[0] + 1) as usize]) by {
        assert(q.len() >= 1) by {
            if q.len() == 0 {
                assert(blk.node_at(q) == blk);
            }
        }
        lemma_span_parts(t, r1);
        assert(!right.children[0].kind.spec_is_block()) by {
            assert(kind_accepts(right.kind, right.children[0].kind));
        }
        assert(r1.skip(1)[0] == 0);
        assert(block_prefix(right, r1.skip(1)) =~= Seq::<usize>::empty());
    }
    assert(line_start(t, r1)) by {
        assert forall|x: int| 1 <= x < r1.len() implies r1[x] == 0 by {
            assert(r1[x] == firsts(q.len())[x - 1]);
        }
    }
    let pp = seq![(r[0]) as usize] + bot_path(left);
    assert(bot_path(left) =~= Seq::<usize>::empty());
    assert(t.node_at(seq![(bi + 1) as usize]) == right) by {
        lemma_child_at(t, Seq::<usize>::empty(), (bi + 1) as usize);
        assert(Seq::<usize>::empty() + seq![(bi + 1) as usize] =~= seq![(bi + 1) as usize]);
    }
    // the edges
    let l = leaves(root);
    let l2 = leaves(t);
    let i = leaf_offset(root, b) as int;
    crate::edit_leaves::lemma_entered_leaves(root, r, k, ids);
    crate::edit_edges::lemma_entered_edges(m, root, r, k, ids, top, bot);
    lemma_leaves_distinct(root);
    let new_hash = ids[q.len() as int];
    assert forall|j: int| 0 <= j < l.len() implies (#[trigger] l[j]).hash != new_hash by {
        crate::leaf_path::lemma_leaf_indexed(m, root, j);
        assert(!m.dom().contains(ids[q.len() as int]));
    }
    assert(l2 == l.subrange(0, i) + seq![left, right] + l.subrange(i + 1, l.len() as int));
    assert forall|j: int| 0 <= j <= i implies (#[trigger] l2[j]).hash == l[j].hash
        && crate::view_state::block_height(l2[j]) == crate::view_state::block_height(l[j]) by {
        if j == i {
            assert(l2[j] == left);
        } else {
            assert(l2[j] == l[j]);
        }
    }
    assert(l2[i + 1] == right);
    assert forall|j: int| i + 1 < j < l2.len() implies (#[trigger] l2[j]).hash == l[j - 1].hash
        && crate::view_state::block_height(l2[j]) == crate::view_state::block_height(l[j - 1]) by {
        assert(l2[j] == l[j - 1]);
    }
    crate::edit_edges::lemma_entered_edges_fit(l, l2, top, bot, i, new_hash);
    let i2 = crate::leaves::leaves_of(t.children, (bi + 1) as nat).len() as int;
    assert(i2 == i + 1) by {
        crate::leaf_algebra::lemma_leaves_cut(t.children, bi);
        crate::leaf_algebra::lemma_leaves_cut(root.children, bi);
        assert(t.children.subrange(0, bi) =~= root.children.subrange(0, bi));
        assert(crate::leaves::leaves(left) =~= seq![left]);
        assert(b.skip(1) =~= Seq::<usize>::empty());
        assert(leaf_offset(blk, b.skip(1)) == 0);
    }
    crate::children::lemma_index_of_hash(l, top.hash);
    crate::children::lemma_index_of_hash(l, bot.hash);
    assert(crate::view_state::block_height(l2[i + 1]) == 0);
    assert(l2[i].hash == l[i].hash);
}

/// The first child of the first child, and so on, of a split-off node is
/// reached by first steps alone.
pub proof fn lemma_first_steps(n: NodeView, len: nat)
    ensures
        firsts(len).len() == len,
        forall|x: int| 0 <= x < len ==> firsts(len)[x] == 0,
{
}

} // verus!
