//! The caret, and the edits that stay inside one node: typing, erasing, and
//! giving a block another kind.

use vstd::prelude::*;
use crate::hash_index::{index_matches, unique_hashes};
use crate::leaves::{block_prefix, lemma_node_at_well_formed};
use crate::node_kind::PageNodeType;
use crate::children::ChangeBlockKind;
use crate::page::Page;
use crate::page_node::{kind_accepts, NodeView, PageNode};
use crate::surgery::{
    lemma_replace_keeps_index,
    lemma_replace_same_shape,
    lemma_replace_twice,
    lemma_replace_well_formed,
    placeholder,
    put_node,
    stands_for,
    take_node,
};

verus! {

broadcast use vstd::std_specs::hash::group_hash_axioms;

/// A collapsed selection: a place in the text of one `RawText`.
#[derive(Debug, Clone, Copy, PartialEq, Eq, Structural)]
pub struct Caret {
    /// The hash of the `RawText` that the caret stands in.
    pub hash: u32,
    /// The number of characters of the text that stand before the caret.
    pub offset: usize,
}

/// The node with another text.
pub open spec fn with_text(n: NodeView, text: Seq<char>) -> NodeView {
    NodeView { text, ..n }
}

/// The node with another kind.
pub open spec fn with_kind(n: NodeView, kind: PageNodeType) -> NodeView {
    NodeView { kind, ..n }
}

/// The tree after the character `c` was typed at offset `k` of the `RawText`
/// at `r`.
pub open spec fn typed(root: NodeView, r: Seq<usize>, k: int, c: char) -> NodeView {
    root.replace_at(r, with_text(root.node_at(r), root.node_at(r).text.insert(k, c)))
}

/// The tree after the character before offset `k` of the `RawText` at `r`
/// was erased.
pub open spec fn erased(root: NodeView, r: Seq<usize>, k: int) -> NodeView {
    root.replace_at(r, with_text(root.node_at(r), root.node_at(r).text.remove(k - 1)))
}

/// The tree after the block at `b` was given the kind `kind`.
pub open spec fn rekinded(root: NodeView, b: Seq<usize>, kind: PageNodeType) -> NodeView {
    root.replace_at(b, with_kind(root.node_at(b), kind))
}

/// Whether the location `r` of a span is the very start of the leaf block
/// around it: from the block down, every step takes the first child.
pub open spec fn line_start(root: NodeView, r: Seq<usize>) -> bool {
    forall|i: int| block_prefix(root, r).len() <= i < r.len() ==> r[i] == 0
}

impl Page {
    /// Whether the caret stands in a `RawText` of the document, at an offset
    /// that its text has.
    pub open spec fn caret_ok(&self, caret: Caret) -> bool {
        &&& self.index().contains_key(caret.hash)
        &&& self.nodes@.node_at(self.index()[caret.hash]).kind == PageNodeType::RawText
        &&& caret.offset <= self.nodes@.node_at(self.index()[caret.hash]).text.len()
    }

    /// The location of the `RawText` that the caret stands in.
    pub open spec fn caret_path(&self, caret: Caret) -> Seq<usize> {
        self.index()[caret.hash]
    }

    /// The location of the caret's `RawText`, where the caret stands in the
    /// document.
    pub fn locate_caret(&self, caret: Caret) -> (r: Option<Vec<usize>>)
        requires
            self.wf(),
        ensures
            r.is_some() == self.caret_ok(caret),
            r.is_some() ==> r.unwrap()@ == self.caret_path(caret),
    {
        match self.locations.get(&caret.hash) {
            Some(loc) => {
                assert(self.index().contains_key(caret.hash));
                assert(self.nodes@.valid_path(self.index()[caret.hash]));
                let node = crate::page_node::get_node_from_location(loc, &self.nodes);
                let node = node.unwrap();
                if node.kind == PageNodeType::RawText && caret.offset <= node.text.len() {
                    let c = loc.clone();
                    assert(c@ =~= loc@);
                    Some(c)
                } else {
                    None
                }
            },
            None => None,
        }
    }
}

/// A node with the hash and the children of the one it replaces, and of a
/// kind that can stand there, leaves the page sound.
pub proof fn lemma_reshape_free(m: Map<u32, Seq<usize>>, root: NodeView, p: Seq<usize>, new: NodeView)
    requires
        root.kind == PageNodeType::Page,
        root.well_formed(),
        unique_hashes(root),
        index_matches(m, root),
        root.valid_path(p),
        new.hash == root.node_at(p).hash,
        new.children == root.node_at(p).children,
        new.well_formed(),
        stands_for(root.node_at(p).kind, new.kind),
    ensures
        root.replace_at(p, new).kind == PageNodeType::Page,
        root.replace_at(p, new).well_formed(),
        unique_hashes(root.replace_at(p, new)),
        index_matches(m, root.replace_at(p, new)),
{
    lemma_replace_well_formed(root, p, new);
    lemma_replace_same_shape(root, p, new);
    lemma_replace_keeps_index(m, root, p, new);
}

/// Types the character `c` at the caret. The caret moves on by one.
pub fn insert_char(page: &mut Page, caret: Caret, c: char) -> (r: Caret)
    requires
        old(page).wf(),
        old(page).caret_ok(caret),
    ensures
        final(page).wf(),
        old(page).edges_ok() ==> final(page).edges_ok(),
        final(page).nodes@ == typed(old(page).nodes@, old(page).caret_path(caret), caret.offset as int, c),
        final(page).index() == old(page).index(),
        final(page).top_elem == old(page).top_elem,
        final(page).bot_elem == old(page).bot_elem,
        r.hash == caret.hash,
        r.offset == caret.offset + 1,
        final(page).caret_ok(r),
{
    let loc = page.locate_caret(caret).unwrap();
    let ghost root = page.nodes@;
    let mut raw = take_node(&mut page.nodes, &loc);
    let ghost before = raw;
    raw.text.insert(caret.offset, c);
    let n: usize = raw.text.len();
    assert(caret.offset + 1 <= n);
    proof {
        raw.lemma_view_children();
        before.lemma_view_children();
        assert(raw@.children =~= before@.children);
        assert(raw@ == with_text(before@, before@.text.insert(caret.offset as int, c)));
        lemma_replace_twice(root, loc@, placeholder(), raw@);
        lemma_node_at_well_formed(root, loc@);
        lemma_reshape_free(page.index(), root, loc@, raw@);
        crate::surgery::lemma_replace_node_at(root, loc@, raw@);
        if old(page).edges_ok() {
            crate::edit_leaves::lemma_inner_replace_sigs(root, loc@, raw@);
            crate::view_state::lemma_edges_same_sigs(
                crate::leaves::leaves(root),
                crate::leaves::leaves(root.replace_at(loc@, raw@)),
                page.top_elem,
                page.bot_elem,
            );
        }
    }
    put_node(&mut page.nodes, &loc, raw);
    Caret { hash: caret.hash, offset: caret.offset + 1 }
}

/// Erases the character before the caret. The caret moves back by one.
pub fn remove_char(page: &mut Page, caret: Caret) -> (r: Caret)
    requires
        old(page).wf(),
        old(page).caret_ok(caret),
        caret.offset > 0,
    ensures
        final(page).wf(),
        old(page).edges_ok() ==> final(page).edges_ok(),
        final(page).nodes@ == erased(old(page).nodes@, old(page).caret_path(caret), caret.offset as int),
        final(page).index() == old(page).index(),
        final(page).top_elem == old(page).top_elem,
        final(page).bot_elem == old(page).bot_elem,
        r.hash == caret.hash,
        r.offset == caret.offset - 1,
        final(page).caret_ok(r),
{
    let loc = page.locate_caret(caret).unwrap();
    let ghost root = page.nodes@;
    let mut raw = take_node(&mut page.nodes, &loc);
    let ghost before = raw;
    let _ = raw.text.remove(caret.offset - 1);
    proof {
        raw.lemma_view_children();
        before.lemma_view_children();
        assert(raw@.children =~= before@.children);
        assert(raw@ == with_text(before@, before@.text.remove(caret.offset - 1)));
        lemma_replace_twice(root, loc@, placeholder(), raw@);
        lemma_node_at_well_formed(root, loc@);
        lemma_reshape_free(page.index(), root, loc@, raw@);
        crate::surgery::lemma_replace_node_at(root, loc@, raw@);
        if old(page).edges_ok() {
            crate::edit_leaves::lemma_inner_replace_sigs(root, loc@, raw@);
            crate::view_state::lemma_edges_same_sigs(
                crate::leaves::leaves(root),
                crate::leaves::leaves(root.replace_at(loc@, raw@)),
                page.top_elem,
                page.bot_elem,
            );
        }
    }
    put_node(&mut page.nodes, &loc, raw);
    Caret { hash: caret.hash, offset: caret.offset - 1 }
}

/// The number of steps of `location` that lead through blocks: the length
/// of its block prefix.
pub fn block_depth(root: &PageNode, location: &Vec<usize>) -> (r: usize)
    requires
        root@.valid_path(location@),
    ensures
        r == block_prefix(root@, location@).len(),
        r <= location@.len(),
{
    let mut node: &PageNode = root;
    let mut d: usize = 0;
    assert(location@.skip(0) =~= location@);
    while d < location.len()
        invariant
            d <= location@.len(),
            node@.valid_path(location@.skip(d as int)),
            block_prefix(root@, location@).len() == d + block_prefix(node@, location@.skip(d as int)).len(),
        decreases location@.len() - d,
    {
        let i: usize = location[d];
        proof {
            assert(location@.skip(d as int)[0] == i);
            assert(location@.skip(d as int).skip(1) =~= location@.skip(d + 1));
            node.lemma_view_children();
        }
        if !node.children[i].kind.is_block() {
            return d;
        }
        node = &node.children[i];
        d += 1;
    }
    d
}

/// Whether every step of `location` from step `from` on takes the first
/// child.
pub fn all_first(location: &Vec<usize>, from: usize) -> (r: bool)
    requires
        from <= location@.len(),
    ensures
        r == forall|i: int| from <= i < location@.len() ==> location@[i] == 0,
{
    let mut i: usize = from;
    while i < location.len()
        invariant
            from <= i <= location@.len(),
            forall|j: int| from <= j < i ==> location@[j] == 0,
        decreases location@.len() - i,
    {
        if location[i] != 0 {
            return false;
        }
        i += 1;
    }
    true
}

/// Gives the leaf block at `location` the kind `kind`, itself the kind of a
/// leaf block.
pub fn set_block_kind(page: &mut Page, location: &Vec<usize>, kind: PageNodeType)
    requires
        old(page).wf(),
        old(page).nodes@.valid_path(location@),
        old(page).nodes@.node_at(location@).kind.is_leaf_block_kind(),
        kind.is_leaf_block_kind(),
    ensures
        final(page).wf(),
        old(page).edges_ok() ==> final(page).edges_ok(),
        final(page).nodes@ == rekinded(old(page).nodes@, location@, kind),
        final(page).index() == old(page).index(),
        final(page).top_elem == old(page).top_elem,
        final(page).bot_elem == old(page).bot_elem,
{
    let ghost root = page.nodes@;
    let mut block = take_node(&mut page.nodes, location);
    let ghost before = block;
    block.change_block_kind(kind);
    proof {
        block.lemma_view_children();
        before.lemma_view_children();
        assert(block@.children =~= before@.children);
        assert(block@ == with_kind(before@, kind));
        lemma_replace_twice(root, location@, placeholder(), block@);
        lemma_node_at_well_formed(root, location@);
        assert forall|i: int| 0 <= i < block@.children.len() implies kind_accepts(
            block@.kind,
            (#[trigger] block@.children[i]).kind,
        ) && block@.children[i].well_formed() by {
            assert(kind_accepts(before@.kind, before@.children[i].kind));
        }
        lemma_reshape_free(page.index(), root, location@, block@);
        if old(page).edges_ok() {
            crate::edit_leaves::lemma_rekinded_sigs(root, location@, kind);
            crate::view_state::lemma_edges_same_sigs(
                crate::leaves::leaves(root),
                crate::leaves::leaves(rekinded(root, location@, kind)),
                page.top_elem,
                page.bot_elem,
            );
        }
    }
    put_node(&mut page.nodes, location, block);
}

} // verus!
