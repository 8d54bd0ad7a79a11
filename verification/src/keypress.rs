//! What a key does to the document: the one place where the editor decides.

use vstd::prelude::*;
use crate::enter::{entered, lemma_span_parts, split_block, sub_vec};

use crate::issue::{issue_hashes, issue_seq, IssueError};
use crate::leaves::block_prefix;
use crate::merge::{bot_path, lemma_merge_target, merge_block, merged, merged_caret, push_bot_path};
use crate::node_kind::PageNodeType;
use crate::outdent::{lemma_child_parts, move_out, remove_shell, split_out, unshelled, wrap_block, wrapped};
use crate::edit_edges::{entered_bot, merged_bot, merged_top};
use crate::leaves::{leaves, leaves_of};
use crate::page::{EdgeElem, Page};
use crate::page_node::{get_node_from_location, NodeView};
use crate::text_edit::{
    all_first, block_depth, erased, insert_char, line_start, rekinded, remove_char, set_block_kind, typed, Caret,
};

verus! {

broadcast use vstd::std_specs::hash::group_hash_axioms;

/// What the host has to do after a key.
#[derive(Debug, Clone, Copy, PartialEq, Eq, Structural)]
pub enum Outcome {
    /// The key is not for the editor: the selection is no caret in the
    /// document, or the Meta key is held down. The host goes on with its
    /// default.
    Ignored,
    /// The key was taken and changes nothing.
    Unchanged,
    /// The key moves the caret; the host moves it.
    Move { forward: bool, by_line: bool },
    /// The document changed, and the caret goes to the given place. Where
    /// `structural` holds, nodes were added, moved or removed, and the index
    /// was rebuilt.
    Edited { caret: Caret, structural: bool },
    /// New nodes were needed and no fresh hash could be issued for them.
    /// Nothing changed.
    OutOfHashes(IssueError),
}

/// What a key does: the tree, the edges of the rendered range, and what the
/// host has to do.
pub struct Effect {
    pub tree: NodeView,
    pub top: EdgeElem,
    pub bot: EdgeElem,
    pub outcome: Outcome,
}

/// A key that leaves the document as it is.
pub open spec fn no_effect(root: NodeView, top: EdgeElem, bot: EdgeElem, outcome: Outcome) -> Effect {
    Effect { tree: root, top, bot, outcome }
}

/// What typing a character does.
pub open spec fn char_effect(root: NodeView, top: EdgeElem, bot: EdgeElem, c: Caret, r: Seq<usize>, ch: char) -> Effect {
    Effect {
        tree: typed(root, r, c.offset as int, ch),
        top,
        bot,
        outcome: Outcome::Edited { caret: Caret { hash: c.hash, offset: (c.offset + 1) as usize }, structural: false },
    }
}

/// What Enter does. The new block is rendered like the block that was
/// split: where that block was the bottom edge, the new block is.
pub open spec fn enter_effect(
    root: NodeView,
    taken: Set<u32>,
    top: EdgeElem,
    bot: EdgeElem,
    c: Caret,
    r: Seq<usize>,
    draws: Seq<u32>,
) -> Effect {
    let b = block_prefix(root, r);
    let depth = r.len() - b.len();
    match issue_seq(taken, draws, 0, (depth + 1) as nat) {
        Ok(ids) => Effect {
            tree: entered(root, r, c.offset as int, ids),
            top,
            bot: entered_bot(bot, root.node_at(b).hash, ids[depth]),
            outcome: Outcome::Edited { caret: Caret { hash: ids[0], offset: 0 }, structural: true },
        },
        Err(e) => no_effect(root, top, bot, Outcome::OutOfHashes(e)),
    }
}

/// What Backspace does.
pub open spec fn backspace_effect(
    root: NodeView,
    taken: Set<u32>,
    top: EdgeElem,
    bot: EdgeElem,
    c: Caret,
    r: Seq<usize>,
    draws: Seq<u32>,
) -> Effect {
    let b = block_prefix(root, r);
    let bi = b.last() as int;
    let stay = Outcome::Edited { caret: c, structural: true };
    if c.offset > 0 {
        Effect {
            tree: erased(root, r, c.offset as int),
            top,
            bot,
            outcome: Outcome::Edited {
                caret: Caret { hash: c.hash, offset: (c.offset - 1) as usize },
                structural: false,
            },
        }
    } else if !line_start(root, r) {
        no_effect(root, top, bot, Outcome::Unchanged)
    } else if root.node_at(b).kind != PageNodeType::TextBlock {
        Effect {
            tree: rekinded(root, b, PageNodeType::TextBlock),
            top,
            bot,
            outcome: Outcome::Edited { caret: c, structural: false },
        }
    } else if bi == 0 {
        if b.len() >= 2 {
            Effect { tree: unshelled(root, b.drop_last()), top, bot, outcome: stay }
        } else {
            no_effect(root, top, bot, Outcome::Unchanged)
        }
    } else if b.len() >= 2 {
        if bi + 1 < root.node_at(b.drop_last()).children.len() {
            match issue_seq(taken, draws, 0, 1) {
                Ok(ids) => Effect { tree: split_out(root, b, ids[0]), top, bot, outcome: stay },
                Err(e) => no_effect(root, top, bot, Outcome::OutOfHashes(e)),
            }
        } else {
            Effect { tree: split_out(root, b, 0), top, bot, outcome: stay }
        }
    } else {
        let target = root.node_at(seq![(bi - 1) as usize] + bot_path(root.children[bi - 1]));
        let i = leaves_of(root.children, bi as nat).len() as int;
        if target.kind == PageNodeType::Table {
            no_effect(root, top, bot, Outcome::Unchanged)
        } else {
            Effect {
                tree: merged(root, bi),
                top: merged_top(leaves(root), top, i),
                bot: merged_bot(leaves(root), bot, i),
                outcome: Outcome::Edited { caret: merged_caret(root, bi, c), structural: true },
            }
        }
    }
}

/// Whether Space at the caret is a trigger: the caret stands behind the one
/// character that starts a paragraph.
pub open spec fn at_trigger(root: NodeView, c: Caret, r: Seq<usize>) -> bool {
    &&& c.offset == 1
    &&& line_start(root, r)
    &&& root.node_at(block_prefix(root, r)).kind == PageNodeType::TextBlock
    &&& (root.node_at(r).text[0] == '#' || root.node_at(r).text[0] == '-' || root.node_at(r).text[0] == '>')
}

/// What Space does: a trigger where the caret stands at one, with `#` for a
/// heading, `-` for a bullet, and `>` for a quote around the paragraph; else
/// a character.
pub open spec fn space_effect(
    root: NodeView,
    taken: Set<u32>,
    top: EdgeElem,
    bot: EdgeElem,
    c: Caret,
    r: Seq<usize>,
    draws: Seq<u32>,
) -> Effect {
    let b = block_prefix(root, r);
    let start = Outcome::Edited { caret: Caret { hash: c.hash, offset: 0 }, structural: false };
    if !at_trigger(root, c, r) {
        char_effect(root, top, bot, c, r, ' ')
    } else if root.node_at(r).text[0] == '#' {
        Effect { tree: rekinded(erased(root, r, 1), b, PageNodeType::H1), top, bot, outcome: start }
    } else if root.node_at(r).text[0] == '-' {
        Effect { tree: rekinded(erased(root, r, 1), b, PageNodeType::Dot), top, bot, outcome: start }
    } else {
        match issue_seq(taken, draws, 0, 1) {
            Ok(ids) => Effect {
                tree: wrapped(erased(root, r, 1), b, ids[0]),
                top,
                bot,
                outcome: Outcome::Edited { caret: Caret { hash: c.hash, offset: 0 }, structural: true },
            },
            Err(e) => no_effect(root, top, bot, Outcome::OutOfHashes(e)),
        }
    }
}

/// What a key does. `m` is the index, `c` the caret where the selection is
/// one, `ch` the character of a printable key.
pub open spec fn key_effect(
    root: NodeView,
    m: Map<u32, Seq<usize>>,
    top: EdgeElem,
    bot: EdgeElem,
    c: Option<Caret>,
    key_code: u32,
    ch: Option<char>,
    meta: bool,
    draws: Seq<u32>,
) -> Effect {
    if c.is_none() || !m.contains_key(c.unwrap().hash) || root.node_at(m[c.unwrap().hash]).kind
        != PageNodeType::RawText || c.unwrap().offset > root.node_at(m[c.unwrap().hash]).text.len() {
        no_effect(root, top, bot, Outcome::Ignored)
    } else if meta {
        no_effect(root, top, bot, Outcome::Ignored)
    } else if key_code == 8 {
        backspace_effect(root, m.dom(), top, bot, c.unwrap(), m[c.unwrap().hash], draws)
    } else if key_code == 13 {
        enter_effect(root, m.dom(), top, bot, c.unwrap(), m[c.unwrap().hash], draws)
    } else if key_code == 32 {
        space_effect(root, m.dom(), top, bot, c.unwrap(), m[c.unwrap().hash], draws)
    } else if key_code == 16 || key_code == 9 || key_code == 93 {
        no_effect(root, top, bot, Outcome::Unchanged)
    } else if key_code == 38 {
        no_effect(root, top, bot, Outcome::Move { forward: false, by_line: true })
    } else if key_code == 40 {
        no_effect(root, top, bot, Outcome::Move { forward: true, by_line: true })
    } else if key_code == 37 {
        no_effect(root, top, bot, Outcome::Move { forward: false, by_line: false })
    } else if key_code == 39 {
        no_effect(root, top, bot, Outcome::Move { forward: true, by_line: false })
    } else {
        match ch {
            Some(x) => char_effect(root, top, bot, c.unwrap(), m[c.unwrap().hash], x),
            None => no_effect(root, top, bot, Outcome::Unchanged),
        }
    }
}

impl Page {
    /// Whether the page is what the effect says.
    pub open spec fn shows(&self, e: Effect) -> bool {
        self.nodes@ == e.tree && self.top_elem == e.top && self.bot_elem == e.bot
    }
}

/// Backspace at the caret.
pub fn backspace_key(page: &mut Page, caret: Caret, draws: &Vec<u32>) -> (r: Outcome)
    requires
        old(page).sound(),
        old(page).caret_ok(caret),
    ensures
        final(page).sound(),
        final(page).shows(
            backspace_effect(
                old(page).nodes@,
                old(page).index().dom(),
                old(page).top_elem,
                old(page).bot_elem,
                caret,
                old(page).caret_path(caret),
                draws@,
            ),
        ),
        r == backspace_effect(
            old(page).nodes@,
            old(page).index().dom(),
            old(page).top_elem,
            old(page).bot_elem,
            caret,
            old(page).caret_path(caret),
            draws@,
        ).outcome,
{
    if caret.offset > 0 {
        let c = remove_char(page, caret);
        return Outcome::Edited { caret: c, structural: false };
    }
    let loc = page.locate_caret(caret).unwrap();
    let ghost root = page.nodes@;
    let bd: usize = block_depth(&page.nodes, &loc);
    proof {
        page.nodes.lemma_bounded();
        lemma_span_parts(root, loc@);
    }
    if !all_first(&loc, bd) {
        return Outcome::Unchanged;
    }
    let b = sub_vec(&loc, 0, bd);
    assert(b@ =~= block_prefix(root, loc@));
    let bi: usize = b[bd - 1];
    let kind = get_node_from_location(&b, &page.nodes).unwrap().kind;
    if kind != PageNodeType::TextBlock {
        set_block_kind(page, &b, PageNodeType::TextBlock);
        return Outcome::Edited { caret, structural: false };
    }
    if bi == 0 {
        if bd >= 2 {
            let po = sub_vec(&b, 0, bd - 1);
            proof {
                assert(po@ =~= b@.drop_last());
                lemma_child_parts(root, b@);
            }
            remove_shell(page, &po);
            return Outcome::Edited { caret, structural: true };
        } else {
            return Outcome::Unchanged;
        }
    }
    if bd >= 2 {
        let po = sub_vec(&b, 0, bd - 1);
        proof {
            assert(po@ =~= b@.drop_last());
            lemma_child_parts(root, b@);
        }
        let o = get_node_from_location(&po, &page.nodes).unwrap();
        proof {
            o.lemma_view_children();
        }
        if bi < o.children.len() - 1 {
            match issue_hashes(&page.locations, draws, 1) {
                Ok(ids) => {
                    assert(page.index().dom() =~= page.locations@.dom());
                    move_out(page, &b, ids[0]);
                    return Outcome::Edited { caret, structural: true };
                },
                Err(e) => {
                    assert(page.index().dom() =~= page.locations@.dom());
                    return Outcome::OutOfHashes(e);
                },
            }
        } else {
            move_out(page, &b, 0);
            return Outcome::Edited { caret, structural: true };
        }
    }
    proof {
        assert(b@ =~= seq![bi]);
        assert(seq![bi].skip(1) =~= Seq::<usize>::empty());
        page.nodes.lemma_view_children();
        lemma_merge_target(root, bi as int);
    }
    let mut pp: Vec<usize> = Vec::new();
    pp.push(bi - 1);
    push_bot_path(&page.nodes.children[bi - 1], &mut pp);
    assert(pp@ =~= seq![(bi - 1) as usize] + bot_path(root.children[bi - 1]));
    let target_kind = get_node_from_location(&pp, &page.nodes).unwrap().kind;
    if target_kind == PageNodeType::Table {
        return Outcome::Unchanged;
    }
    let c = merge_block(page, bi, caret);
    Outcome::Edited { caret: c, structural: true }
}

/// Space at the caret.
pub fn space_key(page: &mut Page, caret: Caret, draws: &Vec<u32>) -> (r: Outcome)
    requires
        old(page).sound(),
        old(page).caret_ok(caret),
    ensures
        final(page).sound(),
        final(page).shows(
            space_effect(
                old(page).nodes@,
                old(page).index().dom(),
                old(page).top_elem,
                old(page).bot_elem,
                caret,
                old(page).caret_path(caret),
                draws@,
            ),
        ),
        r == space_effect(
            old(page).nodes@,
            old(page).index().dom(),
            old(page).top_elem,
            old(page).bot_elem,
            caret,
            old(page).caret_path(caret),
            draws@,
        ).outcome,
{
    let loc = page.locate_caret(caret).unwrap();
    let ghost root = page.nodes@;
    let ghost m = page.index();
    let bd: usize = block_depth(&page.nodes, &loc);
    proof {
        page.nodes.lemma_bounded();
        lemma_span_parts(root, loc@);
    }
    let b = sub_vec(&loc, 0, bd);
    assert(b@ =~= block_prefix(root, loc@));
    let first: char = if caret.offset == 1 {
        let raw = get_node_from_location(&loc, &page.nodes).unwrap();
        raw.text[0]
    } else {
        ' '
    };
    let kind = get_node_from_location(&b, &page.nodes).unwrap().kind;
    let trigger: bool = caret.offset == 1 && all_first(&loc, bd) && kind == PageNodeType::TextBlock && (first == '#'
        || first == '-' || first == '>');
    if !trigger {
        let c = insert_char(page, caret, ' ');
        return Outcome::Edited { caret: c, structural: false };
    }
    assert(at_trigger(root, caret, loc@));
    let issued = if first == '>' {
        match issue_hashes(&page.locations, draws, 1) {
            Ok(ids) => Some(ids[0]),
            Err(e) => {
                assert(page.index().dom() =~= page.locations@.dom());
                return Outcome::OutOfHashes(e);
            },
        }
    } else {
        None
    };
    assert(page.index().dom() =~= page.locations@.dom());
    let c = remove_char(page, caret);
    proof {
        let raw = root.node_at(loc@);
        let new = crate::text_edit::with_text(raw, raw.text.remove(0));
        crate::surgery::lemma_replace_same_shape(root, loc@, new);
        assert(root.valid_path(b@));
        assert(page.nodes@.node_at(b@).kind == root.node_at(b@).kind);
    }
    if first == '#' {
        set_block_kind(page, &b, PageNodeType::H1);
        Outcome::Edited { caret: c, structural: false }
    } else if first == '-' {
        set_block_kind(page, &b, PageNodeType::Dot);
        Outcome::Edited { caret: c, structural: false }
    } else {
        wrap_block(page, &b, issued.unwrap());
        Outcome::Edited { caret: c, structural: true }
    }
}

/// Takes a key. `caret` is the selection where it is a caret, `key_code`
/// the code of the key, `ch` its character where it is printable, `meta`
/// whether the Meta key is held down, and `draws` random numbers for the
/// hashes of new nodes.
pub fn process_keypress(
    page: &mut Page,
    caret: Option<Caret>,
    key_code: u32,
    ch: Option<char>,
    meta: bool,
    draws: &Vec<u32>,
) -> (r: Outcome)
    requires
        old(page).sound(),
    ensures
        final(page).sound(),
        final(page).shows(
            key_effect(
                old(page).nodes@,
                old(page).index(),
                old(page).top_elem,
                old(page).bot_elem,
                caret,
                key_code,
                ch,
                meta,
                draws@,
            ),
        ),
        r == key_effect(
            old(page).nodes@,
            old(page).index(),
            old(page).top_elem,
            old(page).bot_elem,
            caret,
            key_code,
            ch,
            meta,
            draws@,
        ).outcome,
{
    let c = match caret {
        Some(c) => c,
        None => {
            return Outcome::Ignored;
        },
    };
    if page.locate_caret(c).is_none() {
        return Outcome::Ignored;
    }
    if meta {
        return Outcome::Ignored;
    }
    if key_code == 8 {
        backspace_key(page, c, draws)
    } else if key_code == 13 {
        assert(page.index().dom() =~= page.locations@.dom());
        match split_block(page, c, draws) {
            Ok(nc) => Outcome::Edited { caret: nc, structural: true },
            Err(e) => Outcome::OutOfHashes(e),
        }
    } else if key_code == 32 {
        space_key(page, c, draws)
    } else if key_code == 16 || key_code == 9 || key_code == 93 {
        Outcome::Unchanged
    } else if key_code == 38 {
        Outcome::Move { forward: false, by_line: true }
    } else if key_code == 40 {
        Outcome::Move { forward: true, by_line: true }
    } else if key_code == 37 {
        Outcome::Move { forward: false, by_line: false }
    } else if key_code == 39 {
        Outcome::Move { forward: true, by_line: false }
    } else {
        match ch {
            Some(x) => {
                let nc = insert_char(page, c, x);
                Outcome::Edited { caret: nc, structural: false }
            },
            None => Outcome::Unchanged,
        }
    }
}

} // verus!
