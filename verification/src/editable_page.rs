//! What the host needs to show a page: the element that stands for a node,
//! and a page of sample text.

use std::collections::HashMap;
use vstd::prelude::*;
use vstd::string::StrSliceExecFns;
use crate::add_hashes::{add_hashes, lemma_rehash_all, rehash, size, sizes};
use crate::children::index_of_hash;
use crate::init::init_page_nodes;
use crate::issue::issue_seq;
use crate::leaves::{leaves, leaves_of};
use crate::page::EdgeElem;
use crate::view_state::{block_height, height_sum};
use crate::node_kind::PageNodeType;
use crate::page::Page;
use crate::page_node::{kind_accepts, lemma_views, views, NodeView, PageNode};

verus! {

/// The two tags of the editor's elements.
#[derive(Debug, Clone, Copy, PartialEq, Eq, Structural)]
pub enum Tag {
    Div,
    Span,
}

/// The element of one node, without its children: what the host has to
/// create for it.
#[derive(Debug, PartialEq, Eq)]
pub struct ElemSpec {
    pub tag: Tag,
    /// The value of the `type` attribute.
    pub kind: &'static str,
    /// The value of the `hash` attribute.
    pub hash: u32,
    /// The text inside the element, where the node is a `RawText`. It is
    /// text for the host to set, never markup.
    pub text: Option<Vec<char>>,
    /// Whether the host sets the `contenteditable` attribute.
    pub contenteditable: bool,
}

/// An element as a mathematical value.
pub struct ElemView {
    pub tag: Tag,
    pub kind: Seq<char>,
    pub hash: u32,
    pub text: Option<Seq<char>>,
    pub contenteditable: bool,
}

impl View for ElemSpec {
    type V = ElemView;

    open spec fn view(&self) -> ElemView {
        ElemView {
            tag: self.tag,
            kind: self.kind@,
            hash: self.hash,
            text: match self.text {
                Some(t) => Some(t@),
                None => None,
            },
            contenteditable: self.contenteditable,
        }
    }
}

/// The element of a node: a `div` for a block and a `span` for a span, with
/// the token of the kind and the hash of the node as attributes, the text
/// inside it where the node is a `RawText`, and `contenteditable` on the
/// page alone.
pub open spec fn elem_of(n: NodeView) -> ElemView {
    ElemView {
        tag: if n.kind.spec_is_block() {
            Tag::Div
        } else {
            Tag::Span
        },
        kind: n.kind.token(),
        hash: n.hash,
        text: if n.kind == PageNodeType::RawText {
            Some(n.text)
        } else {
            None
        },
        contenteditable: n.kind == PageNodeType::Page,
    }
}

/// The element that stands for a node. The host appends the elements of
/// the children in their order.
pub trait CreateElem {
    spec fn elem(&self) -> ElemView;

    fn create_elem(&self) -> (r: ElemSpec)
        ensures
            r@ == self.elem(),
    ;
}

impl CreateElem for PageNode {
    open spec fn elem(&self) -> ElemView {
        elem_of(self@)
    }

    fn create_elem(&self) -> (r: ElemSpec) {
        let tag = if self.kind.is_block() {
            Tag::Div
        } else {
            Tag::Span
        };
        let text = if self.kind == PageNodeType::RawText {
            let t = self.text.clone();
            assert(t@ =~= self.text@);
            Some(t)
        } else {
            None
        };
        ElemSpec {
            tag,
            kind: self.kind.value(),
            hash: self.hash,
            text,
            contenteditable: self.kind == PageNodeType::Page,
        }
    }
}

/// The characters of a string.
pub fn chars_of(s: &str) -> (r: Vec<char>)
    ensures
        r@ == s@,
{
    let n: usize = s.unicode_len();
    let mut r: Vec<char> = Vec::new();
    let mut i: usize = 0;
    while i < n
        invariant
            i <= n,
            n == s@.len(),
            r@ == s@.subrange(0, i as int),
        decreases n - i,
    {
        r.push(s.get_char(i));
        assert(r@ =~= s@.subrange(0, i + 1));
        i += 1;
    }
    assert(r@ =~= s@);
    r
}

/// A `RawText` with a text and nothing else.
pub open spec fn raw_view(text: Seq<char>) -> NodeView {
    NodeView { hash: 0, kind: PageNodeType::RawText, text, children: Seq::empty(), height: 0 }
}

/// A leaf block around one `RawText`.
pub open spec fn line_view(kind: PageNodeType, text: Seq<char>) -> NodeView {
    NodeView { hash: 0, kind, text: Seq::empty(), children: seq![raw_view(text)], height: 0 }
}

/// The digit that stands for a number below ten.
pub open spec fn digit(i: int) -> char {
    if i == 0 {
        '0'
    } else if i == 1 {
        '1'
    } else if i == 2 {
        '2'
    } else if i == 3 {
        '3'
    } else if i == 4 {
        '4'
    } else if i == 5 {
        '5'
    } else if i == 6 {
        '6'
    } else if i == 7 {
        '7'
    } else if i == 8 {
        '8'
    } else {
        '9'
    }
}

/// The sample text with a number behind it.
pub open spec fn sample(i: int) -> Seq<char> {
    "some text "@.push(digit(i))
}

/// The quote of the sample page with the number `i`: two paragraphs.
pub open spec fn quote_view(i: int) -> NodeView {
    NodeView {
        hash: 0,
        kind: PageNodeType::Quote,
        text: Seq::empty(),
        children: seq![
            line_view(PageNodeType::TextBlock, sample(i)),
            line_view(PageNodeType::TextBlock, "some text"@),
        ],
        height: 0,
    }
}

/// The block with index `j` of the sample page: in turn a heading, a bullet
/// and a quote, with a number that goes up after each three.
pub open spec fn demo_block(j: int) -> NodeView {
    if j % 3 == 0 {
        line_view(PageNodeType::H1, sample(j / 3))
    } else if j % 3 == 1 {
        line_view(PageNodeType::Dot, sample(j / 3))
    } else {
        quote_view(j / 3)
    }
}

/// The document of the sample page, without hashes.
pub open spec fn demo_tree() -> NodeView {
    NodeView {
        hash: 0,
        kind: PageNodeType::Page,
        text: Seq::empty(),
        children: Seq::new(15, |j: int| demo_block(j)),
        height: 0,
    }
}

/// A `RawText` with the given text and no hash yet.
pub fn text_node(text: Vec<char>) -> (r: PageNode)
    ensures
        r@ == raw_view(text@),
{
    let r = PageNode { hash: 0, kind: PageNodeType::RawText, text, children: Vec::new(), height: 0 };
    proof {
        r.lemma_view_children();
        assert(r@.children =~= Seq::<NodeView>::empty());
    }
    r
}

/// A node of the given kind around the given children, with no hash yet.
pub fn node_around(kind: PageNodeType, children: Vec<PageNode>) -> (r: PageNode)
    ensures
        r@ == (NodeView { hash: 0, kind, text: Seq::empty(), children: views(children@), height: 0 }),
{
    let r = PageNode { hash: 0, kind, text: Vec::new(), children, height: 0 };
    proof {
        r.lemma_view_children_seq();
        assert(r@.text =~= Seq::<char>::empty());
    }
    r
}

/// A leaf block of the given kind around one `RawText`.
fn line(kind: PageNodeType, text: Vec<char>) -> (r: PageNode)
    ensures
        r@ == line_view(kind, text@),
{
    let mut children: Vec<PageNode> = Vec::new();
    children.push(text_node(text));
    proof {
        lemma_views(children@);
        assert(views(children@) =~= seq![raw_view(text@)]);
    }
    node_around(kind, children)
}

/// The sample text with a number behind it.
fn sample_text(i: u8) -> (r: Vec<char>)
    requires
        i < 10,
    ensures
        r@ == sample(i as int),
{
    let mut t = chars_of("some text ");
    let d: char = match i {
        0 => '0',
        1 => '1',
        2 => '2',
        3 => '3',
        4 => '4',
        5 => '5',
        6 => '6',
        7 => '7',
        8 => '8',
        _ => '9',
    };
    t.push(d);
    t
}

/// The document of the sample page, without hashes: five times a heading, a
/// bullet, and a quote around two paragraphs.
pub fn demo_page_nodes() -> (r: PageNode)
    ensures
        r@ == demo_tree(),
{
    let mut blocks: Vec<PageNode> = Vec::new();
    let mut i: u8 = 0;
    while i < 5
        invariant
            i <= 5,
            blocks@.len() == 3 * i,
            forall|j: int| 0 <= j < blocks@.len() ==> (#[trigger] blocks@[j])@ == demo_block(j),
        decreases 5 - i,
    {
        let heading = line(PageNodeType::H1, sample_text(i));
        let bullet = line(PageNodeType::Dot, sample_text(i));
        let mut inner: Vec<PageNode> = Vec::new();
        inner.push(line(PageNodeType::TextBlock, sample_text(i)));
        inner.push(line(PageNodeType::TextBlock, chars_of("some text")));
        proof {
            lemma_views(inner@);
            assert(views(inner@) =~= quote_view(i as int).children);
        }
        let quote = node_around(PageNodeType::Quote, inner);
        blocks.push(heading);
        blocks.push(bullet);
        blocks.push(quote);
        i += 1;
    }
    proof {
        lemma_views(blocks@);
        assert(views(blocks@) =~= demo_tree().children);
    }
    node_around(PageNodeType::Page, blocks)
}

/// Whether no node of the tree has a height yet.
pub open spec fn flat(n: NodeView) -> bool
    decreases n,
{
    n.height == 0 && forall|i: int| 0 <= i < n.children.len() ==> flat(#[trigger] n.children[i])
}

/// New hashes leave the kinds, the heights and the rules of a tree as they
/// are.
pub proof fn lemma_rehash_keeps(n: NodeView, ids: Seq<u32>, from: int)
    ensures
        rehash(n, ids, from).kind == n.kind,
        rehash(n, ids, from).height == n.height,
        rehash(n, ids, from).children.len() == n.children.len(),
        forall|i: int|
            0 <= i < n.children.len() ==> (#[trigger] rehash(n, ids, from).children[i]).kind == n.children[i].kind,
        n.well_formed() ==> rehash(n, ids, from).well_formed(),
        flat(n) ==> flat(rehash(n, ids, from)),
    decreases n,
{
    let r = rehash(n, ids, from);
    lemma_rehash_all(n.children, n.children.len(), ids, from + 1);
    assert forall|i: int| 0 <= i < n.children.len() implies (#[trigger] r.children[i]).kind == n.children[i].kind
        && (n.children[i].well_formed() ==> r.children[i].well_formed()) && (flat(n.children[i]) ==> flat(
        r.children[i],
    )) by {
        lemma_rehash_keeps(n.children[i], ids, from + 1 + sizes(n.children, i as nat));
    }
    if n.well_formed() {
        assert forall|i: int| 0 <= i < r.children.len() implies kind_accepts(r.kind, (#[trigger] r.children[i]).kind)
            && r.children[i].well_formed() by {
            assert(kind_accepts(n.kind, n.children[i].kind));
        }
    }
    if flat(n) {
        assert forall|i: int| 0 <= i < r.children.len() implies flat(#[trigger] r.children[i]) by {
            assert(flat(n.children[i]));
        }
    }
}

/// The leaf blocks of a tree without heights have no height.
pub proof fn lemma_flat_leaves(n: NodeView)
    requires
        flat(n),
    ensures
        forall|i: int| 0 <= i < leaves(n).len() ==> block_height(#[trigger] leaves(n)[i]) == 0,
    decreases n, 0nat,
{
    if n.kind.is_branch_block_kind() {
        assert forall|i: int| 0 <= i < n.children.len() implies flat(#[trigger] n.children[i]) by {}
        lemma_flat_leaves_of(n.children, n.children.len());
        assert(leaves(n) == leaves_of(n.children, n.children.len()));
    } else if n.kind.is_leaf_block_kind() {
        assert(leaves(n) =~= seq![n]);
        assert(block_height(n) == 0);
    } else {
        assert(leaves(n).len() == 0);
    }
}

/// The same of the first `k` trees of a row.
pub proof fn lemma_flat_leaves_of(s: Seq<NodeView>, k: nat)
    requires
        k <= s.len(),
        forall|i: int| 0 <= i < s.len() ==> flat(#[trigger] s[i]),
    ensures
        forall|i: int| 0 <= i < leaves_of(s, k).len() ==> block_height(#[trigger] leaves_of(s, k)[i]) == 0,
    decreases s, k,
{
    if k > 0 {
        lemma_flat_leaves_of(s, (k - 1) as nat);
        lemma_flat_leaves(s[k - 1]);
        let a = leaves_of(s, (k - 1) as nat);
        let b = leaves(s[k - 1]);
        assert forall|i: int| 0 <= i < leaves_of(s, k).len() implies block_height(#[trigger] leaves_of(s, k)[i])
            == 0 by {
            if i < a.len() {
                assert(leaves_of(s, k)[i] == a[i]);
            } else {
                assert(leaves_of(s, k)[i] == b[i - a.len()]);
            }
        }
    }
}

/// Leaf blocks without height add up to no height.
pub proof fn lemma_no_height(l: Seq<NodeView>, from: int, to: int)
    requires
        0 <= from,
        to <= l.len(),
        forall|i: int| 0 <= i < l.len() ==> block_height(#[trigger] l[i]) == 0,
    ensures
        height_sum(l, from, to) == 0,
    decreases to - from,
{
    if from < to {
        lemma_no_height(l, from, to - 1);
    }
}

/// The sample document has 46 nodes, keeps the rules, and has no heights.
pub proof fn lemma_demo_tree()
    ensures
        size(demo_tree()) == 46,
        demo_tree().well_formed(),
        flat(demo_tree()),
        demo_tree().children.len() == 15,
        demo_tree().children[3].kind == PageNodeType::H1,
{
    let t = demo_tree();
    assert forall|j: int| 0 <= j < 15 implies (#[trigger] t.children[j]).well_formed() && kind_accepts(
        t.kind,
        t.children[j].kind,
    ) && flat(t.children[j]) by {
        let b = demo_block(j);
        if j % 3 == 2 {
            lemma_line(PageNodeType::TextBlock, sample(j / 3));
            lemma_line(PageNodeType::TextBlock, "some text"@);
        } else if j % 3 == 1 {
            lemma_line(PageNodeType::Dot, sample(j / 3));
        } else {
            lemma_line(PageNodeType::H1, sample(j / 3));
        }
    }
    lemma_demo_sizes(15);
}

/// A leaf block around one `RawText` keeps the rules and has no heights.
pub proof fn lemma_line(kind: PageNodeType, text: Seq<char>)
    requires
        kind.is_leaf_block_kind(),
    ensures
        line_view(kind, text).well_formed(),
        flat(line_view(kind, text)),
{
    let l = line_view(kind, text);
    assert(raw_view(text).well_formed());
    assert(flat(raw_view(text)));
    assert(l.children[0] == raw_view(text));
}

/// The number of nodes of one block of the sample page.
pub proof fn lemma_demo_block_size(j: int)
    ensures
        size(demo_block(j)) == if j % 3 == 2 {
            5nat
        } else {
            2nat
        },
{
    let b = demo_block(j);
    let text = if j % 3 == 2 { "some text"@ } else { sample(j / 3) };
    assert(sizes(raw_view(text).children, 0) == 0);
    if j % 3 == 2 {
        let l0 = b.children[0];
        let l1 = b.children[1];
        lemma_line_size(l0.kind, sample(j / 3));
        lemma_line_size(l1.kind, "some text"@);
        assert(sizes(b.children, 2) == sizes(b.children, 1) + size(b.children[1]));
        assert(sizes(b.children, 1) == sizes(b.children, 0) + size(b.children[0]));
    } else {
        lemma_line_size(b.kind, sample(j / 3));
    }
}

/// A leaf block around one `RawText` has two nodes.
pub proof fn lemma_line_size(kind: PageNodeType, text: Seq<char>)
    ensures
        size(line_view(kind, text)) == 2,
{
    let l = line_view(kind, text);
    assert(sizes(l.children, 1) == sizes(l.children, 0) + size(l.children[0]));
    assert(sizes(raw_view(text).children, 0) == 0);
}

/// The number of nodes of the first `k` blocks of the sample page.
pub proof fn lemma_demo_sizes(k: nat)
    requires
        k <= 15,
    ensures
        sizes(demo_tree().children, k) == 9 * (k / 3) + if k % 3 == 0 {
            0nat
        } else if k % 3 == 1 {
            2nat
        } else {
            4nat
        },
    decreases k,
{
    if k > 0 {
        lemma_demo_sizes((k - 1) as nat);
        lemma_demo_block_size(k - 1);
    }
}

/// The sample page: the sample document with hashes issued from the draws,
/// and its fourth block, a heading, as the one block that is rendered at
/// first. Nothing comes back where the draws give too few hashes.
pub fn init_demo_page_data(draws: &Vec<u32>) -> (r: Option<Page>)
    ensures
        match issue_seq(Set::empty(), draws@, 0, 46) {
            Ok(ids) => {
                &&& r.is_some()
                &&& r.unwrap().sound()
                &&& r.unwrap().nodes@ == rehash(demo_tree(), ids, 0)
                &&& r.unwrap().top_elem == (EdgeElem {
                    hash: r.unwrap().nodes@.children[3].hash,
                    pad: 0,
                    scroll_offset: 0,
                })
                &&& r.unwrap().bot_elem == r.unwrap().top_elem
            },
            Err(_) => r.is_none(),
        },
{
    let mut nodes = demo_page_nodes();
    let mut locations: HashMap<u32, Vec<usize>> = HashMap::new();
    proof {
        lemma_demo_tree();
        assert(locations@.dom() =~= Set::<u32>::empty());
    }
    match add_hashes(&mut nodes, &mut locations, draws) {
        Ok(()) => {},
        Err(_) => {
            return None;
        },
    }
    let ghost ids = issue_seq(Set::<u32>::empty(), draws@, 0, 46)->Ok_0;
    proof {
        let t = nodes@;
        nodes.lemma_view_children();
        lemma_rehash_keeps(demo_tree(), ids, 0);
        lemma_flat_leaves(t);
        let l = leaves(t);
        let p = seq![3usize];
        assert(p.skip(1) =~= Seq::<usize>::empty());
        assert(t.children.len() == 15);
        assert(t.children[3].valid_path(p.skip(1)));
        assert(t.valid_path(p));
        assert(t.node_at(p) == t.children[3].node_at(p.skip(1)));
        crate::view_state::lemma_leaf_index(t, p);
        let h = t.children[3].hash;
        lemma_no_height(l, 0, index_of_hash(l, h));
        lemma_no_height(l, index_of_hash(l, h) + 1, l.len() as int);
    }
    let top: u32 = nodes.children[3].hash;
    init_page_nodes(nodes, Some(top))
}

} // verus!
