//! The document tree: nodes, locations in the tree, and the structural rules
//! that every document obeys.

use vstd::prelude::*;
use crate::node_kind::PageNodeType;

verus! {

/// One node of the document. Blocks and spans share this shape; the kind
/// tells them apart. A node owns its children; its parent is found through
/// its location.
#[derive(Debug, PartialEq, Eq)]
pub struct PageNode {
    /// The identifier of the node, three octets wide, unique in the document.
    pub hash: u32,
    pub kind: PageNodeType,
    /// The text of a `RawText`; empty on every other kind.
    pub text: Vec<char>,
    pub children: Vec<PageNode>,
    /// The height in pixels that was measured when the node was last
    /// rendered as a leaf block; zero before that.
    pub height: u32,
}

/// Whether a node of kind `parent` may hold a child of kind `child`: branch
/// blocks hold blocks other than the page, leaf blocks and branch spans hold
/// spans, and `RawText` holds nothing.
pub open spec fn kind_accepts(parent: PageNodeType, child: PageNodeType) -> bool {
    if parent.is_branch_block_kind() {
        child.spec_is_block() && child != PageNodeType::Page
    } else if parent == PageNodeType::RawText {
        false
    } else {
        !child.spec_is_block()
    }
}

/// The document as a mathematical tree: what a `PageNode` stands for.
pub struct NodeView {
    pub hash: u32,
    pub kind: PageNodeType,
    pub text: Seq<char>,
    pub children: Seq<NodeView>,
    pub height: u32,
}

/// The tree that a node stands for.
pub open spec fn node_view(n: PageNode) -> NodeView
    decreases n, 0nat,
{
    NodeView {
        hash: n.hash,
        kind: n.kind,
        text: n.text@,
        children: nodes_view(n.children@, n.children@.len()),
        height: n.height,
    }
}

/// The trees that the first `k` nodes of `s` stand for.
pub open spec fn nodes_view(s: Seq<PageNode>, k: nat) -> Seq<NodeView>
    decreases s, k,
{
    if k == 0 || k > s.len() {
        Seq::empty()
    } else {
        nodes_view(s, (k - 1) as nat).push(node_view(s[k - 1]))
    }
}

/// `nodes_view` maps the nodes one by one.
pub proof fn lemma_nodes_view(s: Seq<PageNode>, k: nat)
    requires
        k <= s.len(),
    ensures
        nodes_view(s, k).len() == k,
        forall|i: int| 0 <= i < k ==> (#[trigger] nodes_view(s, k)[i]) == node_view(s[i]),
    decreases k,
{
    if k > 0 {
        lemma_nodes_view(s, (k - 1) as nat);
    }
}

/// The trees that the nodes of `s` stand for, one by one.
pub open spec fn views(s: Seq<PageNode>) -> Seq<NodeView> {
    nodes_view(s, s.len())
}

/// `views` maps the nodes one by one.
pub proof fn lemma_views(s: Seq<PageNode>)
    ensures
        views(s).len() == s.len(),
        forall|i: int| 0 <= i < s.len() ==> (#[trigger] views(s)[i]) == s[i]@,
{
    lemma_nodes_view(s, s.len());
}

impl View for PageNode {
    type V = NodeView;

    open spec fn view(&self) -> NodeView {
        node_view(*self)
    }
}

impl NodeView {
    /// Whether `p` leads from this node to a node below it (or, when empty,
    /// to this node itself), one child index for each step.
    pub open spec fn valid_path(self, p: Seq<usize>) -> bool
        decreases p.len(),
    {
        p.len() == 0 || ((p[0] as int) < self.children.len() && self.children[p[0] as int].valid_path(
            p.skip(1),
        ))
    }

    /// The node that `p` leads to.
    pub open spec fn node_at(self, p: Seq<usize>) -> NodeView
        recommends
            self.valid_path(p),
        decreases p.len(),
    {
        if p.len() == 0 || (p[0] as int) >= self.children.len() {
            self
        } else {
            self.children[p[0] as int].node_at(p.skip(1))
        }
    }

    /// This node with the given children in place of its own.
    pub open spec fn with_children(self, children: Seq<NodeView>) -> NodeView {
        NodeView { children, ..self }
    }

    /// The tree with `new` in the place of the node that `p` leads to.
    pub open spec fn replace_at(self, p: Seq<usize>, new: NodeView) -> NodeView
        recommends
            self.valid_path(p),
        decreases p.len(),
    {
        if p.len() == 0 {
            new
        } else if (p[0] as int) >= self.children.len() {
            self
        } else {
            self.with_children(
                self.children.update(p[0] as int, self.children[p[0] as int].replace_at(p.skip(1), new)),
            )
        }
    }

    /// The structural rules, on this node and all below it: every child's
    /// kind is one that its parent's kind accepts, `RawText` has no child,
    /// and every other node has at least one.
    pub open spec fn well_formed(self) -> bool
        decreases self,
    {
        &&& (self.kind == PageNodeType::RawText ==> self.children.len() == 0)
        &&& (self.kind != PageNodeType::RawText ==> self.children.len() >= 1)
        &&& forall|i: int|
            0 <= i < self.children.len() ==> kind_accepts(self.kind, (#[trigger] self.children[i]).kind)
                && self.children[i].well_formed()
    }

    /// Every node of the tree has no more children than a machine can
    /// count. This holds of the view of every `PageNode`.
    pub open spec fn bounded(self) -> bool
        decreases self,
    {
        &&& self.children.len() <= usize::MAX
        &&& forall|i: int| 0 <= i < self.children.len() ==> (#[trigger] self.children[i]).bounded()
    }

    /// A block whose children are spans.
    pub open spec fn is_leaf_block(self) -> bool {
        self.kind.spec_is_block() && (self.children.len() == 0 || !self.children[0].kind.spec_is_block())
    }
}

impl PageNode {
    /// The children of the node's view are the views of its children.
    pub proof fn lemma_view_children(&self)
        ensures
            self@.children.len() == self.children@.len(),
            forall|i: int| 0 <= i < self.children@.len() ==> (#[trigger] self@.children[i]) == self.children@[i]@,
            self@.hash == self.hash,
            self@.kind == self.kind,
            self@.text == self.text@,
            self@.height == self.height,
    {
        lemma_nodes_view(self.children@, self.children@.len());
    }

    /// The view of a node is bounded.
    pub proof fn lemma_bounded(&self)
        ensures
            self@.bounded(),
        decreases *self,
    {
        self.lemma_view_children();
        assert(self.children@.len() == self.children.len());
        assert forall|i: int| 0 <= i < self@.children.len() implies (#[trigger] self@.children[i]).bounded() by {
            self.children@[i].lemma_bounded();
        }
    }

    /// The children of the node's view, as one sequence.
    pub proof fn lemma_view_children_seq(&self)
        ensures
            self@.children == views(self.children@),
    {
    }

    pub fn from(hash: u32, kind: PageNodeType, text: Vec<char>, children: Vec<PageNode>, height: u32) -> (r:
        Self)
        ensures
            r == (PageNode { hash, kind, text, children, height }),
    {
        PageNode { hash, kind, text, children, height }
    }

    /// Whether the node is a block.
    pub fn is_block(&self) -> (r: bool)
        ensures
            r == self@.kind.spec_is_block(),
    {
        self.kind.is_block()
    }

    /// Whether the node is a block whose children are spans.
    pub fn is_leaf_block(&self) -> (r: bool)
        ensures
            r == self@.is_leaf_block(),
    {
        proof {
            self.lemma_view_children();
        }
        self.kind.is_block() && (self.children.len() == 0 || !self.children[0].kind.is_block())
    }

    /// A copy of the node and of all below it.
    pub fn copy(&self) -> (r: Self)
        ensures
            r@ == self@,
        decreases *self,
    {
        let mut children: Vec<PageNode> = Vec::new();
        let mut i: usize = 0;
        while i < self.children.len()
            invariant
                i <= self.children@.len(),
                children@.len() == i,
                forall|j: int| 0 <= j < i ==> (#[trigger] children@[j])@ == self.children@[j]@,
            decreases self.children@.len() - i,
        {
            let c = self.children[i].copy();
            children.push(c);
            i += 1;
        }
        let text = self.text.clone();
        assert(text@ =~= self.text@);
        let r = PageNode { hash: self.hash, kind: self.kind, text, children, height: self.height };
        proof {
            self.lemma_view_children();
            r.lemma_view_children();
            assert(r@.children =~= self@.children);
        }
        r
    }
}

/// The node at `location`, counted from `root`; `None` where the location
/// leaves the tree.
pub fn get_node_from_location<'a>(location: &Vec<usize>, root: &'a PageNode) -> (r: Option<&'a PageNode>)
    ensures
        r.is_some() == root@.valid_path(location@),
        r.is_some() ==> r.unwrap()@ == root@.node_at(location@),
{
    let mut node: &PageNode = root;
    let mut d: usize = 0;
    assert(location@.skip(0) =~= location@);
    while d < location.len()
        invariant
            d <= location@.len(),
            root@.valid_path(location@) == node@.valid_path(location@.skip(d as int)),
            root@.valid_path(location@) ==> root@.node_at(location@) == node@.node_at(location@.skip(d as int)),
        decreases location@.len() - d,
    {
        let i: usize = location[d];
        assert(location@.skip(d as int)[0] == i);
        assert(location@.skip(d as int).skip(1) =~= location@.skip(d + 1));
        proof {
            node.lemma_view_children();
        }
        if i >= node.children.len() {
            return None;
        }
        node = &node.children[i];
        d += 1;
    }
    Some(node)
}

/// Puts `new` in the place of the node at `location`, counted from `root`
/// and read from step `d` on, and hands back the node that stood there.
pub fn replace_node(root: &mut PageNode, location: &Vec<usize>, d: usize, new: PageNode) -> (r: PageNode)
    requires
        d <= location@.len(),
        old(root)@.valid_path(location@.skip(d as int)),
    ensures
        r@ == old(root)@.node_at(location@.skip(d as int)),
        final(root)@ == old(root)@.replace_at(location@.skip(d as int), new@),
    decreases location@.len() - d,
{
    if d == location.len() {
        let mut new = new;
        core::mem::swap(root, &mut new);
        new
    } else {
        let i: usize = location[d];
        proof {
            assert(location@.skip(d as int)[0] == i);
            assert(location@.skip(d as int).skip(1) =~= location@.skip(d + 1));
            root.lemma_view_children();
        }
        let ghost before = *root;
        let r = replace_node(&mut root.children[i], location, d + 1, new);
        proof {
            root.lemma_view_children();
            assert(root@.children =~= before@.children.update(
                i as int,
                before@.children[i as int].replace_at(location@.skip(d + 1), new@),
            ));
        }
        r
    }
}

} // verus!
