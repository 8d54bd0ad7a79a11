//! What a parent knows of its children, and the primitives that change the
//! children of one node. A child is named by its hash.

use vstd::prelude::*;
use crate::node_kind::PageNodeType;
use crate::page_node::{kind_accepts, lemma_views, views, NodeView, PageNode};

verus! {

/// The index of the first node of `s` with hash `h`; the length of `s` where
/// there is none.
pub open spec fn index_of_hash(s: Seq<NodeView>, h: u32) -> int
    decreases s.len(),
{
    if s.len() == 0 {
        0
    } else if s[0].hash == h {
        0
    } else {
        1 + index_of_hash(s.skip(1), h)
    }
}

/// `index_of_hash` finds the first node with the hash, and only that.
pub proof fn lemma_index_of_hash(s: Seq<NodeView>, h: u32)
    ensures
        0 <= index_of_hash(s, h) <= s.len(),
        index_of_hash(s, h) < s.len() ==> s[index_of_hash(s, h)].hash == h,
        forall|j: int| 0 <= j < index_of_hash(s, h) ==> (#[trigger] s[j]).hash != h,
    decreases s.len(),
{
    if s.len() > 0 && s[0].hash != h {
        lemma_index_of_hash(s.skip(1), h);
        let r = index_of_hash(s.skip(1), h);
        assert forall|j: int| 0 <= j < 1 + r implies (#[trigger] s[j]).hash != h by {
            if j > 0 {
                assert(s.skip(1)[j - 1] == s[j]);
            }
        }
    }
}

/// Whoever finds the first node with the hash has found `index_of_hash`.
pub proof fn lemma_index_of_hash_is(s: Seq<NodeView>, h: u32, i: int)
    requires
        0 <= i <= s.len(),
        i < s.len() ==> s[i].hash == h,
        forall|j: int| 0 <= j < i ==> (#[trigger] s[j]).hash != h,
    ensures
        index_of_hash(s, h) == i,
{
    lemma_index_of_hash(s, h);
}

/// Whether every node of `nodes` has a kind that a parent of kind `parent`
/// accepts.
pub open spec fn all_accepted(parent: PageNodeType, nodes: Seq<NodeView>) -> bool {
    forall|i: int| 0 <= i < nodes.len() ==> kind_accepts(parent, (#[trigger] nodes[i]).kind)
}

/// `s` with the nodes `new` in the place of its nodes from `i` up to `j`.
pub open spec fn splice(s: Seq<NodeView>, i: int, j: int, new: Seq<NodeView>) -> Seq<NodeView>
    recommends
        0 <= i <= j <= s.len(),
{
    s.subrange(0, i) + new + s.subrange(j, s.len() as int)
}

/// Why a node did not take the nodes it was given.
#[derive(Debug, Clone, Copy, PartialEq, Eq, Structural)]
pub enum InsertError {
    /// A node would mix blocks and spans under one parent, or put a node
    /// where its kind cannot stand.
    KindMismatch,
    /// The node named as the place is not a child of the parent.
    NotAChild,
}

impl PageNode {
    /// The index of the first child with the given hash, or the number of
    /// children where no child has it.
    pub fn child_index(&self, hash: u32) -> (r: usize)
        ensures
            r == index_of_hash(self@.children, hash),
            r <= self.children@.len(),
    {
        proof {
            self.lemma_view_children();
        }
        let mut i: usize = 0;
        while i < self.children.len()
            invariant
                i <= self.children@.len(),
                self@.children.len() == self.children@.len(),
                forall|j: int| 0 <= j < self.children@.len() ==> (#[trigger] self@.children[j]) == self.children@[j]@,
                forall|j: int| 0 <= j < i ==> (#[trigger] self@.children[j]).hash != hash,
            decreases self.children@.len() - i,
        {
            if self.children[i].hash == hash {
                proof {
                    assert(self@.children[i as int].hash == hash);
                    lemma_index_of_hash_is(self@.children, hash, i as int);
                }
                return i;
            }
            i += 1;
        }
        proof {
            lemma_index_of_hash_is(self@.children, hash, i as int);
        }
        i
    }

    /// Whether the node's kind accepts every node of `nodes` as a child.
    pub fn accepts_all(&self, nodes: &Vec<PageNode>) -> (r: bool)
        ensures
            r == all_accepted(self@.kind, views(nodes@)),
    {
        proof {
            lemma_views(nodes@);
        }
        let parent_branch_block: bool = self.kind.is_block() && self.kind.is_branch();
        let parent_raw: bool = self.kind == PageNodeType::RawText;
        let mut i: usize = 0;
        while i < nodes.len()
            invariant
                i <= nodes@.len(),
                views(nodes@).len() == nodes@.len(),
                forall|j: int| 0 <= j < nodes@.len() ==> (#[trigger] views(nodes@)[j]) == nodes@[j]@,
                parent_branch_block == self.kind.is_branch_block_kind(),
                parent_raw == (self.kind == PageNodeType::RawText),
                forall|j: int| 0 <= j < i ==> kind_accepts(self.kind, (#[trigger] views(nodes@)[j]).kind),
            decreases nodes@.len() - i,
        {
            let k: PageNodeType = nodes[i].kind;
            let ok: bool = if parent_branch_block {
                k.is_block() && k != PageNodeType::Page
            } else if parent_raw {
                false
            } else {
                !k.is_block()
            };
            if !ok {
                assert(!kind_accepts(self.kind, views(nodes@)[i as int].kind));
                return false;
            }
            i += 1;
        }
        true
    }
}

/// Whether a node is a block.
pub trait IsBlock {
    spec fn block(&self) -> bool;

    fn is_block(&self) -> (r: bool)
        ensures
            r == self.block(),
    ;
}

impl IsBlock for PageNode {
    open spec fn block(&self) -> bool {
        self@.kind.spec_is_block()
    }

    fn is_block(&self) -> (r: bool) {
        self.kind.is_block()
    }
}

/// Whether a node is a block whose children are spans.
pub trait IsLeafBlock {
    spec fn leaf_block(&self) -> bool;

    fn is_leaf_block(&self) -> (r: bool)
        ensures
            r == self.leaf_block(),
    ;
}

impl IsLeafBlock for PageNode {
    open spec fn leaf_block(&self) -> bool {
        self@.is_leaf_block()
    }

    fn is_leaf_block(&self) -> (r: bool) {
        PageNode::is_leaf_block(self)
    }
}

/// Whether a child is the first of its parent's children.
pub trait IsFirstChild<T> {
    spec fn first_child_is(&self, child: &T) -> bool;

    fn is_first_child(&self, child: &T) -> (r: bool)
        ensures
            r == self.first_child_is(child),
    ;
}

impl IsFirstChild<u32> for PageNode {
    open spec fn first_child_is(&self, child: &u32) -> bool {
        self@.children.len() > 0 && self@.children[0].hash == *child
    }

    fn is_first_child(&self, child: &u32) -> (r: bool) {
        proof {
            self.lemma_view_children();
        }
        self.children.len() > 0 && self.children[0].hash == *child
    }
}

/// Whether a child is the last of its parent's children.
pub trait IsLastChild<T> {
    spec fn last_child_is(&self, child: &T) -> bool;

    fn is_last_child(&self, child: &T) -> (r: bool)
        ensures
            r == self.last_child_is(child),
    ;
}

impl IsLastChild<u32> for PageNode {
    open spec fn last_child_is(&self, child: &u32) -> bool {
        self@.children.len() > 0 && self@.children.last().hash == *child
    }

    fn is_last_child(&self, child: &u32) -> (r: bool) {
        proof {
            self.lemma_view_children();
        }
        let n: usize = self.children.len();
        n > 0 && self.children[n - 1].hash == *child
    }
}

/// The child that stands before a given child.
pub trait PrevChild<T> {
    spec fn child_before(&self, child: &T) -> Option<NodeView>;

    fn prev_child(&self, child: &T) -> (r: Option<&PageNode>)
        ensures
            r.is_some() == self.child_before(child).is_some(),
            r.is_some() ==> r.unwrap()@ == self.child_before(child).unwrap(),
    ;
}

impl PrevChild<u32> for PageNode {
    open spec fn child_before(&self, child: &u32) -> Option<NodeView> {
        let i = index_of_hash(self@.children, *child);
        if 0 < i < self@.children.len() {
            Some(self@.children[i - 1])
        } else {
            None
        }
    }

    fn prev_child(&self, child: &u32) -> (r: Option<&PageNode>) {
        proof {
            self.lemma_view_children();
        }
        let i: usize = self.child_index(*child);
        if 0 < i && i < self.children.len() {
            Some(&self.children[i - 1])
        } else {
            None
        }
    }
}

/// The child that stands after a given child.
pub trait NextChild<T> {
    spec fn child_after(&self, child: &T) -> Option<NodeView>;

    fn next_child(&self, child: &T) -> (r: Option<&PageNode>)
        ensures
            r.is_some() == self.child_after(child).is_some(),
            r.is_some() ==> r.unwrap()@ == self.child_after(child).unwrap(),
    ;
}

impl NextChild<u32> for PageNode {
    open spec fn child_after(&self, child: &u32) -> Option<NodeView> {
        let i = index_of_hash(self@.children, *child);
        if i + 1 < self@.children.len() {
            Some(self@.children[i + 1])
        } else {
            None
        }
    }

    fn next_child(&self, child: &u32) -> (r: Option<&PageNode>) {
        proof {
            self.lemma_view_children();
        }
        let i: usize = self.child_index(*child);
        if i < self.children.len() && i + 1 < self.children.len() {
            Some(&self.children[i + 1])
        } else {
            None
        }
    }
}

/// Taking a child out of its parent. The child comes back with all that
/// hangs below it, so that the caller can give it a new home or put it back.
pub trait RemoveChild<T> {
    spec fn remove_child_post(&self, child: &T, after: &Self, removed: Option<NodeView>) -> bool;

    fn remove_child(&mut self, child: &T) -> (r: Option<PageNode>)
        ensures
            old(self).remove_child_post(
                child,
                final(self),
                match r {
                    Some(n) => Some(n@),
                    None => None,
                },
            ),
    ;
}

impl RemoveChild<u32> for PageNode {
    /// The first child with the hash leaves and is handed back; the other
    /// children keep their order. Where no child has the hash nothing
    /// changes.
    open spec fn remove_child_post(&self, child: &u32, after: &Self, removed: Option<NodeView>) -> bool {
        let s = self@.children;
        let i = index_of_hash(s, *child);
        if i < s.len() {
            &&& removed == Some(s[i])
            &&& after@ == self@.with_children(s.remove(i))
        } else {
            &&& removed.is_none()
            &&& after@ == self@
        }
    }

    fn remove_child(&mut self, child: &u32) -> (r: Option<PageNode>) {
        proof {
            self.lemma_view_children();
        }
        let i: usize = self.child_index(*child);
        if i < self.children.len() {
            let ghost before = *self;
            let n = self.children.remove(i);
            proof {
                self.lemma_view_children();
                before.lemma_view_children();
                assert(self@.children =~= before@.children.remove(i as int));
            }
            Some(n)
        } else {
            None
        }
    }
}

/// Giving a block another kind.
pub trait ChangeBlockKind {
    spec fn with_kind(&self, new_kind: PageNodeType, after: &Self) -> bool;

    fn change_block_kind(&mut self, new_kind: PageNodeType)
        ensures
            old(self).with_kind(new_kind, final(self)),
    ;
}

impl ChangeBlockKind for PageNode {
    /// Only the kind changes.
    open spec fn with_kind(&self, new_kind: PageNodeType, after: &Self) -> bool {
        after@ == (NodeView { kind: new_kind, ..self@ })
    }

    fn change_block_kind(&mut self, new_kind: PageNodeType) {
        self.kind = new_kind;
    }
}

/// Giving a parent new children at a chosen place.
pub trait InsertNodes {
    spec fn insert_nodes_post(
        &self,
        nodes: Seq<NodeView>,
        before: Option<u32>,
        after: &Self,
        r: Result<(), InsertError>,
    ) -> bool;

    fn insert_nodes(&mut self, nodes: Vec<PageNode>, before: Option<u32>) -> (r: Result<(), InsertError>)
        ensures
            old(self).insert_nodes_post(views(nodes@), before, final(self), r),
    ;
}

impl InsertNodes for PageNode {
    /// The nodes come to stand, in their order, before the first child that
    /// has the hash `before`, or behind the last child where no place is
    /// named. Nothing changes where the parent's kind does not accept one
    /// of them, or where the place named is no child of the parent.
    open spec fn insert_nodes_post(
        &self,
        nodes: Seq<NodeView>,
        before: Option<u32>,
        after: &Self,
        r: Result<(), InsertError>,
    ) -> bool {
        let s = self@.children;
        let i = match before {
            Some(h) => index_of_hash(s, h),
            None => s.len() as int,
        };
        if !all_accepted(self@.kind, nodes) {
            r == Err::<(), InsertError>(InsertError::KindMismatch) && after@ == self@
        } else if before.is_some() && i >= s.len() {
            r == Err::<(), InsertError>(InsertError::NotAChild) && after@ == self@
        } else {
            r.is_ok() && after@ == self@.with_children(splice(s, i, i, nodes))
        }
    }

    fn insert_nodes(&mut self, nodes: Vec<PageNode>, before: Option<u32>) -> (r: Result<(), InsertError>) {
        proof {
            self.lemma_view_children();
        }
        if !self.accepts_all(&nodes) {
            return Err(InsertError::KindMismatch);
        }
        let i: usize = match before {
            Some(h) => {
                let i: usize = self.child_index(h);
                if i >= self.children.len() {
                    return Err(InsertError::NotAChild);
                }
                i
            },
            None => self.children.len(),
        };
        let ghost before_self = *self;
        let mut nodes = nodes;
        let ghost new = nodes@;
        let mut tail = self.children.split_off(i);
        self.children.append(&mut nodes);
        self.children.append(&mut tail);
        proof {
            self.lemma_view_children();
            before_self.lemma_view_children();
            lemma_views(new);
            assert(self@.children =~= splice(before_self@.children, i as int, i as int, views(new)));
        }
        Ok(())
    }
}

/// Taking a block away while its children stay, in its place, with its
/// parent.
pub trait RemoveThisBlockShell {
    spec fn remove_shell_post(&self, block: u32, after: &Self, r: Result<NodeView, InsertError>) -> bool;

    fn remove_this_block_shell(&mut self, block: u32) -> (r: Result<PageNode, InsertError>)
        ensures
            old(self).remove_shell_post(
                block,
                final(self),
                match r {
                    Ok(n) => Ok(n@),
                    Err(e) => Err(e),
                },
            ),
    ;
}

impl RemoveThisBlockShell for PageNode {
    /// `self` is the parent of the block. The children of the first child
    /// with the hash `block` take that child's place, in their order; the
    /// emptied child is handed back. Nothing changes where no child has the
    /// hash, or where the parent's kind does not accept one of the
    /// grandchildren.
    open spec fn remove_shell_post(&self, block: u32, after: &Self, r: Result<NodeView, InsertError>) -> bool {
        let s = self@.children;
        let i = index_of_hash(s, block);
        if i >= s.len() {
            r == Err::<NodeView, InsertError>(InsertError::NotAChild) && after@ == self@
        } else if !all_accepted(self@.kind, s[i].children) {
            r == Err::<NodeView, InsertError>(InsertError::KindMismatch) && after@ == self@
        } else {
            &&& r == Ok::<NodeView, InsertError>(s[i].with_children(Seq::empty()))
            &&& after@ == self@.with_children(splice(s, i, i + 1, s[i].children))
        }
    }

    fn remove_this_block_shell(&mut self, block: u32) -> (r: Result<PageNode, InsertError>) {
        proof {
            self.lemma_view_children();
        }
        let i: usize = self.child_index(block);
        if i >= self.children.len() {
            return Err(InsertError::NotAChild);
        }
        proof {
            self.children@[i as int].lemma_view_children_seq();
        }
        if !self.accepts_all(&self.children[i].children) {
            return Err(InsertError::KindMismatch);
        }
        let ghost before_self = *self;
        let mut tail = self.children.split_off(i + 1);
        let shell = self.children.pop();
        let mut shell = shell.unwrap();
        let ghost inner = shell.children@;
        self.children.append(&mut shell.children);
        self.children.append(&mut tail);
        proof {
            self.lemma_view_children();
            before_self.lemma_view_children();
            shell.lemma_view_children();
            lemma_views(inner);
            before_self.children@[i as int].lemma_view_children();
            assert(shell@.children =~= Seq::<NodeView>::empty());
            assert(self@.children =~= splice(
                before_self@.children,
                i as int,
                i + 1,
                before_self@.children[i as int].children,
            ));
        }
        Ok(shell)
    }
}

} // verus!
