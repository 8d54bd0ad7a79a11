//! The page: the document tree together with its hash index and the two
//! edges of what is rendered.

use std::collections::HashMap;
use vstd::prelude::*;
use crate::hash_index::{index_matches, index_view, unique_hashes};
use crate::leaves::{next_leaf, next_leaf_below, prev_leaf, prev_leaf_below};
use crate::node_kind::PageNodeType;
use crate::page_node::{get_node_from_location, NodeView, PageNode};

verus! {

broadcast use vstd::std_specs::hash::group_hash_axioms;

/// The top or the bottom edge of what is rendered.
#[derive(Debug, Clone, Copy, PartialEq, Eq)]
pub struct EdgeElem {
    /// The hash of the leaf block at the edge.
    pub hash: u32,
    /// The height in pixels of the spacer that stands for the blocks beyond
    /// the edge.
    pub pad: u32,
    /// How far the top block was scrolled from the top of the view, kept so
    /// that the position can be taken up again.
    pub scroll_offset: i64,
}

/// A document with its index and its rendered range. The host keeps the
/// rendered elements themselves, each under the hash of its node.
#[derive(Debug)]
pub struct Page {
    /// The root of the document, a node of kind `Page`.
    pub nodes: PageNode,
    pub top_elem: EdgeElem,
    pub bot_elem: EdgeElem,
    /// The hash index: the location of every node, by its hash.
    pub locations: HashMap<u32, Vec<usize>>,
}

/// Adding or overwriting an entry of the index.
pub trait InsertHash {
    spec fn insert_hash_post(&self, hash: u32, location: Seq<usize>, after: &Self) -> bool;

    fn insert_hash(&mut self, hash: u32, location: Vec<usize>)
        ensures
            old(self).insert_hash_post(hash, location@, final(self)),
    ;
}

impl InsertHash for HashMap<u32, Vec<usize>> {
    open spec fn insert_hash_post(&self, hash: u32, location: Seq<usize>, after: &Self) -> bool {
        index_view(after@) == index_view(self@).insert(hash, location)
    }

    fn insert_hash(&mut self, hash: u32, location: Vec<usize>) {
        self.insert(hash, location);
        assert(index_view(self@) =~= index_view(old(self)@).insert(hash, location@));
    }
}

/// Taking an entry out of the index.
pub trait RemoveHash {
    spec fn remove_hash_post(&self, hash: u32, after: &Self) -> bool;

    fn remove_hash(&mut self, hash: &u32)
        ensures
            old(self).remove_hash_post(*hash, final(self)),
    ;
}

impl RemoveHash for HashMap<u32, Vec<usize>> {
    open spec fn remove_hash_post(&self, hash: u32, after: &Self) -> bool {
        index_view(after@) == index_view(self@).remove(hash)
    }

    fn remove_hash(&mut self, hash: &u32) {
        self.remove(hash);
        assert(index_view(self@) =~= index_view(old(self)@).remove(*hash));
    }
}

/// Whether the index has an entry for a hash.
pub trait ContainsHash {
    spec fn has_hash(&self, hash: u32) -> bool;

    fn contains_hash(&self, hash: &u32) -> (r: bool)
        ensures
            r == self.has_hash(*hash),
    ;
}

impl ContainsHash for HashMap<u32, Vec<usize>> {
    open spec fn has_hash(&self, hash: u32) -> bool {
        index_view(self@).contains_key(hash)
    }

    fn contains_hash(&self, hash: &u32) -> (r: bool) {
        self.contains_key(hash)
    }
}

/// The location that the index holds for a hash.
pub trait HashToLocation {
    spec fn location_of(&self, hash: u32) -> Option<Seq<usize>>;

    fn hash_to_location(&self, hash: &u32) -> (r: Option<Vec<usize>>)
        ensures
            r.is_some() == self.location_of(*hash).is_some(),
            r.is_some() ==> r.unwrap()@ == self.location_of(*hash).unwrap(),
    ;
}

impl HashToLocation for HashMap<u32, Vec<usize>> {
    open spec fn location_of(&self, hash: u32) -> Option<Seq<usize>> {
        if index_view(self@).contains_key(hash) {
            Some(index_view(self@)[hash])
        } else {
            None
        }
    }

    fn hash_to_location(&self, hash: &u32) -> (r: Option<Vec<usize>>) {
        match self.get(hash) {
            Some(v) => {
                let c = v.clone();
                assert(c@ =~= v@);
                Some(c)
            },
            None => None,
        }
    }
}

impl HashToLocation for Page {
    open spec fn location_of(&self, hash: u32) -> Option<Seq<usize>> {
        self.locations.location_of(hash)
    }

    fn hash_to_location(&self, hash: &u32) -> (r: Option<Vec<usize>>) {
        self.locations.hash_to_location(hash)
    }
}

/// The node that has a hash.
pub trait HashToNode {
    spec fn node_of(&self, hash: u32) -> Option<NodeView>;

    fn hash_to_node(&self, hash: &u32) -> (r: Option<&PageNode>)
        ensures
            r.is_some() == self.node_of(*hash).is_some(),
            r.is_some() ==> r.unwrap()@ == self.node_of(*hash).unwrap(),
    ;
}

impl HashToNode for Page {
    /// The node at the location that the index holds for the hash; none
    /// where the index has no entry or the entry leads out of the tree.
    open spec fn node_of(&self, hash: u32) -> Option<NodeView> {
        if self.index().contains_key(hash) && self.nodes@.valid_path(self.index()[hash]) {
            Some(self.nodes@.node_at(self.index()[hash]))
        } else {
            None
        }
    }

    fn hash_to_node(&self, hash: &u32) -> (r: Option<&PageNode>) {
        match self.locations.get(hash) {
            Some(loc) => get_node_from_location(loc, &self.nodes),
            None => None,
        }
    }
}

impl Page {
    /// The index as a map from hashes to locations.
    pub open spec fn index(&self) -> Map<u32, Seq<usize>> {
        index_view(self.locations@)
    }

    /// The document is sound: the root is the one page, the structural
    /// rules hold everywhere, no hash occurs twice, and the index holds
    /// every node at its location and nothing else.
    pub open spec fn wf(&self) -> bool {
        &&& self.nodes@.kind == PageNodeType::Page
        &&& self.nodes@.well_formed()
        &&& unique_hashes(self.nodes@)
        &&& index_matches(self.index(), self.nodes@)
    }
}

/// Whether the structural rules hold on the node and on all below it.
pub fn check_well_formed(node: &PageNode) -> (r: bool)
    ensures
        r == node@.well_formed(),
    decreases *node,
{
    proof {
        node.lemma_view_children();
    }
    let raw: bool = node.kind == PageNodeType::RawText;
    if raw {
        return node.children.len() == 0;
    }
    if node.children.len() == 0 {
        return false;
    }
    let branch_block: bool = node.kind.is_block() && node.kind.is_branch();
    let mut i: usize = 0;
    while i < node.children.len()
        invariant
            i <= node.children@.len(),
            node@.children.len() == node.children@.len(),
            forall|j: int| 0 <= j < node.children@.len() ==> (#[trigger] node@.children[j]) == node.children@[j]@,
            branch_block == node@.kind.is_branch_block_kind(),
            node@.kind != PageNodeType::RawText,
            forall|j: int|
                0 <= j < i ==> crate::page_node::kind_accepts(node@.kind, (#[trigger] node@.children[j]).kind)
                    && node@.children[j].well_formed(),
        decreases node.children@.len() - i,
    {
        let k: PageNodeType = node.children[i].kind;
        let accepted: bool = if branch_block {
            k.is_block() && k != PageNodeType::Page
        } else {
            !k.is_block()
        };
        if !accepted {
            assert(!crate::page_node::kind_accepts(node@.kind, node@.children[i as int].kind));
            return false;
        }
        if !check_well_formed(&node.children[i]) {
            assert(!node@.children[i as int].well_formed());
            return false;
        }
        i += 1;
    }
    true
}

/// The node that has the hash.
pub fn get_node_from_hash<'a>(hash: &u32, page: &'a Page) -> (r: Option<&'a PageNode>)
    ensures
        r.is_some() == page.node_of(*hash).is_some(),
        r.is_some() ==> r.unwrap()@ == page.node_of(*hash).unwrap(),
{
    page.hash_to_node(hash)
}

/// The nearest leaf block after the node that has the hash, in document
/// order; none where the node is or stands in the last leaf block, or where
/// no node has the hash.
pub fn get_next_block_node<'a>(hash: &u32, page: &'a Page) -> (r: Option<&'a PageNode>)
    requires
        page.wf(),
    ensures
        r.is_some() == (page.index().contains_key(*hash) && next_leaf(
            page.nodes@,
            page.index()[*hash],
        ).is_some()),
        r.is_some() ==> r.unwrap()@ == next_leaf(page.nodes@, page.index()[*hash]).unwrap(),
{
    match page.locations.get(hash) {
        Some(loc) => {
            assert(page.index().contains_key(*hash));
            assert(loc@.skip(0) =~= loc@);
            next_leaf_below(&page.nodes, loc, 0)
        },
        None => None,
    }
}

/// The nearest leaf block before the node that has the hash, in document
/// order; none where the node is or stands in the first leaf block, or where
/// no node has the hash.
pub fn get_prev_block_node<'a>(hash: &u32, page: &'a Page) -> (r: Option<&'a PageNode>)
    requires
        page.wf(),
    ensures
        r.is_some() == (page.index().contains_key(*hash) && prev_leaf(
            page.nodes@,
            page.index()[*hash],
        ).is_some()),
        r.is_some() ==> r.unwrap()@ == prev_leaf(page.nodes@, page.index()[*hash]).unwrap(),
{
    match page.locations.get(hash) {
        Some(loc) => {
            assert(page.index().contains_key(*hash));
            assert(loc@.skip(0) =~= loc@);
            prev_leaf_below(&page.nodes, loc, 0)
        },
        None => None,
    }
}

} // verus!
