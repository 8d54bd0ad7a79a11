use std::collections::HashMap;

use block_editor::add_hashes::{add_hashes, assign_hashes, node_count};
use block_editor::hash_index::update_hash_locations;
use block_editor::issue::{hash_octets, issue_hashes, rand_utf8_hash, IssueError, HASH_LIMIT, ISSUE_BUDGET};
use block_editor::node_kind::PageNodeType;
use block_editor::page::{ContainsHash, HashToLocation, HashToNode, InsertHash, Page, RemoveHash};
use block_editor::page_node::PageNode;

fn raw(hash: u32, text: &str) -> PageNode {
    PageNode::from(hash, PageNodeType::RawText, text.chars().collect(), Vec::new(), 0)
}

fn node(hash: u32, kind: PageNodeType, children: Vec<PageNode>) -> PageNode {
    PageNode::from(hash, kind, Vec::new(), children, 0)
}

fn sample() -> PageNode {
    node(
        1,
        PageNodeType::Page,
        vec![
            node(10, PageNodeType::H1, vec![raw(11, "a")]),
            node(20, PageNodeType::Quote, vec![node(30, PageNodeType::TextBlock, vec![raw(31, "b")])]),
        ],
    )
}

#[test]
fn index_entries() {
    let mut index: HashMap<u32, Vec<usize>> = HashMap::new();
    assert!(!index.contains_hash(&7));
    index.insert_hash(7, vec![0, 1]);
    assert!(index.contains_hash(&7));
    assert_eq!(index.hash_to_location(&7), Some(vec![0, 1]));
    index.insert_hash(7, vec![2]);
    assert_eq!(index.hash_to_location(&7), Some(vec![2]));
    assert_eq!(index.hash_to_location(&8), None);
    index.remove_hash(&7);
    assert!(!index.contains_hash(&7));
    index.remove_hash(&7);
    assert!(index.is_empty());
}

#[test]
fn rebuild_holds_every_node_at_its_location() {
    let root = sample();
    let mut index: HashMap<u32, Vec<usize>> = HashMap::new();
    index.insert(999, vec![4, 4]);
    assert!(update_hash_locations(&root, &mut index));
    let mut expected: HashMap<u32, Vec<usize>> = HashMap::new();
    expected.insert(1, vec![]);
    expected.insert(10, vec![0]);
    expected.insert(11, vec![0, 0]);
    expected.insert(20, vec![1]);
    expected.insert(30, vec![1, 0]);
    expected.insert(31, vec![1, 0, 0]);
    assert_eq!(index, expected);
}

#[test]
fn rebuild_refuses_a_hash_that_occurs_twice() {
    let root = node(
        1,
        PageNodeType::Page,
        vec![node(10, PageNodeType::H1, vec![raw(11, "a")]), node(12, PageNodeType::H1, vec![raw(11, "b")])],
    );
    let mut index: HashMap<u32, Vec<usize>> = HashMap::new();
    index.insert(5, vec![0]);
    assert!(!update_hash_locations(&root, &mut index));
    assert!(index.is_empty());
    assert!(Page::new(root, 10).is_none());
}

#[test]
fn page_lookups() {
    let page = Page::new(sample(), 10).expect("a sound document");
    assert_eq!(page.hash_to_location(&31), Some(vec![1, 0, 0]));
    assert_eq!(page.hash_to_location(&1), Some(vec![]));
    assert_eq!(page.hash_to_location(&99), None);
    assert_eq!(page.hash_to_node(&30).map(|n| n.kind), Some(PageNodeType::TextBlock));
    assert!(page.hash_to_node(&99).is_none());
}

#[test]
fn proposals_are_three_octets() {
    assert_eq!(HASH_LIMIT, 1 << 24);
    assert_eq!(rand_utf8_hash(0x1234_5678), 0x34_5678);
    assert_eq!(rand_utf8_hash(0xFFFF_FFFF), 0xFF_FFFF);
    assert_eq!(rand_utf8_hash(5), 5);
    assert_eq!(hash_octets(0x34_5678), [0x78, 0x56, 0x34]);
    assert_eq!(hash_octets(0), [0, 0, 0]);
    assert_eq!(hash_octets(0xFF_FFFF), [255, 255, 255]);
}

#[test]
fn issuing_skips_what_is_taken() {
    let mut index: HashMap<u32, Vec<usize>> = HashMap::new();
    index.insert(3, vec![]);
    index.insert(4, vec![0]);
    assert_eq!(issue_hashes(&index, &vec![3, 4, 5, 5, 0x0100_0003, 6], 2), Ok(vec![5, 6]));
    assert_eq!(issue_hashes(&index, &vec![3, 4], 0), Ok(vec![]));
    assert_eq!(issue_hashes(&index, &vec![3, 4, 5], 2), Err(IssueError::OutOfDraws));
    assert_eq!(issue_hashes(&index, &vec![], 1), Err(IssueError::OutOfDraws));
}

#[test]
fn issuing_gives_up_after_the_budget() {
    let mut index: HashMap<u32, Vec<usize>> = HashMap::new();
    index.insert(3, vec![]);
    assert_eq!(ISSUE_BUDGET, 1024);
    let mut draws = vec![3u32; 1024];
    draws.push(9);
    assert_eq!(issue_hashes(&index, &draws, 1), Err(IssueError::Collisions));
    let mut fewer = vec![3u32; 1023];
    fewer.push(9);
    assert_eq!(issue_hashes(&index, &fewer, 1), Ok(vec![9]));
    // the budget starts anew for every hash
    let mut twice = vec![3u32; 1023];
    twice.push(9);
    twice.extend(vec![3u32; 1023]);
    twice.push(10);
    assert_eq!(issue_hashes(&index, &twice, 2), Ok(vec![9, 10]));
}

#[test]
fn counting_and_assigning() {
    let mut root = sample();
    assert_eq!(node_count(&root), Some(6));
    let next = assign_hashes(&mut root, &vec![0, 100, 101, 102, 103, 104, 105, 106], 1);
    assert_eq!(next, 7);
    let expected = node(
        100,
        PageNodeType::Page,
        vec![
            node(101, PageNodeType::H1, vec![raw(102, "a")]),
            node(103, PageNodeType::Quote, vec![node(104, PageNodeType::TextBlock, vec![raw(105, "b")])]),
        ],
    );
    assert_eq!(root, expected);
}

#[test]
fn add_hashes_gives_fresh_hashes_in_document_order() {
    let mut root = sample();
    let mut index: HashMap<u32, Vec<usize>> = HashMap::new();
    index.insert(200, vec![9]);
    let draws = vec![200, 201, 201, 202, 203, 204, 205, 206];
    assert_eq!(add_hashes(&mut root, &mut index, &draws), Ok(()));
    let expected = node(
        201,
        PageNodeType::Page,
        vec![
            node(202, PageNodeType::H1, vec![raw(203, "a")]),
            node(204, PageNodeType::Quote, vec![node(205, PageNodeType::TextBlock, vec![raw(206, "b")])]),
        ],
    );
    assert_eq!(root, expected);
    assert_eq!(index.len(), 6);
    assert_eq!(index.get(&206), Some(&vec![1, 0, 0]));
    assert_eq!(index.get(&200), None);
}

#[test]
fn add_hashes_without_enough_draws_changes_nothing() {
    let mut root = sample();
    let mut index: HashMap<u32, Vec<usize>> = HashMap::new();
    index.insert(200, vec![9]);
    assert_eq!(add_hashes(&mut root, &mut index, &vec![201, 202, 203]), Err(IssueError::OutOfDraws));
    assert_eq!(root, sample());
    assert_eq!(index.len(), 1);
    assert_eq!(index.get(&200), Some(&vec![9]));
}
