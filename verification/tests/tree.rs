use block_editor::children::{
    ChangeBlockKind, InsertError, InsertNodes, IsBlock, IsFirstChild, IsLastChild, IsLeafBlock, NextChild,
    PrevChild, RemoveChild, RemoveThisBlockShell,
};
use block_editor::leaves::{get_bot_block_node, get_bot_hash, get_top_block_node, get_top_hash};
use block_editor::node_kind::PageNodeType;
use block_editor::page::{check_well_formed, get_next_block_node, get_node_from_hash, get_prev_block_node, Page};
use block_editor::page_node::{get_node_from_location, PageNode};

fn raw(hash: u32, text: &str) -> PageNode {
    PageNode::from(hash, PageNodeType::RawText, text.chars().collect(), Vec::new(), 0)
}

fn node(hash: u32, kind: PageNodeType, children: Vec<PageNode>) -> PageNode {
    PageNode::from(hash, kind, Vec::new(), children, 0)
}

fn para(hash: u32, text: &str) -> PageNode {
    node(hash, PageNodeType::TextBlock, vec![raw(hash + 1, text)])
}

/// Page[ H1 10, Quote 20[ TB 30, Indent 40[ TB 50, TB 60 ] ], TB 70 ]
fn sample() -> PageNode {
    node(
        1,
        PageNodeType::Page,
        vec![
            node(10, PageNodeType::H1, vec![raw(11, "a")]),
            node(
                20,
                PageNodeType::Quote,
                vec![para(30, "b"), node(40, PageNodeType::Indent, vec![para(50, "c"), para(60, "d")])],
            ),
            para(70, "e"),
        ],
    )
}

#[test]
fn blocks_and_leaf_blocks() {
    let root = sample();
    assert!(IsBlock::is_block(&root));
    assert!(!IsLeafBlock::is_leaf_block(&root));
    assert!(IsLeafBlock::is_leaf_block(&root.children[0]));
    assert!(!IsLeafBlock::is_leaf_block(&root.children[1]));
    assert!(!IsBlock::is_block(&root.children[0].children[0]));
    assert!(!IsLeafBlock::is_leaf_block(&root.children[0].children[0]));
    assert!(root.children[0].is_leaf_block());
    assert!(root.children[1].is_block());
}

#[test]
fn first_and_last_child() {
    let root = sample();
    assert!(root.is_first_child(&10));
    assert!(!root.is_first_child(&20));
    assert!(root.is_last_child(&70));
    assert!(!root.is_last_child(&20));
    assert!(!root.is_first_child(&999));
    let leaf = raw(5, "x");
    assert!(!leaf.is_first_child(&5));
    assert!(!leaf.is_last_child(&5));
}

#[test]
fn previous_and_next_child() {
    let root = sample();
    assert_eq!(root.prev_child(&10).map(|n| n.hash), None);
    assert_eq!(root.prev_child(&20).map(|n| n.hash), Some(10));
    assert_eq!(root.prev_child(&70).map(|n| n.hash), Some(20));
    assert_eq!(root.prev_child(&999).map(|n| n.hash), None);
    assert_eq!(root.next_child(&10).map(|n| n.hash), Some(20));
    assert_eq!(root.next_child(&70).map(|n| n.hash), None);
    assert_eq!(root.next_child(&999).map(|n| n.hash), None);
}

#[test]
fn remove_child_hands_the_child_back() {
    let mut root = sample();
    let gone = root.remove_child(&20).expect("the quote");
    assert_eq!(gone.hash, 20);
    assert_eq!(gone.children.len(), 2);
    assert_eq!(root.children.iter().map(|n| n.hash).collect::<Vec<_>>(), vec![10, 70]);
    assert!(root.remove_child(&20).is_none());
    assert_eq!(root.children.len(), 2);
}

#[test]
fn change_block_kind_changes_the_kind_alone() {
    let mut block = node(10, PageNodeType::H1, vec![raw(11, "a")]);
    block.change_block_kind(PageNodeType::Dot);
    assert_eq!(block, node(10, PageNodeType::Dot, vec![raw(11, "a")]));
}

#[test]
fn insert_nodes_before_and_at_the_end() {
    let mut root = sample();
    assert_eq!(root.insert_nodes(vec![para(80, "x"), para(82, "y")], Some(20)), Ok(()));
    assert_eq!(root.children.iter().map(|n| n.hash).collect::<Vec<_>>(), vec![10, 80, 82, 20, 70]);
    assert_eq!(root.insert_nodes(vec![para(90, "z")], None), Ok(()));
    assert_eq!(root.children.iter().map(|n| n.hash).collect::<Vec<_>>(), vec![10, 80, 82, 20, 70, 90]);
}

#[test]
fn insert_nodes_refuses_a_mix_of_blocks_and_spans() {
    let mut root = sample();
    assert_eq!(root.insert_nodes(vec![para(80, "x"), raw(85, "no")], None), Err(InsertError::KindMismatch));
    assert_eq!(root, sample());
    let mut block = node(10, PageNodeType::H1, vec![raw(11, "a")]);
    assert_eq!(block.insert_nodes(vec![para(80, "x")], None), Err(InsertError::KindMismatch));
    assert_eq!(block.insert_nodes(vec![raw(12, "b")], Some(11)), Ok(()));
    assert_eq!(block.children.iter().map(|n| n.hash).collect::<Vec<_>>(), vec![12, 11]);
    let mut text = raw(5, "t");
    assert_eq!(text.insert_nodes(vec![raw(6, "u")], None), Err(InsertError::KindMismatch));
    let page_inside = node(2, PageNodeType::Page, vec![para(3, "p")]);
    assert_eq!(root.insert_nodes(vec![page_inside], None), Err(InsertError::KindMismatch));
}

#[test]
fn insert_nodes_refuses_a_place_that_is_no_child() {
    let mut root = sample();
    assert_eq!(root.insert_nodes(vec![para(80, "x")], Some(999)), Err(InsertError::NotAChild));
    assert_eq!(root, sample());
}

#[test]
fn remove_this_block_shell_keeps_the_children() {
    let mut root = sample();
    let shell = root.remove_this_block_shell(20).expect("the quote");
    assert_eq!(shell.hash, 20);
    assert_eq!(shell.kind, PageNodeType::Quote);
    assert!(shell.children.is_empty());
    assert_eq!(root.children.iter().map(|n| n.hash).collect::<Vec<_>>(), vec![10, 30, 40, 70]);
    assert_eq!(root.remove_this_block_shell(999), Err(InsertError::NotAChild));
    // the spans of a leaf block cannot stand among blocks
    assert_eq!(root.remove_this_block_shell(10), Err(InsertError::KindMismatch));
    assert_eq!(root.children.len(), 4);
}

#[test]
fn node_from_location() {
    let root = sample();
    assert_eq!(get_node_from_location(&vec![], &root).map(|n| n.hash), Some(1));
    assert_eq!(get_node_from_location(&vec![1, 1, 0], &root).map(|n| n.hash), Some(50));
    assert_eq!(get_node_from_location(&vec![1, 1, 0, 0], &root).map(|n| n.hash), Some(51));
    assert_eq!(get_node_from_location(&vec![3], &root).map(|n| n.hash), None);
    assert_eq!(get_node_from_location(&vec![0, 0, 0], &root).map(|n| n.hash), None);
}

#[test]
fn top_and_bottom_leaf_block() {
    let root = sample();
    assert_eq!(get_top_block_node(&root).hash, 10);
    assert_eq!(get_bot_block_node(&root).hash, 70);
    assert_eq!(get_top_hash(&root.children[1]), 30);
    assert_eq!(get_bot_hash(&root.children[1]), 60);
    assert_eq!(get_top_hash(&root.children[0]), 10);
}

#[test]
fn walk_forward_and_back_meets_every_leaf_block_once() {
    let page = Page::new(sample(), 10).expect("a sound document");
    let order = vec![10u32, 30, 50, 60, 70];
    let mut seen = vec![get_top_hash(&page.nodes)];
    while let Some(n) = get_next_block_node(seen.last().unwrap(), &page) {
        seen.push(n.hash);
    }
    assert_eq!(seen, order);
    let mut back = vec![get_bot_hash(&page.nodes)];
    while let Some(n) = get_prev_block_node(back.last().unwrap(), &page) {
        back.push(n.hash);
    }
    back.reverse();
    assert_eq!(back, order);
}

#[test]
fn next_and_previous_from_branches_and_spans() {
    let page = Page::new(sample(), 10).expect("a sound document");
    // from a branch block: the leaf blocks around it
    assert_eq!(get_next_block_node(&20, &page).map(|n| n.hash), Some(70));
    assert_eq!(get_prev_block_node(&20, &page).map(|n| n.hash), Some(10));
    assert_eq!(get_next_block_node(&40, &page).map(|n| n.hash), Some(70));
    assert_eq!(get_prev_block_node(&40, &page).map(|n| n.hash), Some(30));
    // from a span: the leaf blocks around its leaf block
    assert_eq!(get_next_block_node(&51, &page).map(|n| n.hash), Some(60));
    assert_eq!(get_prev_block_node(&51, &page).map(|n| n.hash), Some(30));
    // from the page, and from a hash that no node has
    assert_eq!(get_next_block_node(&1, &page).map(|n| n.hash), None);
    assert_eq!(get_prev_block_node(&1, &page).map(|n| n.hash), None);
    assert_eq!(get_next_block_node(&999, &page).map(|n| n.hash), None);
    assert_eq!(get_prev_block_node(&999, &page).map(|n| n.hash), None);
}

#[test]
fn node_from_hash() {
    let page = Page::new(sample(), 10).expect("a sound document");
    assert_eq!(get_node_from_hash(&60, &page).map(|n| n.kind), Some(PageNodeType::TextBlock));
    assert_eq!(get_node_from_hash(&61, &page).map(|n| n.text.iter().collect::<String>()), Some("d".to_string()));
    assert!(get_node_from_hash(&999, &page).is_none());
}

#[test]
fn structural_rules_are_checked() {
    assert!(check_well_formed(&sample()));
    // a leaf block without a span
    assert!(!check_well_formed(&node(1, PageNodeType::Page, vec![node(2, PageNodeType::H1, vec![])])));
    // a page without a block
    assert!(!check_well_formed(&node(1, PageNodeType::Page, vec![])));
    // blocks and spans under one parent
    assert!(!check_well_formed(&node(1, PageNodeType::Page, vec![para(2, "a"), raw(4, "b")])));
    // a block inside a leaf block
    assert!(!check_well_formed(&node(1, PageNodeType::Page, vec![node(2, PageNodeType::H1, vec![para(3, "a")])])));
    // a branch span without a child, and a text with one
    assert!(!check_well_formed(&node(2, PageNodeType::H1, vec![node(3, PageNodeType::Bold, vec![])])));
    assert!(!check_well_formed(&PageNode::from(
        3,
        PageNodeType::RawText,
        Vec::new(),
        vec![raw(4, "x")],
        0
    )));
    // a page below the root
    assert!(!check_well_formed(&node(
        1,
        PageNodeType::Page,
        vec![node(2, PageNodeType::Page, vec![para(3, "a")])]
    )));
}

#[test]
fn copy_is_a_copy() {
    let root = sample();
    assert_eq!(root.copy(), root);
}
