use block_editor::editable_page::{chars_of, demo_page_nodes, init_demo_page_data, CreateElem, ElemSpec, Tag};
use block_editor::init::init_page_nodes;
use block_editor::keypress::{process_keypress, Outcome};
use block_editor::node_kind::PageNodeType;
use block_editor::page::{EdgeElem, Page};
use block_editor::page_node::PageNode;
use block_editor::render_in_view::{
    get_nodes_in_view, record_height, rising_depth, update_dom_nodes_in_view, want, Edge, EdgeStep, ElemInPage,
    ElemIsInView, Rect, Want, ADD_DISTANCE, REMOVE_DISTANCE,
};
use block_editor::text_edit::Caret;

fn raw(hash: u32, text: &str) -> PageNode {
    PageNode::from(hash, PageNodeType::RawText, text.chars().collect(), Vec::new(), 0)
}

fn block(hash: u32, kind: PageNodeType, height: u32, children: Vec<PageNode>) -> PageNode {
    PageNode::from(hash, kind, Vec::new(), children, height)
}

fn para(hash: u32, height: u32) -> PageNode {
    block(hash, PageNodeType::TextBlock, height, vec![raw(hash + 1, "text")])
}

fn edge(hash: u32, pad: u32) -> EdgeElem {
    EdgeElem { hash, pad, scroll_offset: 0 }
}

/// Page[ TB 10 (h 10), Quote 20[ TB 30 (h 20), TB 40 (h 30) ], TB 50 (h 40), TB 60 (h 50) ]
fn sample() -> PageNode {
    block(
        1,
        PageNodeType::Page,
        0,
        vec![
            para(10, 10),
            block(20, PageNodeType::Quote, 0, vec![para(30, 20), para(40, 30)]),
            para(50, 40),
            para(60, 50),
        ],
    )
}

#[test]
fn margins() {
    assert_eq!(ADD_DISTANCE, 20);
    assert_eq!(REMOVE_DISTANCE, 50);
}

#[test]
fn a_new_page_has_spacers_for_what_is_not_rendered() {
    let page = Page::new(sample(), 40).expect("a sound page");
    assert_eq!(page.top_elem, edge(40, 30));
    assert_eq!(page.bot_elem, edge(40, 90));
    assert_eq!(get_nodes_in_view(&page), vec![40]);
    let first = Page::new(sample(), 10).expect("a sound page");
    assert_eq!(first.top_elem, edge(10, 0));
    assert_eq!(first.bot_elem, edge(10, 140));
}

#[test]
fn a_new_page_needs_a_leaf_block_at_the_top() {
    assert!(Page::new(sample(), 20).is_none());
    assert!(Page::new(sample(), 11).is_none());
    assert!(Page::new(sample(), 999).is_none());
    assert!(Page::new(para(10, 1), 10).is_none());
}

#[test]
fn a_new_page_needs_spacers_that_fit() {
    let big = block(1, PageNodeType::Page, 0, vec![para(10, 1), para(20, u32::MAX), para(30, 1)]);
    assert!(Page::new(big, 10).is_none());
    let fits = block(1, PageNodeType::Page, 0, vec![para(10, 1), para(20, u32::MAX), para(30, 1)]);
    let page = Page::new(fits, 20).expect("a sound page");
    assert_eq!(page.top_elem.pad, 1);
    assert_eq!(page.bot_elem.pad, 1);
}

#[test]
fn init_takes_the_saved_block_or_the_first() {
    let page = init_page_nodes(sample(), None).expect("a sound page");
    assert_eq!(page.top_elem, edge(10, 0));
    assert_eq!(page.bot_elem, edge(10, 140));
    let page = init_page_nodes(sample(), Some(50)).expect("a sound page");
    assert_eq!(page.top_elem, edge(50, 60));
    assert_eq!(page.bot_elem, edge(50, 50));
    assert!(init_page_nodes(sample(), Some(999)).is_none());
}

#[test]
fn what_the_place_of_an_edge_block_asks_for() {
    let view = Rect { top: 100, bottom: 300 };
    // top edge: add while the upper side is less than 20 above the view
    assert_eq!(want(Edge::Top, view, Rect { top: 81, bottom: 120 }), Want::Add);
    assert_eq!(want(Edge::Top, view, Rect { top: 150, bottom: 170 }), Want::Add);
    assert_eq!(want(Edge::Top, view, Rect { top: 80, bottom: 120 }), Want::Rest);
    assert_eq!(want(Edge::Top, view, Rect { top: 10, bottom: 50 }), Want::Rest);
    assert_eq!(want(Edge::Top, view, Rect { top: 10, bottom: 49 }), Want::Remove);
    // bottom edge: the same, mirrored
    assert_eq!(want(Edge::Bot, view, Rect { top: 280, bottom: 319 }), Want::Add);
    assert_eq!(want(Edge::Bot, view, Rect { top: 280, bottom: 320 }), Want::Rest);
    assert_eq!(want(Edge::Bot, view, Rect { top: 350, bottom: 400 }), Want::Rest);
    assert_eq!(want(Edge::Bot, view, Rect { top: 351, bottom: 400 }), Want::Remove);
}

#[test]
fn an_element_is_in_view_up_to_the_remove_margin() {
    let page = Rect { top: 100, bottom: 300 };
    assert!(ElemInPage { elem: Rect { top: 120, bottom: 140 }, page }.elem_is_in_view());
    assert!(ElemInPage { elem: Rect { top: 20, bottom: 50 }, page }.elem_is_in_view());
    assert!(!ElemInPage { elem: Rect { top: 20, bottom: 49 }, page }.elem_is_in_view());
    assert!(ElemInPage { elem: Rect { top: 350, bottom: 380 }, page }.elem_is_in_view());
    assert!(!ElemInPage { elem: Rect { top: 351, bottom: 380 }, page }.elem_is_in_view());
}

const ADD: (Rect, Rect) = (Rect { top: 0, bottom: 100 }, Rect { top: 0, bottom: 100 });
const REMOVE_TOP: (Rect, Rect) = (Rect { top: 100, bottom: 200 }, Rect { top: 0, bottom: 10 });
const REMOVE_BOT: (Rect, Rect) = (Rect { top: 0, bottom: 100 }, Rect { top: 200, bottom: 210 });
const REST: (Rect, Rect) = (Rect { top: 100, bottom: 200 }, Rect { top: 50, bottom: 250 });

#[test]
fn the_top_edge_moves_up_and_down() {
    let mut page = Page::new(sample(), 50).expect("a sound page");
    assert_eq!(page.top_elem, edge(50, 60));
    // up into the quote: the quote has no element yet and comes with its last child
    let step = update_dom_nodes_in_view(&mut page, Edge::Top, ADD.0, ADD.1);
    assert_eq!(step, EdgeStep::Attached { leaf: 40, depth: 1 });
    assert_eq!(page.top_elem, edge(40, 30));
    // the quote has an element now: its first child comes alone
    let step = update_dom_nodes_in_view(&mut page, Edge::Top, ADD.0, ADD.1);
    assert_eq!(step, EdgeStep::Attached { leaf: 30, depth: 2 });
    assert_eq!(page.top_elem, edge(30, 10));
    let step = update_dom_nodes_in_view(&mut page, Edge::Top, ADD.0, ADD.1);
    assert_eq!(step, EdgeStep::Attached { leaf: 10, depth: 1 });
    assert_eq!(page.top_elem, edge(10, 0));
    // nothing before the first block
    assert_eq!(update_dom_nodes_in_view(&mut page, Edge::Top, ADD.0, ADD.1), EdgeStep::Done);
    assert_eq!(get_nodes_in_view(&page), vec![10, 30, 40, 50]);
    assert_eq!(update_dom_nodes_in_view(&mut page, Edge::Top, REST.0, REST.1), EdgeStep::Done);
    // down again
    let step = update_dom_nodes_in_view(&mut page, Edge::Top, REMOVE_TOP.0, REMOVE_TOP.1);
    assert_eq!(step, EdgeStep::Detached { leaf: 10, depth: 1 });
    assert_eq!(page.top_elem, edge(30, 10));
    let step = update_dom_nodes_in_view(&mut page, Edge::Top, REMOVE_TOP.0, REMOVE_TOP.1);
    assert_eq!(step, EdgeStep::Detached { leaf: 30, depth: 2 });
    assert_eq!(page.top_elem, edge(40, 30));
    // the last child of the quote takes the quote with it
    let step = update_dom_nodes_in_view(&mut page, Edge::Top, REMOVE_TOP.0, REMOVE_TOP.1);
    assert_eq!(step, EdgeStep::Detached { leaf: 40, depth: 1 });
    assert_eq!(page.top_elem, edge(50, 60));
    // the top edge does not pass the bottom edge
    assert_eq!(update_dom_nodes_in_view(&mut page, Edge::Top, REMOVE_TOP.0, REMOVE_TOP.1), EdgeStep::Done);
    assert_eq!(page.top_elem, edge(50, 60));
    assert_eq!(page.bot_elem, edge(50, 50));
}

#[test]
fn the_bottom_edge_moves_down_and_up() {
    let mut page = Page::new(sample(), 10).expect("a sound page");
    assert_eq!(page.bot_elem, edge(10, 140));
    // down into the quote: the quote comes with its first child
    let step = update_dom_nodes_in_view(&mut page, Edge::Bot, ADD.0, ADD.1);
    assert_eq!(step, EdgeStep::Attached { leaf: 30, depth: 1 });
    assert_eq!(page.bot_elem, edge(30, 120));
    let step = update_dom_nodes_in_view(&mut page, Edge::Bot, ADD.0, ADD.1);
    assert_eq!(step, EdgeStep::Attached { leaf: 40, depth: 2 });
    assert_eq!(page.bot_elem, edge(40, 90));
    let step = update_dom_nodes_in_view(&mut page, Edge::Bot, ADD.0, ADD.1);
    assert_eq!(step, EdgeStep::Attached { leaf: 50, depth: 1 });
    let step = update_dom_nodes_in_view(&mut page, Edge::Bot, ADD.0, ADD.1);
    assert_eq!(step, EdgeStep::Attached { leaf: 60, depth: 1 });
    assert_eq!(page.bot_elem, edge(60, 0));
    assert_eq!(update_dom_nodes_in_view(&mut page, Edge::Bot, ADD.0, ADD.1), EdgeStep::Done);
    assert_eq!(get_nodes_in_view(&page), vec![10, 30, 40, 50, 60]);
    // up again
    let step = update_dom_nodes_in_view(&mut page, Edge::Bot, REMOVE_BOT.0, REMOVE_BOT.1);
    assert_eq!(step, EdgeStep::Detached { leaf: 60, depth: 1 });
    assert_eq!(page.bot_elem, edge(50, 50));
    let step = update_dom_nodes_in_view(&mut page, Edge::Bot, REMOVE_BOT.0, REMOVE_BOT.1);
    assert_eq!(step, EdgeStep::Detached { leaf: 50, depth: 1 });
    let step = update_dom_nodes_in_view(&mut page, Edge::Bot, REMOVE_BOT.0, REMOVE_BOT.1);
    assert_eq!(step, EdgeStep::Detached { leaf: 40, depth: 2 });
    // the first child of the quote takes the quote with it
    let step = update_dom_nodes_in_view(&mut page, Edge::Bot, REMOVE_BOT.0, REMOVE_BOT.1);
    assert_eq!(step, EdgeStep::Detached { leaf: 30, depth: 1 });
    assert_eq!(page.bot_elem, edge(10, 140));
    assert_eq!(update_dom_nodes_in_view(&mut page, Edge::Bot, REMOVE_BOT.0, REMOVE_BOT.1), EdgeStep::Done);
}

#[test]
fn a_spacer_does_not_grow_beyond_its_type() {
    let doc = block(1, PageNodeType::Page, 0, vec![para(10, u32::MAX), para(20, 5), para(30, 1)]);
    let mut page = Page::new(doc, 20).expect("a sound page");
    assert_eq!(page.top_elem, edge(20, u32::MAX));
    assert_eq!(update_dom_nodes_in_view(&mut page, Edge::Bot, ADD.0, ADD.1), EdgeStep::Attached { leaf: 30, depth: 1 });
    assert_eq!(update_dom_nodes_in_view(&mut page, Edge::Top, REMOVE_TOP.0, REMOVE_TOP.1), EdgeStep::Done);
    assert_eq!(page.top_elem, edge(20, u32::MAX));
}

#[test]
fn rising_depths() {
    let root = sample();
    assert_eq!(rising_depth(&root, &vec![1, 1], true), 1);
    assert_eq!(rising_depth(&root, &vec![1, 0], true), 2);
    assert_eq!(rising_depth(&root, &vec![1, 0], false), 1);
    assert_eq!(rising_depth(&root, &vec![1, 1], false), 2);
    assert_eq!(rising_depth(&root, &vec![3], true), 1);
    assert_eq!(rising_depth(&root, &vec![0], false), 1);
    assert_eq!(rising_depth(&root, &vec![], true), 0);
}

#[test]
fn heights_are_recorded_for_rendered_blocks() {
    let mut page = Page::new(sample(), 40).expect("a sound page");
    assert!(record_height(&mut page, 40, 35));
    assert_eq!(page.nodes.children[1].children[1].height, 35);
    assert_eq!(page.top_elem, edge(40, 30));
    assert_eq!(page.bot_elem, edge(40, 90));
    assert!(!record_height(&mut page, 30, 99));
    assert!(!record_height(&mut page, 41, 99));
    assert!(!record_height(&mut page, 999, 99));
    assert_eq!(page.nodes.children[1].children[0].height, 20);
    // the new height goes into the spacer when the block leaves the view
    assert_eq!(update_dom_nodes_in_view(&mut page, Edge::Bot, ADD.0, ADD.1), EdgeStep::Attached { leaf: 50, depth: 1 });
    assert_eq!(
        update_dom_nodes_in_view(&mut page, Edge::Top, REMOVE_TOP.0, REMOVE_TOP.1),
        EdgeStep::Detached { leaf: 40, depth: 1 }
    );
    assert_eq!(page.top_elem, edge(50, 65));
}

/// The rendered blocks one below the other, as a browser would lay them out:
/// the place of the block with index `i` in a view that shows the pixels
/// from `scroll` on.
fn place(page: &Page, heights: &Vec<u32>, i: usize, scroll: i32) -> Rect {
    let first = (page.top_elem.hash / 10 - 1) as usize;
    let mut y = page.top_elem.pad as i32;
    for k in first..i {
        y += heights[k] as i32;
    }
    Rect { top: y - scroll, bottom: y + heights[i] as i32 - scroll }
}

fn settle(page: &mut Page, heights: &Vec<u32>, scroll: i32, view_height: i32) {
    let view = Rect { top: 0, bottom: view_height };
    loop {
        let top_index = (page.top_elem.hash / 10 - 1) as usize;
        let top_rect = place(page, heights, top_index, scroll);
        let a = update_dom_nodes_in_view(page, Edge::Top, view, top_rect);
        let bot_index = (page.bot_elem.hash / 10 - 1) as usize;
        let bot_rect = place(page, heights, bot_index, scroll);
        let b = update_dom_nodes_in_view(page, Edge::Bot, view, bot_rect);
        let shown = get_nodes_in_view(page);
        let inside: u32 = shown.iter().map(|h| heights[(h / 10 - 1) as usize]).sum();
        let total: u32 = heights.iter().sum();
        assert_eq!(page.top_elem.pad + inside + page.bot_elem.pad, total);
        if a == EdgeStep::Done && b == EdgeStep::Done {
            break;
        }
    }
}

#[test]
fn scenario_scroll_down_and_back() {
    let heights: Vec<u32> = (0..100).map(|i| 20 + (i % 7) as u32).collect();
    let blocks: Vec<PageNode> = (0..100).map(|i| para(10 * (i as u32 + 1), heights[i])).collect();
    let mut page = Page::new(block(1, PageNodeType::Page, 0, blocks), 10).expect("a sound page");
    let view_height = 150;
    settle(&mut page, &heights, 0, view_height);
    assert_eq!(page.top_elem, edge(10, 0));
    let offset_of_50: i32 = heights[..50].iter().sum::<u32>() as i32;
    settle(&mut page, &heights, offset_of_50, view_height);
    let top_index = (page.top_elem.hash / 10 - 1) as usize;
    assert!(top_index > 40 && top_index <= 50);
    assert_eq!(page.top_elem.pad, heights[..top_index].iter().sum::<u32>());
    settle(&mut page, &heights, 0, view_height);
    assert_eq!(page.top_elem, edge(10, 0));
    let shown = get_nodes_in_view(&page);
    let k = shown.len();
    assert_eq!(shown, (0..k).map(|i| 10 * (i as u32 + 1)).collect::<Vec<_>>());
    assert_eq!(page.bot_elem.hash, 10 * k as u32);
    assert_eq!(page.bot_elem.pad, heights[k..].iter().sum::<u32>());
    // the bottom edge is at rest: its block reaches the add margin below the view, and
    // does not start beyond the remove margin
    let y: i32 = heights[..k - 1].iter().sum::<u32>() as i32;
    assert!(y + heights[k - 1] as i32 - view_height >= 20);
    assert!(y - view_height <= 50);
    // every rendered block has the element of its node
    for h in shown {
        let n = block_editor::page::get_node_from_hash(&h, &page).unwrap();
        let e = n.create_elem();
        assert_eq!(e.hash, h);
        assert_eq!(e.kind, "tb");
    }
}

#[test]
fn enter_in_the_bottom_block_moves_the_bottom_edge() {
    let mut page = Page::new(sample(), 40).expect("a sound page");
    let out = process_keypress(&mut page, Some(Caret { hash: 41, offset: 2 }), 13, None, false, &vec![70, 71]);
    assert_eq!(out, Outcome::Edited { caret: Caret { hash: 70, offset: 0 }, structural: true });
    assert_eq!(page.top_elem, edge(40, 30));
    assert_eq!(page.bot_elem, edge(71, 90));
    assert_eq!(get_nodes_in_view(&page), vec![40, 71]);
}

#[test]
fn enter_elsewhere_keeps_the_edges() {
    let mut page = Page::new(sample(), 40).expect("a sound page");
    let out = process_keypress(&mut page, Some(Caret { hash: 11, offset: 2 }), 13, None, false, &vec![70, 71]);
    assert_eq!(out, Outcome::Edited { caret: Caret { hash: 70, offset: 0 }, structural: true });
    assert_eq!(page.top_elem, edge(40, 30));
    assert_eq!(page.bot_elem, edge(40, 90));
}

#[test]
fn merging_the_top_block_renders_the_block_before_it() {
    let mut page = Page::new(sample(), 50).expect("a sound page");
    assert_eq!(page.top_elem, edge(50, 60));
    assert_eq!(page.bot_elem, edge(50, 50));
    let out = process_keypress(&mut page, Some(Caret { hash: 51, offset: 0 }), 8, None, false, &vec![]);
    assert_eq!(out, Outcome::Edited { caret: Caret { hash: 41, offset: 4 }, structural: true });
    assert_eq!(page.top_elem, edge(40, 30));
    assert_eq!(page.bot_elem, edge(40, 50));
    assert_eq!(get_nodes_in_view(&page), vec![40]);
}

#[test]
fn merging_blocks_outside_the_view_shrinks_a_spacer() {
    // the merged block stands before the top edge
    let mut page = Page::new(sample(), 60).expect("a sound page");
    assert_eq!(page.top_elem, edge(60, 100));
    let out = process_keypress(&mut page, Some(Caret { hash: 51, offset: 0 }), 8, None, false, &vec![]);
    assert_eq!(out, Outcome::Edited { caret: Caret { hash: 41, offset: 4 }, structural: true });
    assert_eq!(page.top_elem, edge(60, 60));
    assert_eq!(page.bot_elem, edge(60, 0));
    // the merged block stands behind the bottom edge
    let mut page = Page::new(sample(), 10).expect("a sound page");
    assert_eq!(page.bot_elem, edge(10, 140));
    let out = process_keypress(&mut page, Some(Caret { hash: 61, offset: 0 }), 8, None, false, &vec![]);
    assert_eq!(out, Outcome::Edited { caret: Caret { hash: 51, offset: 4 }, structural: true });
    assert_eq!(page.top_elem, edge(10, 0));
    assert_eq!(page.bot_elem, edge(10, 90));
}

#[test]
fn elements_of_nodes() {
    let page_node = block(1, PageNodeType::Page, 0, vec![para(10, 0)]);
    assert_eq!(
        page_node.create_elem(),
        ElemSpec { tag: Tag::Div, kind: "p", hash: 1, text: None, contenteditable: true }
    );
    let quote = block(7, PageNodeType::Quote, 0, vec![para(10, 0)]);
    assert_eq!(
        quote.create_elem(),
        ElemSpec { tag: Tag::Div, kind: "q", hash: 7, text: None, contenteditable: false }
    );
    let bold = block(8, PageNodeType::Bold, 0, vec![raw(9, "x")]);
    assert_eq!(
        bold.create_elem(),
        ElemSpec { tag: Tag::Span, kind: "b", hash: 8, text: None, contenteditable: false }
    );
    assert_eq!(
        raw(9, "<b>x</b>").create_elem(),
        ElemSpec {
            tag: Tag::Span,
            kind: "t",
            hash: 9,
            text: Some("<b>x</b>".chars().collect()),
            contenteditable: false
        }
    );
}

#[test]
fn the_sample_page() {
    assert_eq!(chars_of("héllo"), "héllo".chars().collect::<Vec<char>>());
    let nodes = demo_page_nodes();
    assert_eq!(nodes.kind, PageNodeType::Page);
    assert_eq!(nodes.children.len(), 15);
    assert_eq!(nodes.children[3].kind, PageNodeType::H1);
    assert_eq!(nodes.children[3].children[0].text.iter().collect::<String>(), "some text 1");
    assert_eq!(nodes.children[5].kind, PageNodeType::Quote);
    assert_eq!(nodes.children[5].children[1].children[0].text.iter().collect::<String>(), "some text");
    let draws: Vec<u32> = (1..=46).collect();
    let page = init_demo_page_data(&draws).expect("enough draws");
    assert_eq!(page.nodes.hash, 1);
    assert_eq!(page.top_elem.hash, page.nodes.children[3].hash);
    assert_eq!(page.bot_elem.hash, page.top_elem.hash);
    assert_eq!(page.locations.len(), 46);
    assert!(init_demo_page_data(&(1..=45).collect()).is_none());
}

#[test]
fn soundness_is_tested() {
    let page = Page::new(sample(), 40).expect("a sound page");
    assert!(page.is_sound());
    // a spacer of the wrong height
    let mut wrong = Page::new(sample(), 40).unwrap();
    wrong.top_elem.pad += 1;
    assert!(!wrong.is_sound());
    let mut wrong = Page::new(sample(), 40).unwrap();
    wrong.bot_elem.pad -= 1;
    assert!(!wrong.is_sound());
    // edges in the wrong order, or on no leaf block
    let mut wrong = Page::new(sample(), 40).unwrap();
    wrong.bot_elem = edge(30, 120);
    assert!(!wrong.is_sound());
    let mut wrong = Page::new(sample(), 40).unwrap();
    wrong.top_elem.hash = 20;
    assert!(!wrong.is_sound());
    // an index with a stale entry, a missing entry, a wrong location
    let mut wrong = Page::new(sample(), 40).unwrap();
    wrong.locations.insert(999, vec![0]);
    assert!(!wrong.is_sound());
    let mut wrong = Page::new(sample(), 40).unwrap();
    wrong.locations.remove(&31);
    assert!(!wrong.is_sound());
    let mut wrong = Page::new(sample(), 40).unwrap();
    wrong.locations.insert(31, vec![1, 0]);
    assert!(!wrong.is_sound());
    // a tree that breaks a rule, or has a hash twice
    let mut wrong = Page::new(sample(), 40).unwrap();
    wrong.nodes.children[0].children.clear();
    assert!(!wrong.is_sound());
    let mut wrong = Page::new(sample(), 40).unwrap();
    wrong.nodes.children[0].hash = 50;
    assert!(!wrong.is_sound());
    // edits and steps keep a page sound
    let mut page = Page::new(sample(), 50).unwrap();
    process_keypress(&mut page, Some(Caret { hash: 51, offset: 2 }), 13, None, false, &vec![70, 71]);
    assert!(page.is_sound());
    assert_eq!(page.bot_elem, edge(71, 50));
    update_dom_nodes_in_view(&mut page, Edge::Top, ADD.0, ADD.1);
    assert!(page.is_sound());
    update_dom_nodes_in_view(&mut page, Edge::Top, REMOVE_TOP.0, REMOVE_TOP.1);
    process_keypress(&mut page, Some(Caret { hash: 70, offset: 0 }), 8, None, false, &vec![]);
    assert!(page.is_sound());
    assert_eq!(page.nodes, sample());
    assert_eq!(page.top_elem, edge(50, 60));
    assert_eq!(page.bot_elem, edge(50, 50));
}
