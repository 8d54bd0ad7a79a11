use block_editor::issue::IssueError;
use block_editor::keypress::{process_keypress, Outcome};
use block_editor::node_kind::PageNodeType;
use block_editor::page::Page;
use block_editor::page_node::PageNode;
use block_editor::text_edit::Caret;

fn raw(hash: u32, text: &str) -> PageNode {
    PageNode::from(hash, PageNodeType::RawText, text.chars().collect(), Vec::new(), 0)
}

fn node(hash: u32, kind: PageNodeType, children: Vec<PageNode>) -> PageNode {
    PageNode::from(hash, kind, Vec::new(), children, 0)
}

fn page_of(children: Vec<PageNode>, top: u32) -> Page {
    Page::new(node(1, PageNodeType::Page, children), top).expect("a sound document")
}

fn text_of(n: &PageNode) -> String {
    n.text.iter().collect()
}

fn caret(hash: u32, offset: usize) -> Option<Caret> {
    Some(Caret { hash, offset })
}

#[test]
fn scenario_heading_trigger() {
    let mut page = page_of(vec![node(10, PageNodeType::TextBlock, vec![raw(11, "#")])], 10);
    let out = process_keypress(&mut page, caret(11, 1), 32, Some(' '), false, &vec![]);
    assert_eq!(out, Outcome::Edited { caret: Caret { hash: 11, offset: 0 }, structural: false });
    assert_eq!(page.nodes.children.len(), 1);
    assert_eq!(page.nodes.children[0].kind, PageNodeType::H1);
    assert_eq!(page.nodes.children[0].hash, 10);
    assert_eq!(text_of(&page.nodes.children[0].children[0]), "");
}

#[test]
fn dash_trigger_makes_a_bullet() {
    let mut page = page_of(vec![node(10, PageNodeType::TextBlock, vec![raw(11, "-rest")])], 10);
    let out = process_keypress(&mut page, caret(11, 1), 32, Some(' '), false, &vec![]);
    assert_eq!(out, Outcome::Edited { caret: Caret { hash: 11, offset: 0 }, structural: false });
    assert_eq!(page.nodes.children[0].kind, PageNodeType::Dot);
    assert_eq!(text_of(&page.nodes.children[0].children[0]), "rest");
}

#[test]
fn quote_trigger_wraps_the_paragraph() {
    let mut page = page_of(vec![node(10, PageNodeType::TextBlock, vec![raw(11, ">")])], 10);
    let out = process_keypress(&mut page, caret(11, 1), 32, Some(' '), false, &vec![0x0100_0030]);
    assert_eq!(out, Outcome::Edited { caret: Caret { hash: 11, offset: 0 }, structural: true });
    let expected = node(
        1,
        PageNodeType::Page,
        vec![node(0x30, PageNodeType::Quote, vec![node(10, PageNodeType::TextBlock, vec![raw(11, "")])])],
    );
    assert_eq!(page.nodes, expected);
    assert_eq!(page.locations.get(&11), Some(&vec![0, 0, 0]));
    assert_eq!(page.locations.get(&0x30), Some(&vec![0]));
}

#[test]
fn quote_trigger_without_draws_changes_nothing() {
    let mut page = page_of(vec![node(10, PageNodeType::TextBlock, vec![raw(11, ">")])], 10);
    let out = process_keypress(&mut page, caret(11, 1), 32, Some(' '), false, &vec![]);
    assert_eq!(out, Outcome::OutOfHashes(IssueError::OutOfDraws));
    assert_eq!(text_of(&page.nodes.children[0].children[0]), ">");
}

#[test]
fn space_elsewhere_is_a_character() {
    let mut page = page_of(vec![node(10, PageNodeType::H1, vec![raw(11, "#")])], 10);
    let out = process_keypress(&mut page, caret(11, 1), 32, Some(' '), false, &vec![]);
    assert_eq!(out, Outcome::Edited { caret: Caret { hash: 11, offset: 2 }, structural: false });
    assert_eq!(page.nodes.children[0].kind, PageNodeType::H1);
    assert_eq!(text_of(&page.nodes.children[0].children[0]), "# ");
}

#[test]
fn scenario_enter_mid_word() {
    let mut page = page_of(vec![node(10, PageNodeType::H1, vec![raw(11, "hello world")])], 10);
    let out = process_keypress(&mut page, caret(11, 9), 13, None, false, &vec![20, 21]);
    assert_eq!(out, Outcome::Edited { caret: Caret { hash: 20, offset: 0 }, structural: true });
    let expected = node(
        1,
        PageNodeType::Page,
        vec![
            node(10, PageNodeType::H1, vec![raw(11, "hello wor")]),
            node(21, PageNodeType::H1, vec![raw(20, "ld")]),
        ],
    );
    assert_eq!(page.nodes, expected);
    assert_eq!(page.locations.get(&20), Some(&vec![1, 0]));
    assert_eq!(page.locations.get(&21), Some(&vec![1]));
    assert_eq!(page.locations.len(), 5);
}

#[test]
fn enter_moves_trailing_spans_into_the_new_block() {
    let bold = node(12, PageNodeType::Bold, vec![raw(13, "ab"), raw(14, "cd")]);
    let mut page =
        page_of(vec![node(10, PageNodeType::TextBlock, vec![raw(11, "x"), bold, raw(15, "y")])], 10);
    let out = process_keypress(&mut page, caret(13, 1), 13, None, false, &vec![30, 31, 32]);
    assert_eq!(out, Outcome::Edited { caret: Caret { hash: 30, offset: 0 }, structural: true });
    let expected = node(
        1,
        PageNodeType::Page,
        vec![
            node(
                10,
                PageNodeType::TextBlock,
                vec![raw(11, "x"), node(12, PageNodeType::Bold, vec![raw(13, "a")])],
            ),
            node(
                32,
                PageNodeType::TextBlock,
                vec![node(31, PageNodeType::Bold, vec![raw(30, "b"), raw(14, "cd")]), raw(15, "y")],
            ),
        ],
    );
    assert_eq!(page.nodes, expected);
}

#[test]
fn enter_skips_draws_that_collide() {
    let mut page = page_of(vec![node(10, PageNodeType::H1, vec![raw(11, "ab")])], 10);
    // 10 and 11 are taken; 40 is issued first, then 40 collides with itself
    let out = process_keypress(&mut page, caret(11, 1), 13, None, false, &vec![10, 11, 40, 40, 41]);
    assert_eq!(out, Outcome::Edited { caret: Caret { hash: 40, offset: 0 }, structural: true });
    assert_eq!(page.nodes.children[1].hash, 41);
    assert_eq!(page.nodes.children[1].children[0].hash, 40);
}

#[test]
fn enter_without_enough_draws_changes_nothing() {
    let mut page = page_of(vec![node(10, PageNodeType::H1, vec![raw(11, "ab")])], 10);
    let out = process_keypress(&mut page, caret(11, 1), 13, None, false, &vec![20]);
    assert_eq!(out, Outcome::OutOfHashes(IssueError::OutOfDraws));
    assert_eq!(page.nodes, node(1, PageNodeType::Page, vec![node(10, PageNodeType::H1, vec![raw(11, "ab")])]));
}

#[test]
fn enter_gives_up_after_the_budget_of_collisions() {
    let mut page = page_of(vec![node(10, PageNodeType::H1, vec![raw(11, "ab")])], 10);
    let mut draws = vec![10u32; 1024];
    draws.push(50);
    draws.push(51);
    let out = process_keypress(&mut page, caret(11, 1), 13, None, false, &draws);
    assert_eq!(out, Outcome::OutOfHashes(IssueError::Collisions));
    let draws2 = {
        let mut d = vec![10u32; 1023];
        d.push(50);
        d.push(51);
        d
    };
    let out = process_keypress(&mut page, caret(11, 1), 13, None, false, &draws2);
    assert_eq!(out, Outcome::Edited { caret: Caret { hash: 50, offset: 0 }, structural: true });
}

#[test]
fn enter_in_empty_text_gives_two_empty_blocks() {
    let mut page = page_of(vec![node(10, PageNodeType::Dot, vec![raw(11, "")])], 10);
    let out = process_keypress(&mut page, caret(11, 0), 13, None, false, &vec![20, 21]);
    assert_eq!(out, Outcome::Edited { caret: Caret { hash: 20, offset: 0 }, structural: true });
    let expected = node(
        1,
        PageNodeType::Page,
        vec![node(10, PageNodeType::Dot, vec![raw(11, "")]), node(21, PageNodeType::Dot, vec![raw(20, "")])],
    );
    assert_eq!(page.nodes, expected);
}

#[test]
fn scenario_backspace_merges_paragraphs() {
    let mut page = page_of(
        vec![
            node(10, PageNodeType::TextBlock, vec![raw(11, "abc")]),
            node(12, PageNodeType::TextBlock, vec![raw(13, "def")]),
        ],
        10,
    );
    let out = process_keypress(&mut page, caret(13, 0), 8, None, false, &vec![]);
    assert_eq!(out, Outcome::Edited { caret: Caret { hash: 11, offset: 3 }, structural: true });
    let expected =
        node(1, PageNodeType::Page, vec![node(10, PageNodeType::TextBlock, vec![raw(11, "abcdef")])]);
    assert_eq!(page.nodes, expected);
    assert_eq!(page.locations.len(), 3);
    assert_eq!(page.locations.get(&13), None);
}

#[test]
fn backspace_merges_into_the_last_leaf_of_a_quote() {
    let quote = node(
        20,
        PageNodeType::Quote,
        vec![
            node(21, PageNodeType::TextBlock, vec![raw(22, "one")]),
            node(23, PageNodeType::H1, vec![raw(24, "two")]),
        ],
    );
    let mut page = page_of(vec![quote, node(12, PageNodeType::TextBlock, vec![raw(13, "three")])], 21);
    let out = process_keypress(&mut page, caret(13, 0), 8, None, false, &vec![]);
    assert_eq!(out, Outcome::Edited { caret: Caret { hash: 24, offset: 3 }, structural: true });
    let expected = node(
        1,
        PageNodeType::Page,
        vec![node(
            20,
            PageNodeType::Quote,
            vec![
                node(21, PageNodeType::TextBlock, vec![raw(22, "one")]),
                node(23, PageNodeType::H1, vec![raw(24, "twothree")]),
            ],
        )],
    );
    assert_eq!(page.nodes, expected);
}

#[test]
fn backspace_merge_unifies_spans_of_one_kind() {
    let first = node(
        10,
        PageNodeType::TextBlock,
        vec![raw(11, "a"), node(12, PageNodeType::Bold, vec![raw(13, "b"), node(14, PageNodeType::Italic, vec![raw(15, "c")])])],
    );
    let second = node(
        20,
        PageNodeType::TextBlock,
        vec![node(21, PageNodeType::Bold, vec![node(22, PageNodeType::Italic, vec![raw(23, "d")]), raw(24, "e")]), raw(25, "f")],
    );
    let mut page = page_of(vec![first, second], 10);
    let out = process_keypress(&mut page, caret(23, 0), 8, None, false, &vec![]);
    assert_eq!(out, Outcome::Edited { caret: Caret { hash: 15, offset: 1 }, structural: true });
    let expected = node(
        1,
        PageNodeType::Page,
        vec![node(
            10,
            PageNodeType::TextBlock,
            vec![
                raw(11, "a"),
                node(
                    12,
                    PageNodeType::Bold,
                    vec![raw(13, "b"), node(14, PageNodeType::Italic, vec![raw(15, "cd")]), raw(24, "e")],
                ),
                raw(25, "f"),
            ],
        )],
    );
    assert_eq!(page.nodes, expected);
}

#[test]
fn backspace_merge_appends_where_kinds_differ() {
    let first = node(10, PageNodeType::TextBlock, vec![node(12, PageNodeType::Bold, vec![raw(13, "b")])]);
    let second = node(20, PageNodeType::TextBlock, vec![raw(23, "d"), raw(24, "e")]);
    let mut page = page_of(vec![first, second], 10);
    let out = process_keypress(&mut page, caret(23, 0), 8, None, false, &vec![]);
    assert_eq!(out, Outcome::Edited { caret: Caret { hash: 23, offset: 0 }, structural: true });
    let expected = node(
        1,
        PageNodeType::Page,
        vec![node(
            10,
            PageNodeType::TextBlock,
            vec![node(12, PageNodeType::Bold, vec![raw(13, "b")]), raw(23, "d"), raw(24, "e")],
        )],
    );
    assert_eq!(page.nodes, expected);
}

#[test]
fn backspace_after_a_table_changes_nothing() {
    let mut page = page_of(
        vec![
            node(10, PageNodeType::Table, vec![raw(11, "abc")]),
            node(12, PageNodeType::TextBlock, vec![raw(13, "def")]),
        ],
        10,
    );
    let out = process_keypress(&mut page, caret(13, 0), 8, None, false, &vec![]);
    assert_eq!(out, Outcome::Unchanged);
    assert_eq!(page.nodes.children.len(), 2);
}

#[test]
fn scenario_backspace_removes_quote_shell() {
    let mut page = page_of(
        vec![node(20, PageNodeType::Quote, vec![node(10, PageNodeType::TextBlock, vec![raw(11, "hi")])])],
        10,
    );
    let out = process_keypress(&mut page, caret(11, 0), 8, None, false, &vec![]);
    assert_eq!(out, Outcome::Edited { caret: Caret { hash: 11, offset: 0 }, structural: true });
    let expected = node(1, PageNodeType::Page, vec![node(10, PageNodeType::TextBlock, vec![raw(11, "hi")])]);
    assert_eq!(page.nodes, expected);
    assert_eq!(page.locations.get(&11), Some(&vec![0, 0]));
    assert_eq!(page.locations.get(&20), None);
}

#[test]
fn backspace_keeps_the_other_children_of_the_shell() {
    let quote = node(
        20,
        PageNodeType::Quote,
        vec![
            node(10, PageNodeType::TextBlock, vec![raw(11, "a")]),
            node(12, PageNodeType::TextBlock, vec![raw(13, "b")]),
        ],
    );
    let mut page =
        page_of(vec![node(30, PageNodeType::H1, vec![raw(31, "t")]), quote, node(40, PageNodeType::H1, vec![raw(41, "u")])], 30);
    let out = process_keypress(&mut page, caret(11, 0), 8, None, false, &vec![]);
    assert_eq!(out, Outcome::Edited { caret: Caret { hash: 11, offset: 0 }, structural: true });
    let expected = node(
        1,
        PageNodeType::Page,
        vec![
            node(30, PageNodeType::H1, vec![raw(31, "t")]),
            node(10, PageNodeType::TextBlock, vec![raw(11, "a")]),
            node(12, PageNodeType::TextBlock, vec![raw(13, "b")]),
            node(40, PageNodeType::H1, vec![raw(41, "u")]),
        ],
    );
    assert_eq!(page.nodes, expected);
}

#[test]
fn backspace_lets_a_later_paragraph_leave_its_quote() {
    let quote = node(
        20,
        PageNodeType::Quote,
        vec![
            node(10, PageNodeType::TextBlock, vec![raw(11, "a")]),
            node(12, PageNodeType::TextBlock, vec![raw(13, "b")]),
            node(14, PageNodeType::TextBlock, vec![raw(15, "c")]),
        ],
    );
    let mut page = page_of(vec![quote], 10);
    let out = process_keypress(&mut page, caret(13, 0), 8, None, false, &vec![50]);
    assert_eq!(out, Outcome::Edited { caret: Caret { hash: 13, offset: 0 }, structural: true });
    let expected = node(
        1,
        PageNodeType::Page,
        vec![
            node(20, PageNodeType::Quote, vec![node(10, PageNodeType::TextBlock, vec![raw(11, "a")])]),
            node(12, PageNodeType::TextBlock, vec![raw(13, "b")]),
            node(50, PageNodeType::Quote, vec![node(14, PageNodeType::TextBlock, vec![raw(15, "c")])]),
        ],
    );
    assert_eq!(page.nodes, expected);
}

#[test]
fn backspace_lets_the_last_paragraph_leave_without_a_new_block() {
    let quote = node(
        20,
        PageNodeType::Indent,
        vec![
            node(10, PageNodeType::TextBlock, vec![raw(11, "a")]),
            node(12, PageNodeType::TextBlock, vec![raw(13, "b")]),
        ],
    );
    let mut page = page_of(vec![quote], 10);
    let out = process_keypress(&mut page, caret(13, 0), 8, None, false, &vec![]);
    assert_eq!(out, Outcome::Edited { caret: Caret { hash: 13, offset: 0 }, structural: true });
    let expected = node(
        1,
        PageNodeType::Page,
        vec![
            node(20, PageNodeType::Indent, vec![node(10, PageNodeType::TextBlock, vec![raw(11, "a")])]),
            node(12, PageNodeType::TextBlock, vec![raw(13, "b")]),
        ],
    );
    assert_eq!(page.nodes, expected);
}

#[test]
fn scenario_backspace_demotes_heading() {
    let mut page = page_of(vec![node(10, PageNodeType::H1, vec![raw(11, "title")])], 10);
    let out = process_keypress(&mut page, caret(11, 0), 8, None, false, &vec![]);
    assert_eq!(out, Outcome::Edited { caret: Caret { hash: 11, offset: 0 }, structural: false });
    let expected = node(1, PageNodeType::Page, vec![node(10, PageNodeType::TextBlock, vec![raw(11, "title")])]);
    assert_eq!(page.nodes, expected);
}

#[test]
fn backspace_at_the_start_of_the_first_paragraph_changes_nothing() {
    let mut page = page_of(
        vec![
            node(10, PageNodeType::TextBlock, vec![raw(11, "abc")]),
            node(12, PageNodeType::TextBlock, vec![raw(13, "def")]),
        ],
        10,
    );
    let out = process_keypress(&mut page, caret(11, 0), 8, None, false, &vec![]);
    assert_eq!(out, Outcome::Unchanged);
    assert_eq!(page.nodes.children.len(), 2);
    assert_eq!(text_of(&page.nodes.children[0].children[0]), "abc");
}

#[test]
fn backspace_inside_a_line_at_offset_zero_changes_nothing() {
    let mut page = page_of(vec![node(10, PageNodeType::TextBlock, vec![raw(11, "abc"), raw(12, "def")])], 10);
    let out = process_keypress(&mut page, caret(12, 0), 8, None, false, &vec![]);
    assert_eq!(out, Outcome::Unchanged);
}

#[test]
fn typing_and_erasing() {
    let mut page = page_of(vec![node(10, PageNodeType::TextBlock, vec![raw(11, "abc")])], 10);
    let out = process_keypress(&mut page, caret(11, 1), 88, Some('X'), false, &vec![]);
    assert_eq!(out, Outcome::Edited { caret: Caret { hash: 11, offset: 2 }, structural: false });
    assert_eq!(text_of(&page.nodes.children[0].children[0]), "aXbc");
    let out = process_keypress(&mut page, caret(11, 2), 8, None, false, &vec![]);
    assert_eq!(out, Outcome::Edited { caret: Caret { hash: 11, offset: 1 }, structural: false });
    assert_eq!(text_of(&page.nodes.children[0].children[0]), "abc");
}

#[test]
fn split_then_backspace_restores_the_document() {
    let build = || {
        let bold = node(12, PageNodeType::Bold, vec![raw(13, "ab"), raw(14, "cd")]);
        node(
            1,
            PageNodeType::Page,
            vec![node(10, PageNodeType::TextBlock, vec![raw(11, "x"), bold, raw(15, "y")])],
        )
    };
    let mut page = Page::new(build(), 10).unwrap();
    let out = process_keypress(&mut page, caret(13, 1), 13, None, false, &vec![30, 31, 32]);
    assert_eq!(out, Outcome::Edited { caret: Caret { hash: 30, offset: 0 }, structural: true });
    let out = process_keypress(&mut page, caret(30, 0), 8, None, false, &vec![]);
    assert_eq!(out, Outcome::Edited { caret: Caret { hash: 13, offset: 1 }, structural: true });
    assert_eq!(page.nodes, build());
    assert_eq!(page.locations.len(), 7);
    assert_eq!(page.locations.get(&14), Some(&vec![0, 1, 1]));
}

#[test]
fn trigger_then_backspace_gives_a_paragraph_again() {
    let mut page = page_of(vec![node(10, PageNodeType::TextBlock, vec![raw(11, "#title")])], 10);
    let out = process_keypress(&mut page, caret(11, 1), 32, Some(' '), false, &vec![]);
    assert_eq!(out, Outcome::Edited { caret: Caret { hash: 11, offset: 0 }, structural: false });
    assert_eq!(page.nodes.children[0].kind, PageNodeType::H1);
    let out = process_keypress(&mut page, caret(11, 0), 8, None, false, &vec![]);
    assert_eq!(out, Outcome::Edited { caret: Caret { hash: 11, offset: 0 }, structural: false });
    assert_eq!(page.nodes.children[0].kind, PageNodeType::TextBlock);
    assert_eq!(text_of(&page.nodes.children[0].children[0]), "title");
}

#[test]
fn keys_that_change_nothing() {
    let mut page = page_of(vec![node(10, PageNodeType::TextBlock, vec![raw(11, "abc")])], 10);
    assert_eq!(process_keypress(&mut page, caret(11, 1), 16, None, false, &vec![]), Outcome::Unchanged);
    assert_eq!(process_keypress(&mut page, caret(11, 1), 9, None, false, &vec![]), Outcome::Unchanged);
    assert_eq!(process_keypress(&mut page, caret(11, 1), 93, None, false, &vec![]), Outcome::Unchanged);
    assert_eq!(process_keypress(&mut page, caret(11, 1), 65, Some('a'), true, &vec![]), Outcome::Ignored);
    assert_eq!(process_keypress(&mut page, caret(11, 1), 8, None, true, &vec![]), Outcome::Ignored);
    assert_eq!(process_keypress(&mut page, caret(11, 1), 27, None, false, &vec![]), Outcome::Unchanged);
    assert_eq!(
        process_keypress(&mut page, caret(11, 1), 38, None, false, &vec![]),
        Outcome::Move { forward: false, by_line: true }
    );
    assert_eq!(
        process_keypress(&mut page, caret(11, 1), 40, None, false, &vec![]),
        Outcome::Move { forward: true, by_line: true }
    );
    assert_eq!(
        process_keypress(&mut page, caret(11, 1), 37, None, false, &vec![]),
        Outcome::Move { forward: false, by_line: false }
    );
    assert_eq!(
        process_keypress(&mut page, caret(11, 1), 39, None, false, &vec![]),
        Outcome::Move { forward: true, by_line: false }
    );
    assert_eq!(text_of(&page.nodes.children[0].children[0]), "abc");
}

#[test]
fn selections_outside_the_document_are_ignored() {
    let mut page = page_of(vec![node(10, PageNodeType::TextBlock, vec![raw(11, "abc")])], 10);
    assert_eq!(process_keypress(&mut page, None, 65, Some('a'), false, &vec![]), Outcome::Ignored);
    assert_eq!(process_keypress(&mut page, caret(99, 0), 65, Some('a'), false, &vec![]), Outcome::Ignored);
    assert_eq!(process_keypress(&mut page, caret(10, 0), 65, Some('a'), false, &vec![]), Outcome::Ignored);
    assert_eq!(process_keypress(&mut page, caret(11, 4), 65, Some('a'), false, &vec![]), Outcome::Ignored);
    assert_eq!(text_of(&page.nodes.children[0].children[0]), "abc");
}
