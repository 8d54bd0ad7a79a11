use block_editor::node_kind::{Key, PageNodeType};

#[test]
fn tokens_are_the_normative_strings() {
    assert_eq!(PageNodeType::Page.value(), "p");
    assert_eq!(PageNodeType::Indent.value(), "in");
    assert_eq!(PageNodeType::Quote.value(), "q");
    assert_eq!(PageNodeType::TextBlock.value(), "tb");
    assert_eq!(PageNodeType::H1.value(), "h1");
    assert_eq!(PageNodeType::H2.value(), "h2");
    assert_eq!(PageNodeType::H3.value(), "h3");
    assert_eq!(PageNodeType::H4.value(), "h4");
    assert_eq!(PageNodeType::H5.value(), "h5");
    assert_eq!(PageNodeType::CodeBlock.value(), "cd");
    assert_eq!(PageNodeType::Dot.value(), "d");
    assert_eq!(PageNodeType::Num.value(), "n");
    assert_eq!(PageNodeType::Check.value(), "ch");
    assert_eq!(PageNodeType::Table.value(), "tl");
    assert_eq!(PageNodeType::Bold.value(), "b");
    assert_eq!(PageNodeType::Italic.value(), "i");
    assert_eq!(PageNodeType::Highlight.value(), "h");
    assert_eq!(PageNodeType::CodeInline.value(), "ci");
    assert_eq!(PageNodeType::FileLink.value(), "fl");
    assert_eq!(PageNodeType::UrlLink.value(), "ul");
    assert_eq!(PageNodeType::RawText.value(), "t");
}

#[test]
fn blocks_and_branches() {
    assert!(PageNodeType::Page.is_block());
    assert!(PageNodeType::Page.is_branch());
    assert!(PageNodeType::Quote.is_block());
    assert!(PageNodeType::Quote.is_branch());
    assert!(PageNodeType::Indent.is_branch());
    assert!(PageNodeType::TextBlock.is_block());
    assert!(!PageNodeType::TextBlock.is_branch());
    assert!(PageNodeType::Table.is_block());
    assert!(!PageNodeType::Table.is_branch());
    assert!(!PageNodeType::Bold.is_block());
    assert!(PageNodeType::Bold.is_branch());
    assert!(!PageNodeType::RawText.is_block());
    assert!(!PageNodeType::RawText.is_branch());
}

#[test]
fn innate_heights_are_zero() {
    assert_eq!(PageNodeType::Page.innate_height(), 0);
    assert_eq!(PageNodeType::Quote.innate_height(), 0);
    assert_eq!(PageNodeType::H1.innate_height(), 0);
    assert_eq!(PageNodeType::RawText.innate_height(), 0);
}

#[test]
fn key_codes_are_the_normative_numbers() {
    assert_eq!(Key::Delete.key_code(), 8);
    assert_eq!(Key::Return.key_code(), 13);
    assert_eq!(Key::Tab.key_code(), 9);
    assert_eq!(Key::Shift.key_code(), 16);
    assert_eq!(Key::Space.key_code(), 32);
    assert_eq!(Key::ArrowLeft.key_code(), 37);
    assert_eq!(Key::ArrowUp.key_code(), 38);
    assert_eq!(Key::ArrowRight.key_code(), 39);
    assert_eq!(Key::ArrowDown.key_code(), 40);
    assert_eq!(Key::Meta.key_code(), 93);
    assert_eq!(Key::from_code(13), Some(Key::Return));
    assert_eq!(Key::from_code(65), None);
}
