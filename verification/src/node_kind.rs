//! The closed set of node kinds and the static facts each kind carries.

use vstd::prelude::*;

verus! {

/// The kind of a node of the document tree.
#[derive(Debug, Clone, Copy, PartialEq, Eq, Structural)]
pub enum PageNodeType {
    /// The root of the document.
    Page,
    /// Branch block: an indented group of blocks.
    Indent,
    /// Branch block: a quoted group of blocks.
    Quote,
    /// Leaf block: a paragraph.
    TextBlock,
    /// Leaf block: heading of level one.
    H1,
    /// Leaf block: heading of level two.
    H2,
    /// Leaf block: heading of level three.
    H3,
    /// Leaf block: heading of level four.
    H4,
    /// Leaf block: heading of level five.
    H5,
    /// Leaf block: a block of code.
    CodeBlock,
    /// Leaf block: a bullet point.
    Dot,
    /// Leaf block: a numbered point.
    Num,
    /// Leaf block: a check box.
    Check,
    /// Leaf block: a table.
    Table,
    /// Branch span: bold text.
    Bold,
    /// Branch span: italic text.
    Italic,
    /// Branch span: highlighted text.
    Highlight,
    /// Branch span: inline code.
    CodeInline,
    /// Branch span: a link to a file.
    FileLink,
    /// Branch span: a link to a URL.
    UrlLink,
    /// Leaf span: the text itself.
    RawText,
}

impl PageNodeType {
    /// The token written into the `type` attribute of the node's element.
    pub open spec fn token(self) -> Seq<char> {
        match self {
            PageNodeType::Page => seq!['p'],
            PageNodeType::Indent => seq!['i', 'n'],
            PageNodeType::Quote => seq!['q'],
            PageNodeType::TextBlock => seq!['t', 'b'],
            PageNodeType::H1 => seq!['h', '1'],
            PageNodeType::H2 => seq!['h', '2'],
            PageNodeType::H3 => seq!['h', '3'],
            PageNodeType::H4 => seq!['h', '4'],
            PageNodeType::H5 => seq!['h', '5'],
            PageNodeType::CodeBlock => seq!['c', 'd'],
            PageNodeType::Dot => seq!['d'],
            PageNodeType::Num => seq!['n'],
            PageNodeType::Check => seq!['c', 'h'],
            PageNodeType::Table => seq!['t', 'l'],
            PageNodeType::Bold => seq!['b'],
            PageNodeType::Italic => seq!['i'],
            PageNodeType::Highlight => seq!['h'],
            PageNodeType::CodeInline => seq!['c', 'i'],
            PageNodeType::FileLink => seq!['f', 'l'],
            PageNodeType::UrlLink => seq!['u', 'l'],
            PageNodeType::RawText => seq!['t'],
        }
    }

    /// Blocks are rendered as `div`, spans as `span`.
    pub open spec fn spec_is_block(&self) -> bool {
        match self {
            PageNodeType::Bold
            | PageNodeType::Italic
            | PageNodeType::Highlight
            | PageNodeType::CodeInline
            | PageNodeType::FileLink
            | PageNodeType::UrlLink
            | PageNodeType::RawText => false,
            _ => true,
        }
    }

    /// A branch holds further nodes of its own family: blocks hold blocks,
    /// spans hold spans.
    pub open spec fn spec_is_branch(&self) -> bool {
        match self {
            PageNodeType::Page
            | PageNodeType::Indent
            | PageNodeType::Quote
            | PageNodeType::Bold
            | PageNodeType::Italic
            | PageNodeType::Highlight
            | PageNodeType::CodeInline
            | PageNodeType::FileLink
            | PageNodeType::UrlLink => true,
            _ => false,
        }
    }

    /// Pixels of height that the kind adds whatever its content is.
    pub open spec fn spec_innate_height(&self) -> u32 {
        0
    }

    /// A block kind whose children are spans.
    pub open spec fn is_leaf_block_kind(self) -> bool {
        self.spec_is_block() && !self.spec_is_branch()
    }

    /// A block kind whose children are blocks.
    pub open spec fn is_branch_block_kind(self) -> bool {
        self.spec_is_block() && self.spec_is_branch()
    }

    /// The token of the kind, as it stands in the `type` attribute.
    pub fn value(&self) -> (r: &'static str)
        ensures
            r@ == self.token(),
    {
        proof {
            reveal_strlit("p");
            reveal_strlit("in");
            reveal_strlit("q");
            reveal_strlit("tb");
            reveal_strlit("h1");
            reveal_strlit("h2");
            reveal_strlit("h3");
            reveal_strlit("h4");
            reveal_strlit("h5");
            reveal_strlit("cd");
            reveal_strlit("d");
            reveal_strlit("n");
            reveal_strlit("ch");
            reveal_strlit("tl");
            reveal_strlit("b");
            reveal_strlit("i");
            reveal_strlit("h");
            reveal_strlit("ci");
            reveal_strlit("fl");
            reveal_strlit("ul");
            reveal_strlit("t");
        }
        let r: &'static str = match self {
            PageNodeType::Page => "p",
            PageNodeType::Indent => "in",
            PageNodeType::Quote => "q",
            PageNodeType::TextBlock => "tb",
            PageNodeType::H1 => "h1",
            PageNodeType::H2 => "h2",
            PageNodeType::H3 => "h3",
            PageNodeType::H4 => "h4",
            PageNodeType::H5 => "h5",
            PageNodeType::CodeBlock => "cd",
            PageNodeType::Dot => "d",
            PageNodeType::Num => "n",
            PageNodeType::Check => "ch",
            PageNodeType::Table => "tl",
            PageNodeType::Bold => "b",
            PageNodeType::Italic => "i",
            PageNodeType::Highlight => "h",
            PageNodeType::CodeInline => "ci",
            PageNodeType::FileLink => "fl",
            PageNodeType::UrlLink => "ul",
            PageNodeType::RawText => "t",
        };
        assert(r@ =~= self.token());
        r
    }

    /// Whether the kind is a block.
    #[verifier::when_used_as_spec(spec_is_block)]
    pub fn is_block(&self) -> (r: bool)
        ensures
            r == self.spec_is_block(),
    {
        match self {
            PageNodeType::Bold
            | PageNodeType::Italic
            | PageNodeType::Highlight
            | PageNodeType::CodeInline
            | PageNodeType::FileLink
            | PageNodeType::UrlLink
            | PageNodeType::RawText => false,
            _ => true,
        }
    }

    /// Whether the kind is a branch.
    #[verifier::when_used_as_spec(spec_is_branch)]
    pub fn is_branch(&self) -> (r: bool)
        ensures
            r == self.spec_is_branch(),
    {
        match self {
            PageNodeType::Page
            | PageNodeType::Indent
            | PageNodeType::Quote
            | PageNodeType::Bold
            | PageNodeType::Italic
            | PageNodeType::Highlight
            | PageNodeType::CodeInline
            | PageNodeType::FileLink
            | PageNodeType::UrlLink => true,
            _ => false,
        }
    }

    /// The height in pixels that the kind adds to a block, its margins and
    /// paddings, apart from the height of what the block holds.
    #[verifier::when_used_as_spec(spec_innate_height)]
    pub fn innate_height(&self) -> (r: u32)
        ensures
            r == self.spec_innate_height(),
    {
        0
    }
}

/// The keys that the editor treats apart from printable characters.
#[derive(Debug, Clone, Copy, PartialEq, Eq, Structural)]
pub enum Key {
    Shift,
    Tab,
    ArrowUp,
    ArrowDown,
    ArrowLeft,
    ArrowRight,
    Return,
    Delete,
    Space,
    Meta,
}

impl Key {
    /// The key code that the host reports for the key.
    pub open spec fn spec_key_code(&self) -> u32 {
        match self {
            Key::Shift => 16,
            Key::Tab => 9,
            Key::ArrowUp => 38,
            Key::ArrowDown => 40,
            Key::ArrowLeft => 37,
            Key::ArrowRight => 39,
            Key::Return => 13,
            Key::Delete => 8,
            Key::Space => 32,
            Key::Meta => 93,
        }
    }

    /// The key code that the host reports for the key.
    #[verifier::when_used_as_spec(spec_key_code)]
    pub fn key_code(&self) -> (r: u32)
        ensures
            r == self.spec_key_code(),
    {
        match self {
            Key::Shift => 16,
            Key::Tab => 9,
            Key::ArrowUp => 38,
            Key::ArrowDown => 40,
            Key::ArrowLeft => 37,
            Key::ArrowRight => 39,
            Key::Return => 13,
            Key::Delete => 8,
            Key::Space => 32,
            Key::Meta => 93,
        }
    }

    /// The key with the given code, if the editor treats it apart.
    pub fn from_code(code: u32) -> (r: Option<Key>)
        ensures
            match r {
                Some(k) => k.spec_key_code() == code,
                None => forall|k: Key| k.spec_key_code() != code,
            },
    {
        if code == 16 {
            Some(Key::Shift)
        } else if code == 9 {
            Some(Key::Tab)
        } else if code == 38 {
            Some(Key::ArrowUp)
        } else if code == 40 {
            Some(Key::ArrowDown)
        } else if code == 37 {
            Some(Key::ArrowLeft)
        } else if code == 39 {
            Some(Key::ArrowRight)
        } else if code == 13 {
            Some(Key::Return)
        } else if code == 8 {
            Some(Key::Delete)
        } else if code == 32 {
            Some(Key::Space)
        } else if code == 93 {
            Some(Key::Meta)
        } else {
            None
        }
    }
}

} // verus!
