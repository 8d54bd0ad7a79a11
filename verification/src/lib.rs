//! The core of a block editor for a document of blocks and spans.
//!
//! The library holds the document as a tree of nodes with an index from
//! hashes to locations, decides what a key does to it, and decides which
//! leaf blocks are rendered as the view scrolls. It touches no screen: the
//! host creates, moves and measures the elements, and tells the library what
//! it measured.
//!
//! Every function is verified against its contract. The contracts speak of
//! the document as a mathematical tree, `NodeView`, and of the row of its
//! leaf blocks in document order, `leaves`.

// The document
pub mod node_kind;
pub mod page_node;
pub mod children;
pub mod surgery;
pub mod leaves;
pub mod leaf_algebra;
pub mod leaf_path;

// The index and the hashes
pub mod hash_index;
pub mod issue;
pub mod add_hashes;

// The page and its rendered range
pub mod page;
pub mod view_state;
pub mod init;
pub mod soundness;
pub mod render_in_view;
pub mod rising;
pub mod editable_page;

// The edits
pub mod text_edit;
pub mod enter;
pub mod merge;
pub mod outdent;
pub mod edit_leaves;
pub mod edit_edges;
pub mod keypress;

// What holds of all of it
pub mod laws;
