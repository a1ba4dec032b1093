//! Bundle a tree of locally linked HTML/SVG documents into one self-contained
//! document: resources referenced by `src`/`href` become embedded data URLs,
//! links between pages become intra-document anchors keyed by a content hash,
//! and pages with byte-identical content are processed only once.

pub mod strutil;
pub mod codec;
pub mod ident;
pub mod tree;
pub mod extract;
pub mod registry;
pub mod dom;
pub mod crawler;
