//! The boundary to the external HTML parser and serializer. Both collaborate
//! through the arena tree of [`crate::tree`]: parsing copies the parser's
//! shared-ownership DOM into a fresh arena, serializing rebuilds the subtree
//! the serializer expects. Nothing else in the crate touches the external
//! DOM representation.

use vstd::prelude::*;
use html5ever::tendril::TendrilSink;
use crate::tree::{Tree, TreeNode, TreeData, Attr};

verus! {

/// A fatal condition: any of these aborts the whole run.
#[derive(Debug, Clone, Copy, PartialEq, Eq, Structural)]
pub enum CrawlError {
    /// Malformed input the parser cannot tolerate under strict settings.
    Parse,
    /// A document has no `body` element.
    MissingBody,
    /// The rewritten tree cannot be turned back into text.
    Serialization,
}

/// The parser's own node type, carried only between the helpers below.
#[verifier::external_type_specification]
#[verifier::external_body]
pub struct ExRcNode(markup5ever_rcdom::Node);

/// The parser's own node payload, carried only between the helpers below.
#[verifier::external_type_specification]
#[verifier::external_body]
pub struct ExRcNodeData(markup5ever_rcdom::NodeData);

/// The parser's own attribute type, carried only between the helpers below.
#[verifier::external_type_specification]
#[verifier::external_body]
pub struct ExAttribute(html5ever::Attribute);

/// The parser's whole output, kept alive until the copy into the arena is
/// complete (dropping it empties the shared node structure).
#[verifier::external_type_specification]
#[verifier::external_body]
pub struct ExRcDom(markup5ever_rcdom::RcDom);

/// The arena tree that parsing a document's text yields, `None` where the
/// parser fails. Parsing is a pure function of the text.
pub uninterp spec fn parse_of(text: Seq<char>) -> Option<Tree>;

/// Relies on html5ever's `parse_document`: document mode, BOM discarded,
/// doctype dropped, no-quirks, scripting disabled, exact errors, as the
/// conversion expects.
#[verifier::external_body]
fn parse_to_dom(text: &str) -> (r: Result<markup5ever_rcdom::RcDom, CrawlError>)
{
    let tokenizer = html5ever::tokenizer::TokenizerOpts {
        discard_bom: true, exact_errors: true, ..Default::default()
    };
    let tree_builder = html5ever::tree_builder::TreeBuilderOpts {
        drop_doctype: true, exact_errors: true,
        quirks_mode: html5ever::tree_builder::QuirksMode::NoQuirks,
        scripting_enabled: false, ..Default::default()
    };
    let opts = html5ever::ParseOpts { tokenizer, tree_builder };
    let mut cursor = std::io::Cursor::new(text.as_bytes());
    let parser = html5ever::parse_document(markup5ever_rcdom::RcDom::default(), opts);
    match parser.from_utf8().read_from(&mut cursor) {
        Ok(dom) => Ok(dom),
        Err(_) => Err(CrawlError::Parse),
    }
}

/// Relies on markup5ever_rcdom's node layout: the element name, attribute
/// list, text and comment contents, copied into the arena's own payload.
#[verifier::external_body]
fn raw_node_data(h: &markup5ever_rcdom::Handle) -> (r: TreeData)
{
    match &h.data {
        markup5ever_rcdom::NodeData::Element { name, attrs, .. } => TreeData::Element {
            name: name.local.to_string(),
            attrs: attrs.borrow().iter().map(
                |a| Attr { name: a.name.local.to_string(), value: a.value.to_string() },
            ).collect(),
        },
        markup5ever_rcdom::NodeData::Text { contents } =>
            TreeData::Text { text: contents.borrow().to_string() },
        markup5ever_rcdom::NodeData::Comment { contents } =>
            TreeData::Comment { text: contents.to_string() },
        _ => TreeData::Other,
    }
}

/// Relies on markup5ever_rcdom's node layout: appends the node to the arena
/// in pre-order, links it to its parent, and queues children (left to right)
/// and any `<template>` fragment after them.
#[verifier::external_body]
fn convert_dom_node(
    h: &markup5ever_rcdom::Handle,
    parent: usize,
    tpl: bool,
    nodes: &mut Vec<TreeNode>,
    stack: &mut Vec<(markup5ever_rcdom::Handle, usize, bool)>,
)
{
    let idx = nodes.len();
    nodes.push(TreeNode { data: raw_node_data(h), children: Vec::new(), template_contents: None });
    if parent != usize::MAX && tpl {
        nodes[parent].template_contents = Some(idx);
    } else if parent != usize::MAX {
        nodes[parent].children.push(idx);
    }
    if let markup5ever_rcdom::NodeData::Element { template_contents, .. } = &h.data {
        if let Some(f) = template_contents.borrow().clone() { stack.push((f, idx, true)); }
    }
    for c in h.children.borrow().iter().rev() { stack.push((c.clone(), idx, false)); }
}

/// Relies on html5ever's `parse_document` and on the markup5ever_rcdom tree
/// it builds (through the helpers above). The shared-ownership DOM is copied
/// into an arena in pre-order — the node first, then its children left to
/// right, then a `<template>` fragment — so every child index is strictly
/// greater than its parent's and the result is well-formed. Parsing is a
/// pure function of the text.
#[verifier::external_body]
pub(crate) fn parse_tree(text: &str) -> (r: Result<Tree, CrawlError>)
    ensures
        r is Ok <==> parse_of(text@) is Some,
        r is Ok ==> r->Ok_0 == parse_of(text@)->0 && r->Ok_0.wf(),
        r is Err ==> r->Err_0 == CrawlError::Parse,
{
    let dom = match parse_to_dom(text) {
        Ok(d) => d,
        Err(e) => return Err(e),
    };
    let mut nodes: Vec<TreeNode> = Vec::new();
    let mut stack: Vec<(markup5ever_rcdom::Handle, usize, bool)> = Vec::new();
    stack.push((dom.document.clone(), usize::MAX, false));
    while let Some((h, parent, tpl)) = stack.pop() {
        convert_dom_node(&h, parent, tpl, &mut nodes, &mut stack);
    }
    drop(dom);
    Ok(Tree { nodes })
}

/// Relies on html5ever's attribute layout: an attribute with an empty
/// namespace and the arena's name and value.
#[verifier::external_body]
fn rc_attr(a: &Attr) -> (r: html5ever::Attribute)
{
    html5ever::Attribute {
        name: html5ever::QualName::new(
            None,
            html5ever::Namespace::from(""),
            html5ever::LocalName::from(a.name.as_str()),
        ),
        value: a.value.as_str().into(),
    }
}

/// Relies on markup5ever_rcdom's element layout: an element in the HTML
/// namespace with the arena's tag and attributes.
#[verifier::external_body]
fn rc_element(name: &String, attrs: &Vec<Attr>) -> (r: markup5ever_rcdom::NodeData)
{
    markup5ever_rcdom::NodeData::Element {
        name: html5ever::QualName::new(
            None,
            html5ever::Namespace::from("http://www.w3.org/1999/xhtml"),
            html5ever::LocalName::from(name.as_str()),
        ),
        attrs: std::cell::RefCell::new(attrs.iter().map(rc_attr).collect()),
        template_contents: std::cell::RefCell::new(None),
        mathml_annotation_xml_integration_point: false,
    }
}

/// Relies on markup5ever_rcdom's node layout: the arena payload copied back
/// into the serializer's node payload.
#[verifier::external_body]
fn rc_node_data(nd: &TreeData) -> (r: markup5ever_rcdom::NodeData)
{
    match nd {
        TreeData::Element { name, attrs } => rc_element(name, attrs),
        TreeData::Text { text } => markup5ever_rcdom::NodeData::Text {
            contents: std::cell::RefCell::new(text.as_str().into()),
        },
        TreeData::Comment { text } => markup5ever_rcdom::NodeData::Comment {
            contents: text.as_str().into(),
        },
        TreeData::Other => markup5ever_rcdom::NodeData::Document,
    }
}

/// Relies on markup5ever_rcdom's node layout: rebuilds arena node `i` under
/// `parent` and queues its children; document/doctype/processing-instruction
/// nodes are dropped, as the serializer cannot take them mid-tree.
#[verifier::external_body]
fn emit_rc_node(
    t: &Tree,
    i: usize,
    parent: &markup5ever_rcdom::Handle,
    stack: &mut Vec<(usize, markup5ever_rcdom::Handle)>,
)
{
    if let TreeData::Other = &t.nodes[i].data {
        return;
    }
    let h = markup5ever_rcdom::Node::new(rc_node_data(&t.nodes[i].data));
    parent.children.borrow_mut().push(h.clone());
    for c in t.nodes[i].children.iter().rev() {
        stack.push((*c, h.clone()));
    }
}

/// Relies on html5ever's `serialize` with default options (children only).
#[verifier::external_body]
fn serialize_handle(h: markup5ever_rcdom::Handle) -> (r: Result<String, CrawlError>)
{
    let mut dest: Vec<u8> = Vec::with_capacity(1024);
    let sh: markup5ever_rcdom::SerializableHandle = h.into();
    if html5ever::serialize(&mut dest, &sh, html5ever::serialize::SerializeOpts::default())
        .is_err()
    {
        return Err(CrawlError::Serialization);
    }
    match String::from_utf8(dest) {
        Ok(s) => Ok(s),
        Err(_) => Err(CrawlError::Serialization),
    }
}

/// The markup text that serializing the subtree under `root` yields (its
/// children only, as the document assembler expects), `None` where the
/// serializer fails. Serialization is a pure function of the subtree.
pub uninterp spec fn serial_of(t: Tree, root: int) -> Option<Seq<char>>;

/// Render the subtree under the given node of the arena.
///
/// Relies on html5ever's `serialize` with default options (children only)
/// over a markup5ever_rcdom subtree rebuilt from the arena by the helpers
/// above: elements keep their tag and attributes, text and comments their
/// contents. As with the external serializer, `<template>` fragment contents
/// are not written.
#[verifier::external_body]
pub fn node_to_content(t: &Tree, root: usize) -> (r: Result<String, CrawlError>)
    requires
        t.wf(),
        root < t.nodes.len(),
    ensures
        r is Ok <==> serial_of(*t, root as int) is Some,
        r is Ok ==> r->Ok_0@ == serial_of(*t, root as int)->0,
        r is Err ==> r->Err_0 == CrawlError::Serialization,
{
    let out_root = markup5ever_rcdom::Node::new(rc_node_data(&t.nodes[root].data));
    let mut stack: Vec<(usize, markup5ever_rcdom::Handle)> = Vec::new();
    for c in t.nodes[root].children.iter().rev() {
        stack.push((*c, out_root.clone()));
    }
    while let Some((i, parent)) = stack.pop() {
        emit_rc_node(t, i, &parent, &mut stack);
    }
    serialize_handle(out_root)
}

} // verus!
