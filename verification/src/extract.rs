//! Walking the document tree: the per-element action of a traversal, and the
//! extractors that locate the first `<title>` text, the first `<body>`
//! element, and a representative caption inside an SVG document.

use vstd::prelude::*;
use crate::tree::{Tree, TreeData, pre_node, lemma_pre_node_bounds};
use crate::strutil::{has_prefix, str_eq, str_has_prefix};

verus! {

/// Iteration action taken at an element: stop the whole traversal, skip the
/// rest of the current node, or proceed normally.
#[derive(Debug, Clone, Copy, PartialEq, Eq, Structural)]
pub enum Act {
    Break,
    Continue,
    Next,
}

/// What a first-match traversal is looking for.
#[derive(Debug, Clone, Copy, PartialEq, Eq, Structural)]
pub enum Query {
    /// The first `<title>` element whose first child is a text node.
    HtmlTitle,
    /// The first `<body>` element.
    Body,
}

/// TreeNode `i` is an element.
pub open spec fn is_element(t: &Tree, i: int) -> bool {
    t.nodes[i].data is Element
}

/// The tag name of element `i`.
pub open spec fn tag_of(t: &Tree, i: int) -> Seq<char> {
    match t.nodes[i].data {
        TreeData::Element { name, .. } => name@,
        _ => Seq::empty(),
    }
}

/// The text of node `i`'s first child, when that child is a text node.
pub open spec fn first_child_text(t: &Tree, i: int) -> Option<Seq<char>> {
    if t.nodes[i].children@.len() > 0 {
        match t.nodes[t.nodes[i].children@[0] as int].data {
            TreeData::Text { text } => Some(text@),
            _ => None,
        }
    } else {
        None
    }
}

/// Whether the query stops at element `i`.
pub open spec fn query_matches(t: &Tree, i: int, q: Query) -> bool {
    is_element(t, i) && match q {
        Query::Body => tag_of(t, i) == "body"@,
        Query::HtmlTitle => tag_of(t, i) == "title"@ && first_child_text(t, i) is Some,
    }
}

/// The action a query takes at node `i`.
pub open spec fn query_act(t: &Tree, i: int, q: Query) -> Act {
    if query_matches(t, i, q) {
        Act::Break
    } else {
        Act::Next
    }
}

/// `r` is the first node in `ord` at which the query stops.
pub open spec fn is_first_match(t: &Tree, ord: Seq<usize>, q: Query, r: Option<usize>) -> bool {
    match r {
        Some(i) => exists|k: int|
            0 <= k < ord.len() && ord[k] == i && #[trigger] query_matches(t, ord[k] as int, q) && (
            forall|j: int| 0 <= j < k ==> !query_matches(t, ord[j] as int, q)),
        None => forall|k: int| 0 <= k < ord.len() ==> !query_matches(t, ord[k] as int, q),
    }
}

/// The action the query takes at node `i`.
fn query_step(t: &Tree, i: usize, q: Query) -> (r: Act)
    requires
        t.wf(),
        i < t.nodes.len(),
    ensures
        r == query_act(t, i as int, q),
        r == Act::Break || r == Act::Next,
{
    match &t.nodes[i].data {
        TreeData::Element { name, .. } => {
            let hit = match q {
                Query::Body => str_eq(name.as_str(), "body"),
                Query::HtmlTitle => {
                    if str_eq(name.as_str(), "title") {
                        if t.nodes[i].children.len() > 0 {
                            let c = t.nodes[i].children[0];
                            proof {
                                assert(t.wf_at(i as int));
                                assert(t.child_list(i as int)[0] == c);
                                assert(c < t.nodes.len());
                            }
                            match &t.nodes[c].data {
                                TreeData::Text { .. } => true,
                                _ => false,
                            }
                        } else {
                            false
                        }
                    } else {
                        false
                    }
                },
            };
            if hit {
                Act::Break
            } else {
                Act::Next
            }
        },
        _ => Act::Next,
    }
}

/// Walk the subtree under `root` in document order and stop at the first
/// element the query matches.
pub fn find_first(t: &Tree, root: usize, q: Query) -> (r: Option<usize>)
    requires
        t.wf(),
        root < t.nodes.len(),
    ensures
        is_first_match(t, pre_node(t, root), q, r),
        r is Some ==> r->0 < t.nodes.len(),
{
    let ord = crate::tree::collect_order(t, root);
    proof {
        lemma_pre_node_bounds(t, root);
    }
    let mut k: usize = 0;
    while k < ord.len()
        invariant
            t.wf(),
            root < t.nodes.len(),
            ord@ == pre_node(t, root),
            k <= ord@.len(),
            forall|j: int| 0 <= j < k ==> !query_matches(t, ord@[j] as int, q),
            forall|j: int|
                0 <= j < ord@.len() ==> root <= #[trigger] ord@[j] < t.nodes.len(),
        decreases ord@.len() - k,
    {
        let i = ord[k];
        match query_step(t, i, q) {
            Act::Break => {
                return Some(i);
            },
            _ => {},
        }
        k += 1;
    }
    None
}

/// One subtlety of `query_step` for `HtmlTitle`: a well-formed tree keeps the
/// first-child lookup in bounds, so the in-range test in the step never fails
/// on a well-formed tree. The extractors below rely on it only through the
/// stated contracts.
///
/// Extract the text of the first `<title>` element that directly holds text;
/// a missing title is not an error.
pub fn extract_html_title(t: &Tree) -> (r: Option<String>)
    requires
        t.wf(),
    ensures
        match r {
            Some(s) => exists|k: int|
                0 <= k < pre_node(t, 0).len() && #[trigger] query_matches(
                    t,
                    pre_node(t, 0)[k] as int,
                    Query::HtmlTitle,
                ) && first_child_text(t, pre_node(t, 0)[k] as int) == Some(s@) && (forall|j: int|
                    0 <= j < k ==> !query_matches(t, pre_node(t, 0)[j] as int, Query::HtmlTitle)),
            None => forall|k: int|
                0 <= k < pre_node(t, 0).len() ==> !query_matches(
                    t,
                    pre_node(t, 0)[k] as int,
                    Query::HtmlTitle,
                ),
        },
{
    match find_first(t, 0, Query::HtmlTitle) {
        Some(i) => {
            assert(query_matches(t, i as int, Query::HtmlTitle));
            assert(t.wf_at(i as int));
            assert(t.nodes[i as int].children@.len() > 0);
            let c = t.nodes[i].children[0];
            proof {
                assert(t.child_list(i as int)[0] == c);
                assert(c < t.nodes.len());
            }
            match &t.nodes[c].data {
                TreeData::Text { text } => Some(text.clone()),
                _ => {
                    proof {
                        assert(false);
                    }
                    None
                },
            }
        },
        None => None,
    }
}

/// Locate the first `<body>` element; a document without one cannot be
/// processed.
pub fn extract_body(t: &Tree) -> (r: Option<usize>)
    requires
        t.wf(),
    ensures
        is_first_match(t, pre_node(t, 0), Query::Body, r),
        r is Some ==> r->0 < t.nodes.len(),
{
    find_first(t, 0, Query::Body)
}

/// The caption text held by a `<title>` or `<text>` element through a single
/// wrapper child (as produced inside SVG documents): the text of the first
/// child of the first child.
pub open spec fn caption_at(t: &Tree, i: int) -> Option<Seq<char>> {
    if is_element(t, i) && (tag_of(t, i) == "title"@ || tag_of(t, i) == "text"@) && t.nodes[i].children@.len()
        > 0 {
        let c1 = t.nodes[i].children@[0] as int;
        if t.nodes[c1].children@.len() > 0 {
            match t.nodes[t.nodes[c1].children@[0] as int].data {
                TreeData::Text { text } => Some(text@),
                _ => None,
            }
        } else {
            None
        }
    } else {
        None
    }
}

/// Captions that are benchmarking-tool boilerplate are discarded.
pub open spec fn keep_caption(s: Seq<char>) -> bool {
    !has_prefix(s, "Point estimate"@) && !has_prefix(s, "gnuplot_"@)
}

/// The caption surfaced at node `i`, after the boilerplate filter.
pub open spec fn kept_caption_at(t: &Tree, i: int) -> Option<Seq<char>> {
    match caption_at(t, i) {
        Some(s) => if keep_caption(s) {
            Some(s)
        } else {
            None
        },
        None => None,
    }
}

fn caption_step(t: &Tree, i: usize) -> (r: Option<String>)
    requires
        t.wf(),
        i < t.nodes.len(),
    ensures
        match r {
            Some(s) => kept_caption_at(t, i as int) == Some(s@),
            None => kept_caption_at(t, i as int) is None,
        },
{
    let is_captioned = match &t.nodes[i].data {
        TreeData::Element { name, .. } => str_eq(name.as_str(), "title") || str_eq(
            name.as_str(),
            "text",
        ),
        _ => false,
    };
    if !is_captioned || t.nodes[i].children.len() == 0 {
        return None;
    }
    let c1 = t.nodes[i].children[0];
    proof {
        assert(t.wf_at(i as int));
        assert(t.child_list(i as int)[0] == c1);
        assert(c1 < t.nodes.len());
    }
    if t.nodes[c1].children.len() == 0 {
        return None;
    }
    let c2 = t.nodes[c1].children[0];
    proof {
        assert(t.wf_at(c1 as int));
        assert(t.child_list(c1 as int)[0] == c2);
        assert(c2 < t.nodes.len());
    }
    match &t.nodes[c2].data {
        TreeData::Text { text } => {
            if str_has_prefix(text.as_str(), "Point estimate") || str_has_prefix(
                text.as_str(),
                "gnuplot_",
            ) {
                None
            } else {
                Some(text.clone())
            }
        },
        _ => None,
    }
}

/// Extract a representative caption from an SVG document: the first caption
/// in document order that is not benchmarking-tool boilerplate. Duplicate
/// captions collapse, which cannot change which caption comes first.
pub fn extract_svg_title(t: &Tree) -> (r: Option<String>)
    requires
        t.wf(),
    ensures
        match r {
            Some(s) => exists|k: int|
                0 <= k < pre_node(t, 0).len() && #[trigger] kept_caption_at(
                    t,
                    pre_node(t, 0)[k] as int,
                ) == Some(s@) && (forall|j: int|
                    0 <= j < k ==> kept_caption_at(t, pre_node(t, 0)[j] as int) is None),
            None => forall|k: int|
                0 <= k < pre_node(t, 0).len() ==> kept_caption_at(
                    t,
                    pre_node(t, 0)[k] as int,
                ) is None,
        },
{
    let ord = crate::tree::collect_order(t, 0);
    proof {
        lemma_pre_node_bounds(t, 0);
    }
    let mut k: usize = 0;
    while k < ord.len()
        invariant
            t.wf(),
            ord@ == pre_node(t, 0),
            k <= ord@.len(),
            forall|j: int| 0 <= j < k ==> kept_caption_at(t, ord@[j] as int) is None,
            forall|j: int| 0 <= j < ord@.len() ==> #[trigger] ord@[j] < t.nodes.len(),
        decreases ord@.len() - k,
    {
        let i = ord[k];
        match caption_step(t, i) {
            Some(s) => {
                return Some(s);
            },
            None => {},
        }
        k += 1;
    }
    None
}

} // verus!
