//! The core crawler, split into two pure, verified phases around the one
//! thing the library cannot do itself — reading files:
//!
//! * [`page_plan`] parses a page's text, extracts title and body, and lists
//!   every local reference of the body subtree in traversal order;
//! * [`page_apply`] takes the loaded bytes for those references (or `None`
//!   for each that could not be read), rewrites the attributes in place,
//!   registers SVG leaf pages, and reports which linked pages still have to
//!   be crawled.
//!
//! The caller (a thin driver) loads files between the phases, recurses on
//! the reported follow-ups, and registers their results.

use vstd::prelude::*;
use vstd::string::StringExecFns;
use vstd::utf8::{encode_utf8, valid_utf8};
use crate::tree::{Tree, TreeData, Attr, pre_node, lemma_pre_node_bounds};
use crate::extract::{
    Query, is_element, tag_of, first_child_text, query_matches, is_first_match,
    extract_html_title, extract_body, extract_svg_title, kept_caption_at,
};
use crate::strutil::{
    has_prefix, str_has_prefix, str_eq, parent_spec, path_parent, ext_spec, has_extension,
};
use crate::dom::{CrawlError, parse_of, parse_tree, serial_of, node_to_content};
use crate::ident::{PageId, page_id_of, hex_of};
use crate::codec::{data_url_spec, create_data_url};
use crate::registry::{PageWrapping, PageRegistry};

verus! {

/// Which rewrite rule a reference falls under.
#[derive(Debug, Clone, Copy, PartialEq, Eq, Structural)]
pub enum RefKind {
    /// A local `src` reference on any element: inline the file's raw bytes
    /// as a data URL, the media type chosen by file extension.
    SrcInline,
    /// `<link href=...>`: inline the file as a typeless data URL.
    LinkHref,
    /// `<a href=...>`: rewrite to an in-document anchor and crawl the page.
    AnchorHref,
}

/// One local reference found in a page: the node carrying it, the rule it
/// falls under, and the attribute value (a relative path) as found.
#[derive(Debug, Clone)]
pub struct RefItem {
    pub node: usize,
    pub kind: RefKind,
    pub value: String,
}

/// The attributes of node `i` (empty for non-elements).
pub open spec fn attrs_of(t: &Tree, i: int) -> Seq<Attr> {
    match t.nodes[i].data {
        TreeData::Element { attrs, .. } => attrs@,
        _ => Seq::empty(),
    }
}

/// Index of the first attribute named `name`.
pub open spec fn find_attr(attrs: Seq<Attr>, name: Seq<char>) -> Option<int>
    decreases attrs.len(),
{
    if attrs.len() == 0 {
        None
    } else if attrs[0].name@ == name {
        Some(0int)
    } else {
        match find_attr(attrs.drop_first(), name) {
            Some(j) => Some(j + 1),
            None => None,
        }
    }
}

pub proof fn lemma_find_attr_skip(attrs: Seq<Attr>, name: Seq<char>, k: int)
    requires
        0 <= k <= attrs.len(),
        forall|j: int| 0 <= j < k ==> attrs[j].name@ != name,
    ensures
        find_attr(attrs, name) == match find_attr(attrs.skip(k), name) {
            Some(j) => Some(j + k),
            None => None::<int>,
        },
    decreases k,
{
    if k > 0 {
        assert(attrs[0].name@ != name);
        assert(attrs.drop_first() =~= attrs.skip(1));
        assert(forall|j: int| 0 <= j < k - 1 ==> attrs.skip(1)[j].name@ != name) by {
            assert(forall|j: int| 0 <= j < k - 1 ==> attrs.skip(1)[j] == attrs[j + 1]);
        }
        lemma_find_attr_skip(attrs.skip(1), name, k - 1);
        assert(attrs.skip(1).skip(k - 1) =~= attrs.skip(k));
        match find_attr(attrs.skip(k), name) {
            Some(j) => {
                assert(find_attr(attrs.skip(1), name) == Some(j + (k - 1)));
                assert(find_attr(attrs, name) == Some((j + (k - 1)) + 1));
            },
            None => {
                assert(find_attr(attrs.skip(1), name) is None);
                assert(find_attr(attrs, name) is None);
            },
        }
    } else {
        assert(attrs.skip(0) =~= attrs);
    }
}

pub proof fn lemma_find_attr_in_range(attrs: Seq<Attr>, name: Seq<char>)
    ensures
        find_attr(attrs, name) is Some ==> {
            let j = find_attr(attrs, name)->0;
            0 <= j < attrs.len() && attrs[j].name@ == name
        },
    decreases attrs.len(),
{
    if attrs.len() > 0 && attrs[0].name@ != name {
        lemma_find_attr_in_range(attrs.drop_first(), name);
    }
}

fn find_attr_exec(attrs: &Vec<Attr>, name: &str) -> (r: Option<usize>)
    ensures
        r is Some <==> find_attr(attrs@, name@) is Some,
        r is Some ==> find_attr(attrs@, name@) == Some(r->0 as int) && r->0 < attrs@.len(),
{
    let mut k: usize = 0;
    while k < attrs.len()
        invariant
            k <= attrs@.len(),
            forall|j: int| 0 <= j < k ==> attrs@[j].name@ != name@,
        decreases attrs@.len() - k,
    {
        if str_eq(attrs[k].name.as_str(), name) {
            proof {
                lemma_find_attr_skip(attrs@, name@, k as int);
                assert(attrs@.skip(k as int)[0] == attrs@[k as int]);
            }
            return Some(k);
        }
        k += 1;
    }
    proof {
        lemma_find_attr_skip(attrs@, name@, attrs@.len() as int);
        assert(attrs@.skip(attrs@.len() as int) =~= Seq::<Attr>::empty());
    }
    None
}

/// The href rules: `<link>` is inlined, `<a>` is followed, anything else and
/// network-prefixed values are left alone.
pub open spec fn classify_href(t: &Tree, i: int) -> Option<RefItem> {
    let attrs = attrs_of(t, i);
    match find_attr(attrs, "href"@) {
        Some(j) => if has_prefix(attrs[j].value@, "http"@) {
            None
        } else if tag_of(t, i) == "link"@ {
            Some(RefItem { node: i as usize, kind: RefKind::LinkHref, value: attrs[j].value })
        } else if tag_of(t, i) == "a"@ {
            Some(RefItem { node: i as usize, kind: RefKind::AnchorHref, value: attrs[j].value })
        } else {
            None
        },
        None => None,
    }
}

/// The reference, if any, that processing acts on at node `i`. Any element
/// with a local `src` reference has it inlined; a network-prefixed
/// (`http...`) `src` value makes the whole node untouched, as the reference
/// loop moves on to the next node in that case.
pub open spec fn classify(t: &Tree, i: int) -> Option<RefItem> {
    if !is_element(t, i) {
        None
    } else {
        let attrs = attrs_of(t, i);
        match find_attr(attrs, "src"@) {
            Some(js) => if has_prefix(attrs[js].value@, "http"@) {
                None
            } else {
                Some(RefItem { node: i as usize, kind: RefKind::SrcInline, value: attrs[js].value })
            },
            None => classify_href(t, i),
        }
    }
}

fn classify_exec(t: &Tree, i: usize) -> (r: Option<RefItem>)
    requires
        i < t.nodes.len(),
    ensures
        r == classify(t, i as int),
{
    let attrs = match &t.nodes[i].data {
        TreeData::Element { attrs, .. } => attrs,
        _ => {
            return None;
        },
    };
    let tag = match &t.nodes[i].data {
        TreeData::Element { name, .. } => name,
        _ => {
            return None;
        },
    };
    if let Some(js) = find_attr_exec(attrs, "src") {
        proof {
            lemma_find_attr_in_range(attrs@, "src"@);
        }
        if str_has_prefix(attrs[js].value.as_str(), "http") {
            return None;
        }
        return Some(
            RefItem { node: i, kind: RefKind::SrcInline, value: attrs[js].value.clone() },
        );
    }
    match find_attr_exec(attrs, "href") {
        Some(j) => {
            proof {
                lemma_find_attr_in_range(attrs@, "href"@);
            }
            if str_has_prefix(attrs[j].value.as_str(), "http") {
                None
            } else if str_eq(tag.as_str(), "link") {
                Some(RefItem { node: i, kind: RefKind::LinkHref, value: attrs[j].value.clone() })
            } else if str_eq(tag.as_str(), "a") {
                Some(RefItem { node: i, kind: RefKind::AnchorHref, value: attrs[j].value.clone() })
            } else {
                None
            }
        },
        None => None,
    }
}

/// The references that processing acts on, over the nodes of `ord` in order.
pub open spec fn refs_spec(t: &Tree, ord: Seq<usize>) -> Seq<RefItem>
    decreases ord.len(),
{
    if ord.len() == 0 {
        Seq::empty()
    } else {
        (match classify(t, ord[0] as int) {
            Some(r) => seq![r],
            None => Seq::empty(),
        }) + refs_spec(t, ord.drop_first())
    }
}

/// A parsed page, ready to have its references resolved: the tree, the body
/// node, the extracted title, and every local reference in traversal order.
pub struct PagePlan {
    pub tree: Tree,
    pub body: usize,
    pub title: String,
    pub refs: Vec<RefItem>,
}

/// The extracted title is the first `<title>` text, or the placeholder when
/// the document has none.
pub open spec fn title_ok(t: &Tree, s: Seq<char>) -> bool {
    let ord = pre_node(t, 0);
    (exists|k: int|
        0 <= k < ord.len() && #[trigger] query_matches(t, ord[k] as int, Query::HtmlTitle)
            && first_child_text(t, ord[k] as int) == Some(s) && (forall|j: int|
            0 <= j < k ==> !query_matches(t, ord[j] as int, Query::HtmlTitle))) || ((forall|k: int|
        0 <= k < ord.len() ==> !query_matches(t, ord[k] as int, Query::HtmlTitle)) && s
        == "Missing title"@)
}

/// Parse a page and plan its rewriting: the tree, its body, its title, and
/// its local references in traversal order.
pub fn page_plan(text: &str) -> (r: Result<PagePlan, CrawlError>)
    ensures
        r is Err ==> (r->Err_0 == CrawlError::Parse && parse_of(text@) is None) || (r->Err_0
            == CrawlError::MissingBody && parse_of(text@) is Some && {
            let t0 = parse_of(text@)->0;
            is_first_match(&t0, pre_node(&t0, 0), Query::Body, None::<usize>)
        }),
        r is Ok ==> {
            let p = r->Ok_0;
            &&& parse_of(text@) is Some
            &&& p.tree == parse_of(text@)->0
            &&& p.tree.wf()
            &&& p.body < p.tree.nodes.len()
            &&& is_first_match(&p.tree, pre_node(&p.tree, 0), Query::Body, Some(p.body))
            &&& title_ok(&p.tree, p.title@)
            &&& p.refs@ == refs_spec(&p.tree, pre_node(&p.tree, p.body))
        },
{
    let tree = match parse_tree(text) {
        Ok(t) => t,
        Err(e) => {
            return Err(e);
        },
    };
    let title = match extract_html_title(&tree) {
        Some(s) => s,
        None => "Missing title".to_owned(),
    };
    let body = match extract_body(&tree) {
        Some(b) => b,
        None => {
            return Err(CrawlError::MissingBody);
        },
    };
    let ord = crate::tree::collect_order(&tree, body);
    proof {
        lemma_pre_node_bounds(&tree, body);
        assert(ord@.skip(0) =~= ord@);
        assert(Seq::<RefItem>::empty() + refs_spec(&tree, ord@) =~= refs_spec(&tree, ord@));
    }
    let mut refs: Vec<RefItem> = Vec::new();
    let mut k: usize = 0;
    while k < ord.len()
        invariant
            tree.wf(),
            body < tree.nodes.len(),
            ord@ == pre_node(&tree, body),
            k <= ord@.len(),
            forall|j: int| 0 <= j < ord@.len() ==> #[trigger] ord@[j] < tree.nodes.len(),
            refs_spec(&tree, ord@) == refs@ + refs_spec(&tree, ord@.skip(k as int)),
        decreases ord@.len() - k,
    {
        let ghost tail = ord@.skip(k as int);
        proof {
            assert(tail[0] == ord@[k as int]);
            assert(tail.drop_first() =~= ord@.skip(k + 1));
        }
        match classify_exec(&tree, ord[k]) {
            Some(item) => {
                proof {
                    assert(refs@.push(item) =~= refs@ + seq![item]);
                    assert((refs@ + seq![item]) + refs_spec(&tree, ord@.skip(k + 1)) =~= refs@ + (
                    seq![item] + refs_spec(&tree, ord@.skip(k + 1))));
                }
                refs.push(item);
            },
            None => {
                proof {
                    assert(refs@ + (Seq::<RefItem>::empty() + refs_spec(&tree, ord@.skip(k + 1)))
                        =~= refs@ + refs_spec(&tree, ord@.skip(k + 1)));
                }
            },
        }
        k += 1;
    }
    proof {
        assert(ord@.skip(ord@.len() as int) =~= Seq::<usize>::empty());
        assert(refs@ + Seq::<RefItem>::empty() =~= refs@);
    }
    Ok(PagePlan { tree, body, title, refs })
}

/// The directory against which a page's relative references resolve: the
/// parent directory of the file being processed, or the caller's own search
/// context when the file has no parent component.
pub open spec fn search_context_spec(current: Seq<char>, parent_ctx: Seq<char>) -> Seq<char> {
    match parent_spec(current) {
        Some(p) => p,
        None => parent_ctx,
    }
}

/// Compute the search context for a file from the enclosing context.
pub fn search_context(current_file: &str, parent_context: &str) -> (r: String)
    ensures
        r@ == search_context_spec(current_file@, parent_context@),
{
    match path_parent(current_file) {
        Some(p) => p,
        None => parent_context.to_owned(),
    }
}

/// The media type chosen for an inlined `src` reference, by the file
/// extension of the reference.
pub open spec fn media_type_of(v: Seq<char>) -> Seq<char> {
    if ext_spec(v) == Some("svg"@) {
        "image/svg+xml"@
    } else if ext_spec(v) == Some("png"@) {
        "image/png"@
    } else {
        Seq::empty()
    }
}

/// The attribute a rule rewrites.
pub open spec fn attr_name_of(kind: RefKind) -> Seq<char> {
    match kind {
        RefKind::SrcInline => "src"@,
        RefKind::LinkHref => "href"@,
        RefKind::AnchorHref => "href"@,
    }
}

/// The text a resolved reference's attribute is overwritten with: a data URL
/// over the file's raw bytes for inlined resources (no charset segment for
/// binary `src` data, the text charset for inlined `link` sheets), an
/// in-document anchor over the content digest for followed links.
pub open spec fn rewritten_value(kind: RefKind, v: Seq<char>, data: Seq<u8>) -> Seq<char> {
    match kind {
        RefKind::SrcInline => data_url_spec(media_type_of(v), Seq::empty(), data),
        RefKind::LinkHref => data_url_spec(Seq::empty(), "UTF-8"@, data),
        RefKind::AnchorHref => seq!['#'] + hex_of(page_id_of(data)),
    }
}

/// A reference's load resolves: the file was readable and, for a followed
/// link (whose content must be parsed as text), its bytes are valid UTF-8.
pub open spec fn load_ok(refs: Seq<RefItem>, loads: Seq<Option<Vec<u8>>>, k: int) -> bool {
    loads[k] is Some && (refs[k].kind == RefKind::AnchorHref ==> valid_utf8(loads[k]->0@))
}

/// A reference as the planner reports it: the node is in range, an element,
/// carries the targeted attribute with exactly the recorded value, and the
/// value has no network prefix.
pub open spec fn ref_ok(t: &Tree, item: RefItem) -> bool {
    &&& (item.node as int) < t.nodes.len()
    &&& is_element(t, item.node as int)
    &&& find_attr(attrs_of(t, item.node as int), attr_name_of(item.kind)) is Some
    &&& {
        let a = find_attr(attrs_of(t, item.node as int), attr_name_of(item.kind))->0;
        attrs_of(t, item.node as int)[a].value == item.value
    }
    &&& !has_prefix(item.value@, "http"@)
}

proof fn lemma_classify_ok(t: &Tree, i: int)
    requires
        0 <= i < t.nodes.len(),
        classify(t, i) is Some,
    ensures
        ref_ok(t, classify(t, i)->0),
        classify(t, i)->0.node == i,
{
    lemma_find_attr_in_range(attrs_of(t, i), "src"@);
    lemma_find_attr_in_range(attrs_of(t, i), "href"@);
}

pub proof fn lemma_refs_ok(t: &Tree, ord: Seq<usize>)
    requires
        forall|j: int| 0 <= j < ord.len() ==> #[trigger] ord[j] < t.nodes.len(),
    ensures
        forall|k: int|
            0 <= k < refs_spec(t, ord).len() ==> ref_ok(t, #[trigger] refs_spec(t, ord)[k]),
    decreases ord.len(),
{
    if ord.len() > 0 {
        assert(forall|j: int|
            0 <= j < ord.drop_first().len() ==> #[trigger] ord.drop_first()[j] < t.nodes.len());
        lemma_refs_ok(t, ord.drop_first());
        if classify(t, ord[0] as int) is Some {
            lemma_classify_ok(t, ord[0] as int);
        }
        let head_len: int = match classify(t, ord[0] as int) {
            Some(_) => 1,
            None => 0,
        };
        assert forall|k: int| 0 <= k < refs_spec(t, ord).len() implies ref_ok(
            t,
            #[trigger] refs_spec(t, ord)[k],
        ) by {
            if k < head_len {
                assert(refs_spec(t, ord)[k] == classify(t, ord[0] as int)->0);
            } else {
                assert(refs_spec(t, ord)[k] == refs_spec(t, ord.drop_first())[k - head_len]);
            }
        }
    }
}

/// The writer of attribute `a` of node `n` that takes effect: the latest
/// reference before `refs.len()` that targets it and whose load succeeded.
pub open spec fn last_writer(
    t0: &Tree,
    refs: Seq<RefItem>,
    loads: Seq<Option<Vec<u8>>>,
    n: int,
    a: int,
) -> Option<int>
    decreases refs.len(),
{
    if refs.len() == 0 {
        None
    } else {
        let k = refs.len() - 1;
        if refs[k].node == n && load_ok(refs, loads, k) && find_attr(
            attrs_of(t0, n),
            attr_name_of(refs[k].kind),
        ) == Some(a) {
            Some(k)
        } else {
            last_writer(t0, refs.drop_last(), loads.drop_last(), n, a)
        }
    }
}

/// TreeNode `n` keeps its identity under rewriting: children, template fragment,
/// kind, tag, text, attribute count and attribute names are unchanged; only
/// attribute values may differ.
pub open spec fn node_shape_kept(t0: &Tree, t1: &Tree, n: int) -> bool {
    &&& t1.nodes[n].children@ == t0.nodes[n].children@
    &&& t1.nodes[n].template_contents == t0.nodes[n].template_contents
    &&& match t0.nodes[n].data {
        TreeData::Element { name: name0, attrs: attrs0 } => match t1.nodes[n].data {
            TreeData::Element { name: name1, attrs: attrs1 } => {
                &&& name1@ == name0@
                &&& attrs1@.len() == attrs0@.len()
                &&& forall|a: int|
                    0 <= a < attrs0@.len() ==> #[trigger] attrs1@[a].name@ == attrs0@[a].name@
            },
            _ => false,
        },
        _ => t1.nodes[n].data == t0.nodes[n].data,
    }
}

/// The value of attribute `a` of node `n`.
pub open spec fn attr_val(t: &Tree, n: int, a: int) -> Seq<char> {
    attrs_of(t, n)[a].value@
}

/// `t1` is `t0` with exactly the resolved references rewritten: shapes are
/// kept everywhere, each targeted attribute holds the rewritten text of its
/// effective writer, and every other attribute value is untouched.
pub open spec fn rewritten(
    t0: &Tree,
    refs: Seq<RefItem>,
    loads: Seq<Option<Vec<u8>>>,
    t1: &Tree,
) -> bool {
    &&& t1.nodes.len() == t0.nodes.len()
    &&& forall|n: int| 0 <= n < t0.nodes.len() ==> #[trigger] node_shape_kept(t0, t1, n)
    &&& forall|n: int, a: int|
        0 <= n < t0.nodes.len() && 0 <= a < attrs_of(t0, n).len() ==> match last_writer(
            t0,
            refs,
            loads,
            n,
            a,
        ) {
            Some(k) => #[trigger] attr_val(t1, n, a) == rewritten_value(
                refs[k].kind,
                refs[k].value@,
                loads[k]->0@,
            ),
            None => attr_val(t1, n, a) == attr_val(t0, n, a),
        }
}

/// Shape preservation keeps the arena well-formed.
proof fn lemma_shape_wf(t0: &Tree, t1: &Tree)
    requires
        t0.wf(),
        t1.nodes.len() == t0.nodes.len(),
        forall|n: int| 0 <= n < t0.nodes.len() ==> #[trigger] node_shape_kept(t0, t1, n),
    ensures
        t1.wf(),
{
    assert forall|i: int| 0 <= i < t1.nodes.len() implies t1.wf_at(i) by {
        assert(node_shape_kept(t0, t1, i));
        assert(t1.child_list(i) == t0.child_list(i));
        assert(t0.wf_at(i));
    }
}

/// Names unchanged means attribute lookup is unchanged.
proof fn lemma_find_attr_same_names(a0: Seq<Attr>, a1: Seq<Attr>, name: Seq<char>)
    requires
        a0.len() == a1.len(),
        forall|i: int| 0 <= i < a0.len() ==> #[trigger] a1[i].name@ == a0[i].name@,
    ensures
        find_attr(a1, name) == find_attr(a0, name),
    decreases a0.len(),
{
    if a0.len() > 0 {
        assert(forall|i: int|
            0 <= i < a0.drop_first().len() ==> #[trigger] a1.drop_first()[i].name@
                == a0.drop_first()[i].name@);
        lemma_find_attr_same_names(a0.drop_first(), a1.drop_first(), name);
    }
}

/// A page still to crawl: the reference text to resolve against this page's
/// search context, and the identity its result registers under.
pub struct FollowUp {
    pub rel: String,
    pub id: PageId,
}

fn set_attr_value(t: &mut Tree, n: usize, a: usize, v: String)
    requires
        n < old(t).nodes@.len(),
        old(t).nodes@[n as int].data is Element,
        a < attrs_of(old(t), n as int).len(),
    ensures
        final(t).nodes@.len() == old(t).nodes@.len(),
        forall|m: int|
            0 <= m < old(t).nodes@.len() && m != n ==> final(t).nodes@[m] == old(t).nodes@[m],
        node_shape_kept(old(t), final(t), n as int),
        forall|b: int|
            0 <= b < attrs_of(old(t), n as int).len() && b != a ==> attrs_of(final(t), n as int)[b]
                == attrs_of(old(t), n as int)[b],
        attrs_of(final(t), n as int)[a as int].value == v,
{
    match &mut t.nodes[n].data {
        TreeData::Element { attrs, .. } => {
            attrs[a].value = v;
        },
        _ => {
            proof {
                assert(false);
            }
        },
    }
}

fn new_value_for(item: &RefItem, data: &[u8]) -> (r: String)
    ensures
        r@ == rewritten_value(item.kind, item.value@, data@),
{
    match item.kind {
        RefKind::SrcInline => {
            let mt: &str = if has_extension(item.value.as_str(), "svg") {
                "image/svg+xml"
            } else if has_extension(item.value.as_str(), "png") {
                "image/png"
            } else {
                ""
            };
            proof {
                reveal_strlit("");
                assert(""@ =~= Seq::<char>::empty());
                assert(mt@ == media_type_of(item.value@));
            }
            create_data_url(mt, "", data)
        },
        RefKind::LinkHref => {
            proof {
                reveal_strlit("");
                assert(""@ =~= Seq::<char>::empty());
            }
            create_data_url("", "UTF-8", data)
        },
        RefKind::AnchorHref => {
            let id = PageId::from_bytes(data);
            let mut out: String = "#".to_owned();
            let hex = id.to_hex();
            out.append(hex.as_str());
            proof {
                reveal_strlit("#");
                assert(out@ =~= seq!['#'] + hex_of(page_id_of(data@)));
            }
            out
        },
    }
}


proof fn lemma_last_writer_bounds(
    t0: &Tree,
    refs: Seq<RefItem>,
    loads: Seq<Option<Vec<u8>>>,
    n: int,
    a: int,
)
    requires
        refs.len() == loads.len(),
    ensures
        last_writer(t0, refs, loads, n, a) is Some ==> {
            let w = last_writer(t0, refs, loads, n, a)->0;
            &&& 0 <= w < refs.len()
            &&& refs[w].node == n
            &&& load_ok(refs, loads, w)
            &&& find_attr(attrs_of(t0, n), attr_name_of(refs[w].kind)) == Some(a)
        },
    decreases refs.len(),
{
    if refs.len() > 0 {
        let k = refs.len() - 1;
        if !(refs[k].node == n && load_ok(refs, loads, k) && find_attr(
            attrs_of(t0, n),
            attr_name_of(refs[k].kind),
        ) == Some(a)) {
            lemma_last_writer_bounds(t0, refs.drop_last(), loads.drop_last(), n, a);
            if last_writer(t0, refs, loads, n, a) is Some {
                let w = last_writer(t0, refs, loads, n, a)->0;
                assert(refs.drop_last()[w] == refs[w]);
                assert(loads.drop_last()[w] == loads[w]);
            }
        }
    }
}

/// A resolved reference that contributed nothing new extends the processed
/// prefix unchanged.
proof fn lemma_rewritten_skip(
    t0: &Tree,
    refs: Seq<RefItem>,
    loads: Seq<Option<Vec<u8>>>,
    t1: &Tree,
    k: int,
)
    requires
        0 <= k < refs.len(),
        refs.len() == loads.len(),
        !load_ok(refs, loads, k),
        rewritten(t0, refs.take(k), loads.take(k), t1),
    ensures
        rewritten(t0, refs.take(k + 1), loads.take(k + 1), t1),
{
    let ra = refs.take(k + 1);
    let la = loads.take(k + 1);
    assert(ra.drop_last() =~= refs.take(k));
    assert(la.drop_last() =~= loads.take(k));
    assert(ra[k] == refs[k]);
    assert(la[k] == loads[k]);
    assert(!load_ok(ra, la, k));
    assert forall|n: int, a: int|
        0 <= n < t0.nodes.len() && 0 <= a < attrs_of(t0, n).len() implies match last_writer(
        t0,
        ra,
        la,
        n,
        a,
    ) {
        Some(w) => #[trigger] attr_val(t1, n, a) == rewritten_value(
            ra[w].kind,
            ra[w].value@,
            la[w]->0@,
        ),
        None => attr_val(t1, n, a) == attr_val(t0, n, a),
    } by {
        let prev = last_writer(t0, refs.take(k), loads.take(k), n, a);
        assert(last_writer(t0, ra, la, n, a) == prev);
        lemma_last_writer_bounds(t0, refs.take(k), loads.take(k), n, a);
        if prev is Some {
            let w = prev->0;
            assert(refs.take(k)[w] == refs[w]);
            assert(loads.take(k)[w] == loads[w]);
            assert(ra[w] == refs[w]);
            assert(la[w] == loads[w]);
        }
        assert(match prev {
            Some(w) => attr_val(t1, n, a) == rewritten_value(
                refs.take(k)[w].kind,
                refs.take(k)[w].value@,
                loads.take(k)[w]->0@,
            ),
            None => attr_val(t1, n, a) == attr_val(t0, n, a),
        });
    }
}

/// Writing the rewritten value of reference `k` into its target attribute
/// extends the processed prefix by one.
proof fn lemma_rewritten_write(
    t0: &Tree,
    refs: Seq<RefItem>,
    loads: Seq<Option<Vec<u8>>>,
    t1: &Tree,
    t2: &Tree,
    k: int,
    a: int,
)
    requires
        0 <= k < refs.len(),
        refs.len() == loads.len(),
        load_ok(refs, loads, k),
        ref_ok(t0, refs[k]),
        rewritten(t0, refs.take(k), loads.take(k), t1),
        find_attr(attrs_of(t0, refs[k].node as int), attr_name_of(refs[k].kind)) == Some(a),
        t2.nodes@.len() == t1.nodes@.len(),
        forall|m: int|
            0 <= m < t1.nodes@.len() && m != refs[k].node ==> t2.nodes@[m] == t1.nodes@[m],
        node_shape_kept(t1, t2, refs[k].node as int),
        forall|b: int|
            0 <= b < attrs_of(t1, refs[k].node as int).len() && b != a ==> attrs_of(
                t2,
                refs[k].node as int,
            )[b] == attrs_of(t1, refs[k].node as int)[b],
        attr_val(t2, refs[k].node as int, a) == rewritten_value(
            refs[k].kind,
            refs[k].value@,
            loads[k]->0@,
        ),
    ensures
        rewritten(t0, refs.take(k + 1), loads.take(k + 1), t2),
{
    let ra = refs.take(k + 1);
    let la = loads.take(k + 1);
    let tn = refs[k].node as int;
    assert(ra.drop_last() =~= refs.take(k));
    assert(la.drop_last() =~= loads.take(k));
    assert(ra[k] == refs[k]);
    assert(la[k] == loads[k]);
    assert forall|n: int| 0 <= n < t0.nodes.len() implies #[trigger] node_shape_kept(
        t0,
        t2,
        n,
    ) by {
        assert(node_shape_kept(t0, t1, n));
        if n != tn {
            assert(t2.nodes@[n] == t1.nodes@[n]);
        } else {
            assert(node_shape_kept(t1, t2, n));
        }
    }
    assert forall|n: int, a2: int|
        0 <= n < t0.nodes.len() && 0 <= a2 < attrs_of(t0, n).len() implies match last_writer(
        t0,
        ra,
        la,
        n,
        a2,
    ) {
        Some(w) => #[trigger] attr_val(t2, n, a2) == rewritten_value(
            ra[w].kind,
            ra[w].value@,
            la[w]->0@,
        ),
        None => attr_val(t2, n, a2) == attr_val(t0, n, a2),
    } by {
        let prev = last_writer(t0, refs.take(k), loads.take(k), n, a2);
        lemma_last_writer_bounds(t0, refs.take(k), loads.take(k), n, a2);
        if prev is Some {
            let w = prev->0;
            assert(refs.take(k)[w] == refs[w]);
            assert(loads.take(k)[w] == loads[w]);
            assert(ra[w] == refs[w]);
            assert(la[w] == loads[w]);
        }
        assert(match prev {
            Some(w) => attr_val(t1, n, a2) == rewritten_value(
                refs.take(k)[w].kind,
                refs.take(k)[w].value@,
                loads.take(k)[w]->0@,
            ),
            None => attr_val(t1, n, a2) == attr_val(t0, n, a2),
        });
        assert(node_shape_kept(t0, t1, n));
        assert(node_shape_kept(t0, t2, n));
        if n == tn && a2 == a {
            assert(load_ok(ra, la, k));
            assert(last_writer(t0, ra, la, n, a2) == Some(k));
        } else {
            assert(last_writer(t0, ra, la, n, a2) == prev);
            if n != tn {
                assert(t2.nodes@[n] == t1.nodes@[n]);
                assert(attr_val(t2, n, a2) == attr_val(t1, n, a2));
            } else {
                assert(attrs_of(t1, n).len() == attrs_of(t0, n).len());
                assert(attrs_of(t2, n)[a2] == attrs_of(t1, n)[a2]);
                assert(attr_val(t2, n, a2) == attr_val(t1, n, a2));
            }
        }
    }
}

/// An anchor to an SVG page, inlined as a leaf rather than crawled.
pub open spec fn is_svg_anchor(item: RefItem) -> bool {
    item.kind == RefKind::AnchorHref && ext_spec(item.value@) == Some("svg"@)
}

/// Reference `k` registers an SVG leaf page.
pub open spec fn svg_loaded_at(refs: Seq<RefItem>, loads: Seq<Option<Vec<u8>>>, k: int) -> bool {
    0 <= k < refs.len() && is_svg_anchor(refs[k]) && load_ok(refs, loads, k)
}

/// Reference `k` is a followed page link whose load resolved.
pub open spec fn follow_loaded_at(
    refs: Seq<RefItem>,
    loads: Seq<Option<Vec<u8>>>,
    k: int,
) -> bool {
    0 <= k < refs.len() && refs[k].kind == RefKind::AnchorHref && !is_svg_anchor(refs[k])
        && load_ok(refs, loads, k)
}

/// The title an SVG leaf page is registered under: its representative
/// caption, or the placeholder when it has none.
pub open spec fn svg_title_ok(st: &Tree, s: Seq<char>) -> bool {
    let ord = pre_node(st, 0);
    (exists|k: int|
        0 <= k < ord.len() && #[trigger] kept_caption_at(st, ord[k] as int) == Some(s) && (forall|
            j: int,
        | 0 <= j < k ==> kept_caption_at(st, ord[j] as int) is None)) || ((forall|k: int|
        0 <= k < ord.len() ==> kept_caption_at(st, ord[k] as int) is None) && s == "Unknown"@)
}

/// A registry entry for an SVG leaf loaded as `data`: the raw text itself as
/// content, with a title extracted from the text's own parse.
pub open spec fn svg_entry_ok(data: Seq<u8>, title: Seq<char>, content: Seq<char>) -> bool {
    encode_utf8(content) == data && parse_of(content) is Some && {
        let st = parse_of(content)->0;
        svg_title_ok(&st, title)
    }
}

/// Nothing already registered is ever removed.
pub open spec fn reg_monotone(
    reg0: Map<Seq<u8>, (Seq<char>, Seq<char>)>,
    reg1: Map<Seq<u8>, (Seq<char>, Seq<char>)>,
) -> bool {
    forall|id: Seq<u8>| reg0.contains_key(id) ==> #[trigger] reg1.contains_key(id)
}

/// Every key added to the registry is the content digest of some SVG leaf.
pub open spec fn reg_additions_svg(
    reg0: Map<Seq<u8>, (Seq<char>, Seq<char>)>,
    reg1: Map<Seq<u8>, (Seq<char>, Seq<char>)>,
    refs: Seq<RefItem>,
    loads: Seq<Option<Vec<u8>>>,
) -> bool {
    forall|id: Seq<u8>|
        #[trigger] reg1.contains_key(id) ==> reg0.contains_key(id) || exists|k: int|
            #[trigger] svg_loaded_at(refs, loads, k) && page_id_of(loads[k]->0@) == id
}

/// An existing entry whose key is not the digest of any SVG leaf keeps its
/// value exactly.
pub open spec fn reg_untouched(
    reg0: Map<Seq<u8>, (Seq<char>, Seq<char>)>,
    reg1: Map<Seq<u8>, (Seq<char>, Seq<char>)>,
    refs: Seq<RefItem>,
    loads: Seq<Option<Vec<u8>>>,
) -> bool {
    forall|id: Seq<u8>|
        reg0.contains_key(id) && !(exists|k: int|
            #[trigger] svg_loaded_at(refs, loads, k) && page_id_of(loads[k]->0@) == id)
            ==> #[trigger] reg1[id] == reg0[id]
}

/// What holds of the registry on every exit, early or not: nothing removed,
/// untargeted entries unchanged in value, and nothing but SVG leaves added.
pub open spec fn reg_preserved(
    reg0: Map<Seq<u8>, (Seq<char>, Seq<char>)>,
    reg1: Map<Seq<u8>, (Seq<char>, Seq<char>)>,
    refs: Seq<RefItem>,
    loads: Seq<Option<Vec<u8>>>,
) -> bool {
    reg_monotone(reg0, reg1) && reg_additions_svg(reg0, reg1, refs, loads) && reg_untouched(
        reg0,
        reg1,
        refs,
        loads,
    )
}

/// Every SVG leaf among the first `upto` references is registered under its
/// content digest, holding the raw text and caption of some SVG leaf with
/// that digest (the last one processed replaces earlier ones).
pub open spec fn reg_svg_entries(
    reg1: Map<Seq<u8>, (Seq<char>, Seq<char>)>,
    refs: Seq<RefItem>,
    loads: Seq<Option<Vec<u8>>>,
    upto: int,
) -> bool {
    forall|k: int|
        k < upto && #[trigger] svg_loaded_at(refs, loads, k) ==> {
            let id = page_id_of(loads[k]->0@);
            reg1.contains_key(id) && exists|k2: int|
                #[trigger] svg_loaded_at(refs, loads, k2) && page_id_of(loads[k2]->0@) == id
                    && svg_entry_ok(loads[k2]->0@, reg1[id].0, reg1[id].1)
        }
}

/// How the registry evolves over the first `upto` references: preserved as
/// above, with exactly the SVG leaves added.
pub open spec fn reg_evolved(
    reg0: Map<Seq<u8>, (Seq<char>, Seq<char>)>,
    reg1: Map<Seq<u8>, (Seq<char>, Seq<char>)>,
    refs: Seq<RefItem>,
    loads: Seq<Option<Vec<u8>>>,
    upto: int,
) -> bool {
    reg_preserved(reg0, reg1, refs, loads) && reg_svg_entries(reg1, refs, loads, upto)
}

/// Every queued follow-up stems from a followed link that was not already
/// registered when processing began: its identity is the linked content's
/// digest and it carries that link's reference text.
pub open spec fn fl_sourced(
    reg0: Map<Seq<u8>, (Seq<char>, Seq<char>)>,
    refs: Seq<RefItem>,
    loads: Seq<Option<Vec<u8>>>,
    fl: Seq<FollowUp>,
) -> bool {
    forall|j: int|
        0 <= j < fl.len() ==> !reg0.contains_key(#[trigger] fl[j].id@) && exists|k: int|
            #[trigger] follow_loaded_at(refs, loads, k) && fl[j].id@ == page_id_of(loads[k]->0@)
                && fl[j].rel == refs[k].value
}

/// Queued follow-ups carry pairwise distinct identities: a page reached
/// through several links is crawled once.
pub open spec fn fl_distinct(fl: Seq<FollowUp>) -> bool {
    forall|j1: int, j2: int| 0 <= j1 < j2 < fl.len() ==> fl[j1].id@ != fl[j2].id@
}

/// Every followed link among the first `upto` references whose page is still
/// unregistered has a queued follow-up.
pub open spec fn fl_complete(
    reg1: Map<Seq<u8>, (Seq<char>, Seq<char>)>,
    refs: Seq<RefItem>,
    loads: Seq<Option<Vec<u8>>>,
    fl: Seq<FollowUp>,
    upto: int,
) -> bool {
    forall|k: int|
        k < upto && #[trigger] follow_loaded_at(refs, loads, k) && !reg1.contains_key(
            page_id_of(loads[k]->0@),
        ) ==> exists|j: int| 0 <= j < fl.len() && #[trigger] fl[j].id@ == page_id_of(loads[k]->0@)
}

/// What the follow-up list promises over the first `upto` references.
pub open spec fn follows_ok(
    reg0: Map<Seq<u8>, (Seq<char>, Seq<char>)>,
    reg1: Map<Seq<u8>, (Seq<char>, Seq<char>)>,
    refs: Seq<RefItem>,
    loads: Seq<Option<Vec<u8>>>,
    fl: Seq<FollowUp>,
    upto: int,
) -> bool {
    fl_sourced(reg0, refs, loads, fl) && fl_distinct(fl) && fl_complete(
        reg1,
        refs,
        loads,
        fl,
        upto,
    )
}

/// A reference that neither registers a leaf nor follows a link leaves the
/// registry and follow-up statements standing for one more step.
#[verifier::rlimit(60)]
proof fn lemma_state_skip(
    reg0: Map<Seq<u8>, (Seq<char>, Seq<char>)>,
    reg1: Map<Seq<u8>, (Seq<char>, Seq<char>)>,
    refs: Seq<RefItem>,
    loads: Seq<Option<Vec<u8>>>,
    fl: Seq<FollowUp>,
    k: int,
)
    requires
        reg_evolved(reg0, reg1, refs, loads, k),
        follows_ok(reg0, reg1, refs, loads, fl, k),
        !svg_loaded_at(refs, loads, k),
        !follow_loaded_at(refs, loads, k),
    ensures
        reg_evolved(reg0, reg1, refs, loads, k + 1),
        follows_ok(reg0, reg1, refs, loads, fl, k + 1),
{
    assert forall|k2: int| k2 < k + 1 && #[trigger] svg_loaded_at(refs, loads, k2) implies {
        let id = page_id_of(loads[k2]->0@);
        reg1.contains_key(id) && exists|k3: int|
            #[trigger] svg_loaded_at(refs, loads, k3) && page_id_of(loads[k3]->0@) == id
                && svg_entry_ok(loads[k3]->0@, reg1[id].0, reg1[id].1)
    } by {
        assert(k2 < k);
    }
    assert forall|k2: int|
        k2 < k + 1 && #[trigger] follow_loaded_at(refs, loads, k2) && !reg1.contains_key(
            page_id_of(loads[k2]->0@),
        ) implies exists|j: int|
        0 <= j < fl.len() && #[trigger] fl[j].id@ == page_id_of(loads[k2]->0@) by {
        assert(k2 < k);
    }
}

/// Registering the SVG leaf of reference `k` extends the registry statement
/// by one step and leaves the follow-up statement standing.
#[verifier::rlimit(100)]
proof fn lemma_state_svg(
    reg0: Map<Seq<u8>, (Seq<char>, Seq<char>)>,
    regp: Map<Seq<u8>, (Seq<char>, Seq<char>)>,
    reg1: Map<Seq<u8>, (Seq<char>, Seq<char>)>,
    refs: Seq<RefItem>,
    loads: Seq<Option<Vec<u8>>>,
    fl: Seq<FollowUp>,
    k: int,
    title: Seq<char>,
    content: Seq<char>,
)
    requires
        reg_evolved(reg0, regp, refs, loads, k),
        follows_ok(reg0, regp, refs, loads, fl, k),
        svg_loaded_at(refs, loads, k),
        svg_entry_ok(loads[k]->0@, title, content),
        reg1 == regp.insert(page_id_of(loads[k]->0@), (title, content)),
    ensures
        reg_evolved(reg0, reg1, refs, loads, k + 1),
        follows_ok(reg0, reg1, refs, loads, fl, k + 1),
{
    let idv = page_id_of(loads[k]->0@);
    assert forall|id2: Seq<u8>| #[trigger] reg1.contains_key(id2) implies reg0.contains_key(id2)
        || exists|k2: int|
        #[trigger] svg_loaded_at(refs, loads, k2) && page_id_of(loads[k2]->0@) == id2 by {
        if id2 == idv {
            assert(svg_loaded_at(refs, loads, k) && page_id_of(loads[k]->0@) == id2);
        } else {
            assert(regp.contains_key(id2));
        }
    }
    assert forall|id: Seq<u8>|
        reg0.contains_key(id) && !(exists|k2: int|
            #[trigger] svg_loaded_at(refs, loads, k2) && page_id_of(loads[k2]->0@) == id) implies
        #[trigger] reg1[id] == reg0[id] by {
        assert(id != idv);
        assert(reg1[id] == regp[id]);
    }
    assert forall|k2: int| k2 < k + 1 && #[trigger] svg_loaded_at(refs, loads, k2) implies {
        let id2 = page_id_of(loads[k2]->0@);
        reg1.contains_key(id2) && exists|k3: int|
            #[trigger] svg_loaded_at(refs, loads, k3) && page_id_of(loads[k3]->0@) == id2
                && svg_entry_ok(loads[k3]->0@, reg1[id2].0, reg1[id2].1)
    } by {
        let id2 = page_id_of(loads[k2]->0@);
        if id2 == idv {
            assert(reg1[id2] == (title, content));
            assert(svg_loaded_at(refs, loads, k) && page_id_of(loads[k]->0@) == id2
                && svg_entry_ok(loads[k]->0@, reg1[id2].0, reg1[id2].1));
        } else {
            assert(k2 < k);
            assert(regp.contains_key(id2) && exists|k3: int|
                #[trigger] svg_loaded_at(refs, loads, k3) && page_id_of(loads[k3]->0@) == id2
                    && svg_entry_ok(loads[k3]->0@, regp[id2].0, regp[id2].1));
            let k3 = choose|k3: int|
                #[trigger] svg_loaded_at(refs, loads, k3) && page_id_of(loads[k3]->0@) == id2
                    && svg_entry_ok(loads[k3]->0@, regp[id2].0, regp[id2].1);
            assert(reg1[id2] == regp[id2]);
            assert(svg_loaded_at(refs, loads, k3) && page_id_of(loads[k3]->0@) == id2
                && svg_entry_ok(loads[k3]->0@, reg1[id2].0, reg1[id2].1));
        }
    }
    assert forall|k2: int|
        k2 < k + 1 && #[trigger] follow_loaded_at(refs, loads, k2) && !reg1.contains_key(
            page_id_of(loads[k2]->0@),
        ) implies exists|j: int|
        0 <= j < fl.len() && #[trigger] fl[j].id@ == page_id_of(loads[k2]->0@) by {
        assert(k2 < k);
        assert(!regp.contains_key(page_id_of(loads[k2]->0@)));
    }
}

/// A followed link that is already registered or already queued adds nothing.
#[verifier::rlimit(60)]
proof fn lemma_state_follow_nopush(
    reg0: Map<Seq<u8>, (Seq<char>, Seq<char>)>,
    reg1: Map<Seq<u8>, (Seq<char>, Seq<char>)>,
    refs: Seq<RefItem>,
    loads: Seq<Option<Vec<u8>>>,
    fl: Seq<FollowUp>,
    k: int,
)
    requires
        reg_evolved(reg0, reg1, refs, loads, k),
        follows_ok(reg0, reg1, refs, loads, fl, k),
        follow_loaded_at(refs, loads, k),
        !svg_loaded_at(refs, loads, k),
        reg1.contains_key(page_id_of(loads[k]->0@)) || exists|j: int|
            0 <= j < fl.len() && #[trigger] fl[j].id@ == page_id_of(loads[k]->0@),
    ensures
        reg_evolved(reg0, reg1, refs, loads, k + 1),
        follows_ok(reg0, reg1, refs, loads, fl, k + 1),
{
    assert forall|k2: int| k2 < k + 1 && #[trigger] svg_loaded_at(refs, loads, k2) implies {
        let id = page_id_of(loads[k2]->0@);
        reg1.contains_key(id) && exists|k3: int|
            #[trigger] svg_loaded_at(refs, loads, k3) && page_id_of(loads[k3]->0@) == id
                && svg_entry_ok(loads[k3]->0@, reg1[id].0, reg1[id].1)
    } by {
        assert(k2 < k);
    }
    assert forall|k2: int|
        k2 < k + 1 && #[trigger] follow_loaded_at(refs, loads, k2) && !reg1.contains_key(
            page_id_of(loads[k2]->0@),
        ) implies exists|j: int|
        0 <= j < fl.len() && #[trigger] fl[j].id@ == page_id_of(loads[k2]->0@) by {
        if k2 == k {
            assert(exists|j: int|
                0 <= j < fl.len() && #[trigger] fl[j].id@ == page_id_of(loads[k]->0@));
        }
    }
}

/// Queuing a follow-up for reference `k` keeps the follow-up statement.
#[verifier::rlimit(100)]
proof fn lemma_state_follow_push(
    reg0: Map<Seq<u8>, (Seq<char>, Seq<char>)>,
    reg1: Map<Seq<u8>, (Seq<char>, Seq<char>)>,
    refs: Seq<RefItem>,
    loads: Seq<Option<Vec<u8>>>,
    fl: Seq<FollowUp>,
    f: FollowUp,
    k: int,
)
    requires
        reg_evolved(reg0, reg1, refs, loads, k),
        follows_ok(reg0, reg1, refs, loads, fl, k),
        follow_loaded_at(refs, loads, k),
        !svg_loaded_at(refs, loads, k),
        f.id@ == page_id_of(loads[k]->0@),
        f.rel == refs[k].value,
        !reg1.contains_key(f.id@),
        !(exists|j: int| 0 <= j < fl.len() && #[trigger] fl[j].id@ == f.id@),
    ensures
        reg_evolved(reg0, reg1, refs, loads, k + 1),
        follows_ok(reg0, reg1, refs, loads, fl.push(f), k + 1),
{
    let fl1 = fl.push(f);
    assert(!reg0.contains_key(f.id@));
    assert forall|k2: int| k2 < k + 1 && #[trigger] svg_loaded_at(refs, loads, k2) implies {
        let id = page_id_of(loads[k2]->0@);
        reg1.contains_key(id) && exists|k3: int|
            #[trigger] svg_loaded_at(refs, loads, k3) && page_id_of(loads[k3]->0@) == id
                && svg_entry_ok(loads[k3]->0@, reg1[id].0, reg1[id].1)
    } by {
        assert(k2 < k);
    }
    assert forall|j: int| 0 <= j < fl1.len() implies !reg0.contains_key(#[trigger] fl1[j].id@)
        && exists|k2: int|
        #[trigger] follow_loaded_at(refs, loads, k2) && fl1[j].id@ == page_id_of(loads[k2]->0@)
            && fl1[j].rel == refs[k2].value by {
        if j < fl.len() {
            assert(fl1[j] == fl[j]);
            assert(!reg0.contains_key(fl[j].id@) && exists|k2: int|
                #[trigger] follow_loaded_at(refs, loads, k2) && fl[j].id@ == page_id_of(
                    loads[k2]->0@,
                ) && fl[j].rel == refs[k2].value);
            let k2 = choose|k2: int|
                #[trigger] follow_loaded_at(refs, loads, k2) && fl[j].id@ == page_id_of(
                    loads[k2]->0@,
                ) && fl[j].rel == refs[k2].value;
            assert(follow_loaded_at(refs, loads, k2) && fl1[j].id@ == page_id_of(loads[k2]->0@)
                && fl1[j].rel == refs[k2].value);
        } else {
            assert(fl1[j] == f);
            assert(follow_loaded_at(refs, loads, k) && fl1[j].id@ == page_id_of(loads[k]->0@)
                && fl1[j].rel == refs[k].value);
        }
    }
    assert forall|j1: int, j2: int| 0 <= j1 < j2 < fl1.len() implies fl1[j1].id@
        != fl1[j2].id@ by {
        if j2 < fl.len() {
            assert(fl[j1].id@ != fl[j2].id@);
        } else {
            assert(fl1[j1] == fl[j1]);
            assert(fl1[j2] == f);
        }
    }
    assert forall|k2: int|
        k2 < k + 1 && #[trigger] follow_loaded_at(refs, loads, k2) && !reg1.contains_key(
            page_id_of(loads[k2]->0@),
        ) implies exists|j: int|
        0 <= j < fl1.len() && #[trigger] fl1[j].id@ == page_id_of(loads[k2]->0@) by {
        if k2 < k {
            assert(exists|j: int|
                0 <= j < fl.len() && #[trigger] fl[j].id@ == page_id_of(loads[k2]->0@));
            let j = choose|j: int|
                0 <= j < fl.len() && #[trigger] fl[j].id@ == page_id_of(loads[k2]->0@);
            assert(fl1[j].id@ == page_id_of(loads[k2]->0@));
        } else {
            assert(fl1[fl.len() as int].id@ == page_id_of(loads[k]->0@));
        }
    }
}

/// Relies on str::from_utf8: it accepts exactly the valid UTF-8 byte
/// sequences and yields the text whose encoding the input is.
#[verifier::external_body]
fn bytes_to_text(b: &[u8]) -> (r: Option<String>)
    ensures
        r is Some <==> valid_utf8(b@),
        r is Some ==> encode_utf8(r->0@) == b@,
{
    match std::str::from_utf8(b) {
        Ok(s) => Some(s.to_string()),
        Err(_) => None,
    }
}

/// A rewritten page together with what it asks of the caller: the rewritten
/// tree, the page to render, and the linked pages still to crawl.
pub struct PageOut {
    pub tree: Tree,
    pub page: PageWrapping,
    pub follow: Vec<FollowUp>,
}

/// Resolve a planned page against the loaded bytes of its references:
/// rewrite each resolved attribute in place (a failed load leaves its
/// attribute exactly as it was), register SVG leaf pages, report the linked
/// pages that still need crawling, and serialize the rewritten body. The
/// call fails only when an SVG leaf does not parse or the rewritten body
/// does not serialize; otherwise success is owed.
#[verifier::rlimit(100)]
pub fn page_apply(plan: PagePlan, loads: &Vec<Option<Vec<u8>>>, registry: &mut PageRegistry) -> (r:
    Result<PageOut, CrawlError>)
    requires
        plan.tree.wf(),
        plan.body < plan.tree.nodes@.len(),
        plan.refs@ == refs_spec(&plan.tree, pre_node(&plan.tree, plan.body)),
        loads@.len() == plan.refs@.len(),
        old(registry).wf(),
    ensures
        final(registry).wf(),
        reg_preserved(old(registry)@, final(registry)@, plan.refs@, loads@),
        r is Err ==> r->Err_0 == CrawlError::Parse || r->Err_0 == CrawlError::Serialization,
        r is Err && r->Err_0 == CrawlError::Parse ==> exists|k: int, s: Seq<char>|
            #![trigger svg_loaded_at(plan.refs@, loads@, k), encode_utf8(s)]
            svg_loaded_at(plan.refs@, loads@, k) && encode_utf8(s) == loads@[k]->0@ && parse_of(
                s,
            ) is None,
        r is Err && r->Err_0 == CrawlError::Serialization ==> exists|t1: Tree|
            #![trigger serial_of(t1, plan.body as int)]
            rewritten(&plan.tree, plan.refs@, loads@, &t1) && serial_of(
                t1,
                plan.body as int,
            ) is None,
        ((forall|k: int, s: Seq<char>|
            #![trigger svg_loaded_at(plan.refs@, loads@, k), encode_utf8(s)]
            svg_loaded_at(plan.refs@, loads@, k) && encode_utf8(s) == loads@[k]->0@ ==> parse_of(
                s,
            ) is Some) && (forall|t1: Tree|
            #![trigger serial_of(t1, plan.body as int)]
            rewritten(&plan.tree, plan.refs@, loads@, &t1) ==> serial_of(
                t1,
                plan.body as int,
            ) is Some)) ==> r is Ok,
        r is Ok ==> {
            let out = r->Ok_0;
            &&& rewritten(&plan.tree, plan.refs@, loads@, &out.tree)
            &&& out.tree.wf()
            &&& out.page.title == plan.title
            &&& serial_of(out.tree, plan.body as int) is Some
            &&& out.page.content@ == serial_of(out.tree, plan.body as int)->0
            &&& reg_evolved(
                old(registry)@,
                final(registry)@,
                plan.refs@,
                loads@,
                plan.refs@.len() as int,
            )
            &&& follows_ok(
                old(registry)@,
                final(registry)@,
                plan.refs@,
                loads@,
                out.follow@,
                plan.refs@.len() as int,
            )
        },
{
    let PagePlan { mut tree, body, title, refs } = plan;
    let ghost t0 = tree;
    let ghost reg0 = registry@;
    proof {
        lemma_pre_node_bounds(&t0, body);
        lemma_refs_ok(&t0, pre_node(&t0, body));
        assert(refs@.take(0) =~= Seq::<RefItem>::empty());
        assert(loads@.take(0) =~= Seq::<Option<Vec<u8>>>::empty());
        assert forall|n: int| 0 <= n < t0.nodes.len() implies #[trigger] node_shape_kept(
            &t0,
            &t0,
            n,
        ) by {
            match t0.nodes[n].data {
                TreeData::Element { .. } => {
                    assert(t0.nodes[n].data is Element);
                },
                _ => {},
            }
        }
    }
    let mut follow: Vec<FollowUp> = Vec::new();
    let mut k: usize = 0;
    while k < refs.len()
        invariant
            loads@.len() == refs@.len(),
            k <= refs@.len(),
            t0.wf(),
            t0 == plan.tree,
            refs@ == plan.refs@,
            reg0 == old(registry)@,
            body == plan.body,
            body < t0.nodes@.len(),
            forall|k2: int| 0 <= k2 < refs@.len() ==> ref_ok(&t0, #[trigger] refs@[k2]),
            tree.nodes@.len() == t0.nodes@.len(),
            forall|n: int| 0 <= n < t0.nodes.len() ==> #[trigger] node_shape_kept(&t0, &tree, n),
            rewritten(&t0, refs@.take(k as int), loads@.take(k as int), &tree),
            tree.wf(),
            registry.wf(),
            reg_evolved(reg0, registry@, refs@, loads@, k as int),
            follows_ok(reg0, registry@, refs@, loads@, follow@, k as int),
        decreases refs@.len() - k,
    {
        let item = &refs[k];
        proof {
            assert(ref_ok(&t0, refs@[k as int]));
        }
        match &loads[k] {
            None => {
                proof {
                    assert(!load_ok(refs@, loads@, k as int));
                    lemma_rewritten_skip(&t0, refs@, loads@, &tree, k as int);
                    lemma_state_skip(reg0, registry@, refs@, loads@, follow@, k as int);
                }
            },
            Some(bytes) => {
                let is_anchor = match item.kind {
                    RefKind::AnchorHref => true,
                    _ => false,
                };
                let text_opt: Option<String> = if is_anchor {
                    bytes_to_text(bytes.as_slice())
                } else {
                    None
                };
                if is_anchor && text_opt.is_none() {
                    // a followed link whose bytes are not text does not
                    // resolve: the attribute stays as it was
                    proof {
                        assert(!valid_utf8(loads@[k as int]->0@));
                        assert(!load_ok(refs@, loads@, k as int));
                        lemma_rewritten_skip(&t0, refs@, loads@, &tree, k as int);
                        lemma_state_skip(reg0, registry@, refs@, loads@, follow@, k as int);
                    }
                } else {
                    proof {
                        assert(load_ok(refs@, loads@, k as int));
                    }
                    let name: &str = match item.kind {
                        RefKind::SrcInline => "src",
                        RefKind::LinkHref => "href",
                        RefKind::AnchorHref => "href",
                    };
                    proof {
                        assert(name@ == attr_name_of(item.kind));
                        assert(node_shape_kept(&t0, &tree, item.node as int));
                    }
                    let a_opt = match &tree.nodes[item.node].data {
                        TreeData::Element { attrs, .. } => {
                            proof {
                                lemma_find_attr_same_names(
                                    attrs_of(&t0, item.node as int),
                                    attrs@,
                                    name@,
                                );
                            }
                            find_attr_exec(attrs, name)
                        },
                        _ => {
                            proof {
                                assert(false);
                            }
                            None
                        },
                    };
                    let a = match a_opt {
                        Some(a) => a,
                        None => {
                            proof {
                                assert(false);
                            }
                            0
                        },
                    };
                    let ghost tree_before = tree;
                    let v = new_value_for(item, bytes.as_slice());
                    set_attr_value(&mut tree, item.node, a, v);
                    proof {
                        lemma_rewritten_write(
                            &t0,
                            refs@,
                            loads@,
                            &tree_before,
                            &tree,
                            k as int,
                            a as int,
                        );
                        assert forall|n: int| 0 <= n < t0.nodes.len() implies
                            #[trigger] node_shape_kept(&t0, &tree, n) by {
                            assert(node_shape_kept(&t0, &tree_before, n));
                            if n != item.node {
                                assert(tree.nodes@[n] == tree_before.nodes@[n]);
                            } else {
                                assert(node_shape_kept(&tree_before, &tree, n));
                            }
                        }
                        lemma_shape_wf(&t0, &tree);
                    }
                    if is_anchor {
                        let text = match text_opt {
                            Some(t) => t,
                            None => {
                                proof {
                                    assert(false);
                                }
                                String::new()
                            },
                        };
                        let id = PageId::from_bytes(bytes.as_slice());
                        if has_extension(item.value.as_str(), "svg") {
                            proof {
                                assert(svg_loaded_at(refs@, loads@, k as int));
                                assert(encode_utf8(text@) == loads@[k as int]->0@);
                            }
                            let st = match parse_tree(text.as_str()) {
                                Ok(st) => st,
                                Err(e) => {
                                    proof {
                                        assert(svg_loaded_at(refs@, loads@, k as int)
                                            && encode_utf8(text@) == loads@[k as int]->0@
                                            && parse_of(text@) is None);
                                    }
                                    return Err(e);
                                },
                            };
                            let svg_title = match extract_svg_title(&st) {
                                Some(s) => s,
                                None => "Unknown".to_owned(),
                            };
                            proof {
                                assert(svg_title_ok(&st, svg_title@));
                            }
                            let ghost regp = registry@;
                            let ghost titlev = svg_title@;
                            let ghost textv = text@;
                            registry.insert(
                                id,
                                PageWrapping { title: svg_title, content: text },
                            );
                            proof {
                                assert(registry@ == regp.insert(
                                    page_id_of(loads@[k as int]->0@),
                                    (titlev, textv),
                                ));
                                assert(svg_entry_ok(loads@[k as int]->0@, titlev, textv));
                                lemma_state_svg(
                                    reg0,
                                    regp,
                                    registry@,
                                    refs@,
                                    loads@,
                                    follow@,
                                    k as int,
                                    titlev,
                                    textv,
                                );
                            }
                        } else {
                            proof {
                                assert(follow_loaded_at(refs@, loads@, k as int));
                                assert(!svg_loaded_at(refs@, loads@, k as int));
                            }
                            if !registry.contains(&id) {
                                let mut seen = false;
                                let mut f: usize = 0;
                                while f < follow.len()
                                    invariant
                                        f <= follow@.len(),
                                        id@ == page_id_of(loads@[k as int]->0@),
                                        seen <==> exists|j: int|
                                            0 <= j < f && #[trigger] follow@[j].id@ == id@,
                                    decreases follow@.len() - f,
                                {
                                    if follow[f].id.eq_id(&id) {
                                        assert(follow@[f as int].id@ == id@);
                                        seen = true;
                                    }
                                    f += 1;
                                }
                                if !seen {
                                    let fu = FollowUp { rel: item.value.clone(), id };
                                    proof {
                                        lemma_state_follow_push(
                                            reg0,
                                            registry@,
                                            refs@,
                                            loads@,
                                            follow@,
                                            fu,
                                            k as int,
                                        );
                                    }
                                    follow.push(fu);
                                } else {
                                    proof {
                                        lemma_state_follow_nopush(
                                            reg0,
                                            registry@,
                                            refs@,
                                            loads@,
                                            follow@,
                                            k as int,
                                        );
                                    }
                                }
                            } else {
                                proof {
                                    lemma_state_follow_nopush(
                                        reg0,
                                        registry@,
                                        refs@,
                                        loads@,
                                        follow@,
                                        k as int,
                                    );
                                }
                            }
                        }
                    } else {
                        proof {
                            assert(!svg_loaded_at(refs@, loads@, k as int));
                            assert(!follow_loaded_at(refs@, loads@, k as int));
                            lemma_state_skip(reg0, registry@, refs@, loads@, follow@, k as int);
                        }
                    }
                }
            },
        }
        k += 1;
    }
    proof {
        assert(refs@.take(refs@.len() as int) =~= refs@);
        assert(loads@.take(loads@.len() as int) =~= loads@);
    }
    let content = match node_to_content(&tree, body) {
        Ok(c) => c,
        Err(e) => {
            return Err(e);
        },
    };
    Ok(PageOut { tree, page: PageWrapping { title, content }, follow })
}

/// Remote references are never touched: any attribute value that starts with
/// the network prefix is exactly the same after rewriting, whatever was
/// loaded for the page's other references.
pub proof fn lemma_remote_values_unchanged(
    t0: &Tree,
    body: usize,
    refs: Seq<RefItem>,
    loads: Seq<Option<Vec<u8>>>,
    t1: &Tree,
    n: int,
    a: int,
)
    requires
        t0.wf(),
        body < t0.nodes@.len(),
        refs == refs_spec(t0, pre_node(t0, body)),
        refs.len() == loads.len(),
        rewritten(t0, refs, loads, t1),
        0 <= n < t0.nodes@.len(),
        0 <= a < attrs_of(t0, n).len(),
        has_prefix(attrs_of(t0, n)[a].value@, "http"@),
    ensures
        attr_val(t1, n, a) == attr_val(t0, n, a),
{
    lemma_pre_node_bounds(t0, body);
    lemma_refs_ok(t0, pre_node(t0, body));
    lemma_last_writer_bounds(t0, refs, loads, n, a);
    if last_writer(t0, refs, loads, n, a) is Some {
        let w = last_writer(t0, refs, loads, n, a)->0;
        assert(ref_ok(t0, refs[w]));
        lemma_find_attr_in_range(attrs_of(t0, n), attr_name_of(refs[w].kind));
        assert(attrs_of(t0, n)[a].value == refs[w].value);
        assert(!has_prefix(refs[w].value@, "http"@));
    }
}

} // verus!
