use single_page_html::codec::{create_data_url, decode_data_url};
use single_page_html::crawler::{page_apply, page_plan, search_context, RefKind};
use single_page_html::ident::PageId;
use single_page_html::registry::{PageRegistry, PageWrapping};
use single_page_html::strutil::{path_join, has_extension, str_trim};

#[test]
fn data_url_png_bytes() {
    let url = create_data_url("image/png", "UTF-8", &[0x89u8, 0x50u8]);
    assert_eq!(url, "data:image/png;charset=UTF-8;base64,iVA");
}

#[test]
fn data_url_default_charset_omitted() {
    let url = create_data_url("image/png", "US-ASCII", &[0x89u8, 0x50u8]);
    assert_eq!(url, "data:image/png;base64,iVA");
    let url2 = create_data_url("image/png", "  us-ascii  ", &[0x89u8, 0x50u8]);
    assert_eq!(url2, "data:image/png;base64,iVA");
    let url3 = create_data_url("", "", b"");
    assert_eq!(url3, "data:;base64,");
}

#[test]
fn data_url_round_trip() {
    let bytes = vec![0u8, 1, 2, 250, 255, 137, 80, 78, 71];
    let url = create_data_url("image/png", "UTF-8", &bytes);
    let back = decode_data_url(&url).expect("payload decodes");
    assert_eq!(back, bytes);
    let direct = base64::Engine::decode(
        &base64::engine::general_purpose::STANDARD_NO_PAD,
        url.split(',').nth(1).unwrap(),
    )
    .unwrap();
    assert_eq!(direct, bytes);
}

#[test]
fn page_id_deterministic_and_exact() {
    let a = PageId::from_content("abc");
    let b = PageId::from_content("abc");
    assert_eq!(
        a.to_hex(),
        "ba7816bf8f01cfea414140de5dae2223b00361a396177a9cb410ff61f20015ad"
    );
    assert_eq!(a.to_hex(), b.to_hex());
    assert!(a.eq_id(&b));
    let c = PageId::from_content("abd");
    assert!(!a.eq_id(&c));
}

#[test]
fn search_context_rules() {
    assert_eq!(search_context("a/b/c.html", "zz"), "a/b");
    assert_eq!(search_context("c.html", "zz"), "");
    assert_eq!(search_context("", "zz"), "zz");
    assert_eq!(search_context("/", "zz"), "zz");
    assert_eq!(path_join("a/b", "c.html"), "a/b/c.html");
    assert_eq!(path_join("", "c.html"), "c.html");
    assert_eq!(path_join("a/b", "/abs.html"), "/abs.html");
    assert!(has_extension("x/y.svg", "svg"));
    assert!(!has_extension("x/ysvg", "svg"));
    assert!(!has_extension(".svg", "svg"));
    assert_eq!(str_trim("  a b\t"), "a b");
}

#[test]
fn plan_extracts_title_and_refs() {
    let plan = page_plan(
        "<html><head><title>T</title></head><body><a href=\"b.html\">B</a>\
         <img src=\"logo.png\"></body></html>",
    )
    .expect("plan");
    assert_eq!(plan.title, "T");
    assert_eq!(plan.refs.len(), 2);
    assert_eq!(plan.refs[0].kind, RefKind::AnchorHref);
    assert_eq!(plan.refs[0].value, "b.html");
    assert_eq!(plan.refs[1].kind, RefKind::SrcInline);
    assert_eq!(plan.refs[1].value, "logo.png");
}

#[test]
fn plan_missing_title_placeholder() {
    let plan = page_plan("<html><body>x</body></html>").expect("plan");
    assert_eq!(plan.title, "Missing title");
}

#[test]
fn remote_refs_are_skipped_entirely() {
    let plan = page_plan(
        "<body><a href=\"http://example.com/x.html\">r</a>\
         <img src=\"httpfoo\"></body>",
    )
    .expect("plan");
    // the img src starting with "http" blocks that node; the anchor is remote
    assert_eq!(plan.refs.len(), 0);
    let mut reg = PageRegistry::new();
    let loads: Vec<Option<Vec<u8>>> = Vec::new();
    let out = page_apply(plan, &loads, &mut reg).expect("apply");
    assert!(out.page.content.contains("href=\"http://example.com/x.html\""));
    assert!(out.page.content.contains("src=\"httpfoo\""));
    assert_eq!(reg.len(), 0);
    assert_eq!(out.follow.len(), 0);
}

#[test]
fn unreadable_reference_left_untouched() {
    let plan = page_plan("<body><img src=\"gone.png\"><p>rest</p></body>").expect("plan");
    assert_eq!(plan.refs.len(), 1);
    let mut reg = PageRegistry::new();
    let loads: Vec<Option<Vec<u8>>> = vec![None];
    let out = page_apply(plan, &loads, &mut reg).expect("apply continues");
    assert!(out.page.content.contains("src=\"gone.png\""));
    assert!(out.page.content.contains("<p>rest</p>"));
}

#[test]
fn img_src_becomes_binary_data_url() {
    // raw PNG bytes inline with no charset segment
    let plan = page_plan("<body><img src=\"logo.png\"></body>").expect("plan");
    let mut reg = PageRegistry::new();
    let loads: Vec<Option<Vec<u8>>> = vec![Some(vec![0x89u8, 0x50u8])];
    let out = page_apply(plan, &loads, &mut reg).expect("apply");
    assert!(out.page.content.contains("src=\"data:image/png;base64,iVA\""));
}

#[test]
fn script_src_is_inlined_too() {
    // a local src reference is inlined whatever the tag
    let plan = page_plan("<body><script src=\"app.js\"></script></body>").expect("plan");
    assert_eq!(plan.refs.len(), 1);
    assert_eq!(plan.refs[0].kind, RefKind::SrcInline);
    let mut reg = PageRegistry::new();
    let js = b"x=1".to_vec();
    let loads: Vec<Option<Vec<u8>>> = vec![Some(js.clone())];
    let out = page_apply(plan, &loads, &mut reg).expect("apply");
    let expected = create_data_url("", "", &js);
    assert!(out.page.content.contains(&expected));
}

#[test]
fn media_type_goes_by_extension_not_suffix() {
    let plan = page_plan("<body><img src=\"logo.xsvg\"></body>").expect("plan");
    let mut reg = PageRegistry::new();
    let loads: Vec<Option<Vec<u8>>> = vec![Some(vec![1u8, 2u8])];
    let out = page_apply(plan, &loads, &mut reg).expect("apply");
    // "xsvg" is not the "svg" extension: the media type is empty
    assert!(out.page.content.contains("src=\"data:;base64,AQI\""));
}

#[test]
fn anchor_to_binary_content_is_left_untouched() {
    // a followed link must hold text; invalid UTF-8 behaves as a failed load
    let plan = page_plan("<body><a href=\"b.bin\">B</a></body>").expect("plan");
    let mut reg = PageRegistry::new();
    let loads: Vec<Option<Vec<u8>>> = vec![Some(vec![0xFFu8, 0xFEu8])];
    let out = page_apply(plan, &loads, &mut reg).expect("apply");
    assert!(out.page.content.contains("href=\"b.bin\""));
    assert_eq!(out.follow.len(), 0);
    assert_eq!(reg.len(), 0);
}

#[test]
fn link_href_becomes_typeless_data_url() {
    let plan = page_plan("<body><link href=\"style.css\"></body>").expect("plan");
    let mut reg = PageRegistry::new();
    let css = "b{color:red}".to_string();
    let loads: Vec<Option<Vec<u8>>> = vec![Some(css.clone().into_bytes())];
    let out = page_apply(plan, &loads, &mut reg).expect("apply");
    let expected = create_data_url("", "UTF-8", css.as_bytes());
    assert!(out.page.content.contains(&expected));
}

#[test]
fn two_page_crawl_rewrites_anchor_and_registers_once() {
    // root index.html links to b.html; the test plays the thin driver
    let b_text = "<body>Hi</body>".to_string();
    let plan = page_plan("<body><a href=\"b.html\">B</a></body>").expect("plan");
    let mut reg = PageRegistry::new();
    let loads: Vec<Option<Vec<u8>>> = vec![Some(b_text.clone().into_bytes())];
    let out = page_apply(plan, &loads, &mut reg).expect("apply");
    let id = PageId::from_content(&b_text);
    assert!(out
        .page
        .content
        .contains(&format!("<a href=\"#{}\">B</a>", id.to_hex())));
    assert_eq!(out.follow.len(), 1);
    assert_eq!(out.follow[0].rel, "b.html");
    assert!(out.follow[0].id.eq_id(&id));
    // drive the follow-up
    let child_plan = page_plan(&b_text).expect("child plan");
    let no_loads: Vec<Option<Vec<u8>>> = Vec::new();
    let child_out = page_apply(child_plan, &no_loads, &mut reg).expect("child apply");
    reg.insert(out.follow[0].id.clone(), child_out.page);
    assert_eq!(reg.len(), 1);
    let entry = reg.get(&id).expect("registered");
    assert!(entry.content.contains("Hi"));
}

#[test]
fn byte_identical_pages_dedup_to_one_follow_up() {
    // two distinct relative paths with identical target content
    let text = "<body>Same</body>".to_string();
    let plan = page_plan(
        "<body><a href=\"one.html\">1</a><a href=\"two.html\">2</a></body>",
    )
    .expect("plan");
    assert_eq!(plan.refs.len(), 2);
    let mut reg = PageRegistry::new();
    let loads: Vec<Option<Vec<u8>>> = vec![
        Some(text.clone().into_bytes()),
        Some(text.clone().into_bytes()),
    ];
    let out = page_apply(plan, &loads, &mut reg).expect("apply");
    assert_eq!(out.follow.len(), 1, "second discovery is a no-op");
    let id = PageId::from_content(&text);
    let hex = id.to_hex();
    assert!(out.page.content.contains(&format!("<a href=\"#{}\">1</a>", hex)));
    assert!(out.page.content.contains(&format!("<a href=\"#{}\">2</a>", hex)));
}

#[test]
fn svg_link_is_a_leaf() {
    let svg = "<svg><a href=\"other.html\">inner</a><text><tspan>Cap</tspan></text></svg>"
        .to_string();
    let plan = page_plan("<body><a href=\"pic.svg\">S</a></body>").expect("plan");
    let mut reg = PageRegistry::new();
    let loads: Vec<Option<Vec<u8>>> = vec![Some(svg.clone().into_bytes())];
    let out = page_apply(plan, &loads, &mut reg).expect("apply");
    // exactly one registry entry, keyed by the svg's content hash, raw content
    let id = PageId::from_content(&svg);
    assert_eq!(reg.len(), 1);
    let entry = reg.get(&id).expect("svg registered");
    assert_eq!(entry.content, svg);
    assert_eq!(entry.title, "Cap");
    // and its own links are not followed
    assert_eq!(out.follow.len(), 0);
    assert!(out.page.content.contains(&format!("#{}", id.to_hex())));
}

#[test]
fn registry_insert_replaces_and_counts() {
    let mut reg = PageRegistry::new();
    let id = PageId::from_content("x");
    assert!(!reg.contains(&id));
    reg.insert(
        id.clone(),
        PageWrapping { title: "a".to_string(), content: "1".to_string() },
    );
    reg.insert(
        id.clone(),
        PageWrapping { title: "b".to_string(), content: "2".to_string() },
    );
    assert_eq!(reg.len(), 1);
    assert!(reg.contains(&id));
    assert_eq!(reg.get(&id).unwrap().title, "b");
}
