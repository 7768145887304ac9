use rust_crawler::markup::{MarkupKind, MarkupNode};
use rust_crawler::page::{
    links_of, node_stands_in, read_page, texts_of, LINK_ATTRIBUTE, LINK_ELEMENT, TEXT_ROOT,
};

fn around(names: &[&str]) -> Vec<Option<String>> {
    let mut out: Vec<Option<String>> = names.iter().map(|n| Some(n.to_string())).collect();
    out.push(None);
    out
}

fn text(content: &str, names: &[&str]) -> MarkupNode {
    MarkupNode { around: around(names), kind: MarkupKind::Text(content.to_string()) }
}

fn element(name: &str, link: Option<&str>, names: &[&str]) -> MarkupNode {
    MarkupNode {
        around: around(names),
        kind: MarkupKind::Element(name.to_string(), link.map(String::from)),
    }
}

fn shape(node: &MarkupNode) -> (String, Vec<String>) {
    let names = node.around.iter().map(|n| n.clone().unwrap_or("-".to_string())).collect();
    let kind = match &node.kind {
        MarkupKind::Text(content) => format!("text {:?}", content),
        MarkupKind::Element(name, Some(value)) => format!("<{} {:?}>", name, value),
        MarkupKind::Element(name, None) => format!("<{}>", name),
        MarkupKind::Other => "other".to_string(),
    };
    (kind, names)
}

#[test]
fn the_constants_name_the_body_the_anchor_and_its_href() {
    assert_eq!(TEXT_ROOT, "body");
    assert_eq!(LINK_ELEMENT, "a");
    assert_eq!(LINK_ATTRIBUTE, "href");
}

#[test]
fn read_page_gives_every_node_before_its_children_with_what_stands_around_it() {
    let nodes = read_page("<html><head></head><body><p>one <a href=\"/x\">two</a></p><!-- c --></body></html>");
    let found: Vec<(String, Vec<String>)> = nodes.iter().map(shape).collect();
    let names = |list: &[&str]| list.iter().map(|n| n.to_string()).collect::<Vec<String>>();
    assert_eq!(
        found,
        vec![
            ("other".to_string(), names(&[])),
            ("<html>".to_string(), names(&["-"])),
            ("<head>".to_string(), names(&["html", "-"])),
            ("<body>".to_string(), names(&["html", "-"])),
            ("<p>".to_string(), names(&["body", "html", "-"])),
            ("text \"one \"".to_string(), names(&["p", "body", "html", "-"])),
            ("<a \"/x\">".to_string(), names(&["p", "body", "html", "-"])),
            ("text \"two\"".to_string(), names(&["a", "p", "body", "html", "-"])),
            ("other".to_string(), names(&["body", "html", "-"])),
        ]
    );
}

#[test]
fn read_page_makes_a_document_of_any_text() {
    let nodes = read_page("just words");
    assert_eq!(texts_of(&nodes), vec!["just words"]);
    assert_eq!(texts_of(&read_page("")), Vec::<String>::new());
    assert_eq!(links_of(&read_page("")), Vec::<String>::new());
}

#[test]
fn node_stands_in_looks_at_every_level() {
    let node = text("x", &["b", "p", "body", "html"]);
    assert!(node_stands_in(&node, &"b".to_string()));
    assert!(node_stands_in(&node, &"body".to_string()));
    assert!(node_stands_in(&node, &"html".to_string()));
    assert!(!node_stands_in(&node, &"script".to_string()));
    assert!(!node_stands_in(&node, &"".to_string()));
    assert!(!node_stands_in(&text("x", &[]), &"body".to_string()));
}

#[test]
fn texts_of_gives_each_visible_text_once() {
    let nodes = vec![
        element("body", None, &["html"]),
        text("direct", &["body", "html"]),
        element("div", None, &["body", "html"]),
        text("nested", &["p", "div", "body", "html"]),
        text("title", &["title", "head", "html"]),
        text("code()", &["script", "body", "html"]),
        text("deep()", &["script", "div", "body", "html"]),
        text("rules", &["style", "body", "html"]),
        text("inside", &["b", "style", "body", "html"]),
        text("off", &["noscript", "body", "html"]),
        text("stray", &[]),
        text("last", &["a", "body", "html"]),
    ];
    assert_eq!(texts_of(&nodes), vec!["direct", "nested", "last"]);
}

#[test]
fn links_of_gives_the_links_of_the_anchors_that_have_one() {
    let nodes = vec![
        element("a", Some("/first"), &["body", "html"]),
        element("a", None, &["body", "html"]),
        element("link", Some("/style.css"), &["head", "html"]),
        text("/text", &["a", "body", "html"]),
        element("a", Some(""), &["p", "body", "html"]),
        element("A", Some("/upper"), &["body", "html"]),
        element("a", Some("/first"), &["head", "html"]),
    ];
    assert_eq!(links_of(&nodes), vec!["/first", "", "/first"]);
}
