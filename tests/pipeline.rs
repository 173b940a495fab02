use readability::cleaner::{is_absolute, resolve_attrs};
use readability::dom::{append_text, str_eq, text_length};
use readability::scorer::{adjusted_score, count_commas, find_candidates, has_word, select_top, Candidate};
use readability::{check_status, extract_document, Attr, Dom, Error, Node, NodeKind};

struct Builder {
    nodes: Vec<Node>,
}

impl Builder {
    fn new() -> Builder {
        Builder {
            nodes: vec![Node {
                kind: NodeKind::Document,
                name: String::new(),
                attrs: vec![],
                text: String::new(),
                children: vec![],
            }],
        }
    }

    fn add(&mut self, parent: usize, kind: NodeKind, name: &str, attrs: &[(&str, &str)], text: &str) -> usize {
        let id = self.nodes.len();
        self.nodes.push(Node {
            kind,
            name: name.to_string(),
            attrs: attrs
                .iter()
                .map(|(n, v)| Attr { name: n.to_string(), value: v.to_string() })
                .collect(),
            text: text.to_string(),
            children: vec![],
        });
        self.nodes[parent].children.push(id);
        id
    }

    fn el(&mut self, parent: usize, name: &str) -> usize {
        self.add(parent, NodeKind::Element, name, &[], "")
    }

    fn el_with(&mut self, parent: usize, name: &str, attrs: &[(&str, &str)]) -> usize {
        self.add(parent, NodeKind::Element, name, attrs, "")
    }

    fn text(&mut self, parent: usize, text: &str) -> usize {
        self.add(parent, NodeKind::Text, "", &[], text)
    }

    fn dom(self) -> Dom {
        Dom { nodes: self.nodes }
    }
}

const PROSE: &str = "The committee met on a cold morning, and after a long debate, the members agreed that the old bridge, which had stood for a century, would be repaired rather than replaced, keeping the town's history intact.";

fn article_page() -> (Dom, usize, usize) {
    let mut b = Builder::new();
    let html = b.el(0, "html");
    let head = b.el(html, "head");
    let title = b.el(head, "title");
    b.text(title, "Bridge News");
    let body = b.el(html, "body");
    let nav = b.el(body, "ul");
    for word in ["Home", "News", "Sport", "Weather", "About"] {
        let li = b.el(nav, "li");
        let a = b.el_with(li, "a", &[("href", "/x")]);
        b.text(a, word);
    }
    let div = b.el(body, "div");
    for _ in 0..3 {
        let p = b.el(div, "p");
        b.text(p, PROSE);
    }
    (b.dom(), div, nav)
}

#[test]
fn article_page_selects_the_prose_container() {
    let (dom, div, _nav) = article_page();
    let r = extract_document(dom, "https://example.com/news/today");
    assert_eq!(r.top, div);
    assert_eq!(r.title, "Bridge News");
    assert!(!r.text.contains("Home"));
    assert!(!r.text.contains("Weather"));
    assert_eq!(r.text, format!("{p}\n{p}\n{p}\n\n", p = PROSE));
}

#[test]
fn empty_document_falls_back_to_the_root() {
    let mut b = Builder::new();
    let html = b.el(0, "html");
    b.el(html, "body");
    let r = extract_document(b.dom(), "https://example.com/");
    assert_eq!(r.top, 0);
    assert_eq!(r.title, "");
    assert_eq!(r.text, "");
}

#[test]
fn relative_links_are_resolved_and_absolute_ones_kept() {
    let mut b = Builder::new();
    let html = b.el(0, "html");
    let body = b.el(html, "body");
    let div = b.el(body, "div");
    let p = b.el(div, "p");
    b.text(p, PROSE);
    let rel = b.el_with(div, "a", &[("href", "c/d")]);
    b.text(rel, "next");
    let abs = b.el_with(div, "a", &[("href", "https://other.org/x")]);
    b.text(abs, "elsewhere");
    let r = extract_document(b.dom(), "https://example.com/a/b");
    assert_eq!(r.top, div);
    assert_eq!(r.dom.nodes[rel].attrs[0].value, "https://example.com/a/c/d");
    assert_eq!(r.dom.nodes[abs].attrs[0].value, "https://other.org/x");
}

#[test]
fn resolve_attrs_rewrites_only_references() {
    let mut attrs = vec![
        Attr { name: "src".to_string(), value: "img/1.png".to_string() },
        Attr { name: "title".to_string(), value: "c/d".to_string() },
        Attr { name: "href".to_string(), value: "mailto:me@example.com".to_string() },
    ];
    resolve_attrs(&mut attrs, "https://example.com/a/b");
    assert_eq!(attrs[0].value, "https://example.com/a/img/1.png");
    assert_eq!(attrs[1].value, "c/d");
    assert_eq!(attrs[2].value, "mailto:me@example.com");
}

#[test]
fn unresolvable_reference_is_left_unchanged() {
    let mut attrs = vec![Attr { name: "href".to_string(), value: "c/d".to_string() }];
    resolve_attrs(&mut attrs, "not a url");
    assert_eq!(attrs[0].value, "c/d");
}

#[test]
fn link_heavy_siblings_do_not_move_the_selection() {
    let (dom, div, nav) = article_page();
    let mut more = dom;
    for word in ["One", "Two", "Three", "Four"] {
        let id = more.nodes.len();
        more.nodes.push(Node {
            kind: NodeKind::Element,
            name: "a".to_string(),
            attrs: vec![Attr { name: "href".to_string(), value: "/y".to_string() }],
            text: String::new(),
            children: vec![id + 1],
        });
        more.nodes.push(Node {
            kind: NodeKind::Text,
            name: String::new(),
            attrs: vec![],
            text: word.to_string(),
            children: vec![],
        });
        more.nodes[nav].children.push(id);
    }
    let (top, _) = select_top(&more);
    assert_eq!(top, div);
}

#[test]
fn scripts_styles_and_comments_are_stripped() {
    let mut b = Builder::new();
    let html = b.el(0, "html");
    let body = b.el(html, "body");
    let div = b.el(body, "div");
    let p = b.el(div, "p");
    b.text(p, PROSE);
    let script = b.el(div, "script");
    b.text(script, "var x = 1;");
    b.add(div, NodeKind::Comment, "", &[], "a note");
    let hidden = b.el_with(div, "span", &[("style", "display: none")]);
    b.text(hidden, "secret");
    let r = extract_document(b.dom(), "https://example.com/");
    assert_eq!(r.top, div);
    assert_eq!(r.text, format!("{}\n\n", PROSE));
}

#[test]
fn title_falls_back_to_first_heading() {
    let mut b = Builder::new();
    let html = b.el(0, "html");
    let body = b.el(html, "body");
    let h1 = b.el(body, "h1");
    b.text(h1, "Heading");
    let h1b = b.el(body, "h1");
    b.text(h1b, "Second");
    let r = extract_document(b.dom(), "https://example.com/");
    assert_eq!(r.title, "Heading");
}

#[test]
fn not_found_status_is_unexpected() {
    assert!(matches!(check_status(404), Err(Error::Unexpected)));
    assert!(matches!(check_status(500), Err(Error::Unexpected)));
    assert!(check_status(200).is_ok());
    assert!(check_status(204).is_ok());
}

#[test]
fn adjusted_score_scales_by_text_outside_links() {
    assert_eq!(adjusted_score(48, 100, 25), 36);
    assert_eq!(adjusted_score(10, 0, 0), 10);
    assert_eq!(adjusted_score(-10, 3, 1), -6);
    assert_eq!(adjusted_score(7, 10, 10), 0);
}

#[test]
fn small_string_helpers() {
    assert_eq!(count_commas("a, b, c"), 2);
    assert_eq!(count_commas(""), 0);
    assert!(has_word("main-content", "content"));
    assert!(!has_word("sidebar", "content"));
    assert!(str_eq("div", "div"));
    assert!(!str_eq("div", "dv"));
    assert!(is_absolute("https://other.org/x"));
    assert!(is_absolute("mailto:me"));
    assert!(!is_absolute("c/d"));
    assert!(!is_absolute("//cdn.example.com/x"));
    assert!(!is_absolute("1http:x"));
}

#[test]
fn text_helpers_on_a_small_tree() {
    let mut b = Builder::new();
    let p = b.el(0, "p");
    b.text(p, "ab");
    let a = b.el(p, "a");
    b.text(a, "cde");
    let dom = b.dom();
    assert_eq!(text_length(&dom, 0), 5);
    let mut out = String::new();
    append_text(&dom, 0, &mut out);
    assert_eq!(out, "abcde\n");
}

#[test]
fn error_messages_carry_their_label() {
    assert_eq!(Error::Unexpected.describe(), "UnexpectedError");
    assert_eq!(Error::NetworkError("timed out".to_string()).describe(), "NetworkError:  timed out");
    let e = Error::UrlParseError(url::ParseError::RelativeUrlWithoutBase);
    assert!(e.describe().starts_with("UrlParseError:  "));
}

#[test]
fn extraction_is_reproducible() {
    let (a, _, _) = article_page();
    let (b, _, _) = article_page();
    let ra = extract_document(a, "https://example.com/a/b");
    let rb = extract_document(b, "https://example.com/a/b");
    assert_eq!(ra.top, rb.top);
    assert_eq!(ra.title, rb.title);
    assert_eq!(ra.text, rb.text);
}

#[test]
fn candidate_set_holds_parents_and_grandparents_in_path_order() {
    let (dom, div, _nav) = article_page();
    let body = 5;
    let cands = find_candidates(&dom);
    assert_eq!(
        cands,
        vec![Candidate { node: body, score: 24 }, Candidate { node: div, score: 48 }]
    );
    let (top, score) = select_top(&dom);
    assert_eq!(top, div);
    assert_eq!(score, 48);
}
