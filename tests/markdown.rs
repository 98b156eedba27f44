use basalt::link_graph::{
    create_graph, create_graph_default_options, link_options, links_from_note_events,
    normalize_name, Link,
};
use basalt::markdown::{
    links_from_events, links_from_path, local_links_by_path, select_links, url_by_path, web_link,
    MdEvent, LINK_AUTOLINK, LINK_INLINE, LINK_REFERENCE,
};
use basalt::models::Options;
use basalt::models::LinkNodeId;
use basalt::path::{canonicalize, PathExt};
use basalt::text::{has_prefix, has_suffix, same_text};
use std::path::Path;

const NOTE: &str = "# Title\n\nSee [rust](rust.md), [docs](https://doc.rust-lang.org) and <http://example.org>.\n\n[ref][r] and [short]\n\n![img](pic.png)\n\n[r]: ./cargo.md\n[short]: http://short.example\n";

#[test]
fn read_path_test() {
    let a = Path::new("./name.md");
    let b = Path::new("name.md");

    assert_ne!(a, b)
}

/// std's `Path` equality keeps a leading `.` component, so `./pidor.md` and
/// `pidor.md` differ as `Path` values (see `read_path_test`); they name the
/// same note once normalized, which is what is compared here.
#[test]
fn markdown_path_test() {
    let a = "./pidor.md".canonicalize_unchecked();
    let b = "pidor.md".canonicalize_unchecked();

    assert_eq!(a, b)
}

#[test]
fn markdown_pulldown_cmark_test() {
    assert_eq!(
        links_from_path(NOTE),
        vec!["rust.md", "https://doc.rust-lang.org", "http://example.org", "./cargo.md"]
    );
}

#[test]
fn local_links_leave_out_the_web() {
    assert_eq!(local_links_by_path(NOTE), vec!["rust.md", "./cargo.md"]);
}

#[test]
fn url_links_keep_only_the_web() {
    assert_eq!(url_by_path(NOTE), vec!["https://doc.rust-lang.org", "http://example.org"]);
}

#[test]
fn no_links_in_plain_text() {
    assert!(links_from_path("just text, no links").is_empty());
    assert!(local_links_by_path("").is_empty());
}

#[test]
fn followed_link_kinds() {
    let events = vec![
        MdEvent::Start(LINK_INLINE, String::from("a.md"), false),
        MdEvent::Other,
        MdEvent::Start(5, String::from("shortcut.md"), false),
        MdEvent::Start(LINK_REFERENCE, String::from("b.md"), false),
        MdEvent::Start(LINK_INLINE, String::from("pic.png"), true),
        MdEvent::End(LINK_INLINE, String::from("c.md"), String::new(), false),
        MdEvent::Start(8, String::from("me@example.org"), false),
        MdEvent::Start(LINK_AUTOLINK, String::from("http://c"), false),
    ];
    assert_eq!(links_from_events(&events), vec!["a.md", "b.md", "http://c"]);
}

#[test]
fn web_link_prefixes() {
    assert!(web_link("http://a"));
    assert!(web_link("https://a"));
    assert!(!web_link("ftp://a"));
    assert!(!web_link("http:/a"));
    let links = vec![String::from("x.md"), String::from("https://y")];
    assert_eq!(select_links(&links, true), vec!["https://y"]);
    assert_eq!(select_links(&links, false), vec!["x.md"]);
}

#[test]
fn prefix_and_equality() {
    assert!(has_prefix("abc", "ab"));
    assert!(has_prefix("abc", ""));
    assert!(!has_prefix("ab", "abc"));
    assert!(same_text("é/x", "é/x"));
    assert!(!same_text("ab", "abc"));
    assert!(has_suffix("note.md", ".md"));
    assert!(!has_suffix("note.mdx", ".md"));
    assert!(!has_suffix("md", ".md"));
}

#[test]
fn canonical_paths() {
    assert_eq!(canonicalize("/a/./b/../c"), "/a/c");
    assert_eq!(canonicalize("../a"), "a");
    assert_eq!(canonicalize("a//b/"), "a/b");
    assert_eq!(canonicalize("/"), "/");
    assert_eq!(canonicalize("/.."), "/");
    assert_eq!(canonicalize(""), "");
    assert_eq!(canonicalize("./x/y/../../z.md"), "z.md");
    assert_eq!(LinkNodeId::from_path("/notes/./a.md"), LinkNodeId(String::from("/notes/a.md")));
}

fn view(l: &Link) -> (u8, &str, &str, &str, bool) {
    (l.kind, l.text.as_str(), l.destination.as_str(), l.title.as_str(), l.is_image)
}

#[test]
fn note_links_with_text_and_kind() {
    let links = basalt::link_graph::links_from_path(NOTE);
    let views: Vec<_> = links.iter().map(view).collect();
    assert_eq!(
        views,
        vec![
            (0, "rust", "rust.md", "", false),
            (0, "docs", "https://doc.rust-lang.org", "", false),
            (7, "", "http://example.org", "", false),
            (1, "ref", "./cargo.md", "", false),
            (5, "short", "http://short.example", "", false),
            (0, "img", "pic.png", "", true),
        ]
    );
    assert!(links.iter().all(|l| l.normalized_name.is_empty()));
}

#[test]
fn note_link_text_is_collected_between_start_and_end() {
    let events = vec![
        MdEvent::Text(String::from("outside")),
        MdEvent::Start(3, String::from("c.md"), false),
        MdEvent::Text(String::from("two ")),
        MdEvent::Text(String::from("words")),
        MdEvent::End(3, String::from("c.md"), String::from("T"), false),
        MdEvent::Start(8, String::from("x@y"), false),
        MdEvent::End(8, String::from("x@y"), String::new(), false),
    ];
    let links = links_from_note_events(&events);
    assert_eq!(links.len(), 1);
    assert_eq!(view(&links[0]), (3, "two words", "c.md", "T", false));
}

#[test]
fn link_kinds_by_destination() {
    let web = Link::new(0, "a", "https://x.org", "", false);
    assert_eq!(link_options(&web), Options { image: false, url: true, markdown: false });
    let ftp = Link::new(0, "a", "ftp://x.md", "", false);
    assert!(link_options(&ftp).url);
    let note = Link::new(0, "a", "./n.md", "", true);
    assert_eq!(link_options(&note), Options { image: true, url: false, markdown: true });
    assert_eq!(normalize_name(&note, false), "n.md");
    assert_eq!(normalize_name(&Link::new(0, "a", "n.md", "", false), false), "");
    assert_eq!(normalize_name(&Link::new(0, "a", "./n.md", "", false), true), "");
}

#[test]
fn graph_from_notes_with_default_options() {
    let notes = vec![
        (String::from("/notes/a.md"), String::from(NOTE)),
        (String::from("rel.md"), String::from("[x](./x.md)")),
    ];
    let graph = create_graph_default_options(&notes);
    assert_eq!(graph.get_node("/notes/a.md").map(|n| n.is_image), Some(false));
    assert_eq!(graph.get_node("cargo.md").map(|n| n.is_image), Some(false));
    assert!(graph.get_node("").is_some());
    assert!(graph.get_node("rel.md").is_none());
    assert!(graph.get_node("x.md").is_none());
    assert_eq!(graph.out_degree("/notes/a.md"), 2);
    assert_eq!(graph.out_degree("cargo.md"), 0);
}

#[test]
fn graph_from_notes_with_images() {
    let notes = vec![(String::from("/n.md"), String::from("![i](./pic.png) [t](./t.md)"))];
    let graph = create_graph(&notes, |op: &Options| !op.url, |_kind: u8| true);
    assert_eq!(graph.get_node("pic.png").map(|n| n.is_image), Some(true));
    assert_eq!(graph.get_node("t.md").map(|n| n.is_image), Some(false));
    assert_eq!(graph.out_degree("/n.md"), 2);
}
