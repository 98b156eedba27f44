use basalt::note_data::{ImagesCache, NoteData, NotePreview, Publisher};
use basalt::text::text_less;
use basalt::vein::{stored_value, Store, StoredValue, Vein, VeinId};
use basalt::veins::Veins;
use std::cell::Cell;
use std::rc::Rc;

#[derive(Debug, PartialEq)]
struct Data(String);

impl Store for Data {
    type Error = String;

    fn vein_config_name() -> &'static str {
        "data/data.json"
    }
    fn serialize(&self) -> Result<String, String> {
        Ok(format!("[{}]", self.0))
    }
    fn deserialize(s: &str) -> Result<Self, String> {
        match s.strip_prefix('[').and_then(|r| r.strip_suffix(']')) {
            Some(inner) => Ok(Data(inner.to_string())),
            None => Err(format!("bad: {}", s)),
        }
    }
}

fn files() -> Vec<(String, String)> {
    vec![
        (String::from("/notes/basalt.md"), String::from("# Basalt")),
        (String::from("/notes/diary/./walkdir.md"), String::from("walk")),
        (String::from("/elsewhere/x.md"), String::from("x")),
        (String::from("/notes/sub/../basalt.md"), String::from("# Basalt, again")),
    ]
}

#[test]
fn vein_names_notes_by_relative_path() {
    let vein = Vein::new_native("/notes/", &files());
    assert_eq!(
        vein.iter(),
        vec![("basalt.md", "# Basalt, again"), ("diary/walkdir.md", "walk")]
    );
    assert_eq!(vein.get_note("basalt.md"), Some("# Basalt, again"));
    assert_eq!(vein.get_note("diary/walkdir.md"), Some("walk"));
    assert_eq!(vein.get_note("x.md"), None);
    assert!(vein.is_native());
}

#[test]
fn vein_config_file_path() {
    let vein = Vein::new_native("/home/me/./notes", &Vec::new());
    assert_eq!(vein.config_file_path("graph.json"), "/home/me/notes/.basalt/graph.json");
    let (path, text) = vein.write_config_value(&Data(String::from("test"))).ok().unwrap();
    assert_eq!(path, "/home/me/notes/.basalt/data/data.json");
    assert_eq!(text, "[test]");
    let written = vein.config_write("graph.json", Ok::<String, ()>(String::from("{}"))).ok().unwrap();
    assert_eq!(written, (String::from("/home/me/notes/.basalt/graph.json"), String::from("{}")));
    assert_eq!(vein.config_write("graph.json", Err::<String, u8>(3)), Err(3));
}

#[test]
fn vein_reads_stored_values() {
    match Vein::read_config_value::<Data>(Some("[test]")) {
        StoredValue::Loaded(d) => assert_eq!(d, Data(String::from("test"))),
        _ => panic!("expected a value"),
    }
    assert!(matches!(Vein::read_config_value::<Data>(None), StoredValue::Missing));
    assert!(matches!(Vein::read_config_value::<Data>(Some("oops")), StoredValue::Malformed(_)));
    assert!(matches!(stored_value::<u8, ()>(Some(Err(()))), StoredValue::Malformed(())));
    assert!(matches!(stored_value::<u8, ()>(Some(Ok(4))), StoredValue::Loaded(4)));
}

#[test]
fn vein_id_text() {
    assert_eq!(VeinId(String::from("./notes")).as_str(), "./notes");
}

#[test]
fn note_data_notifies_on_new_text() {
    let calls = Rc::new(Cell::new(0));
    let mut note: NoteData<Box<dyn Fn()>> = NoteData::new(String::from("hello"));
    assert_eq!(note.text(), "hello");
    let c1 = calls.clone();
    let first = note.subscribe(Box::new(move || c1.set(c1.get() + 1)));
    let c2 = calls.clone();
    let second = note.subscribe(Box::new(move || c2.set(c2.get() + 10)));
    assert_eq!((first, second), (0, 1));
    note.set_text(String::from("world"));
    assert_eq!(note.text(), "world");
    assert_eq!(calls.get(), 11);
    note.unsubscribe(0);
    note.set_text(String::from("again"));
    assert_eq!(calls.get(), 21);
}

#[test]
fn image_cache_stores_once() {
    let mut cache = ImagesCache::new();
    assert!(cache.cached("a.png").is_none());
    cache.store(String::from("a.png"), vec![1, 2, 3]);
    assert_eq!(cache.cached("a.png"), Some(&vec![1, 2, 3]));
    assert!(cache.cached("b.png").is_none());
    let mut note: NoteData<Box<dyn Fn()>> = NoteData::new(String::new());
    note.cache_image(String::from("b.png"), vec![9]);
    assert_eq!(note.images_cache().cached("b.png"), Some(&vec![9]));
    let preview = NotePreview::new(String::from("# x"));
    assert_eq!(preview.markdown_input, "# x");
}

fn id(s: &str) -> VeinId {
    VeinId(String::from(s))
}

fn names(veins: &Veins) -> Vec<String> {
    veins.iter().into_iter().map(|(v, _)| v.0.clone()).collect()
}

#[test]
fn veins_are_ordered_by_id() {
    let mut veins = Veins::new();
    veins.insert(id("work"), Err(String::from("missing")));
    veins.insert(id("personal"), Ok(Vein::new_native("/p", &Vec::new())));
    veins.insert(id("archive"), Ok(Vein::new_native("/a", &Vec::new())));
    veins.insert(id("work"), Ok(Vein::new_native("/w", &Vec::new())));
    assert_eq!(names(&veins), vec!["archive", "personal", "work"]);
    assert!(matches!(veins.get_vein(&id("work")), Some(Ok(_))));
    assert!(veins.get_vein(&id("none")).is_none());
}

#[test]
fn next_and_previous_vein() {
    let mut veins = Veins::new();
    for name in ["b", "a", "c"] {
        veins.insert(id(name), Err(String::new()));
    }
    let at = |s: &str| Some(id(s));
    assert_eq!(veins.next_vein(&at("a")), at("b"));
    assert_eq!(veins.next_vein(&at("c")), at("c"));
    assert_eq!(veins.prev_vein(&at("b")), at("a"));
    assert_eq!(veins.prev_vein(&at("a")), at("a"));
    assert_eq!(veins.next_vein(&at("zzz")), at("zzz"));
    assert_eq!(veins.next_vein(&None), None);
    assert_eq!(veins.prev_vein(&None), None);
}

#[test]
fn text_order_is_by_code_point() {
    assert!(text_less("a", "b"));
    assert!(text_less("ab", "abc"));
    assert!(!text_less("abc", "ab"));
    assert!(!text_less("x", "x"));
    assert!(text_less("Z", "a"));
    assert!(text_less("z", "é"));
}

const BASALT_MD: &str = r#"# Basalt is an igneous rock.

#[rust](rust.md) #[note-taking-software](note-taking-software.md) #[zettelkasten](zettelkasten.md) #[cross-platform](cross-platform.md)

*And* it's a [mind-~~mine~~map application](https://github.com/nativerv/basalt).
"#;

const WALKDIR_MD: &str = r#"# `walkdir`: a crate that traverses filesystem recursively

#[cross-platform](cross-platform.md) #[rust](rust.md) #[crate](crate.md)
"#;

/// The files of a small vein, as a directory walk lists them.
fn notes_dir() -> Vec<(String, String)> {
    let names = [
        "wikipedia.md",
        "basalt.md",
        "bio.md",
        "build-tool.md",
        "cargo.md",
        "diary/20230803101243-walkdir.md",
        "index.md",
        "interests.md",
        "internets.md",
        "me.md",
        "note-taking-software.md",
        "programming-language.md",
        "programming.md",
        "rust.md",
        "software.md",
    ];
    names
        .iter()
        .map(|name| {
            let text = match *name {
                "basalt.md" => BASALT_MD,
                "diary/20230803101243-walkdir.md" => WALKDIR_MD,
                _ => "",
            };
            (format!("/home/me/./tests/notes/{name}"), String::from(text))
        })
        .collect()
}

#[allow(non_snake_case)]
#[test]
fn vein_native__iter___gets_all_files() {
    let vein = Vein::new_native("/home/me/tests/notes", &notes_dir());

    let expected = [
        "basalt.md",
        "bio.md",
        "build-tool.md",
        "cargo.md",
        "diary/20230803101243-walkdir.md",
        "index.md",
        "interests.md",
        "internets.md",
        "me.md",
        "note-taking-software.md",
        "programming-language.md",
        "programming.md",
        "rust.md",
        "software.md",
        "wikipedia.md",
    ]
    .as_slice();

    let mut note_paths = vein.iter().into_iter().map(|(note_id, ..)| note_id).collect::<Vec<&str>>();
    note_paths.sort();

    assert!(
        expected.iter().eq(note_paths.iter()),
        "expected: {:#?}, was: {:#?}",
        expected.iter(),
        note_paths.iter()
    );
}

#[allow(non_snake_case)]
#[test]
fn vein_native__get_note___gets_file_contents() {
    let vein = Vein::new_native("/home/me/tests/notes", &notes_dir());

    let note_contents = vein.get_note("basalt.md").unwrap();
    assert_eq!(BASALT_MD, note_contents);

    let note_contents = vein.get_note("diary/20230803101243-walkdir.md").unwrap();
    assert_eq!(WALKDIR_MD, note_contents);
}
