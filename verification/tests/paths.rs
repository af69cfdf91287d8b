use norad::ordered_map::{Key, OrderedMap};
use norad::path::{join_virtual_path, normalize_virtual_path, VirtualPath};
use std::path::{Component, Path, PathBuf};

/// The texts of paths that are Unicode.
trait Text {
    fn to_text(&self) -> String;
}

impl Text for VirtualPath {
    fn to_text(&self) -> String {
        String::from_utf8(self.to_bytes()).unwrap()
    }
}

const TEXTS: [&str; 33] = [
    "", ".", "..", "/", "//", "a", "a/", "a//b", "/a", "./a", "././a", "a/./b", "a/.", "a/..",
    "a/../b", "../a", "/..", "/../a", "/./a", "a/b/../../c", "a/b/../../../c", ".a", "..a", "...",
    "a.", "includes/shared.fea", "./includes/../features.fea", "é/ü", "a b/c", "a/b/c/../d/./e//f/",
    "-", "!", "~",
];

fn path(text: &str) -> VirtualPath {
    VirtualPath::new(text)
}

fn std_normalize(path: &Path) -> PathBuf {
    let mut normalized = PathBuf::new();
    for component in path.components() {
        match component {
            Component::CurDir => {}
            Component::ParentDir => {
                normalized.pop();
            }
            other => normalized.push(other.as_os_str()),
        }
    }
    normalized
}

fn text_of(path: &Path) -> String {
    path.components().collect::<PathBuf>().to_str().unwrap().to_string()
}

#[test]
fn paths_have_the_components_of_std_paths() {
    for text in TEXTS {
        assert_eq!(path(text).to_text(), text);
        assert_eq!(path(text), path(&text_of(Path::new(text))), "{:?}", text);
        assert_eq!(path(text).is_absolute(), Path::new(text).is_absolute(), "{:?}", text);
    }
}

#[test]
fn parents_are_those_of_std_paths() {
    for text in TEXTS {
        assert_eq!(
            path(text).parent().map(|p| p.to_text()),
            Path::new(text).parent().map(text_of),
            "{:?}",
            text
        );
    }
    assert_eq!(path("a/b").parent(), Some(path("a")));
    assert_eq!(path("a").parent(), Some(path("")));
    assert_eq!(path("").parent(), None);
    assert_eq!(path("/").parent(), None);
}

#[test]
fn joining_and_normalizing_are_those_of_std_paths() {
    for a in TEXTS {
        assert_eq!(
            normalize_virtual_path(&path(a)).to_text(),
            std_normalize(Path::new(a)).to_str().unwrap(),
            "{:?}",
            a
        );
        for b in TEXTS {
            let joined = Path::new(a).join(b);
            assert_eq!(
                path(a).join(&path(b)).to_text(),
                joined.to_str().unwrap(),
                "{:?} {:?}",
                a,
                b
            );
            assert_eq!(path(a).join(&path(b)), path(&text_of(&joined)), "{:?} {:?}", a, b);
            assert_eq!(
                join_virtual_path(&path(a), &path(b)).to_text(),
                std_normalize(&joined).to_str().unwrap(),
                "{:?} {:?}",
                a,
                b
            );
        }
    }
}

#[test]
fn equality_and_order_are_those_of_std_paths() {
    for a in TEXTS {
        for b in TEXTS {
            assert_eq!(path(a) == path(b), Path::new(a) == Path::new(b), "{:?} {:?}", a, b);
            assert_eq!(
                path(a).is_before(&path(b)),
                Path::new(a) < Path::new(b),
                "{:?} {:?}",
                a,
                b
            );
        }
    }
}

#[test]
fn normalizing_drops_dots_and_follows_parents() {
    assert_eq!(normalize_virtual_path(&path("a/./b/../c")).to_text(), "a/c");
    assert_eq!(normalize_virtual_path(&path("../a")).to_text(), "a");
    assert_eq!(normalize_virtual_path(&path("/../a")).to_text(), "/a");
    assert_eq!(normalize_virtual_path(&path("a/..")).to_text(), "");
    for text in TEXTS {
        let once = normalize_virtual_path(&path(text));
        assert_eq!(normalize_virtual_path(&once), once);
    }
}

#[test]
fn absolute_paths_do_not_depend_on_the_base() {
    assert_eq!(join_virtual_path(&path("a/b"), &path("/c/../d")).to_text(), "/d");
    assert_eq!(join_virtual_path(&path("a/b"), &path("../c")).to_text(), "a/c");
    assert_eq!(join_virtual_path(&path(""), &path("./c")).to_text(), "c");
}

#[test]
fn text_of_a_path_names_it() {
    for text in TEXTS {
        let p = path(text);
        assert_eq!(path(&p.to_text()), p);
        assert_eq!(p.clone(), p);
    }
}

#[test]
fn maps_keep_their_keys_in_order() {
    let mut map: OrderedMap<VirtualPath, u32> = OrderedMap::new();
    assert!(map.is_empty());
    assert_eq!(map.insert(path("b"), 1), None);
    assert_eq!(map.insert(path("a/b"), 2), None);
    assert_eq!(map.insert(path("/z"), 3), None);
    assert_eq!(map.insert(path("a"), 4), None);
    assert_eq!(map.insert(path("a//b/"), 5), Some(2));
    assert_eq!(map.len(), 4);
    // The key that came first stays, with its spelling.
    let keys: Vec<String> = (0..map.len()).map(|i| map.entry(i).0.to_text()).collect();
    assert_eq!(keys, ["/z", "a", "a/b", "b"]);
    assert_eq!(map.get(&path("a/./b")), Some(&5));
    assert_eq!(map.get(&path("a/../b")), None);
    assert!(map.contains_key(&path("b")));
    assert!(!map.contains_key(&path("c")));

    let mut words: OrderedMap<String, u32> = OrderedMap::new();
    for word in ["é", "z", "", "aa", "a", "Z"] {
        words.insert(word.to_string(), 0);
    }
    let sorted: Vec<&str> = (0..words.len()).map(|i| words.entry(i).0.as_str()).collect();
    assert_eq!(sorted, ["", "Z", "a", "aa", "z", "é"]);
}

#[test]
fn names_are_made_of_any_bytes() {
    let p = VirtualPath::from_bytes(b"a/\xff\xfe/./b/");
    assert_eq!(p.to_bytes(), b"a/\xff\xfe/./b/");
    assert_eq!(p, VirtualPath::from_bytes(b"a/\xff\xfe/b"));
    assert_eq!(VirtualPath::from_bytes(&p.to_bytes()), p);
    assert_eq!(p.parent(), Some(VirtualPath::from_bytes(b"a/\xff\xfe")));
    let up = VirtualPath::from_bytes(b"\xff/../\xfe");
    assert_eq!(normalize_virtual_path(&up).to_bytes(), b"\xfe");
    assert_eq!(join_virtual_path(&p, &path("../c")).to_bytes(), b"a/\xff\xfe/c");
    assert_eq!(p.join(&path("c//")).to_bytes(), b"a/\xff\xfe/./b/c//");
    assert_ne!(VirtualPath::from_bytes(b"\xff"), VirtualPath::from_bytes(b"\xfe"));
    assert!(VirtualPath::from_bytes(b"\xfe").is_before(&VirtualPath::from_bytes(b"\xff")));
    assert!(path("\u{10ffff}").is_before(&VirtualPath::from_bytes(b"\xff")));
    assert_eq!(VirtualPath::from_bytes("é/ü".as_bytes()), path("é/ü"));
}
