use norad::error::FontLoadError;
use norad::expand::{expand_feature_text, expand_feature_text_from_map};
use norad::line_ends::normalize_feature_text;
use norad::load::{collect_feature_includes, load_feature_files};
use norad::memory::MemorySource;
use norad::ordered_map::OrderedMap;
use norad::path::VirtualPath;
use norad::source::FontSource;
use std::cell::RefCell;
use std::collections::HashMap;
use std::io;
use std::string::FromUtf8Error;

/// The texts of paths that are Unicode.
trait Text {
    fn to_text(&self) -> String;
}

impl Text for VirtualPath {
    fn to_text(&self) -> String {
        String::from_utf8(self.to_bytes()).unwrap()
    }
}

fn path(text: &str) -> VirtualPath {
    VirtualPath::new(text)
}

fn source(files: &[(&str, &str)]) -> MemorySource {
    let mut map: OrderedMap<VirtualPath, Vec<u8>> = OrderedMap::new();
    for (name, contents) in files {
        map.insert(path(name), contents.as_bytes().to_vec());
    }
    MemorySource { files: map }
}

fn texts(files: &[(&str, &str)]) -> OrderedMap<VirtualPath, String> {
    let mut map: OrderedMap<VirtualPath, String> = OrderedMap::new();
    for (name, contents) in files {
        map.insert(path(name), contents.to_string());
    }
    map
}

fn entries(files: &OrderedMap<VirtualPath, String>) -> Vec<(String, String)> {
    (0..files.len())
        .map(|i| {
            let (path, contents) = files.entry(i);
            (path.to_text(), contents.clone())
        })
        .collect()
}

fn pairs(files: &[(&str, &str)]) -> Vec<(String, String)> {
    files.iter().map(|(name, contents)| (name.to_string(), contents.to_string())).collect()
}

/// A source that keeps a record of what it was asked for.
struct RecordingSource {
    files: HashMap<String, Vec<u8>>,
    asked: RefCell<Vec<String>>,
}

impl FontSource for RecordingSource {
    fn try_read(&self, path: &VirtualPath) -> Option<Result<Vec<u8>, io::Error>> {
        self.asked.borrow_mut().push(path.to_text());
        if path.to_text().ends_with("broken.fea") {
            return Some(Err(io::Error::new(io::ErrorKind::Other, "broken")));
        }
        self.files.get(&path.to_text()).cloned().map(Ok)
    }
}

fn recording(files: &[(&str, &str)]) -> RecordingSource {
    RecordingSource {
        files: files
            .iter()
            .map(|(name, contents)| (name.to_string(), contents.as_bytes().to_vec()))
            .collect(),
        asked: RefCell::new(Vec::new()),
    }
}

#[test]
fn nothing_is_loaded_where_there_is_no_feature_file() {
    assert!(matches!(load_feature_files(&source(&[]), &path("features.fea")), Ok(None)));
    assert!(matches!(
        load_feature_files(&source(&[("other.fea", "")]), &path("features.fea")),
        Ok(None)
    ));
}

#[test]
fn files_are_loaded_through_others() {
    let files = source(&[
        ("features.fea", "include(a/one.fea);\nx\ninclude(a/two.fea);\n"),
        ("a/one.fea", "include(two.fea);\ninclude(b/three.fea);\n"),
        ("a/two.fea", "two\n"),
        ("a/b/three.fea", "include(/four.fea);\n"),
        ("/four.fea", "four"),
        ("unused.fea", "unused"),
    ]);
    let (features, included) = load_feature_files(&files, &path("features.fea")).unwrap().unwrap();
    assert_eq!(features, "include(a/one.fea);\nx\ninclude(a/two.fea);\n");
    assert_eq!(
        entries(&included),
        pairs(&[
            ("/four.fea", "four"),
            ("a/b/three.fea", "include(/four.fea);\n"),
            ("a/one.fea", "include(two.fea);\ninclude(b/three.fea);\n"),
            ("a/two.fea", "two\n"),
        ])
    );
    // What was loaded can be expanded.
    assert_eq!(expand_feature_text(&features, &included).unwrap(), "two\nfourx\ntwo\n");
}

#[test]
fn files_are_read_once_and_in_the_order_of_the_lines() {
    let files = recording(&[
        ("./features.fea", "include(b.fea);\ninclude(a.fea);\ninclude(./b.fea);\n"),
        ("a.fea", "include(c.fea);\ninclude(b.fea);\n"),
        ("b.fea", "include(c.fea);\n"),
        ("c.fea", ""),
    ]);
    // The first path is asked for as it is given.
    let (_, included) = load_feature_files(&files, &path("./features.fea")).unwrap().unwrap();
    assert_eq!(included.len(), 3);
    assert_eq!(*files.asked.borrow(), ["./features.fea", "b.fea", "c.fea", "a.fea"]);
}

#[test]
fn circles_are_refused() {
    let files = source(&[("features.fea", "include(features.fea);\n")]);
    match load_feature_files(&files, &path("features.fea")) {
        Err(FontLoadError::FeatureIncludeCycle { path: at }) => {
            assert_eq!(at, path("features.fea"));
        }
        other => panic!("{:?}", other),
    }
    let files = source(&[
        ("features.fea", "include(a.fea);\n"),
        ("a.fea", "include(sub/b.fea);\n"),
        ("sub/b.fea", "include(/a.fea);\n"),
        ("/a.fea", "include(sub/c.fea);\n"),
        ("/sub/c.fea", "include(/a.fea);\n"),
    ]);
    match load_feature_files(&files, &path("features.fea")) {
        Err(FontLoadError::FeatureIncludeCycle { path: at }) => assert_eq!(at, path("/a.fea")),
        other => panic!("{:?}", other),
    }
}

#[test]
fn a_named_file_is_sought_below_the_one_that_names_it() {
    let files = source(&[
        ("features.fea", "include(sub/a.fea);\n"),
        ("sub/a.fea", "include(../b.fea);\n"),
        ("sub/b.fea", "below"),
        ("b.fea", "beside"),
    ]);
    let (features, included) = load_feature_files(&files, &path("features.fea")).unwrap().unwrap();
    assert_eq!(expand_feature_text(&features, &included).unwrap(), "below");
    assert!(!included.contains_key(&path("b.fea")));
}

#[test]
fn missing_files_are_refused() {
    let files = source(&[("features.fea", "a\ninclude(sub/a.fea);\n")]);
    match load_feature_files(&files, &path("features.fea")) {
        Err(FontLoadError::MissingIncludedFeatureFile { path: at }) => {
            assert_eq!(at, path("sub/a.fea"));
        }
        other => panic!("{:?}", other),
    }
}

#[test]
fn read_errors_are_handed_on() {
    let files = recording(&[("features.fea", "include(broken.fea);\n")]);
    match load_feature_files(&files, &path("features.fea")) {
        Err(FontLoadError::FeatureFile(error)) => {
            assert_eq!(error.to_string(), "broken");
        }
        other => panic!("{:?}", other),
    }
    match load_feature_files(&files, &path("broken.fea")) {
        Err(FontLoadError::FeatureFile(error)) => {
            assert_eq!(error.kind(), io::ErrorKind::Other);
        }
        other => panic!("{:?}", other),
    }
}

#[test]
fn files_that_are_not_utf8_are_refused() {
    let mut files = source(&[("features.fea", "include(a.fea);\n")]);
    files.files.insert(path("a.fea"), vec![b'a', 0xff]);
    match load_feature_files(&files, &path("features.fea")) {
        Err(FontLoadError::FeatureFile(error)) => {
            assert_eq!(error.kind(), io::ErrorKind::InvalidData);
            let cause = String::from_utf8(vec![b'a', 0xff]).unwrap_err();
            assert_eq!(error.to_string(), cause.to_string());
            let inner = error.into_inner().unwrap().downcast::<FromUtf8Error>().unwrap();
            assert_eq!(*inner, cause);
        }
        other => panic!("{:?}", other),
    }
    files.files.insert(path("features.fea"), vec![0xc0, 0x80]);
    match load_feature_files(&files, &path("features.fea")) {
        Err(FontLoadError::FeatureFile(error)) => {
            assert_eq!(error.kind(), io::ErrorKind::InvalidData);
        }
        other => panic!("{:?}", other),
    }
    files.files.insert(path("features.fea"), "é𝄞".as_bytes().to_vec());
    let (features, _) = load_feature_files(&files, &path("features.fea")).unwrap().unwrap();
    assert_eq!(features, "é𝄞");
}

#[test]
fn errors_tell_their_kind() {
    let mut files = source(&[("features.fea", "include(a.fea);\n")]);
    let missing = load_feature_files(&files, &path("features.fea")).unwrap_err();
    assert_eq!(missing.kind(), None);
    files.files.insert(path("a.fea"), vec![0xff]);
    let invalid = load_feature_files(&files, &path("features.fea")).unwrap_err();
    assert_eq!(invalid.kind(), Some(io::ErrorKind::InvalidData));
    let broken = load_feature_files(&recording(&[]), &path("broken.fea")).unwrap_err();
    assert_eq!(broken.kind(), Some(io::ErrorKind::Other));
}

#[test]
fn paths_reach_the_source_as_they_are_spelled() {
    let files = recording(&[
        ("./x//features.fea", "include(a//b.fea);\ninclude(./c.fea);\n"),
        ("x/a/b.fea", "b"),
        ("x/c.fea", "c"),
    ]);
    let (_, included) = load_feature_files(&files, &path("./x//features.fea")).unwrap().unwrap();
    assert_eq!(*files.asked.borrow(), ["./x//features.fea", "x/a/b.fea", "x/c.fea"]);
    assert_eq!(entries(&included), pairs(&[("x/a/b.fea", "b"), ("x/c.fea", "c")]));
    match load_feature_files(&files, &path("x/a/../a//b.fea")) {
        Ok(None) => {}
        other => panic!("{:?}", other),
    }
}

#[test]
fn collecting_leaves_the_stack_and_the_files_as_they_stand() {
    let files = source(&[("a.fea", "include(b.fea);\n"), ("b.fea", "include(gone.fea);\n")]);
    let mut stack = vec![path("features.fea")];
    let mut included = texts(&[("c.fea", "kept")]);
    let res = collect_feature_includes(
        &files,
        &path("features.fea"),
        "include(c.fea);\ninclude(a.fea);\n",
        &mut stack,
        &mut included,
    );
    assert!(matches!(res, Err(FontLoadError::MissingIncludedFeatureFile { .. })));
    assert_eq!(stack, [path("features.fea"), path("a.fea"), path("b.fea")]);
    assert_eq!(entries(&included), pairs(&[("c.fea", "kept")]));

    let files = source(&[("a.fea", "a")]);
    let mut stack = vec![path("features.fea")];
    let res = collect_feature_includes(
        &files,
        &path("features.fea"),
        "include(c.fea);\ninclude(a.fea);\n",
        &mut stack,
        &mut included,
    );
    assert!(res.is_ok());
    assert_eq!(stack, [path("features.fea")]);
    assert_eq!(entries(&included), pairs(&[("a.fea", "a"), ("c.fea", "kept")]));
}

#[test]
fn collecting_again_reads_nothing() {
    let files = recording(&[("a.fea", "include(b.fea);\n"), ("b.fea", "b")]);
    let contents = "include(a.fea);\ninclude(b.fea);\n";
    let mut stack = vec![path("features.fea")];
    let mut included = texts(&[]);
    let start = path("features.fea");
    collect_feature_includes(&files, &start, contents, &mut stack, &mut included).unwrap();
    let first = entries(&included);
    assert_eq!(files.asked.borrow().len(), 2);

    // Not even a source without files is asked.
    let none = recording(&[]);
    collect_feature_includes(&none, &start, contents, &mut stack, &mut included).unwrap();
    assert!(none.asked.borrow().is_empty());
    assert_eq!(entries(&included), first);
    assert_eq!(stack, [start]);
}

#[test]
fn text_without_directives_expands_to_itself() {
    for text in ["", "a", "a\nb\r\n", "include a;\n", "\n\n"] {
        assert_eq!(expand_feature_text(text, &texts(&[("a", "b")])).unwrap(), text);
    }
}

#[test]
fn files_expand_wherever_they_are_named() {
    let files = texts(&[("a.fea", "include(sub/b.fea);\nA"), ("sub/b.fea", "B")]);
    assert_eq!(
        expand_feature_text("include(a.fea);\ninclude(a.fea);\nend\n", &files).unwrap(),
        "BABAend\n"
    );
    // A file is found under any text that names its path.
    let files = texts(&[("sub//./b.fea", "B\n")]);
    assert_eq!(expand_feature_text("include(sub/b.fea);\n", &files).unwrap(), "B\n");
}

#[test]
fn expanding_refuses_circles_and_missing_files() {
    match expand_feature_text("include(./features.fea);", &texts(&[])) {
        Err(FontLoadError::FeatureIncludeCycle { path: at }) => {
            assert_eq!(at, path("features.fea"));
        }
        other => panic!("{:?}", other),
    }
    let files = texts(&[("a.fea", "include(b.fea);"), ("b.fea", "include(a.fea);")]);
    match expand_feature_text("include(a.fea);", &files) {
        Err(FontLoadError::FeatureIncludeCycle { path: at }) => assert_eq!(at, path("a.fea")),
        other => panic!("{:?}", other),
    }
    match expand_feature_text("include(c.fea);", &files) {
        Err(FontLoadError::MissingIncludedFeatureFile { path: at }) => {
            assert_eq!(at, path("c.fea"));
        }
        other => panic!("{:?}", other),
    }
}

#[test]
fn expanding_leaves_the_stack_as_it_stands() {
    let files = texts(&[("sub/a.fea", "include(b.fea);"), ("sub/b.fea", "b")]);
    let mut stack = vec![path("x")];
    let text =
        expand_feature_text_from_map(&path("sub/x"), "include(a.fea);", &files, &mut stack).unwrap();
    assert_eq!(text, "b");
    assert_eq!(stack, [path("x")]);
    let res = expand_feature_text_from_map(&path("sub/x"), "include(c.fea);", &files, &mut stack);
    assert!(res.is_err());
    assert_eq!(stack, [path("x"), path("sub/c.fea")]);
    let res = expand_feature_text_from_map(&path("x"), "include(x);", &files, &mut stack);
    assert!(matches!(res, Err(FontLoadError::FeatureIncludeCycle { .. })));
    assert_eq!(stack, [path("x"), path("sub/c.fea")]);
}

#[test]
fn expanded_text_of_whole_lines_holds_no_directive() {
    let files = texts(&[("a.fea", "include(b.fea);\r\nA\r\n"), ("b.fea", "B\r\n"), ("e.fea", "")]);
    let text = "include(a.fea);\r\ninclude(e.fea);\r\nend";
    let expanded = expand_feature_text(text, &files).unwrap();
    assert_eq!(expanded, "B\r\nA\r\nend");
    assert_eq!(expand_feature_text(&expanded, &files).unwrap(), expanded);

    // Line ends can be normalized before or after.
    let lf = texts(&[("a.fea", "include(b.fea);\nA\n"), ("b.fea", "B\n"), ("e.fea", "")]);
    assert_eq!(
        expand_feature_text(&normalize_feature_text(text), &lf).unwrap(),
        normalize_feature_text(&expanded)
    );

    // A file that does not end in a line feed can make up a directive.
    let files = texts(&[("a.fea", "include(")]);
    assert_eq!(
        expand_feature_text("include(a.fea);\nb.fea);\n", &files).unwrap(),
        "include(b.fea);\n"
    );
}

#[test]
fn expanding_succeeds_where_every_chain_is_sound() {
    // The unsound chain need not be part of the files that load.
    let files = texts(&[("a.fea", "include(b.fea);\n"), ("b.fea", "B\n"), ("c.fea", "include(c.fea);\n")]);
    assert!(expand_feature_text("include(a.fea);\ninclude(b.fea);\n", &files).is_ok());
    assert!(expand_feature_text("include(a.fea);\ninclude(c.fea);\n", &files).is_err());
}
