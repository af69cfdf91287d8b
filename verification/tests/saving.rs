use norad::error::{FontWriteError, LayerWriteError};
use norad::font::{
    Font, FontInfo, FormatVersion, Groups, Kerning, Layer, LayerFile, LibValue, MetaInfo, Part,
    StoreEntry, Value,
};
use norad::load::load_feature_files;
use norad::memory::MemorySink;
use norad::ordered_map::OrderedMap;
use norad::path::VirtualPath;
use norad::save::{check_font, save_font_with_sink, write_sink_file};
use norad::sink::{FontSink, History};
use std::io;

/// The texts of paths that are Unicode.
trait Text {
    fn to_text(&self) -> String;
}

impl Text for VirtualPath {
    fn to_text(&self) -> String {
        String::from_utf8(self.to_bytes()).unwrap()
    }
}

/// The font information, the groups and the kerning of the fonts here.
type Info = String;
type GroupNames = Vec<String>;
type Pairs = Vec<(String, i32)>;
type TestFont = Font<Info, GroupNames, Pairs, u32, String>;
type TestPart<'a> = Part<'a, Info, GroupNames, Pairs, u32>;

fn path(text: &str) -> VirtualPath {
    VirtualPath::new(text)
}

fn empty_font() -> TestFont {
    Font {
        meta: MetaInfo::default(),
        font_info: FontInfo {
            contents: String::new(),
            validity: Ok(()),
            is_empty: true,
            object_libs: OrderedMap::new(),
        },
        lib: OrderedMap::new(),
        groups: Groups { contents: Vec::new(), validity: Ok(()), is_empty: true },
        kerning: Kerning { contents: Vec::new(), is_empty: true },
        features: String::new(),
        feature_files: OrderedMap::new(),
        layers: Vec::new(),
        data: Vec::new(),
        images: Vec::new(),
    }
}

fn entry(name: &str, contents: &str) -> StoreEntry<String> {
    StoreEntry { path: path(name), contents: Ok(contents.as_bytes().to_vec()) }
}

fn full_font() -> TestFont {
    let mut font = empty_font();
    font.font_info.contents = "Test Sans".to_string();
    font.font_info.is_empty = false;
    font.lib.insert("zz".to_string(), Value::Leaf(1));
    font.lib.insert("com.example".to_string(), Value::Leaf(2));
    font.groups.contents = vec!["public.kern1.A".to_string()];
    font.groups.is_empty = false;
    font.kerning.contents = vec![("A V".to_string(), -20)];
    font.kerning.is_empty = false;
    font.features = "include(b.fea);\r\ninclude(a/c.fea);\r\n".to_string();
    font.feature_files.insert(path("b.fea"), "b\r\n".to_string());
    font.feature_files.insert(path("a/c.fea"), "c\n".to_string());
    font.layers = vec![
        Layer {
            name: "public.default".to_string(),
            path: path("glyphs"),
            files: vec![
                LayerFile { path: path("contents.plist"), contents: Ok(b"one".to_vec()) },
                LayerFile { path: path("A_.glif"), contents: Ok(b"two".to_vec()) },
            ],
        },
        Layer {
            name: "sketches".to_string(),
            path: path("glyphs.sketches"),
            files: vec![LayerFile {
                path: path("contents.plist"),
                contents: Ok(b"three".to_vec()),
            }],
        },
    ];
    font.data = vec![entry("z/y.bin", "y"), entry("a.bin", "a")];
    font.images = vec![entry("i.png", "i")];
    font
}

fn text_of_value(value: &Value<u32>) -> String {
    match value {
        Value::Leaf(number) => number.to_string(),
        Value::Dictionary(entries) => text_of_entries(entries),
    }
}

fn text_of_entries(entries: &OrderedMap<String, Value<u32>>) -> String {
    let entries: Vec<String> = (0..entries.len())
        .map(|i| {
            let (key, value) = entries.entry(i);
            format!("{}={}", key, text_of_value(value))
        })
        .collect();
    format!("{{{}}}", entries.join(" "))
}

fn serialize(part: &TestPart<'_>) -> Result<Vec<u8>, String> {
    let text = match part {
        Part::MetaInfo(meta) => format!(
            "meta {} {:?} {}",
            meta.creator.as_deref().unwrap_or("-"),
            meta.format_version,
            meta.format_version_minor
        ),
        Part::FontInfo(info) => format!("info {}", info),
        Part::Lib(entries) => {
            let entries: Vec<String> = entries
                .iter()
                .map(|(key, value)| {
                    let value = match value {
                        LibValue::Value(value) => text_of_value(value),
                        LibValue::Dictionary(entries) => text_of_entries(entries),
                    };
                    format!("{}={}", key, value)
                })
                .collect();
            format!("lib {}", entries.join(" "))
        }
        Part::Groups(groups) => format!("groups {}", groups.join(" ")),
        Part::Kerning(pairs) => format!("kerning {:?}", pairs),
        Part::LayerContents(layers) => {
            let layers: Vec<String> =
                layers.iter().map(|(name, path)| format!("{}={}", name, path.to_text())).collect();
            format!("layers {}", layers.join(" "))
        }
    };
    Ok(text.into_bytes())
}

/// A sink that keeps a record of what it was handed, and takes no file at one
/// path.
struct RecordingSink {
    refuses: Option<String>,
    handed: Vec<(String, String)>,
}

impl FontSink for RecordingSink {
    fn history(&self) -> History {
        unreachable!()
    }

    fn write(&mut self, path: &VirtualPath, data: &[u8]) -> Result<(), io::Error> {
        self.handed.push((path.to_text(), String::from_utf8(data.to_vec()).unwrap()));
        if self.refuses == Some(path.to_text()) {
            Err(io::Error::new(io::ErrorKind::Other, "full"))
        } else {
            Ok(())
        }
    }
}

fn recording(refuses: Option<&str>) -> RecordingSink {
    RecordingSink { refuses: refuses.map(|text| text.to_string()), handed: Vec::new() }
}

fn pairs(files: &[(&str, &str)]) -> Vec<(String, String)> {
    files.iter().map(|(name, contents)| (name.to_string(), contents.to_string())).collect()
}

#[test]
fn files_are_written_in_order() {
    let font = full_font();
    let mut sink = recording(None);
    save_font_with_sink(&font, serialize, &mut sink).unwrap();
    assert_eq!(
        sink.handed,
        pairs(&[
            ("metainfo.plist", "meta org.linebender.norad V3 0"),
            ("fontinfo.plist", "info Test Sans"),
            ("lib.plist", "lib com.example=2 zz=1"),
            ("groups.plist", "groups public.kern1.A"),
            ("kerning.plist", "kerning [(\"A V\", -20)]"),
            ("features.fea", "include(b.fea);\ninclude(a/c.fea);\n"),
            ("a/c.fea", "c\n"),
            ("b.fea", "b\n"),
            (
                "layercontents.plist",
                "layers public.default=glyphs sketches=glyphs.sketches"
            ),
            ("glyphs/contents.plist", "one"),
            ("glyphs/A_.glif", "two"),
            ("glyphs.sketches/contents.plist", "three"),
            ("data/z/y.bin", "y"),
            ("data/a.bin", "a"),
            ("images/i.png", "i"),
        ])
    );
}

#[test]
fn empty_parts_are_not_written() {
    let font = empty_font();
    let mut sink = recording(None);
    save_font_with_sink(&font, serialize, &mut sink).unwrap();
    assert_eq!(
        sink.handed,
        pairs(&[
            ("metainfo.plist", "meta org.linebender.norad V3 0"),
            ("layercontents.plist", "layers "),
        ])
    );
}

#[test]
fn feature_files_are_written_even_without_features() {
    let mut font = empty_font();
    font.feature_files.insert(path("a.fea"), "a".to_string());
    let mut sink = recording(None);
    save_font_with_sink(&font, serialize, &mut sink).unwrap();
    assert_eq!(
        sink.handed[1..3],
        pairs(&[("features.fea", ""), ("a.fea", "a")])[..]
    );
}

#[test]
fn metainfo_names_this_library() {
    let mut meta = MetaInfo::default();
    assert_eq!(meta.creator.as_deref(), Some("org.linebender.norad"));
    assert_eq!(meta.format_version, FormatVersion::V3);
    assert_eq!(meta.format_version_minor, 0);
    meta.format_version_minor = 7;
    let kept = meta.to_write();
    assert_eq!(kept.creator.as_deref(), Some("org.linebender.norad"));
    assert_eq!(kept.format_version_minor, 7);
    for creator in [None, Some("someone".to_string())] {
        meta.creator = creator;
        let replaced = meta.to_write();
        assert_eq!(replaced.creator.as_deref(), Some("org.linebender.norad"));
        assert_eq!(replaced.format_version, FormatVersion::V3);
        assert_eq!(replaced.format_version_minor, 0);
    }
}

#[test]
fn object_libs_are_written_in_the_order_of_the_keys() {
    let mut font = full_font();
    let mut inner: OrderedMap<String, Value<u32>> = OrderedMap::new();
    inner.insert("y".to_string(), Value::Leaf(5));
    inner.insert("x".to_string(), Value::Leaf(6));
    font.lib.insert("nested".to_string(), Value::Dictionary(inner));
    font.font_info.object_libs.insert("b".to_string(), Value::Leaf(3));
    font.font_info.object_libs.insert("a".to_string(), Value::Leaf(4));
    let mut sink = recording(None);
    save_font_with_sink(&font, serialize, &mut sink).unwrap();
    assert_eq!(
        sink.handed[2].1,
        "lib com.example=2 nested={x=6 y=5} public.objectLibs={a=4 b=3} zz=1"
    );

    // They are reason enough to write the custom data.
    let mut font = empty_font();
    font.font_info.object_libs.insert("a".to_string(), Value::Leaf(1));
    let mut sink = recording(None);
    save_font_with_sink(&font, serialize, &mut sink).unwrap();
    assert_eq!(
        sink.handed[1],
        ("lib.plist".to_string(), "lib public.objectLibs={a=1}".to_string())
    );
}

fn refusal(font: &TestFont) -> FontWriteError<String> {
    let mut sink = recording(None);
    assert!(check_font(font).is_err());
    let error = save_font_with_sink(font, serialize, &mut sink).unwrap_err();
    assert!(sink.handed.is_empty());
    error
}

#[test]
fn fonts_that_cannot_be_written_are_refused_first() {
    assert!(check_font(&full_font()).is_ok());

    // Each step mends what the one before it found.
    let mut font = full_font();
    font.images.push(StoreEntry { path: path("bad.png"), contents: Err("image".to_string()) });
    font.data.push(StoreEntry { path: path("bad.bin"), contents: Err("data".to_string()) });
    font.font_info.validity = Err("info".to_string());
    font.groups.validity = Err("groups".to_string());
    font.lib.insert("public.objectLibs".to_string(), Value::Leaf(0));
    font.meta.format_version = FormatVersion::V2;

    assert!(matches!(refusal(&font), FontWriteError::Downgrade));
    font.meta.format_version = FormatVersion::V1;
    assert!(matches!(refusal(&font), FontWriteError::Downgrade));
    font.meta.format_version = FormatVersion::V3;
    assert!(matches!(refusal(&font), FontWriteError::PreexistingPublicObjectLibsKey));
    font.lib = OrderedMap::new();
    match refusal(&font) {
        FontWriteError::InvalidGroups(source) => assert_eq!(source, "groups"),
        other => panic!("{:?}", other),
    }
    font.groups.validity = Ok(());
    match refusal(&font) {
        FontWriteError::InvalidFontInfo(source) => assert_eq!(source, "info"),
        other => panic!("{:?}", other),
    }
    font.font_info.validity = Ok(());
    match refusal(&font) {
        FontWriteError::InvalidStoreEntry { path: at, source } => {
            assert_eq!(at, path("bad.bin"));
            assert_eq!(source, "data");
        }
        other => panic!("{:?}", other),
    }
    font.data.pop();
    match refusal(&font) {
        FontWriteError::InvalidStoreEntry { path: at, source } => {
            assert_eq!(at, path("bad.png"));
            assert_eq!(source, "image");
        }
        other => panic!("{:?}", other),
    }
    font.images.pop();
    assert!(check_font(&font).is_ok());
}

#[test]
fn failures_of_the_sink_end_the_writing() {
    let font = full_font();
    let mut sink = recording(Some("a/c.fea"));
    match save_font_with_sink(&font, serialize, &mut sink) {
        Err(FontWriteError::Sink { path: at, source }) => {
            assert_eq!(at, path("a/c.fea"));
            assert_eq!(source.to_string(), "full");
        }
        other => panic!("{:?}", other),
    }
    assert_eq!(sink.handed.len(), 7);

    let mut sink = recording(Some("glyphs/A_.glif"));
    match save_font_with_sink(&font, serialize, &mut sink) {
        Err(FontWriteError::Layer { name, path: at, source }) => {
            assert_eq!(name, "public.default");
            assert_eq!(at, path("glyphs"));
            match *source {
                LayerWriteError::Sink { path: file, source } => {
                    assert_eq!(file, path("glyphs/A_.glif"));
                    assert_eq!(source.to_string(), "full");
                }
                other => panic!("{:?}", other),
            }
        }
        other => panic!("{:?}", other),
    }
    assert_eq!(sink.handed.len(), 11);

    let mut sink = recording(Some("images/i.png"));
    assert!(matches!(
        save_font_with_sink(&font, serialize, &mut sink),
        Err(FontWriteError::Sink { .. })
    ));
}

#[test]
fn failures_to_make_a_file_end_the_writing() {
    let font = full_font();
    let mut sink = recording(None);
    let no_groups = |part: &TestPart<'_>| -> Result<Vec<u8>, String> {
        match part {
            Part::Groups(_) => Err("no groups".to_string()),
            other => serialize(other),
        }
    };
    match save_font_with_sink(&font, no_groups, &mut sink) {
        Err(FontWriteError::CustomFile { name, source }) => {
            assert_eq!(name, "groups.plist");
            assert_eq!(source, "no groups");
        }
        other => panic!("{:?}", other),
    }
    assert_eq!(sink.handed.len(), 3);

    let mut font = full_font();
    font.layers[1].files[0].contents = Err("no layer".to_string());
    let mut sink = recording(None);
    match save_font_with_sink(&font, serialize, &mut sink) {
        Err(FontWriteError::Layer { name, path: at, source }) => {
            assert_eq!(name, "sketches");
            assert_eq!(at, path("glyphs.sketches"));
            match *source {
                LayerWriteError::File { path: file, source } => {
                    assert_eq!(file, path("glyphs.sketches/contents.plist"));
                    assert_eq!(source, "no layer");
                }
                other => panic!("{:?}", other),
            }
        }
        other => panic!("{:?}", other),
    }
    assert_eq!(sink.handed.len(), 11);
}

#[test]
fn a_file_is_handed_to_the_sink() {
    let mut sink = recording(Some("b"));
    let res: Result<(), FontWriteError<String>> = write_sink_file(&mut sink, &path("a"), b"x");
    assert!(res.is_ok());
    let res: Result<(), FontWriteError<String>> = write_sink_file(&mut sink, &path("b"), b"y");
    match res {
        Err(FontWriteError::Sink { path: at, source }) => {
            assert_eq!(at, path("b"));
            assert_eq!(source.kind(), io::ErrorKind::Other);
        }
        other => panic!("{:?}", other),
    }
    assert_eq!(sink.handed, pairs(&[("a", "x"), ("b", "y")]));
}

#[test]
fn the_last_file_under_a_path_stays() {
    let mut sink = MemorySink::new();
    assert!(sink.write(&path("a"), b"one").is_ok());
    assert!(sink.write(&path("b"), b"two").is_ok());
    assert!(sink.write(&path("./a").clone(), b"other").is_ok());
    assert!(sink.write(&path("a/"), b"three").is_ok());
    let files = sink.into_source().files;
    assert_eq!(files.get(&path("a")), Some(&b"three".to_vec()));
    assert_eq!(files.get(&path("./a")), Some(&b"other".to_vec()));
    assert_eq!(files.get(&path("b")), Some(&b"two".to_vec()));
    assert_eq!(files.len(), 3);
}

#[test]
fn saved_features_load_with_normalized_line_ends() {
    let font = full_font();
    let mut sink = MemorySink::new();
    save_font_with_sink(&font, serialize, &mut sink).unwrap();
    let (features, files) =
        load_feature_files(&sink.into_source(), &path("features.fea")).unwrap().unwrap();
    assert_eq!(features, "include(b.fea);\ninclude(a/c.fea);\n");
    assert_eq!(files.len(), 2);
    assert_eq!(files.get(&path("b.fea")), Some(&"b\n".to_string()));
    assert_eq!(files.get(&path("a/c.fea")), Some(&"c\n".to_string()));
}

#[test]
fn empty_features_are_not_there_after_saving() {
    let mut sink = MemorySink::new();
    save_font_with_sink(&empty_font(), serialize, &mut sink).unwrap();
    assert!(matches!(
        load_feature_files(&sink.into_source(), &path("features.fea")),
        Ok(None)
    ));
}

#[test]
fn paths_reach_the_sink_as_they_are_spelled() {
    let mut font = empty_font();
    font.features = "f".to_string();
    font.feature_files.insert(path("a//b.fea"), "b".to_string());
    font.layers = vec![Layer {
        name: "public.default".to_string(),
        path: path("glyphs/"),
        files: vec![LayerFile { path: path("./contents.plist"), contents: Ok(b"c".to_vec()) }],
    }];
    font.data = vec![entry("x//y", "y"), entry("/abs/", "z")];
    let mut sink = recording(None);
    save_font_with_sink(&font, serialize, &mut sink).unwrap();
    assert_eq!(
        sink.handed[1..],
        pairs(&[
            ("features.fea", "f"),
            ("a//b.fea", "b"),
            ("layercontents.plist", "layers public.default=glyphs/"),
            ("glyphs/./contents.plist", "c"),
            ("data/x//y", "y"),
            ("/abs/", "z"),
        ])[..]
    );
    let mut sink = recording(Some("a//b.fea"));
    match save_font_with_sink(&font, serialize, &mut sink) {
        Err(FontWriteError::Sink { path: at, .. }) => assert_eq!(at.to_text(), "a//b.fea"),
        other => panic!("{:?}", other),
    }
}

#[test]
fn save_with_sink_round_trips() {
    let mut font = full_font();
    font.features = "languagesystem DFLT dflt;\ninclude(b.fea);\ninclude(a/c.fea);\n".to_string();
    font.feature_files = OrderedMap::new();
    font.feature_files.insert(path("b.fea"), "b\n".to_string());
    font.feature_files.insert(path("a/c.fea"), "c\n".to_string());
    let mut sink = MemorySink::new();
    save_font_with_sink(&font, serialize, &mut sink).unwrap();

    // Every core file should be present in the sink output.
    let source = sink.into_source();
    let files = &source.files;
    assert!(files.contains_key(&path("metainfo.plist")));
    assert!(files.contains_key(&path("layercontents.plist")));
    assert!(files.contains_key(&path("glyphs/contents.plist")));

    // Each part is the one of the font.
    let text = |name: &str| String::from_utf8(files.get(&path(name)).unwrap().clone()).unwrap();
    assert_eq!(text("metainfo.plist"), "meta org.linebender.norad V3 0");
    assert_eq!(text("fontinfo.plist"), format!("info {}", font.font_info.contents));
    assert_eq!(text("lib.plist"), "lib com.example=2 zz=1");
    assert_eq!(text("groups.plist"), format!("groups {}", font.groups.contents.join(" ")));
    assert_eq!(text("kerning.plist"), format!("kerning {:?}", font.kerning.contents));

    // Reload from the sink output and verify the round-trip.
    let (features, feature_files) =
        load_feature_files(&source, &path("features.fea")).unwrap().unwrap();
    assert_eq!(features, font.features);
    assert_eq!(feature_files.len(), font.feature_files.len());
    for i in 0..feature_files.len() {
        assert_eq!(feature_files.entry(i), font.feature_files.entry(i));
    }
}
