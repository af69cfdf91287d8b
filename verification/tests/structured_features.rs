use norad::expand::expand_feature_text;
use norad::font::{Font, FontInfo, Groups, Kerning, Layer, LayerFile, MetaInfo, Part};
use norad::load::load_feature_files;
use norad::memory::{MemorySink, MemorySource};
use norad::names::FEATURES_FILE;
use norad::ordered_map::OrderedMap;
use norad::path::VirtualPath;
use norad::save::save_font_with_sink;

const METAINFO: &[u8] = br#"<?xml version="1.0" encoding="UTF-8"?>
<!DOCTYPE plist PUBLIC "-//Apple//DTD PLIST 1.0//EN" "http://www.apple.com/DTDs/PropertyList-1.0.dtd">
<plist version="1.0">
<dict>
    <key>creator</key>
    <string>org.linebender.norad</string>
    <key>formatVersion</key>
    <integer>3</integer>
</dict>
</plist>"#;

const FEATURES: &[u8] = b"languagesystem DFLT dflt;\ninclude( includes/shared.fea );\nfeature liga {\n    sub A A by A;\n} liga;\n";

const LAYER_CONTENTS: &[u8] = br#"<?xml version="1.0" encoding="UTF-8"?>
<!DOCTYPE plist PUBLIC "-//Apple//DTD PLIST 1.0//EN" "http://www.apple.com/DTDs/PropertyList-1.0.dtd">
<plist version="1.0">
<array>
    <array>
        <string>public.default</string>
        <string>glyphs</string>
    </array>
</array>
</plist>"#;

const GLYPHS_CONTENTS: &[u8] = br#"<?xml version="1.0" encoding="UTF-8"?>
<!DOCTYPE plist PUBLIC "-//Apple//DTD PLIST 1.0//EN" "http://www.apple.com/DTDs/PropertyList-1.0.dtd">
<plist version="1.0">
<dict>
    <key>A</key>
    <string>A_.glif</string>
</dict>
</plist>"#;

const GLYPH: &[u8] = br#"<?xml version="1.0" encoding="UTF-8"?>
<glyph name="A" format="2">
  <advance width="500"/>
</glyph>"#;

fn path(text: &str) -> VirtualPath {
    VirtualPath::new(text)
}

#[test]
fn structured_feature_files_load_and_expand() {
    let mut entries: OrderedMap<VirtualPath, Vec<u8>> = OrderedMap::new();
    entries.insert(path("metainfo.plist"), METAINFO.to_vec());
    entries.insert(path("features.fea"), FEATURES.to_vec());
    entries.insert(path("includes/shared.fea"), b"@shared = [A];\n".to_vec());
    entries.insert(path("layercontents.plist"), LAYER_CONTENTS.to_vec());
    entries.insert(path("glyphs/contents.plist"), GLYPHS_CONTENTS.to_vec());
    entries.insert(path("glyphs/A_.glif"), GLYPH.to_vec());

    let source = MemorySource { files: entries };
    let (features, feature_files) =
        load_feature_files(&source, &path(FEATURES_FILE)).unwrap().unwrap();

    // The main feature text should be loaded as-is.
    assert_eq!(
        features,
        "languagesystem DFLT dflt;\ninclude( includes/shared.fea );\nfeature liga {\n    sub A A by A;\n} liga;\n"
    );
    // The included file should be in feature_files.
    assert_eq!(
        feature_files.get(&path("includes/shared.fea")),
        Some(&"@shared = [A];\n".to_string())
    );
    assert_eq!(feature_files.len(), 1);
    // Expanding should inline the file.
    let expanded = expand_feature_text(&features, &feature_files).unwrap();
    assert_eq!(
        expanded,
        "languagesystem DFLT dflt;\n@shared = [A];\nfeature liga {\n    sub A A by A;\n} liga;\n"
    );

    // Round-trip through a sink.
    let font: Font<(), (), (), u32, String> = Font {
        meta: MetaInfo::default(),
        font_info: FontInfo {
            contents: (),
            validity: Ok(()),
            is_empty: true,
            object_libs: OrderedMap::new(),
        },
        lib: OrderedMap::new(),
        groups: Groups { contents: (), validity: Ok(()), is_empty: true },
        kerning: Kerning { contents: (), is_empty: true },
        features,
        feature_files,
        layers: vec![Layer {
            name: "public.default".to_string(),
            path: path("glyphs"),
            files: vec![
                LayerFile { path: path("contents.plist"), contents: Ok(GLYPHS_CONTENTS.to_vec()) },
                LayerFile { path: path("A_.glif"), contents: Ok(GLYPH.to_vec()) },
            ],
        }],
        data: Vec::new(),
        images: Vec::new(),
    };
    let serialize = |part: &Part<'_, (), (), (), u32>| -> Result<Vec<u8>, String> {
        match part {
            Part::MetaInfo(_) => Ok(METAINFO.to_vec()),
            Part::LayerContents(_) => Ok(LAYER_CONTENTS.to_vec()),
            _ => Err("nothing else is written".to_string()),
        }
    };
    let mut sink = MemorySink::new();
    save_font_with_sink(&font, serialize, &mut sink).unwrap();

    // Both features.fea and the included file should be written.
    let reload_source = sink.into_source();
    let files = &reload_source.files;
    assert!(files.contains_key(&path("features.fea")));
    assert!(files.contains_key(&path("includes/shared.fea")));
    assert!(files.contains_key(&path("metainfo.plist")));
    assert!(files.contains_key(&path("layercontents.plist")));
    assert!(files.contains_key(&path("glyphs/contents.plist")));
    assert_eq!(files.len(), 6);

    // Reload and verify.
    let (reloaded, reloaded_files) =
        load_feature_files(&reload_source, &path(FEATURES_FILE)).unwrap().unwrap();
    assert_eq!(reloaded, font.features);
    assert_eq!(reloaded_files.len(), font.feature_files.len());
    assert_eq!(
        reloaded_files.get(&path("includes/shared.fea")),
        font.feature_files.get(&path("includes/shared.fea"))
    );
    assert_eq!(expand_feature_text(&reloaded, &reloaded_files).unwrap(), expanded);
}
