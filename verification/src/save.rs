//! Writing a font to a sink.

use crate::error::{FontWriteError, LayerFailure, LayerWriteError, WriteFailure};
use crate::expand::features_spelling;
use crate::font::{
    written_metainfo, Font, FormatVersion, Layer, LayerFile, LibValue, Part, PartView, StoreEntry,
    Value,
};
use crate::line_ends::{lf_text, normalize_feature_text};
use crate::names::{
    DATA_DIR, FEATURES_FILE, FONTINFO_FILE, GROUPS_FILE, IMAGES_DIR, KERNING_FILE,
    LAYER_CONTENTS_FILE, LIB_FILE, METAINFO_FILE, PUBLIC_OBJECT_LIBS_KEY,
};
use crate::path::{join_spelling, VirtualPath};
use crate::sink::{all_taken, FontSink, SinkCall};
use crate::text::{is_text_before, text_before};
use std::borrow::Cow;
use vstd::prelude::*;
use vstd::utf8::encode_utf8;

verus! {

broadcast use vstd::seq::group_seq_axioms;

// ---------------------------------------------------------------------------
// What is refused
// ---------------------------------------------------------------------------

/// Whether a font can be written at all.
pub open spec fn accepted<I, G, K, L, E>(font: Font<I, G, K, L, E>) -> bool {
    &&& font.meta.format_version == FormatVersion::V3
    &&& !font.lib@.contains_key(PUBLIC_OBJECT_LIBS_KEY@)
    &&& font.groups.validity is Ok
    &&& font.font_info.validity is Ok
    &&& forall|i: int|
        0 <= i < store(font).len() ==> (#[trigger] store(font)[i]).contents is Ok
}

/// The data files and the images of a font.
pub open spec fn store<I, G, K, L, E>(font: Font<I, G, K, L, E>) -> Seq<StoreEntry<E>> {
    font.data@ + font.images@
}

/// Whether `failure` is why `font` cannot be written: the first of the
/// conditions that it does not meet.
pub open spec fn refused<I, G, K, L, E: Clone>(font: Font<I, G, K, L, E>, failure: WriteFailure<E>) -> bool {
    if font.meta.format_version != FormatVersion::V3 {
        failure is Downgrade
    } else if font.lib@.contains_key(PUBLIC_OBJECT_LIBS_KEY@) {
        failure is PreexistingPublicObjectLibsKey
    } else if let Err(reported) = font.groups.validity {
        failure matches WriteFailure::InvalidGroups(source) && cloned(reported, source)
    } else if let Err(reported) = font.font_info.validity {
        failure matches WriteFailure::InvalidFontInfo(source) && cloned(reported, source)
    } else {
        exists|i: int| #[trigger] first_invalid(store(font), i, failure)
    }
}

/// Whether `failure` is that the entry at `i` is not valid, and it is the first
/// such entry.
pub open spec fn first_invalid<E: Clone>(
    entries: Seq<StoreEntry<E>>,
    i: int,
    failure: WriteFailure<E>,
) -> bool {
    &&& 0 <= i < entries.len()
    &&& entries[i].contents matches Err(reported)
    &&& failure matches WriteFailure::InvalidStoreEntry { path, source }
    &&& path == entries[i].path.spelling()
    &&& cloned(reported, source)
    &&& forall|j: int| 0 <= j < i ==> (#[trigger] entries[j]).contents is Ok
}

/// Refuses data files or images that are not valid.
fn check_store<E: Clone>(entries: &Vec<StoreEntry<E>>) -> (res: Result<(), FontWriteError<E>>)
    ensures
        match res {
            Ok(()) => forall|i: int|
                0 <= i < entries@.len() ==> (#[trigger] entries@[i]).contents is Ok,
            Err(error) => exists|i: int| #[trigger] first_invalid(entries@, i, error@),
        },
{
    let mut i: usize = 0;
    while i < entries.len()
        invariant
            i <= entries@.len(),
            forall|j: int| 0 <= j < i ==> (#[trigger] entries@[j]).contents is Ok,
        decreases entries@.len() - i,
    {
        let entry = &entries[i];
        match &entry.contents {
            Ok(_) => {},
            Err(reported) => {
                let source = reported.clone();
                let error = FontWriteError::InvalidStoreEntry { path: entry.path.clone(), source };
                assert(first_invalid(entries@, i as int, error@));
                return Err(error);
            },
        }
        i += 1;
    }
    Ok(())
}

/// Refuses a font that cannot be written.
pub fn check_font<I, G, K, L, E: Clone>(font: &Font<I, G, K, L, E>) -> (res: Result<(), FontWriteError<E>>)
    ensures
        match res {
            Ok(()) => accepted(*font),
            Err(error) => !accepted(*font) && refused(*font, error@),
        },
{
    if font.meta.format_version != FormatVersion::V3 {
        return Err(FontWriteError::Downgrade);
    }
    if font.lib.contains_key(&PUBLIC_OBJECT_LIBS_KEY.to_owned()) {
        return Err(FontWriteError::PreexistingPublicObjectLibsKey);
    }
    if let Err(reported) = &font.groups.validity {
        return Err(FontWriteError::InvalidGroups(reported.clone()));
    }
    if let Err(reported) = &font.font_info.validity {
        return Err(FontWriteError::InvalidFontInfo(reported.clone()));
    }
    let ghost all = store(*font);
    match check_store(&font.data) {
        Ok(()) => {},
        Err(error) => {
            proof {
                let i = choose|i: int| #[trigger] first_invalid(font.data@, i, error@);
                assert forall|j: int| 0 <= j < i implies (#[trigger] all[j]).contents is Ok by {
                    assert(all[j] == font.data@[j]);
                }
                assert(!(all[i].contents is Ok));
                assert(first_invalid(all, i, error@));
            }
            return Err(error);
        },
    }
    match check_store(&font.images) {
        Ok(()) => {},
        Err(error) => {
            proof {
                let n = font.data@.len();
                let i = choose|i: int| #[trigger] first_invalid(font.images@, i, error@);
                assert forall|j: int| 0 <= j < n + i implies (
                #[trigger] all[j]).contents is Ok by {
                    if j < n {
                        assert(all[j] == font.data@[j]);
                    } else {
                        assert(all[j] == font.images@[j - n]);
                    }
                }
                assert(!(all[n + i].contents is Ok));
                assert(first_invalid(all, n + i, error@));
            }
            return Err(error);
        },
    }
    assert forall|j: int| 0 <= j < all.len() implies (#[trigger] all[j]).contents is Ok by {
        if j < font.data@.len() {
            assert(all[j] == font.data@[j]);
        } else {
            assert(all[j] == font.images@[j - font.data@.len()]);
        }
    }
    Ok(())
}

// ---------------------------------------------------------------------------
// What is written
// ---------------------------------------------------------------------------

/// What a file that is to be written holds.
pub enum ContentView<I, G, K, L, E> {
    /// A part of the font as a property list.
    Part {
        name: Seq<char>,
        part: PartView<I, G, K, L>,
    },
    /// The given bytes.
    Bytes(Seq<u8>),
    /// A file of a layer.
    LayerFile {
        name: Seq<char>,
        /// How the directory of the layer is spelled.
        layer: Seq<u8>,
        contents: Result<Seq<u8>, E>,
    },
}

/// A file that is to be written.
#[verifier::ext_equal]
pub struct PlannedView<I, G, K, L, E> {
    /// How the path of the file is spelled.
    pub path: Seq<u8>,
    pub content: ContentView<I, G, K, L, E>,
}

/// A part of the font to be written under its name.
pub open spec fn part_file<I, G, K, L, E>(name: Seq<char>, part: PartView<I, G, K, L>) -> PlannedView<I, G, K, L, E> {
    PlannedView { path: encode_utf8(name), content: ContentView::Part { name, part } }
}

/// One file where `wanted` holds, and none otherwise.
pub open spec fn file_if<I, G, K, L, E>(wanted: bool, file: PlannedView<I, G, K, L, E>) -> Seq<PlannedView<I, G, K, L, E>> {
    if wanted {
        seq![file]
    } else {
        Seq::empty()
    }
}

/// `entries` with one more, in the order of the keys.
pub open spec fn put_in_order<V>(
    entries: Seq<(Seq<char>, V)>,
    key: Seq<char>,
    value: V,
) -> Seq<(Seq<char>, V)>
    decreases entries.len(),
{
    if entries.len() == 0 || text_before(entries.last().0, key) {
        entries.push((key, value))
    } else {
        put_in_order(entries.drop_last(), key, value).push(entries.last())
    }
}

/// The custom data with which a font is written: its own, and that of its
/// guidelines under the key for it.
pub open spec fn written_lib<I, G, K, L, E>(font: Font<I, G, K, L, E>) -> Seq<(Seq<char>, Value<L>)> {
    let libs = font.font_info.object_libs;
    if libs.sorted().len() > 0 {
        put_in_order(font.lib.sorted(), PUBLIC_OBJECT_LIBS_KEY@, Value::Dictionary(libs))
    } else {
        font.lib.sorted()
    }
}

/// A text file with normalized line ends.
pub open spec fn text_file<I, G, K, L, E>(path: Seq<u8>, text: Seq<char>) -> PlannedView<I, G, K, L, E> {
    PlannedView { path, content: ContentView::Bytes(encode_utf8(lf_text(text))) }
}

/// The features and the files that they take in.
pub open spec fn feature_plan<I, G, K, L, E>(font: Font<I, G, K, L, E>) -> Seq<PlannedView<I, G, K, L, E>> {
    let files = font.feature_files.entries();
    if font.features@.len() == 0 && files.len() == 0 {
        Seq::empty()
    } else {
        seq![text_file::<I, G, K, L, E>(features_spelling(), font.features@)] + Seq::new(
            files.len(),
            |i: int| text_file::<I, G, K, L, E>(files[i].0.spelling(), files[i].1@),
        )
    }
}

/// The names and the directories of the layers.
pub open spec fn layer_contents<E>(layers: Seq<Layer<E>>) -> Seq<(Seq<char>, Seq<u8>)> {
    layers.map_values(|layer: Layer<E>| (layer.name@, layer.path.spelling()))
}

/// What a file of a layer holds.
pub open spec fn bytes_of<E>(contents: Result<Vec<u8>, E>) -> Result<Seq<u8>, E> {
    match contents {
        Ok(bytes) => Ok(bytes@),
        Err(reported) => Err(reported),
    }
}

/// A file of a layer, in the directory of the layer.
pub open spec fn layer_file<I, G, K, L, E>(layer: Layer<E>, file: LayerFile<E>) -> PlannedView<I, G, K, L, E> {
    PlannedView {
        path: join_spelling(layer.path.spelling(), file.path.spelling()),
        content: ContentView::LayerFile {
            name: layer.name@,
            layer: layer.path.spelling(),
            contents: bytes_of(file.contents),
        },
    }
}

/// The files of a layer.
pub open spec fn layer_files<I, G, K, L, E>(layer: Layer<E>) -> Seq<PlannedView<I, G, K, L, E>> {
    layer.files@.map_values(|file: LayerFile<E>| layer_file::<I, G, K, L, E>(layer, file))
}

/// The files of all layers.
pub open spec fn layer_plan<I, G, K, L, E>(layers: Seq<Layer<E>>) -> Seq<PlannedView<I, G, K, L, E>>
    decreases layers.len(),
{
    if layers.len() == 0 {
        Seq::empty()
    } else {
        layer_plan(layers.drop_last()) + layer_files(layers.last())
    }
}

/// The files that are kept beside the font, in the directory for them.
pub open spec fn store_plan<I, G, K, L, E>(
    directory: Seq<char>,
    entries: Seq<StoreEntry<E>>,
) -> Seq<PlannedView<I, G, K, L, E>> {
    entries.map_values(
        |entry: StoreEntry<E>|
            PlannedView {
                path: join_spelling(encode_utf8(directory), entry.path.spelling()),
                content: ContentView::Bytes(entry.contents->Ok_0@),
            },
    )
}

/// The files before those of the features.
pub open spec fn leading_plan<I, G, K, L, E>(font: Font<I, G, K, L, E>) -> Seq<PlannedView<I, G, K, L, E>> {
    seq![
        part_file::<I, G, K, L, E>(METAINFO_FILE@, PartView::MetaInfo(written_metainfo(font.meta@))),
    ] + file_if(!font.font_info.is_empty, part_file(FONTINFO_FILE@, PartView::FontInfo(font.font_info.contents))) + file_if(
        written_lib(font).len() > 0,
        part_file(LIB_FILE@, PartView::Lib(written_lib(font))),
    ) + file_if(!font.groups.is_empty, part_file(GROUPS_FILE@, PartView::Groups(font.groups.contents))) + file_if(
        !font.kerning.is_empty,
        part_file(KERNING_FILE@, PartView::Kerning(font.kerning.contents)),
    )
}

/// The files behind those of the features.
pub open spec fn trailing_plan<I, G, K, L, E>(font: Font<I, G, K, L, E>) -> Seq<PlannedView<I, G, K, L, E>> {
    seq![
        part_file::<I, G, K, L, E>(
            LAYER_CONTENTS_FILE@,
            PartView::LayerContents(layer_contents(font.layers@)),
        ),
    ] + layer_plan(font.layers@) + store_plan(DATA_DIR@, font.data@) + store_plan(
        IMAGES_DIR@,
        font.images@,
    )
}

/// The files with which a font is written, in order.
pub open spec fn plan<I, G, K, L, E>(font: Font<I, G, K, L, E>) -> Seq<PlannedView<I, G, K, L, E>> {
    leading_plan(font) + feature_plan(font) + trailing_plan(font)
}

/// What a planned file holds.
enum Content<'a, I, G, K, L, E> {
    Part {
        name: &'static str,
        part: Part<'a, I, G, K, L>,
    },
    Text(Cow<'a, str>),
    Data(&'a Vec<u8>),
    LayerFile {
        layer: &'a Layer<E>,
        contents: &'a Result<Vec<u8>, E>,
    },
}

/// A file that is to be written.
struct Planned<'a, I, G, K, L, E> {
    path: VirtualPath,
    content: Content<'a, I, G, K, L, E>,
}

impl<'a, I, G, K, L, E> View for Planned<'a, I, G, K, L, E> {
    type V = PlannedView<I, G, K, L, E>;

    closed spec fn view(&self) -> PlannedView<I, G, K, L, E> {
        PlannedView {
            path: self.path.spelling(),
            content: match self.content {
                Content::Part { name, part } => ContentView::Part { name: name@, part: part@ },
                Content::Text(text) => ContentView::Bytes(encode_utf8(text@)),
                Content::Data(bytes) => ContentView::Bytes(bytes@),
                Content::LayerFile { layer, contents } => ContentView::LayerFile {
                    name: layer.name@,
                    layer: layer.path.spelling(),
                    contents: bytes_of(*contents),
                },
            },
        }
    }
}

/// The given planned files.
spec fn planned<'a, I, G, K, L, E>(files: Seq<Planned<'a, I, G, K, L, E>>) -> Seq<PlannedView<I, G, K, L, E>> {
    files.map_values(|file: Planned<'a, I, G, K, L, E>| file@)
}

/// Appends a planned file.
fn push_planned<'a, I, G, K, L, E>(files: &mut Vec<Planned<'a, I, G, K, L, E>>, file: Planned<'a, I, G, K, L, E>)
    ensures
        planned(final(files)@) == planned(old(files)@).push(file@),
{
    let ghost before = files@;
    let ghost view = file@;
    files.push(file);
    assert(planned(files@) == planned(before).push(view));
}

/// Appends a part of the font.
fn push_part<'a, I, G, K, L, E>(
    files: &mut Vec<Planned<'a, I, G, K, L, E>>,
    name: &'static str,
    part: Part<'a, I, G, K, L>,
)
    ensures
        planned(final(files)@) == planned(old(files)@).push(part_file(name@, part@)),
{
    push_planned(files, Planned { path: VirtualPath::new(name), content: Content::Part { name, part } });
}

/// Where the entry comes to stand: behind those whose keys stand before its own.
proof fn lemma_put_in_order_at<V>(
    entries: Seq<(Seq<char>, V)>,
    key: Seq<char>,
    value: V,
    at: int,
)
    requires
        0 <= at <= entries.len(),
        at > 0 ==> text_before(entries[at - 1].0, key),
        forall|k: int| at <= k < entries.len() ==> !text_before((#[trigger] entries[k]).0, key),
    ensures
        put_in_order(entries, key, value) == entries.take(at).push((key, value)) + entries.skip(at),
    decreases entries.len(),
{
    if at == entries.len() {
        assert(entries.take(at) == entries);
        assert(entries.push((key, value)) + entries.skip(at) == entries.push((key, value)));
    } else {
        let head = entries.drop_last();
        assert(!text_before(entries[entries.len() - 1].0, key));
        assert forall|k: int| at <= k < head.len() implies !text_before(
            (#[trigger] head[k]).0,
            key,
        ) by {
            assert(head[k] == entries[k]);
        }
        lemma_put_in_order_at(head, key, value, at);
        assert(head.take(at) == entries.take(at));
        assert(head.skip(at).push(entries.last()) == entries.skip(at));
        assert((head.take(at).push((key, value)) + head.skip(at)).push(entries.last())
            == entries.take(at).push((key, value)) + entries.skip(at));
    }
}

/// The entries that a part holds.
spec fn entry_views<'a, L>(entries: Seq<(&'a str, LibValue<'a, L>)>) -> Seq<
    (Seq<char>, Value<L>),
> {
    entries.map_values(|e: (&'a str, LibValue<'a, L>)| (e.0@, e.1@))
}

/// Puts an entry where its key belongs.
fn put_entry<'a, L>(
    entries: &mut Vec<(&'a str, LibValue<'a, L>)>,
    key: &'static str,
    value: LibValue<'a, L>,
)
    ensures
        entry_views(final(entries)@) == put_in_order(entry_views(old(entries)@), key@, value@),
{
    let ghost before = entry_views(entries@);
    let ghost view = value@;
    let mut at: usize = entries.len();
    while at > 0 && !is_text_before(entries[at - 1].0, key)
        invariant
            at <= entries@.len(),
            before == entry_views(entries@),
            forall|k: int| at <= k < before.len() ==> !text_before((#[trigger] before[k]).0, key@),
        decreases at,
    {
        at -= 1;
    }
    proof {
        lemma_put_in_order_at(before, key@, view, at as int);
    }
    entries.insert(at, (key, value));
    assert(entry_views(entries@) == before.take(at as int).push((key@, view)) + before.skip(
        at as int,
    ));
}

/// The custom data with which a font is written.
fn lib_to_write<'a, I, G, K, L, E>(font: &'a Font<I, G, K, L, E>) -> (res: Vec<(&'a str, LibValue<'a, L>)>)
    ensures
        entry_views(res@) == written_lib(*font),
{
    let ghost own = font.lib.sorted();
    let mut entries: Vec<(&'a str, LibValue<'a, L>)> = Vec::new();
    let len = font.lib.len();
    let mut i: usize = 0;
    while i < len
        invariant
            i <= len,
            len == own.len(),
            own == font.lib.sorted(),
            entry_views(entries@) == own.take(i as int),
        decreases len - i,
    {
        let ghost before = entries@;
        let (key, value) = font.lib.entry(i);
        entries.push((key.as_str(), LibValue::Value(value)));
        assert(entry_views(entries@) == entry_views(before).push(own[i as int]));
        i += 1;
    }
    assert(own.take(len as int) == own);
    if !font.font_info.object_libs.is_empty() {
        put_entry(
            &mut entries,
            PUBLIC_OBJECT_LIBS_KEY,
            LibValue::Dictionary(&font.font_info.object_libs),
        );
    }
    entries
}

/// The files before those of the features.
fn plan_leading<'a, I, G, K, L, E>(font: &'a Font<I, G, K, L, E>) -> (files: Vec<Planned<'a, I, G, K, L, E>>)
    ensures
        planned(files@) == leading_plan(*font),
{
    let mut files: Vec<Planned<'a, I, G, K, L, E>> = Vec::new();
    push_part(&mut files, METAINFO_FILE, Part::MetaInfo(font.meta.to_write()));
    if !font.font_info.is_empty {
        push_part(&mut files, FONTINFO_FILE, Part::FontInfo(&font.font_info.contents));
    }
    let lib = lib_to_write(font);
    assert(Part::<I, G, K, L>::Lib(lib)@ == PartView::<I, G, K, L>::Lib(entry_views(lib@)));
    if lib.len() > 0 {
        push_part(&mut files, LIB_FILE, Part::Lib(lib));
    }
    if !font.groups.is_empty {
        push_part(&mut files, GROUPS_FILE, Part::Groups(&font.groups.contents));
    }
    if !font.kerning.is_empty {
        push_part(&mut files, KERNING_FILE, Part::Kerning(&font.kerning.contents));
    }
    assert(planned(files@) == leading_plan(*font));
    files
}

/// Appends the features and the files that they take in.
fn plan_features<'a, I, G, K, L, E>(font: &'a Font<I, G, K, L, E>, files: &mut Vec<Planned<'a, I, G, K, L, E>>)
    ensures
        planned(final(files)@) == planned(old(files)@) + feature_plan(*font),
{
    let ghost before = planned(files@);
    let ghost sorted = font.feature_files.entries();
    let ghost plan = feature_plan(*font);
    if font.features.as_str().is_empty() && font.feature_files.is_empty() {
        assert(before + plan == before);
        return;
    }
    push_planned(
        files,
        Planned {
            path: VirtualPath::new(FEATURES_FILE),
            content: Content::Text(normalize_feature_text(font.features.as_str())),
        },
    );
    let len = font.feature_files.len();
    let mut i: usize = 0;
    assert(before.push(plan[0]) == before + plan.take(1));
    while i < len
        invariant
            i <= len,
            len == sorted.len(),
            sorted == font.feature_files.entries(),
            plan == feature_plan(*font),
            plan.len() == len + 1,
            planned(files@) == before + plan.take(i + 1),
        decreases len - i,
    {
        let (path, contents) = font.feature_files.entry(i);
        push_planned(
            files,
            Planned {
                path: path.clone(),
                content: Content::Text(normalize_feature_text(contents.as_str())),
            },
        );
        assert(before + plan.take(i + 2) == (before + plan.take(i + 1)).push(plan[i + 1]));
        i += 1;
    }
    assert(plan.take(plan.len() as int) == plan);
}

/// Appends the files of the layers.
fn plan_layers<'a, I, G, K, L, E>(layers: &'a Vec<Layer<E>>, files: &mut Vec<Planned<'a, I, G, K, L, E>>)
    ensures
        planned(final(files)@) == planned(old(files)@) + layer_plan(layers@),
{
    let ghost before = planned(files@);
    let mut i: usize = 0;
    assert(before + layer_plan(layers@.take(0)) == before);
    while i < layers.len()
        invariant
            i <= layers@.len(),
            planned(files@) == before + layer_plan(layers@.take(i as int)),
        decreases layers@.len() - i,
    {
        let layer = &layers[i];
        let ghost done = planned(files@);
        let ghost own = layer_files::<I, G, K, L, E>(*layer);
        assert(layers@.take(i + 1).drop_last() == layers@.take(i as int));
        assert(layers@.take(i + 1).last() == *layer);
        let mut j: usize = 0;
        assert(done + own.take(0) == done);
        while j < layer.files.len()
            invariant
                j <= layer.files@.len(),
                own == layer_files::<I, G, K, L, E>(*layer),
                planned(files@) == done + own.take(j as int),
            decreases layer.files@.len() - j,
        {
            let file = &layer.files[j];
            push_planned(
                files,
                Planned {
                    path: layer.path.join(&file.path),
                    content: Content::LayerFile { layer, contents: &file.contents },
                },
            );
            assert(own[j as int] == layer_file::<I, G, K, L, E>(*layer, *file));
            assert(done + own.take(j + 1) == (done + own.take(j as int)).push(own[j as int]));
            j += 1;
        }
        assert(own.take(own.len() as int) == own);
        assert(before + (layer_plan(layers@.take(i as int)) + own) == done + own);
        i += 1;
    }
    assert(layers@.take(layers@.len() as int) == layers@);
}

/// Appends the files that are kept beside the font in `directory`.
fn plan_store<'a, I, G, K, L, E>(
    directory: &'static str,
    entries: &'a Vec<StoreEntry<E>>,
    files: &mut Vec<Planned<'a, I, G, K, L, E>>,
)
    requires
        forall|i: int| 0 <= i < entries@.len() ==> (#[trigger] entries@[i]).contents is Ok,
    ensures
        planned(final(files)@) == planned(old(files)@) + store_plan(directory@, entries@),
{
    let ghost before = planned(files@);
    let ghost plan = store_plan::<I, G, K, L, E>(directory@, entries@);
    let base = VirtualPath::new(directory);
    let mut i: usize = 0;
    assert(before + plan.take(0) == before);
    while i < entries.len()
        invariant
            forall|i: int| 0 <= i < entries@.len() ==> (#[trigger] entries@[i]).contents is Ok,
            base.spelling() == encode_utf8(directory@),
            i <= entries@.len(),
            plan == store_plan::<I, G, K, L, E>(directory@, entries@),
            planned(files@) == before + plan.take(i as int),
        decreases entries@.len() - i,
    {
        let entry = &entries[i];
        if let Ok(data) = &entry.contents {
            push_planned(
                files,
                Planned { path: base.join(&entry.path), content: Content::Data(data) },
            );
            assert(before + plan.take(i + 1) == (before + plan.take(i as int)).push(plan[i as int]));
        }
        i += 1;
    }
    assert(plan.take(plan.len() as int) == plan);
}

/// The files with which a font is written.
fn plan_files<'a, I, G, K, L, E>(font: &'a Font<I, G, K, L, E>) -> (files: Vec<Planned<'a, I, G, K, L, E>>)
    requires
        accepted(*font),
    ensures
        planned(files@) == plan(*font),
{
    let mut files = plan_leading(font);
    plan_features(font, &mut files);
    let ghost head = leading_plan(*font) + feature_plan(*font);
    assert(planned(files@) == head);
    let mut layers: Vec<(&'a str, &'a VirtualPath)> = Vec::new();
    let mut i: usize = 0;
    let ghost view = |l: (&'a str, &'a VirtualPath)| (l.0@, l.1.spelling());
    while i < font.layers.len()
        invariant
            i <= font.layers@.len(),
            view == (|l: (&'a str, &'a VirtualPath)| (l.0@, l.1.spelling())),
            layers@.map_values(view) == layer_contents(font.layers@).take(i as int),
        decreases font.layers@.len() - i,
    {
        let ghost before = layers@;
        let layer = &font.layers[i];
        layers.push((layer.name.as_str(), &layer.path));
        assert(layers@.map_values(view) == before.map_values(view).push(
            layer_contents(font.layers@)[i as int],
        ));
        i += 1;
    }
    assert(layer_contents(font.layers@).take(font.layers@.len() as int) == layer_contents(
        font.layers@,
    ));
    push_part(&mut files, LAYER_CONTENTS_FILE, Part::LayerContents(layers));
    plan_layers(&font.layers, &mut files);
    proof {
        let all = store(*font);
        assert forall|j: int| 0 <= j < font.data@.len() implies (
        #[trigger] font.data@[j]).contents is Ok by {
            assert(all[j] == font.data@[j]);
        }
        assert forall|j: int| 0 <= j < font.images@.len() implies (
        #[trigger] font.images@[j]).contents is Ok by {
            assert(all[font.data@.len() + j] == font.images@[j]);
        }
    }
    plan_store(DATA_DIR, &font.data, &mut files);
    plan_store(IMAGES_DIR, &font.images, &mut files);
    assert(planned(files@) == plan(*font));
    files
}

// ---------------------------------------------------------------------------
// How it is written
// ---------------------------------------------------------------------------

/// Whether making the contents of a planned file can give `got`. A part of the
/// font is made into a property list by `serialize`.
pub open spec fn can_give<'a, I, G, K, L, E: Clone, F: Fn(&Part<'a, I, G, K, L>) -> Result<Vec<u8>, E>>(
    serialize: F,
    file: PlannedView<I, G, K, L, E>,
    got: Result<Seq<u8>, E>,
) -> bool {
    match file.content {
        ContentView::Part { part, .. } => exists|arg: Part<'a, I, G, K, L>, made: Result<Vec<u8>, E>|
            arg@ == part && #[trigger] call_ensures(serialize, (&arg,), made) && got == bytes_of(
                made,
            ),
        ContentView::Bytes(bytes) => got == Ok::<Seq<u8>, E>(bytes),
        ContentView::LayerFile { contents: Ok(bytes), .. } => got == Ok::<Seq<u8>, E>(bytes),
        ContentView::LayerFile { contents: Err(reported), .. } => {
            got matches Err(source) && cloned(reported, source)
        },
    }
}

/// The failure to make the contents of a planned file.
pub open spec fn content_failure<I, G, K, L, E>(file: PlannedView<I, G, K, L, E>, source: E) -> WriteFailure<E> {
    match file.content {
        ContentView::LayerFile { name, layer, .. } => WriteFailure::Layer {
            name,
            path: layer,
            source: LayerFailure::File { path: file.path, source },
        },
        ContentView::Part { name, .. } => WriteFailure::CustomFile { name, source },
        // Bytes are there already.
        ContentView::Bytes(_) => vstd::pervasive::arbitrary(),
    }
}

/// The failure to hand a planned file to the sink.
pub open spec fn sink_failure<I, G, K, L, E>(
    file: PlannedView<I, G, K, L, E>,
    source: std::io::Error,
) -> WriteFailure<E> {
    match file.content {
        ContentView::LayerFile { name, layer, .. } => WriteFailure::Layer {
            name,
            path: layer,
            source: LayerFailure::Sink { path: file.path, source },
        },
        _ => WriteFailure::Sink { path: file.path, source },
    }
}

/// Whether `calls` hand the sink the first files of `plan` in order, each with
/// contents that making them can give.
pub open spec fn hands_over<'a, I, G, K, L, E: Clone, F: Fn(&Part<'a, I, G, K, L>) -> Result<Vec<u8>, E>>(
    serialize: F,
    plan: Seq<PlannedView<I, G, K, L, E>>,
    calls: Seq<SinkCall>,
) -> bool {
    &&& calls.len() <= plan.len()
    &&& forall|i: int|
        0 <= i < calls.len() ==> (#[trigger] calls[i]).path == plan[i].path && can_give(
            serialize,
            plan[i],
            Ok(calls[i].data),
        )
}

/// Whether `calls` and `outcome` are how writing the files of `plan` can go:
/// they are handed to the sink in order, and the first failure ends it.
pub open spec fn carried_out<'a, I, G, K, L, E: Clone, F: Fn(&Part<'a, I, G, K, L>) -> Result<Vec<u8>, E>>(
    serialize: F,
    plan: Seq<PlannedView<I, G, K, L, E>>,
    calls: Seq<SinkCall>,
    outcome: Result<(), WriteFailure<E>>,
) -> bool {
    &&& hands_over(serialize, plan, calls)
    &&& match outcome {
        Ok(()) => calls.len() == plan.len() && all_taken(calls),
        Err(failure) => {
            ||| calls_end_in(plan, calls, failure)
            ||| stopped_before(serialize, plan, calls, failure)
        },
    }
}

/// Whether the sink took all files but the last of `calls`, and `failure` is
/// that it did not take that one.
pub open spec fn calls_end_in<I, G, K, L, E>(
    plan: Seq<PlannedView<I, G, K, L, E>>,
    calls: Seq<SinkCall>,
    failure: WriteFailure<E>,
) -> bool {
    &&& 0 < calls.len() <= plan.len()
    &&& all_taken(calls.drop_last())
    &&& calls.last().outcome matches Err(source)
    &&& failure == sink_failure(plan[calls.len() - 1], source)
}

/// Whether the sink took all files of `calls`, and `failure` is that the
/// contents of the next one could not be made.
pub open spec fn stopped_before<'a, I, G, K, L, E: Clone, F: Fn(&Part<'a, I, G, K, L>) -> Result<Vec<u8>, E>>(
    serialize: F,
    plan: Seq<PlannedView<I, G, K, L, E>>,
    calls: Seq<SinkCall>,
    failure: WriteFailure<E>,
) -> bool {
    &&& calls.len() < plan.len()
    &&& all_taken(calls)
    &&& exists|source: E|
        can_give(serialize, plan[calls.len() as int], Err(source)) && failure == #[trigger] content_failure(
            plan[calls.len() as int],
            source,
        )
}

/// The outcome of a write.
pub open spec fn outcome_of<E>(res: Result<(), FontWriteError<E>>) -> Result<(), WriteFailure<E>> {
    match res {
        Ok(()) => Ok(()),
        Err(error) => Err(error@),
    }
}

/// Hands a file to the sink.
pub fn write_sink_file<E, S: FontSink>(sink: &mut S, path: &VirtualPath, bytes: &[u8]) -> (res:
    Result<(), FontWriteError<E>>)
    ensures
        final(sink).history().len() == old(sink).history().len() + 1,
        final(sink).history().drop_last() == old(sink).history(),
        final(sink).history().last().path == path.spelling(),
        final(sink).history().last().data == bytes@,
        match final(sink).history().last().outcome {
            Ok(()) => res is Ok,
            Err(source) => outcome_of(res) == Err::<(), WriteFailure<E>>(
                WriteFailure::Sink { path: path.spelling(), source },
            ),
        },
{
    match sink.write(path, bytes) {
        Ok(()) => Ok(()),
        Err(source) => Err(FontWriteError::Sink { path: path.clone(), source: Box::new(source) }),
    }
}

/// Writes a planned file.
fn write_planned<'a, I, G, K, L, E: Clone, S: FontSink, F: Fn(&Part<'a, I, G, K, L>) -> Result<Vec<u8>, E>>(
    file: &Planned<'a, I, G, K, L, E>,
    serialize: &F,
    sink: &mut S,
) -> (res: Result<(), FontWriteError<E>>)
    requires
        forall|part: Part<'a, I, G, K, L>| #[trigger] call_requires(*serialize, (&part,)),
    ensures
        ({
            let before = old(sink).history();
            let after = final(sink).history();
            if after == before {
                exists|source: E|
                    can_give(*serialize, file@, Err(source)) && outcome_of(res) == Err::<
                        (),
                        WriteFailure<E>,
                    >(#[trigger] content_failure(file@, source))
            } else {
                &&& after.len() == before.len() + 1
                &&& after.drop_last() == before
                &&& after.last().path == file@.path
                &&& can_give(*serialize, file@, Ok(after.last().data))
                &&& match after.last().outcome {
                    Ok(()) => res is Ok,
                    Err(source) => outcome_of(res) == Err::<(), WriteFailure<E>>(
                        sink_failure(file@, source),
                    ),
                }
            }
        }),
{
    match &file.content {
        Content::Part { name, part } => {
            let made = serialize(part);
            assert(call_ensures(*serialize, (part,), made));
            assert(can_give(*serialize, file@, bytes_of(made)));
            match made {
                Ok(bytes) => write_sink_file(sink, &file.path, bytes.as_slice()),
                Err(source) => {
                    let error = FontWriteError::CustomFile { name: *name, source };
                    assert(error@ == content_failure(file@, source));
                    Err(error)
                },
            }
        },
        Content::Text(text) => {
            let text: &str = match text {
                Cow::Borrowed(text) => *text,
                Cow::Owned(text) => text.as_str(),
            };
            write_sink_file(sink, &file.path, text.as_bytes())
        },
        Content::Data(bytes) => write_sink_file(sink, &file.path, bytes.as_slice()),
        Content::LayerFile { layer, contents } => match *contents {
            Ok(bytes) => match sink.write(&file.path, bytes.as_slice()) {
                Ok(()) => Ok(()),
                Err(source) => Err(
                    FontWriteError::Layer {
                        name: layer.name.clone(),
                        path: layer.path.clone(),
                        source: Box::new(
                            LayerWriteError::Sink { path: file.path.clone(), source },
                        ),
                    },
                ),
            },
            Err(reported) => {
                let source = reported.clone();
                let error = FontWriteError::Layer {
                    name: layer.name.clone(),
                    path: layer.path.clone(),
                    source: Box::new(LayerWriteError::File { path: file.path.clone(), source }),
                };
                assert(error@ == content_failure(file@, source));
                Err(error)
            },
        },
    }
}

/// Writes a font to a sink.
///
/// A font that cannot be written is refused before anything is written.
/// Otherwise its files are handed to the sink one by one. `serialize` makes the
/// parts of the font into property lists.
pub fn save_font_with_sink<
    'a,
    I,
    G,
    K,
    L,
    E: Clone,
    S: FontSink,
    F: Fn(&Part<'a, I, G, K, L>) -> Result<Vec<u8>, E>,
>(font: &'a Font<I, G, K, L, E>, serialize: F, sink: &mut S) -> (res: Result<(), FontWriteError<E>>)
    requires
        forall|part: Part<'a, I, G, K, L>| #[trigger] call_requires(serialize, (&part,)),
    ensures
        !accepted(*font) ==> {
            &&& final(sink).history() == old(sink).history()
            &&& res matches Err(error) && refused(*font, error@)
        },
        accepted(*font) ==> exists|calls: Seq<SinkCall>|
            {
                &&& final(sink).history() == old(sink).history() + calls
                &&& #[trigger] carried_out(serialize, plan(*font), calls, outcome_of(res))
            },
{
    match check_font(font) {
        Ok(()) => {},
        Err(error) => {
            return Err(error);
        },
    }
    let files = plan_files(font);
    let ghost all = plan(*font);
    let ghost before = sink.history();
    let ghost mut calls: Seq<SinkCall> = Seq::empty();
    let mut i: usize = 0;
    while i < files.len()
        invariant
            forall|part: Part<'a, I, G, K, L>| #[trigger] call_requires(serialize, (&part,)),
            accepted(*font),
            all == plan(*font),
            planned(files@) == all,
            before == old(sink).history(),
            i <= files@.len(),
            calls.len() == i,
            sink.history() == before + calls,
            hands_over(serialize, all, calls),
            all_taken(calls),
        decreases files@.len() - i,
    {
        let ghost done = calls;
        let ghost seen = sink.history();
        let file = &files[i];
        assert(all[i as int] == file@);
        let res = write_planned(file, &serialize, sink);
        proof {
            if sink.history() != seen {
                let call = sink.history().last();
                assert(sink.history() == seen.push(call));
                calls = calls.push(call);
                assert(sink.history() == before + calls);
                assert(calls.drop_last() == done);
                assert forall|k: int| 0 <= k < calls.len() implies (#[trigger] calls[k]).path
                    == all[k].path && can_give(serialize, all[k], Ok(calls[k].data)) by {
                    if k < done.len() {
                        assert(calls[k] == done[k]);
                    }
                }
            }
        }
        match res {
            Ok(()) => {},
            Err(error) => {
                let res = Err(error);
                proof {
                    if sink.history() == seen {
                        assert(stopped_before(serialize, all, calls, error@));
                    } else {
                        assert(calls_end_in(all, calls, error@));
                    }
                    assert(carried_out(serialize, all, calls, outcome_of(res)));
                }
                return res;
            },
        }
        assert forall|k: int| 0 <= k < calls.len() implies (#[trigger] calls[k]).outcome is Ok by {
            if k < done.len() {
                assert(calls[k] == done[k]);
            }
        }
        i += 1;
    }
    let res = Ok(());
    assert(carried_out(serialize, all, calls, outcome_of(res)));
    res
}

} // verus!
