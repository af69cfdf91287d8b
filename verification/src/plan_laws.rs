//! Which files of a font are written, with what contents, where, in which order,
//! and what ends the writing.

use crate::error::{FontWriteError, LayerFailure, LayerWriteError, WriteFailure};
use crate::font::{
    written_metainfo, Font, FormatVersion, Layer, LibValue, MetaInfo, MetaInfoView, Part, PartView,
    Value,
};
use crate::line_ends::lf_text;
use crate::memory::{written, written_files};
use crate::ordered_map::{map_of, rises};
use crate::path::{join_spelling, parse_path, PathView, VirtualPath};
use crate::save::{
    accepted, bytes_of, calls_end_in, can_give, carried_out, first_invalid, layer_contents,
    layer_plan, outcome_of, plan, put_in_order, refused, store, store_plan, trailing_plan,
    written_lib, ContentView, PlannedView,
};
use crate::sink::{all_taken, SinkCall};
use crate::source::Answer;
use vstd::prelude::*;
use vstd::utf8::{encode_utf8, is_ascii_chars, is_ascii_chars_encode_utf8};

verus! {

broadcast use vstd::seq::group_seq_axioms;

// ---------------------------------------------------------------------------
// Which fonts are written
// ---------------------------------------------------------------------------

/// A font is written exactly where it is of the current version, its custom data
/// leaves the key for the guidelines free, its groups and its font information
/// are valid, and so is each data file and each image.
pub proof fn valid_fonts_are_accepted<I, G, K, L, E>(font: Font<I, G, K, L, E>)
    ensures
        accepted(font) <==> {
            &&& font.meta.format_version is V3
            &&& !font.lib@.contains_key("public.objectLibs"@)
            &&& font.groups.validity is Ok
            &&& font.font_info.validity is Ok
            &&& forall|i: int|
                0 <= i < font.data@.len() ==> (#[trigger] font.data@[i]).contents is Ok
            &&& forall|i: int|
                0 <= i < font.images@.len() ==> (#[trigger] font.images@[i]).contents is Ok
        },
{
    let all = store(font);
    let n = font.data@.len() as int;
    assert(forall|i: int| 0 <= i < n ==> all[i] == font.data@[i]);
    assert(forall|i: int| 0 <= i < font.images@.len() ==> all[n + i] == font.images@[i]);
    if accepted(font) {
        assert forall|i: int| 0 <= i < n implies (#[trigger] font.data@[i]).contents is Ok by {
            assert(all[i].contents is Ok);
        }
        assert forall|i: int| 0 <= i < font.images@.len() implies (
        #[trigger] font.images@[i]).contents is Ok by {
            assert(all[n + i].contents is Ok);
        }
    }
    if (forall|i: int| 0 <= i < n ==> (#[trigger] font.data@[i]).contents is Ok) && (forall|i: int|
        0 <= i < font.images@.len() ==> (#[trigger] font.images@[i]).contents is Ok) {
        assert forall|i: int| 0 <= i < all.len() implies (#[trigger] all[i]).contents is Ok by {
            if i < n {
                assert(all[i] == font.data@[i]);
            } else {
                assert(all[i] == font.images@[i - n]);
            }
        }
    }
}

/// A refusal names the first thing that is wrong: the version, the key, the
/// groups, the font information, the data files in order, the images in order.
pub proof fn refusals_name_the_first_fault<I, G, K, L, E: Clone>(
    font: Font<I, G, K, L, E>,
    failure: WriteFailure<E>,
    at: int,
)
    requires
        refused(font, failure),
    ensures
        !(font.meta.format_version is V3) ==> failure is Downgrade,
        font.meta.format_version is V3 ==> {
            &&& font.lib@.contains_key("public.objectLibs"@)
                ==> failure is PreexistingPublicObjectLibsKey
            &&& !font.lib@.contains_key("public.objectLibs"@) ==> {
                &&& font.groups.validity matches Err(e)
                    ==> failure matches WriteFailure::InvalidGroups(source) && cloned(e, source)
                &&& font.groups.validity is Ok ==> {
                    &&& font.font_info.validity matches Err(e)
                        ==> failure matches WriteFailure::InvalidFontInfo(source) && cloned(
                        e,
                        source,
                    )
                    &&& font.font_info.validity is Ok ==> {
                        &&& 0 <= at < font.data@.len() && font.data@[at].contents is Err && (
                        forall|j: int|
                            0 <= j < at ==> (#[trigger] font.data@[j]).contents is Ok)
                            ==> (failure matches WriteFailure::InvalidStoreEntry { path, source }
                            && path == font.data@[at].path.spelling() && cloned(
                            font.data@[at].contents->Err_0,
                            source,
                        ))
                        &&& (forall|j: int|
                            0 <= j < font.data@.len() ==> (
                            #[trigger] font.data@[j]).contents is Ok) && 0 <= at
                            < font.images@.len() && font.images@[at].contents is Err && (forall|
                            j: int,
                        |
                            0 <= j < at ==> (#[trigger] font.images@[j]).contents is Ok)
                            ==> (failure matches WriteFailure::InvalidStoreEntry { path, source }
                            && path == font.images@[at].path.spelling() && cloned(
                            font.images@[at].contents->Err_0,
                            source,
                        ))
                    }
                }
            }
        },
{
    if font.meta.format_version is V3 && !font.lib@.contains_key("public.objectLibs"@)
        && font.groups.validity is Ok && font.font_info.validity is Ok {
        let all = store(font);
        let n = font.data@.len() as int;
        assert(forall|j: int| 0 <= j < n ==> all[j] == font.data@[j]);
        assert(forall|j: int| 0 <= j < font.images@.len() ==> all[n + j] == font.images@[j]);
        let i = choose|i: int| #[trigger] first_invalid(all, i, failure);
        assert(first_invalid(all, i, failure));
        if 0 <= at < n && font.data@[at].contents is Err && (forall|j: int|
            0 <= j < at ==> (#[trigger] font.data@[j]).contents is Ok) {
            assert(!(all[at].contents is Ok));
            if i < at {
                assert(all[i] == font.data@[i]);
            }
            assert(i == at);
        }
        if (forall|j: int| 0 <= j < n ==> (#[trigger] font.data@[j]).contents is Ok) && 0 <= at
            < font.images@.len() && font.images@[at].contents is Err && (forall|j: int|
            0 <= j < at ==> (#[trigger] font.images@[j]).contents is Ok) {
            assert(!(all[n + at].contents is Ok));
            if i < n {
                assert(all[i] == font.data@[i]);
            } else if i < n + at {
                assert(all[i] == font.images@[i - n]);
            }
            assert(i == n + at);
        }
    }
}

// ---------------------------------------------------------------------------
// Which files are written
// ---------------------------------------------------------------------------

/// The number of files of the first `n` layers.
pub open spec fn files_before<E>(layers: Seq<Layer<E>>, n: int) -> int
    decreases n,
{
    if n <= 0 {
        0
    } else {
        files_before(layers, n - 1) + layers[n - 1].files@.len()
    }
}

proof fn lemma_files_before<E>(layers: Seq<Layer<E>>, head: Seq<Layer<E>>, n: int)
    requires
        n <= head.len() <= layers.len(),
        head == layers.take(head.len() as int),
    ensures
        files_before(head, n) == files_before(layers, n),
    decreases n,
{
    if n > 0 {
        lemma_files_before(layers, head, n - 1);
        assert(head[n - 1] == layers[n - 1]);
    }
}

/// Each file of each layer has its place behind those of the layers before it.
proof fn lemma_layer_plan<I, G, K, L, E>(layers: Seq<Layer<E>>, j: int, m: int)
    ensures
        layer_plan::<I, G, K, L, E>(layers).len() == files_before(layers, layers.len() as int),
        0 <= files_before(layers, layers.len() as int),
        0 <= j < layers.len() && 0 <= m < layers[j].files@.len() ==> {
            let at = files_before(layers, j) + m;
            let file = layers[j].files@[m];
            &&& 0 <= at < layer_plan::<I, G, K, L, E>(layers).len()
            &&& layer_plan::<I, G, K, L, E>(layers)[at] == (PlannedView::<I, G, K, L, E> {
                path: join_spelling(layers[j].path.spelling(), file.path.spelling()),
                content: ContentView::LayerFile {
                    name: layers[j].name@,
                    layer: layers[j].path.spelling(),
                    contents: match file.contents {
                        Ok(bytes) => Ok(bytes@),
                        Err(reported) => Err(reported),
                    },
                },
            })
        },
    decreases layers.len(),
{
    if layers.len() > 0 {
        let head = layers.drop_last();
        let n = head.len() as int;
        let before = layer_plan::<I, G, K, L, E>(head);
        let own = crate::save::layer_files::<I, G, K, L, E>(layers.last());
        lemma_layer_plan::<I, G, K, L, E>(head, j, m);
        lemma_files_before(layers, head, n);
        assert(layer_plan::<I, G, K, L, E>(layers) == before + own);
        if 0 <= j < layers.len() && 0 <= m < layers[j].files@.len() {
            if j < n {
                assert(head[j] == layers[j]);
                lemma_files_before(layers, head, j);
                let at = files_before(layers, j) + m;
                assert((before + own)[at] == before[at]);
            } else {
                let at = files_before(layers, j) + m;
                assert((before + own)[at] == own[m]);
            }
        }
    }
}

/// One where `b` holds, and nothing otherwise.
pub open spec fn one_if(b: bool) -> int {
    if b {
        1
    } else {
        0
    }
}

/// Where the font has custom data of its own or of its guidelines.
pub open spec fn has_lib<I, G, K, L, E>(font: Font<I, G, K, L, E>) -> bool {
    font.lib.entries().len() > 0 || font.font_info.object_libs.entries().len() > 0
}

/// The position of the features among the files.
pub open spec fn features_at<I, G, K, L, E>(font: Font<I, G, K, L, E>) -> int {
    1 + one_if(!font.font_info.is_empty) + one_if(has_lib(font)) + one_if(!font.groups.is_empty)
        + one_if(!font.kerning.is_empty)
}

/// The position of the list of the layers among the files.
pub open spec fn layers_at<I, G, K, L, E>(font: Font<I, G, K, L, E>) -> int {
    features_at(font) + if font.features@.len() == 0 && font.feature_files.entries().len() == 0 {
        0
    } else {
        1 + font.feature_files.entries().len()
    }
}

/// The position of the data files among the files.
pub open spec fn data_at<I, G, K, L, E>(font: Font<I, G, K, L, E>) -> int {
    layers_at(font) + 1 + files_before(font.layers@, font.layers@.len() as int)
}

/// A file with a part of the font.
pub open spec fn file_with<I, G, K, L, E>(name: Seq<char>, part: PartView<I, G, K, L>) -> PlannedView<
    I,
    G,
    K,
    L,
    E,
> {
    PlannedView { path: encode_utf8(name), content: ContentView::Part { name, part } }
}

proof fn lemma_put_in_order_len<V>(entries: Seq<(Seq<char>, V)>, key: Seq<char>, value: V)
    ensures
        put_in_order(entries, key, value).len() == entries.len() + 1,
    decreases entries.len(),
{
    if entries.len() > 0 {
        lemma_put_in_order_len(entries.drop_last(), key, value);
    }
}

/// The custom data is written exactly where there is any.
proof fn lemma_written_lib<I, G, K, L, E>(font: Font<I, G, K, L, E>)
    ensures
        written_lib(font).len() > 0 <==> has_lib(font),
{
    lemma_put_in_order_len(
        font.lib.sorted(),
        crate::names::PUBLIC_OBJECT_LIBS_KEY@,
        Value::Dictionary(font.font_info.object_libs),
    );
}

/// The meta information comes first; then the font information, the custom data,
/// the groups and the kerning, each where it is not empty, whatever the others
/// are.
pub proof fn parts_come_first<I, G, K, L, E>(font: Font<I, G, K, L, E>)
    ensures
        plan(font).len() >= features_at(font),
        plan(font)[0] == file_with::<I, G, K, L, E>(
            "metainfo.plist"@,
            PartView::MetaInfo(written_metainfo(font.meta@)),
        ),
        !font.font_info.is_empty ==> plan(font)[1] == file_with::<I, G, K, L, E>(
            "fontinfo.plist"@,
            PartView::FontInfo(font.font_info.contents),
        ),
        has_lib(font) ==> plan(font)[1 + one_if(!font.font_info.is_empty)] == file_with::<
            I,
            G,
            K,
            L,
            E,
        >("lib.plist"@, PartView::Lib(written_lib(font))),
        !font.groups.is_empty ==> plan(font)[1 + one_if(!font.font_info.is_empty) + one_if(
            has_lib(font),
        )] == file_with::<I, G, K, L, E>(
            "groups.plist"@,
            PartView::Groups(font.groups.contents),
        ),
        !font.kerning.is_empty ==> plan(font)[1 + one_if(!font.font_info.is_empty) + one_if(
            has_lib(font),
        ) + one_if(!font.groups.is_empty)] == file_with::<I, G, K, L, E>(
            "kerning.plist"@,
            PartView::Kerning(font.kerning.contents),
        ),
{
    lemma_written_lib(font);
    let lead = crate::save::leading_plan(font);
    assert(lead.len() == features_at(font));
    assert(forall|i: int| 0 <= i < lead.len() ==> plan(font)[i] == lead[i]);
}

/// The features come next, and then each file that they take in, in the order of
/// the paths and under its own spelling, with normalized line ends; nothing of
/// this where there are no features and no files.
pub proof fn features_come_next<I, G, K, L, E>(font: Font<I, G, K, L, E>, k: int)
    ensures
        plan(font).len() > layers_at(font),
        font.features@.len() > 0 || font.feature_files.entries().len() > 0 ==> plan(
            font,
        )[features_at(font)] == (PlannedView::<I, G, K, L, E> {
            path: encode_utf8("features.fea"@),
            content: ContentView::Bytes(encode_utf8(lf_text(font.features@))),
        }),
        0 <= k < font.feature_files.entries().len() ==> plan(font)[features_at(font) + 1 + k] == (
        PlannedView::<I, G, K, L, E> {
            path: font.feature_files.entries()[k].0.spelling(),
            content: ContentView::Bytes(
                encode_utf8(lf_text(font.feature_files.entries()[k].1@)),
            ),
        }),
{
    lemma_written_lib(font);
    let lead = crate::save::leading_plan(font);
    let own = crate::save::feature_plan(font);
    assert(lead.len() == features_at(font));
    assert(own.len() == layers_at(font) - features_at(font));
    assert(trailing_plan(font).len() > 0);
    assert(forall|i: int| 0 <= i < own.len() ==> plan(font)[lead.len() + i] == own[i]);
}

/// The list of the layers comes next, then each file of each layer in order, then
/// each data file, then each image, and nothing else.
pub proof fn layers_and_stores_come_last<I, G, K, L, E>(
    font: Font<I, G, K, L, E>,
    j: int,
    m: int,
    k: int,
)
    ensures
        plan(font).len() == data_at(font) + font.data@.len() + font.images@.len(),
        plan(font)[layers_at(font)] == file_with::<I, G, K, L, E>(
            "layercontents.plist"@,
            PartView::LayerContents(
                Seq::new(
                    font.layers@.len(),
                    |i: int| (font.layers@[i].name@, font.layers@[i].path.spelling()),
                ),
            ),
        ),
        0 <= j < font.layers@.len() && 0 <= m < font.layers@[j].files@.len() ==> {
            let layer = font.layers@[j];
            let file = layer.files@[m];
            plan(font)[layers_at(font) + 1 + files_before(font.layers@, j) + m] == (PlannedView::<I, G, K, L, E> {
                path: join_spelling(layer.path.spelling(), file.path.spelling()),
                content: ContentView::LayerFile {
                    name: layer.name@,
                    layer: layer.path.spelling(),
                    contents: match file.contents {
                        Ok(bytes) => Ok(bytes@),
                        Err(reported) => Err(reported),
                    },
                },
            })
        },
        0 <= k < font.data@.len() ==> (font.data@[k].contents matches Ok(bytes) ==> plan(
            font,
        )[data_at(font) + k] == (PlannedView::<I, G, K, L, E> {
            path: join_spelling(encode_utf8("data"@), font.data@[k].path.spelling()),
            content: ContentView::Bytes(bytes@),
        })),
        0 <= k < font.images@.len() ==> (font.images@[k].contents matches Ok(bytes) ==> plan(
            font,
        )[data_at(font) + font.data@.len() + k] == (PlannedView::<I, G, K, L, E> {
            path: join_spelling(encode_utf8("images"@), font.images@[k].path.spelling()),
            content: ContentView::Bytes(bytes@),
        })),
{
    lemma_written_lib(font);
    lemma_layer_plan::<I, G, K, L, E>(font.layers@, j, m);
    let lead = crate::save::leading_plan(font) + crate::save::feature_plan(font);
    let layers = layer_plan::<I, G, K, L, E>(font.layers@);
    let data = store_plan::<I, G, K, L, E>("data"@, font.data@);
    let images = store_plan::<I, G, K, L, E>("images"@, font.images@);
    let trail = trailing_plan(font);
    assert(lead.len() == layers_at(font));
    assert(trail.len() == 1 + layers.len() + data.len() + images.len());
    assert(forall|i: int| 0 <= i < trail.len() ==> plan(font)[lead.len() + i] == trail[i]);
    let listed = Seq::new(
        font.layers@.len(),
        |i: int| (font.layers@[i].name@, font.layers@[i].path.spelling()),
    );
    assert(layer_contents(font.layers@) == listed);
    assert(plan(font)[lead.len() as int] == trail[0]);
    if 0 <= j < font.layers@.len() && 0 <= m < font.layers@[j].files@.len() {
        let at = files_before(font.layers@, j) + m;
        assert(trail[1 + at] == layers[at]);
        assert(plan(font)[lead.len() + (1 + at)] == trail[1 + at]);
    }
    if 0 <= k < font.data@.len() {
        assert(trail[1 + layers.len() + k] == data[k]);
        assert(plan(font)[lead.len() + (1 + layers.len() + k)] == trail[1 + layers.len() + k]);
    }
    if 0 <= k < font.images@.len() {
        assert(trail[1 + layers.len() + data.len() + k] == images[k]);
        assert(plan(font)[lead.len() + (1 + layers.len() + data.len() + k)] == trail[1
            + layers.len() + data.len() + k]);
    }
}

// ---------------------------------------------------------------------------
// What is written in them
// ---------------------------------------------------------------------------

/// The meta information of this library is written as it is, and that of another
/// creator is replaced by that of a new font.
pub proof fn metainfo_is_that_of_this_library(meta: MetaInfoView)
    ensures
        meta.creator == Some("org.linebender.norad"@) ==> written_metainfo(meta) == meta,
        meta.creator != Some("org.linebender.norad"@) ==> written_metainfo(meta) == (
        MetaInfoView {
            creator: Some("org.linebender.norad"@),
            format_version: FormatVersion::V3,
            format_version_minor: 0,
        }),
{
}

/// The custom data is written in the order of its keys: all of it, and that of
/// the guidelines under its key, where there is any.
pub proof fn lib_is_written_whole<I, G, K, L, E>(font: Font<I, G, K, L, E>)
    requires
        !font.lib@.contains_key("public.objectLibs"@),
        rises::<String, Value<L>>(font.lib.sorted()),
    ensures
        rises::<String, Value<L>>(written_lib(font)),
        font.font_info.object_libs.entries().len() == 0 ==> written_lib(font) == font.lib.sorted(),
        font.font_info.object_libs.entries().len() > 0 ==> map_of(written_lib(font))
            == font.lib@.insert(
            "public.objectLibs"@,
            Value::Dictionary(font.font_info.object_libs),
        ),
{
    if font.font_info.object_libs.sorted().len() > 0 {
        crate::save_laws::lemma_put_in_order(
            font.lib.sorted(),
            "public.objectLibs"@,
            Value::Dictionary(font.font_info.object_libs),
        );
    }
}

/// Parts stand for what they hold.
pub proof fn parts_stand_for_themselves<'a, I, G, K, L>(
    meta: MetaInfo,
    info: &'a I,
    groups: &'a G,
    kerning: &'a K,
    entries: Vec<(&'a str, LibValue<'a, L>)>,
    layers: Vec<(&'a str, &'a VirtualPath)>,
    i: int,
)
    ensures
        Part::<'a, I, G, K, L>::MetaInfo(meta)@ == PartView::<I, G, K, L>::MetaInfo(meta@),
        meta@.creator == match meta.creator {
            Some(name) => Some(name@),
            None => None,
        },
        meta@.format_version == meta.format_version,
        meta@.format_version_minor == meta.format_version_minor,
        Part::<'a, I, G, K, L>::FontInfo(info)@ == PartView::<I, G, K, L>::FontInfo(*info),
        Part::<'a, I, G, K, L>::Groups(groups)@ == PartView::<I, G, K, L>::Groups(*groups),
        Part::<'a, I, G, K, L>::Kerning(kerning)@ == PartView::<I, G, K, L>::Kerning(*kerning),
        Part::<'a, I, G, K, L>::Lib(entries)@ matches PartView::Lib(views) && views.len()
            == entries@.len() && (0 <= i < views.len() ==> views[i].0 == entries@[i].0@
            && views[i].1 == match entries@[i].1 {
            LibValue::Value(value) => *value,
            LibValue::Dictionary(dictionary) => Value::Dictionary(*dictionary),
        }),
        Part::<'a, I, G, K, L>::LayerContents(layers)@ matches PartView::LayerContents(views)
            && views.len() == layers@.len() && (0 <= i < views.len() ==> views[i] == (
            layers@[i].0@,
            layers@[i].1.spelling(),
        )),
{
}

// ---------------------------------------------------------------------------
// How they are written
// ---------------------------------------------------------------------------

/// Writing hands the sink the planned files in order, from the first on: parts
/// as `serialize` makes them, and other files as they are. It succeeds only when
/// the sink has taken all of them.
pub proof fn planned_files_are_handed_over<
    'a,
    I,
    G,
    K,
    L,
    E: Clone,
    F: Fn(&Part<'a, I, G, K, L>) -> Result<Vec<u8>, E>,
>(
    serialize: F,
    files: Seq<PlannedView<I, G, K, L, E>>,
    calls: Seq<SinkCall>,
    outcome: Result<(), WriteFailure<E>>,
    i: int,
)
    requires
        carried_out(serialize, files, calls, outcome),
        0 <= i < calls.len(),
    ensures
        calls.len() <= files.len(),
        calls[i].path == files[i].path,
        match files[i].content {
            ContentView::Part { part, .. } => exists|arg: Part<'a, I, G, K, L>, made: Vec<u8>|
                arg@ == part && #[trigger] call_ensures(serialize, (&arg,), Ok(made))
                    && calls[i].data == made@,
            ContentView::Bytes(bytes) => calls[i].data == bytes,
            ContentView::LayerFile { contents, .. } => contents == Ok::<Seq<u8>, E>(
                calls[i].data,
            ),
        },
        i < calls.len() - 1 ==> calls[i].outcome is Ok,
        outcome is Ok ==> calls.len() == files.len() && calls[i].outcome is Ok,
        calls[i].outcome is Err ==> outcome is Err,
{
    let call = calls[i];
    assert(calls[i].path == files[i].path);
    assert(can_give(serialize, files[i], Ok(call.data)));
    if let ContentView::Part { part, .. } = files[i].content {
        let (arg, made) = choose|arg: Part<'a, I, G, K, L>, made: Result<Vec<u8>, E>|
            arg@ == part && #[trigger] call_ensures(serialize, (&arg,), made) && Ok::<Seq<u8>, E>(
                call.data,
            ) == bytes_of(made);
        assert(call_ensures(serialize, (&arg,), Ok(made->Ok_0)));
    }
    if i < calls.len() - 1 {
        assert(calls.drop_last()[i] == calls[i]);
    }
    if let Err(failure) = outcome {
        if !calls_end_in(files, calls, failure) {
            assert(all_taken(calls));
        }
    }
}

/// The first failure ends the writing. Where the sink did not take a file, that
/// file is the last that it was handed, and the error names its path. Otherwise
/// the contents of the next file could not be made, and the error names that
/// file. An error of a layer names the layer too.
pub proof fn the_first_failure_ends_the_writing<
    'a,
    I,
    G,
    K,
    L,
    E: Clone,
    F: Fn(&Part<'a, I, G, K, L>) -> Result<Vec<u8>, E>,
>(
    serialize: F,
    files: Seq<PlannedView<I, G, K, L, E>>,
    calls: Seq<SinkCall>,
    failure: WriteFailure<E>,
)
    requires
        carried_out(serialize, files, calls, Err(failure)),
    ensures
        calls.len() > 0 && calls[calls.len() - 1].outcome is Err ==> {
            let n = calls.len() - 1;
            let source = calls[n].outcome->Err_0;
            match files[n].content {
                ContentView::LayerFile { name, layer, .. } => failure == (WriteFailure::<E>::Layer {
                    name,
                    path: layer,
                    source: LayerFailure::Sink { path: files[n].path, source },
                }),
                _ => failure == (WriteFailure::<E>::Sink { path: files[n].path, source }),
            }
        },
        !(calls.len() > 0 && calls[calls.len() - 1].outcome is Err) ==> {
            let n = calls.len() as int;
            &&& n < files.len()
            &&& match files[n].content {
                ContentView::Part { name, part } => exists|
                    arg: Part<'a, I, G, K, L>,
                    source: E,
                |
                    arg@ == part && #[trigger] call_ensures(serialize, (&arg,), Err(source))
                        && failure == (WriteFailure::CustomFile { name, source }),
                ContentView::Bytes(_) => false,
                ContentView::LayerFile { name, layer, contents } => exists|source: E|
                    contents is Err && #[trigger] cloned(contents->Err_0, source) && failure == (
                    WriteFailure::Layer {
                        name,
                        path: layer,
                        source: LayerFailure::File { path: files[n].path, source },
                    }),
            }
        },
{
    if calls.len() > 0 && calls[calls.len() - 1].outcome is Err {
        assert(!all_taken(calls));
        assert(calls_end_in(files, calls, failure));
    } else {
        assert(!calls_end_in(files, calls, failure));
        let n = calls.len() as int;
        let source = choose|source: E|
            can_give(serialize, files[n], Err(source)) && failure
                == #[trigger] crate::save::content_failure(files[n], source);
        assert(can_give(serialize, files[n], Err(source)));
        match files[n].content {
            ContentView::Part { name, part } => {
                let (arg, made) = choose|arg: Part<'a, I, G, K, L>, made: Result<Vec<u8>, E>|
                    arg@ == part && #[trigger] call_ensures(serialize, (&arg,), made) && Err::<
                        Seq<u8>,
                        E,
                    >(source) == bytes_of(made);
                assert(call_ensures(serialize, (&arg,), Err(source)));
            },
            ContentView::Bytes(_) => {},
            ContentView::LayerFile { contents, .. } => {
                assert(cloned(contents->Err_0, source));
            },
        }
    }
}

/// What a write returns stands for itself; a path stands for its spelling.
pub proof fn outcomes_stand_for_themselves<E>(error: FontWriteError<E>)
    ensures
        outcome_of(Ok::<(), FontWriteError<E>>(())) == Ok::<(), WriteFailure<E>>(()),
        outcome_of(Err(error)) == Err::<(), WriteFailure<E>>(error@),
        match error {
            FontWriteError::Downgrade => error@ is Downgrade,
            FontWriteError::PreexistingPublicObjectLibsKey => {
                error@ is PreexistingPublicObjectLibsKey
            },
            FontWriteError::InvalidGroups(source) => error@ == WriteFailure::InvalidGroups(source),
            FontWriteError::InvalidFontInfo(source) => {
                error@ == WriteFailure::InvalidFontInfo(source)
            },
            FontWriteError::InvalidStoreEntry { path, source } => error@ == (
            WriteFailure::InvalidStoreEntry { path: path.spelling(), source }),
            FontWriteError::CustomFile { name, source } => error@ == (WriteFailure::CustomFile {
                name: name@,
                source,
            }),
            FontWriteError::Sink { path, source } => error@ == (WriteFailure::<E>::Sink {
                path: path.spelling(),
                source: *source,
            }),
            FontWriteError::Layer { name, path, source } => error@ == (WriteFailure::Layer {
                name: name@,
                path: path.spelling(),
                source: match *source {
                    LayerWriteError::File { path: file, source: reported } => LayerFailure::File {
                        path: file.spelling(),
                        source: reported,
                    },
                    LayerWriteError::Sink { path: file, source: reported } => LayerFailure::Sink {
                        path: file.spelling(),
                        source: reported,
                    },
                },
            }),
        },
{
}

/// Whether the call at `i` handed the sink, under the given name, what
/// `serialize` made of `part`, and the sink took it.
pub open spec fn part_is_saved<
    'a,
    I,
    G,
    K,
    L,
    E,
    F: Fn(&Part<'a, I, G, K, L>) -> Result<Vec<u8>, E>,
>(serialize: F, calls: Seq<SinkCall>, i: int, name: Seq<char>, part: PartView<I, G, K, L>) -> bool {
    &&& 0 <= i < calls.len()
    &&& calls[i].path == encode_utf8(name)
    &&& calls[i].outcome is Ok
    &&& exists|arg: Part<'a, I, G, K, L>, made: Vec<u8>|
        arg@ == part && #[trigger] call_ensures(serialize, (&arg,), Ok(made)) && calls[i].data
            == made@
}

/// Whether the call at `i` handed the sink these bytes at this path, and the sink
/// took them.
pub open spec fn bytes_are_saved(
    calls: Seq<SinkCall>,
    i: int,
    path: Seq<u8>,
    data: Seq<u8>,
) -> bool {
    &&& 0 <= i < calls.len()
    &&& calls[i].path == path
    &&& calls[i].outcome is Ok
    &&& calls[i].data == data
}

/// Two names of different lengths, or that begin differently, are spelled
/// differently.
proof fn lemma_names_differ(a: Seq<char>, b: Seq<char>)
    requires
        is_ascii_chars(a),
        is_ascii_chars(b),
        a.len() > 0 && b.len() > 0,
        a.len() != b.len() || a[0] != b[0],
    ensures
        encode_utf8(a) != encode_utf8(b),
{
    is_ascii_chars_encode_utf8(a);
    is_ascii_chars_encode_utf8(b);
    if a.len() == b.len() {
        assert(a[0] as u8 == encode_utf8(a)[0]);
        assert(b[0] as u8 == encode_utf8(b)[0]);
        assert('\0' <= a[0] <= '\u{7f}');
        assert('\0' <= b[0] <= '\u{7f}');
    }
}

/// A font that was written without failure has each part that is not empty,
/// whatever the other parts are; and before the features, it has none of the
/// parts that are empty.
pub proof fn each_part_is_saved<
    'a,
    I,
    G,
    K,
    L,
    E: Clone,
    F: Fn(&Part<'a, I, G, K, L>) -> Result<Vec<u8>, E>,
>(font: Font<I, G, K, L, E>, serialize: F, calls: Seq<SinkCall>)
    requires
        carried_out(serialize, plan(font), calls, Ok(())),
    ensures
        part_is_saved(
            serialize,
            calls,
            0,
            "metainfo.plist"@,
            PartView::MetaInfo(written_metainfo(font.meta@)),
        ),
        !font.font_info.is_empty ==> exists|i: int|
            #[trigger] part_is_saved(
                serialize,
                calls,
                i,
                "fontinfo.plist"@,
                PartView::FontInfo(font.font_info.contents),
            ),
        has_lib(font) ==> exists|i: int|
            #[trigger] part_is_saved(
                serialize,
                calls,
                i,
                "lib.plist"@,
                PartView::Lib(written_lib(font)),
            ),
        !font.groups.is_empty ==> exists|i: int|
            #[trigger] part_is_saved(
                serialize,
                calls,
                i,
                "groups.plist"@,
                PartView::Groups(font.groups.contents),
            ),
        !font.kerning.is_empty ==> exists|i: int|
            #[trigger] part_is_saved(
                serialize,
                calls,
                i,
                "kerning.plist"@,
                PartView::Kerning(font.kerning.contents),
            ),
        forall|i: int|
            0 <= i < features_at(font) ==> {
                let path = (#[trigger] calls[i]).path;
                &&& path == encode_utf8("fontinfo.plist"@) ==> !font.font_info.is_empty
                &&& path == encode_utf8("lib.plist"@) ==> has_lib(font)
                &&& path == encode_utf8("groups.plist"@) ==> !font.groups.is_empty
                &&& path == encode_utf8("kerning.plist"@) ==> !font.kerning.is_empty
            },
{
    let info_at = 1int;
    let lib_at = info_at + one_if(!font.font_info.is_empty);
    let groups_at = lib_at + one_if(has_lib(font));
    let kerning_at = groups_at + one_if(!font.groups.is_empty);
    parts_come_first(font);
    assert(calls.len() == plan(font).len());
    planned_files_are_handed_over(serialize, plan(font), calls, Ok(()), 0);
    if !font.font_info.is_empty {
        planned_files_are_handed_over(serialize, plan(font), calls, Ok(()), info_at);
        assert(part_is_saved(
            serialize,
            calls,
            info_at,
            "fontinfo.plist"@,
            PartView::FontInfo(font.font_info.contents),
        ));
    }
    if has_lib(font) {
        planned_files_are_handed_over(serialize, plan(font), calls, Ok(()), lib_at);
        assert(part_is_saved(
            serialize,
            calls,
            lib_at,
            "lib.plist"@,
            PartView::Lib(written_lib(font)),
        ));
    }
    if !font.groups.is_empty {
        planned_files_are_handed_over(serialize, plan(font), calls, Ok(()), groups_at);
        assert(part_is_saved(
            serialize,
            calls,
            groups_at,
            "groups.plist"@,
            PartView::Groups(font.groups.contents),
        ));
    }
    if !font.kerning.is_empty {
        planned_files_are_handed_over(serialize, plan(font), calls, Ok(()), kerning_at);
        assert(part_is_saved(
            serialize,
            calls,
            kerning_at,
            "kerning.plist"@,
            PartView::Kerning(font.kerning.contents),
        ));
    }
    lemma_part_names_differ();
    assert forall|i: int| 0 <= i < features_at(font) implies ({
        let path = (#[trigger] calls[i]).path;
        &&& path == encode_utf8("fontinfo.plist"@) ==> !font.font_info.is_empty
        &&& path == encode_utf8("lib.plist"@) ==> has_lib(font)
        &&& path == encode_utf8("groups.plist"@) ==> !font.groups.is_empty
        &&& path == encode_utf8("kerning.plist"@) ==> !font.kerning.is_empty
    }) by {
        planned_files_are_handed_over(serialize, plan(font), calls, Ok(()), i);
    }
}

/// The names of the parts are spelled differently.
proof fn lemma_part_names_differ()
    ensures
        ({
            let meta = encode_utf8("metainfo.plist"@);
            let info = encode_utf8("fontinfo.plist"@);
            let lib = encode_utf8("lib.plist"@);
            let groups = encode_utf8("groups.plist"@);
            let kerning = encode_utf8("kerning.plist"@);
            &&& meta != info && meta != lib && meta != groups && meta != kerning
            &&& info != lib && info != groups && info != kerning
            &&& lib != groups && lib != kerning
            &&& groups != kerning
        }),
{
    reveal_strlit("metainfo.plist");
    reveal_strlit("fontinfo.plist");
    reveal_strlit("lib.plist");
    reveal_strlit("groups.plist");
    reveal_strlit("kerning.plist");
    let meta = "metainfo.plist"@;
    let info = "fontinfo.plist"@;
    let lib = "lib.plist"@;
    let groups = "groups.plist"@;
    let kerning = "kerning.plist"@;
    lemma_names_differ(meta, info);
    lemma_names_differ(meta, lib);
    lemma_names_differ(meta, groups);
    lemma_names_differ(meta, kerning);
    lemma_names_differ(info, lib);
    lemma_names_differ(info, groups);
    lemma_names_differ(info, kerning);
    lemma_names_differ(lib, groups);
    lemma_names_differ(lib, kerning);
    lemma_names_differ(groups, kerning);
}

/// A font that was written without failure has its features, each file that they
/// take in, the list of its layers, each file of each layer, each data file and
/// each image, with the contents that the font has for them.
pub proof fn each_file_is_saved<
    'a,
    I,
    G,
    K,
    L,
    E: Clone,
    F: Fn(&Part<'a, I, G, K, L>) -> Result<Vec<u8>, E>,
>(font: Font<I, G, K, L, E>, serialize: F, calls: Seq<SinkCall>, k: int, j: int, m: int)
    requires
        carried_out(serialize, plan(font), calls, Ok(())),
    ensures
        calls.len() == data_at(font) + font.data@.len() + font.images@.len(),
        font.features@.len() > 0 || font.feature_files.entries().len() > 0 ==> bytes_are_saved(
            calls,
            features_at(font),
            encode_utf8("features.fea"@),
            encode_utf8(lf_text(font.features@)),
        ),
        0 <= k < font.feature_files.entries().len() ==> bytes_are_saved(
            calls,
            features_at(font) + 1 + k,
            font.feature_files.entries()[k].0.spelling(),
            encode_utf8(lf_text(font.feature_files.entries()[k].1@)),
        ),
        part_is_saved(
            serialize,
            calls,
            layers_at(font),
            "layercontents.plist"@,
            PartView::LayerContents(
                Seq::new(
                    font.layers@.len(),
                    |i: int| (font.layers@[i].name@, font.layers@[i].path.spelling()),
                ),
            ),
        ),
        0 <= j < font.layers@.len() && 0 <= m < font.layers@[j].files@.len()
            ==> font.layers@[j].files@[m].contents is Ok && bytes_are_saved(
            calls,
            layers_at(font) + 1 + files_before(font.layers@, j) + m,
            join_spelling(
                font.layers@[j].path.spelling(),
                font.layers@[j].files@[m].path.spelling(),
            ),
            font.layers@[j].files@[m].contents->Ok_0@,
        ),
        0 <= k < font.data@.len() && font.data@[k].contents is Ok ==> bytes_are_saved(
            calls,
            data_at(font) + k,
            join_spelling(encode_utf8("data"@), font.data@[k].path.spelling()),
            font.data@[k].contents->Ok_0@,
        ),
        0 <= k < font.images@.len() && font.images@[k].contents is Ok ==> bytes_are_saved(
            calls,
            data_at(font) + font.data@.len() + k,
            join_spelling(encode_utf8("images"@), font.images@[k].path.spelling()),
            font.images@[k].contents->Ok_0@,
        ),
{
    let files = plan(font);
    parts_come_first(font);
    features_come_next(font, k);
    layers_and_stores_come_last(font, j, m, k);
    lemma_layer_plan::<I, G, K, L, E>(font.layers@, j, m);
    assert(calls.len() == files.len());
    if font.features@.len() > 0 || font.feature_files.entries().len() > 0 {
        planned_files_are_handed_over(serialize, files, calls, Ok(()), features_at(font));
    }
    if 0 <= k < font.feature_files.entries().len() {
        planned_files_are_handed_over(serialize, files, calls, Ok(()), features_at(font) + 1 + k);
    }
    planned_files_are_handed_over(serialize, files, calls, Ok(()), layers_at(font));
    if 0 <= j < font.layers@.len() && 0 <= m < font.layers@[j].files@.len() {
        planned_files_are_handed_over(
            serialize,
            files,
            calls,
            Ok(()),
            layers_at(font) + 1 + files_before(font.layers@, j) + m,
        );
    }
    if 0 <= k < font.data@.len() {
        planned_files_are_handed_over(serialize, files, calls, Ok(()), data_at(font) + k);
    }
    if 0 <= k < font.images@.len() {
        planned_files_are_handed_over(
            serialize,
            files,
            calls,
            Ok(()),
            data_at(font) + font.data@.len() + k,
        );
    }
}

// ---------------------------------------------------------------------------
// What is read back
// ---------------------------------------------------------------------------

/// What is read back of a path is what was taken last under it, and nothing where
/// nothing was.
pub proof fn the_last_file_is_read_back(calls: Seq<SinkCall>, path: PathView, at: int)
    ensures
        (forall|i: int|
            0 <= i < calls.len() && parse_path((#[trigger] calls[i]).path) == path
                ==> calls[i].outcome is Err) ==> written(calls, path) == Answer::Absent,
        0 <= at < calls.len() && parse_path(calls[at].path) == path && calls[at].outcome is Ok && (
        forall|i: int|
            at < i < calls.len() && parse_path((#[trigger] calls[i]).path) == path
                ==> calls[i].outcome is Err) ==> written(calls, path) == Answer::Data(
            calls[at].data,
        ),
    decreases calls.len(),
{
    if calls.len() > 0 {
        let head = calls.drop_last();
        let n = calls.len() - 1;
        assert(forall|i: int| 0 <= i < n ==> head[i] == calls[i]);
        the_last_file_is_read_back(head, path, at);
        if (forall|i: int|
            0 <= i < calls.len() && parse_path((#[trigger] calls[i]).path) == path
                ==> calls[i].outcome is Err) {
            assert(calls[n] == calls.last());
            assert forall|i: int|
                0 <= i < head.len() && parse_path((#[trigger] head[i]).path)
                    == path implies head[i].outcome is Err by {
                assert(calls[i] == head[i]);
            }
        }
        if 0 <= at < n && parse_path(calls[at].path) == path && calls[at].outcome is Ok && (forall|
            i: int,
        |
            at < i < calls.len() && parse_path((#[trigger] calls[i]).path) == path
                ==> calls[i].outcome is Err) {
            assert(calls[n] == calls.last());
            assert forall|i: int|
                at < i < head.len() && parse_path((#[trigger] head[i]).path)
                    == path implies head[i].outcome is Err by {
                assert(calls[i] == head[i]);
            }
        }
    }
}

/// What is read back does not depend on the spelling of the path.
pub proof fn spellings_are_read_back_alike(calls: Seq<SinkCall>, spelling: Seq<u8>)
    ensures
        written_files(calls)(spelling) == written(calls, parse_path(spelling)),
{
}

/// Files are all taken where none was refused.
pub proof fn all_files_are_taken(calls: Seq<SinkCall>)
    ensures
        all_taken(calls) <==> forall|i: int|
            0 <= i < calls.len() ==> !((#[trigger] calls[i]).outcome is Err),
{
    if (forall|i: int| 0 <= i < calls.len() ==> !((#[trigger] calls[i]).outcome is Err)) {
        assert forall|i: int| 0 <= i < calls.len() implies (#[trigger] calls[i]).outcome is Ok by {
            assert(!(calls[i].outcome is Err));
        }
    }
}

} // verus!
