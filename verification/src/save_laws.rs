//! What holds of writing a font, and of loading what was written.

use crate::error::{LoadFailure, WriteFailure};
use crate::expand::{features_path, features_spelling};
use crate::font::{written_metainfo, Font, FormatVersion, MetaInfoView, Part, PartView, Value};
use crate::laws::{
    lf_files, lf_files_are_kept, loaded_files_are_those_taken_in, normalized_features_load_again,
};
use crate::line_ends::{has_crlf, lf_text, lf_text_is_kept};
use crate::load::{contents_of, file_texts, load, Files};
use crate::memory::{lemma_written, written, written_files};
use crate::names::{
    DEFAULT_METAINFO_CREATOR, FEATURES_FILE, LAYER_CONTENTS_FILE, METAINFO_FILE,
    PUBLIC_OBJECT_LIBS_KEY,
};
use crate::ordered_map::{
    lemma_entry_is_there, lemma_key_has_entry, lemma_keys_rise, map_of, rises, with_keys, Key,
};
use crate::path::{
    is_name, is_path, lemma_parse_path_is_path, normal_is_kept, normalize, parse_path, path_text,
    text_names_path,
    ComponentView, PathView, VirtualPath, SLASH,
};
use crate::save::{
    accepted, can_give, carried_out, feature_plan, layer_contents, leading_plan, part_file, plan,
    put_in_order, text_file, trailing_plan, written_lib, PlannedView,
};
use crate::sink::{all_taken, SinkCall};
use crate::source::{read_at, Answer, Reader};
use crate::text::{lemma_text_before_total, text_before};
use vstd::prelude::*;
use vstd::utf8::{
    encode_utf8, encode_utf8_decode_utf8, encode_utf8_valid_utf8, is_ascii_chars,
    is_ascii_chars_encode_utf8,
};

verus! {

broadcast use vstd::seq::group_seq_axioms;

/// A font that is written names this library as its creator.
pub proof fn written_metainfo_names_this_library(meta: MetaInfoView)
    requires
        meta.format_version == FormatVersion::V3,
    ensures
        written_metainfo(meta).creator == Some(DEFAULT_METAINFO_CREATOR@),
        written_metainfo(meta).format_version == FormatVersion::V3,
{
}

/// Writing a font succeeds where the sink takes each file that it is handed and
/// the contents of each file can be made.
pub proof fn saving_fails_only_for_a_reason<
    'a,
    I,
    G,
    K,
    L,
    E: Clone,
    F: Fn(&Part<'a, I, G, K, L>) -> Result<Vec<u8>, E>,
>(
    font: Font<I, G, K, L, E>,
    serialize: F,
    calls: Seq<SinkCall>,
    outcome: Result<(), WriteFailure<E>>,
)
    requires
        carried_out(serialize, plan(font), calls, outcome),
        all_taken(calls),
        forall|i: int, source: E|
            0 <= i < plan(font).len() ==> !#[trigger] can_give(
                serialize,
                plan(font)[i],
                Err(source),
            ),
    ensures
        outcome is Ok,
{
}

/// The path that is written as a name is that one name.
pub proof fn name_is_path(name: Seq<u8>)
    requires
        is_name(name),
    ensures
        parse_path(name) == seq![ComponentView::Normal(name)],
        normalize(parse_path(name)) == parse_path(name),
{
    let path = seq![ComponentView::Normal(name)];
    assert(is_path(path));
    text_names_path(path);
    assert(path.drop_last() == Seq::<ComponentView>::empty());
    assert(path_text(path) == name) by {
        reveal_with_fuel(path_text, 2);
        assert(Seq::<u8>::empty() + Seq::<u8>::empty() + name == name);
    }
    normal_is_kept(path);
}

/// The path of the features is in normal form.
pub proof fn features_path_is_normal()
    ensures
        features_path() == parse_path(features_spelling()),
{
    reveal_strlit("features.fea");
    let text = FEATURES_FILE@;
    let name = encode_utf8(text);
    assert(is_ascii_chars(text));
    is_ascii_chars_encode_utf8(text);
    assert forall|i: int| 0 <= i < name.len() implies name[i] != SLASH by {
        assert(text[i] as u8 == name[i]);
    }
    assert(name.len() == 12);
    assert(is_name(name));
    name_is_path(name);
}

/// Text that was written is read back.
proof fn lemma_text_comes_back(text: Seq<char>, path: PathView)
    ensures
        contents_of(Answer::Data(encode_utf8(text)), path) == Ok::<Seq<char>, LoadFailure>(text),
{
    encode_utf8_valid_utf8(text);
    encode_utf8_decode_utf8(text);
}

/// What writing the features of a font comes to, where all was written: the
/// features and each file that they take in lie at their paths.
proof fn lemma_features_are_written<'a, I, G, K, L, E: Clone, F: Fn(&Part<'a, I, G, K, L>) -> Result<Vec<u8>, E>>(
    font: Font<I, G, K, L, E>,
    serialize: F,
    calls: Seq<SinkCall>,
    k: int,
)
    requires
        carried_out(serialize, plan(font), calls, Ok(())),
        rises::<VirtualPath, String>(font.feature_files.sorted()),
        0 <= k < feature_plan(font).len(),
        !file_texts(font.feature_files@).contains_key(parse_path(features_spelling())),
        forall|i: int|
            0 <= i < trailing_plan(font).len() ==> parse_path(
                (#[trigger] trailing_plan(font)[i]).path,
            ) != parse_path(feature_plan(font)[k].path),
    ensures
        written(calls, parse_path(feature_plan(font)[k].path)) == Answer::Data(
            feature_plan(font)[k].content->Bytes_0,
        ),
{
    let all = plan(font);
    let lead = leading_plan(font);
    let own = feature_plan(font);
    let files = font.feature_files.sorted();
    let at = lead.len() + k;
    assert(all[at] == own[k]);
    assert(calls[at].path == own[k].path && can_give(serialize, own[k], Ok(calls[at].data)));
    assert forall|i: int| at < i < calls.len() implies parse_path((#[trigger] calls[i]).path)
        != parse_path(calls[at].path) by {
        assert(calls[i].path == all[i].path);
        if i < lead.len() + own.len() {
            let j = i - lead.len();
            assert(all[i] == own[j]);
            assert(parse_path(own[j].path) == files[j - 1].0);
            if k == 0 {
                lemma_entry_is_there::<VirtualPath, String>(files, j - 1);
            } else {
                assert(parse_path(own[k].path) == files[k - 1].0);
                VirtualPath::before_is_total(files[k - 1].0, files[j - 1].0);
            }
        } else {
            assert(all[i] == trailing_plan(font)[i - lead.len() - own.len()]);
        }
    }
    lemma_written(calls, at);
}

/// The features of a font that were loaded and then written load again, but
/// for their line ends, unless another file of the font is written over one of
/// them.
pub proof fn saved_features_load_again<
    'a,
    I,
    G,
    K,
    L,
    E: Clone,
    F: Fn(&Part<'a, I, G, K, L>) -> Result<Vec<u8>, E>,
>(font: Font<I, G, K, L, E>, serialize: F, calls: Seq<SinkCall>, reader: Reader)
    requires
        rises::<VirtualPath, String>(font.feature_files.sorted()),
        load(reader, features_spelling()) == Ok::<Option<(Seq<char>, Files)>, LoadFailure>(
            Some((font.features@, file_texts(font.feature_files@))),
        ),
        font.features@.len() > 0,
        carried_out(serialize, plan(font), calls, Ok(())),
        forall|i: int, k: int|
            0 <= i < trailing_plan(font).len() && 0 <= k < feature_plan(font).len() ==> parse_path(
                (#[trigger] trailing_plan(font)[i]).path,
            ) != parse_path((#[trigger] feature_plan(font)[k]).path),
    ensures
        load(written_files(calls), features_spelling()) == Ok::<
            Option<(Seq<char>, Files)>,
            LoadFailure,
        >(Some((lf_text(font.features@), lf_files(file_texts(font.feature_files@))))),
{
    let again = written_files(calls);
    let files = file_texts(font.feature_files@);
    let entries = font.feature_files.entries();
    let sorted = font.feature_files.sorted();
    let own = feature_plan(font);
    let root = features_spelling();
    features_path_is_normal();
    loaded_files_are_those_taken_in(reader, root);
    lemma_features_are_written(font, serialize, calls, 0);
    assert(own[0] == text_file::<I, G, K, L, E>(root, font.features@));
    lemma_text_comes_back(lf_text(font.features@), parse_path(root));
    assert forall|p: PathView| #[trigger] files.contains_key(p) implies contents_of(
        read_at(again, p),
        p,
    ) == Ok::<Seq<char>, LoadFailure>(lf_text(files[p])) by {
        assert(font.feature_files@.contains_key(p));
        let k = lemma_key_has_entry::<VirtualPath, String>(sorted, p);
        assert(own[k + 1] == text_file::<I, G, K, L, E>(entries[k].0.spelling(), entries[k].1@));
        lemma_features_are_written(font, serialize, calls, k + 1);
        lemma_parse_path_is_path(entries[k].0.spelling());
        text_names_path(p);
        lemma_text_comes_back(lf_text(files[p]), p);
    }
    normalized_features_load_again(reader, again, root);
}

/// The features of a font that were loaded and then written load again as they
/// were, where no carriage return stands before a line feed in them.
pub proof fn saved_features_load_unchanged<
    'a,
    I,
    G,
    K,
    L,
    E: Clone,
    F: Fn(&Part<'a, I, G, K, L>) -> Result<Vec<u8>, E>,
>(font: Font<I, G, K, L, E>, serialize: F, calls: Seq<SinkCall>, reader: Reader)
    requires
        rises::<VirtualPath, String>(font.feature_files.sorted()),
        load(reader, features_spelling()) == Ok::<Option<(Seq<char>, Files)>, LoadFailure>(
            Some((font.features@, file_texts(font.feature_files@))),
        ),
        font.features@.len() > 0,
        carried_out(serialize, plan(font), calls, Ok(())),
        forall|i: int, k: int|
            0 <= i < trailing_plan(font).len() && 0 <= k < feature_plan(font).len() ==> parse_path(
                (#[trigger] trailing_plan(font)[i]).path,
            ) != parse_path((#[trigger] feature_plan(font)[k]).path),
        !has_crlf(font.features@),
        forall|path: PathView| #[trigger]
            file_texts(font.feature_files@).contains_key(path) ==> !has_crlf(
                file_texts(font.feature_files@)[path],
            ),
    ensures
        load(written_files(calls), features_spelling()) == load(reader, features_spelling()),
{
    saved_features_load_again(font, serialize, calls, reader);
    lf_text_is_kept(font.features@);
    lf_files_are_kept(file_texts(font.feature_files@));
}

/// A font that was written without failure has its meta information, which
/// comes first, and the list of its layers; and it has its features and each
/// file that they take in, where there are any.
pub proof fn saved_font_has_its_files<
    'a,
    I,
    G,
    K,
    L,
    E: Clone,
    F: Fn(&Part<'a, I, G, K, L>) -> Result<Vec<u8>, E>,
>(font: Font<I, G, K, L, E>, serialize: F, calls: Seq<SinkCall>)
    requires
        carried_out(serialize, plan(font), calls, Ok(())),
        rises::<VirtualPath, String>(font.feature_files.sorted()),
    ensures
        handed_over(
            serialize,
            calls,
            0,
            part_file::<I, G, K, L, E>(METAINFO_FILE@, PartView::MetaInfo(written_metainfo(font.meta@))),
        ),
        exists|i: int| #[trigger]
            handed_over(
                serialize,
                calls,
                i,
                part_file::<I, G, K, L, E>(
                    LAYER_CONTENTS_FILE@,
                    PartView::LayerContents(layer_contents(font.layers@)),
                ),
            ),
        font.features@.len() > 0 || font.feature_files.sorted().len() > 0 ==> exists|i: int|
            #[trigger]
            handed_over(
                serialize,
                calls,
                i,
                text_file::<I, G, K, L, E>(features_spelling(), font.features@),
            ),
        forall|path: PathView| #[trigger]
            font.feature_files@.contains_key(path) ==> exists|i: int| #[trigger]
                handed_over(
                    serialize,
                    calls,
                    i,
                    text_file::<I, G, K, L, E>(
                        font.feature_files.keys()[path].spelling(),
                        font.feature_files@[path]@,
                    ),
                ),
{
    let all = plan(font);
    let lead = leading_plan(font);
    let own = feature_plan(font);
    let sorted = font.feature_files.sorted();
    let entries = font.feature_files.entries();
    assert(all[0] == lead[0]);
    assert(calls[0].path == all[0].path);
    let layers = lead.len() + own.len();
    assert(all[layers as int] == trailing_plan(font)[0]);
    assert(calls[layers as int].path == all[layers as int].path);
    assert(handed_over(serialize, calls, layers as int, all[layers as int]));
    if own.len() > 0 {
        let at = lead.len() as int;
        assert(all[at] == own[0]);
        assert(calls[at].path == all[at].path);
        assert(handed_over(serialize, calls, at, all[at]));
    }
    assert forall|path: PathView| #[trigger]
        font.feature_files@.contains_key(path) implies exists|i: int| #[trigger]
        handed_over(
            serialize,
            calls,
            i,
            text_file::<I, G, K, L, E>(
                        font.feature_files.keys()[path].spelling(),
                        font.feature_files@[path]@,
                    ),
        ) by {
        let k = lemma_key_has_entry::<VirtualPath, String>(sorted, path);
        lemma_keys_rise(entries);
        lemma_entry_is_there::<VirtualPath, VirtualPath>(with_keys(entries), k);
        assert(with_keys(entries)[k] == (path, entries[k].0));
        let at = lead.len() + k + 1;
        assert(own[k + 1] == text_file::<I, G, K, L, E>(
                        font.feature_files.keys()[path].spelling(),
                        font.feature_files@[path]@,
                    ));
        assert(all[at] == own[k + 1]);
        assert(calls[at].path == all[at].path);
        assert(handed_over(serialize, calls, at, all[at]));
    }
}

/// Whether the call at `i` handed the sink the planned file, and the sink took
/// it.
pub open spec fn handed_over<'a, I, G, K, L, E: Clone, F: Fn(&Part<'a, I, G, K, L>) -> Result<Vec<u8>, E>>(
    serialize: F,
    calls: Seq<SinkCall>,
    i: int,
    file: PlannedView<I, G, K, L, E>,
) -> bool {
    &&& 0 <= i < calls.len()
    &&& calls[i].path == file.path
    &&& calls[i].outcome is Ok
    &&& can_give(serialize, file, Ok(calls[i].data))
}

/// Putting an entry in order keeps the order and the others.
pub proof fn lemma_put_in_order<V>(entries: Seq<(Seq<char>, V)>, key: Seq<char>, value: V)
    requires
        rises::<String, V>(entries),
        !map_of(entries).contains_key(key),
    ensures
        rises::<String, V>(put_in_order(entries, key, value)),
        map_of(put_in_order(entries, key, value)) == map_of(entries).insert(key, value),
        forall|i: int|
            0 <= i < put_in_order(entries, key, value).len() ==> (#[trigger] put_in_order(
                entries,
                key,
                value,
            )[i]).0 == key || exists|j: int|
                0 <= j < entries.len() && #[trigger] entries[j].0 == put_in_order(
                    entries,
                    key,
                    value,
                )[i].0,
    decreases entries.len(),
{
    let res = put_in_order(entries, key, value);
    if entries.len() == 0 {
        assert(res.drop_last() == entries);
    } else if text_before(entries.last().0, key) {
        assert(res.drop_last() == entries);
        assert forall|i: int, j: int| 0 <= i < j < res.len() implies String::before(
            #[trigger] res[i].0,
            #[trigger] res[j].0,
        ) by {
            if j == entries.len() {
                if i < entries.len() - 1 {
                    String::before_is_transitive(entries[i].0, entries.last().0, key);
                }
            } else {
                assert(res[i] == entries[i] && res[j] == entries[j]);
            }
        }
        assert forall|i: int| 0 <= i < res.len() implies (#[trigger] res[i]).0 == key || exists|
            j: int,
        |
            0 <= j < entries.len() && #[trigger] entries[j].0 == res[i].0 by {
            if i < entries.len() {
                assert(entries[i].0 == res[i].0);
            }
        }
    } else {
        let head = entries.drop_last();
        let last = entries.last();
        assert forall|i: int, j: int| 0 <= i < j < head.len() implies String::before(
            #[trigger] head[i].0,
            #[trigger] head[j].0,
        ) by {
            assert(head[i] == entries[i] && head[j] == entries[j]);
        }
        assert(map_of(entries) == map_of(head).insert(last.0, last.1));
        assert(last.0 != key);
        lemma_text_before_total(last.0, key);
        lemma_put_in_order(head, key, value);
        let inner = put_in_order(head, key, value);
        assert(res.drop_last() == inner);
        assert forall|i: int, j: int| 0 <= i < j < res.len() implies String::before(
            #[trigger] res[i].0,
            #[trigger] res[j].0,
        ) by {
            if j < inner.len() {
                assert(res[i] == inner[i] && res[j] == inner[j]);
            } else {
                assert(res[j] == last);
                assert(res[i] == inner[i]);
                if inner[i].0 != key {
                    let k = choose|k: int|
                        0 <= k < head.len() && #[trigger] head[k].0 == inner[i].0;
                    assert(head[k] == entries[k]);
                    assert(String::before(entries[k].0, entries[entries.len() - 1].0));
                }
            }
        }
        assert forall|i: int| 0 <= i < res.len() implies (#[trigger] res[i]).0 == key || exists|
            j: int,
        |
            0 <= j < entries.len() && #[trigger] entries[j].0 == res[i].0 by {
            if i < inner.len() {
                assert(res[i] == inner[i]);
                if inner[i].0 != key {
                    let k = choose|k: int|
                        0 <= k < head.len() && #[trigger] head[k].0 == inner[i].0;
                    assert(entries[k].0 == res[i].0);
                }
            } else {
                assert(entries[entries.len() - 1].0 == res[i].0);
            }
        }
        assert(map_of(res) == map_of(inner).insert(last.0, last.1));
        assert(map_of(res) =~= map_of(entries).insert(key, value));
    }
}

/// The custom data of a font is written in the order of its keys, with that of
/// the guidelines under its own key, where there is any, and nothing else.
pub proof fn written_lib_is_in_order<I, G, K, L, E>(font: Font<I, G, K, L, E>)
    requires
        accepted(font),
        rises::<String, Value<L>>(font.lib.sorted()),
    ensures
        rises::<String, Value<L>>(written_lib(font)),
        map_of(written_lib(font)) == if font.font_info.object_libs.sorted().len() > 0 {
            font.lib@.insert(
                PUBLIC_OBJECT_LIBS_KEY@,
                Value::Dictionary(font.font_info.object_libs),
            )
        } else {
            font.lib@
        },
{
    if font.font_info.object_libs.sorted().len() > 0 {
        lemma_put_in_order(
            font.lib.sorted(),
            PUBLIC_OBJECT_LIBS_KEY@,
            Value::Dictionary(font.font_info.object_libs),
        );
    }
}

} // verus!
