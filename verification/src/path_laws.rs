//! What holds of spelling paths, of following them and of their order.

use crate::directive::target;
use crate::load::taken_in;
use crate::ordered_map::{
    lemma_entry_is_there, lemma_key_has_entry, lemma_keys_rise, rises, with_keys, Key, OrderedMap,
};
use crate::path::{
    is_path, join, join_normal, join_spelling, lemma_segments_behind, lemma_segments_free_of_slash, normal_is_kept, normalize,
    normalized_is_normal, parent, parse_path, path_before, path_text, segment_components, segments,
    text_path, ComponentView, PathView, VirtualPath,
};
use crate::text::bytes_before;
use vstd::prelude::*;
use vstd::utf8::encode_utf8;

verus! {

broadcast use vstd::seq::group_seq_axioms;

// ---------------------------------------------------------------------------
// Spelling
// ---------------------------------------------------------------------------

/// The components of a segment behind others: none where it is empty or a dot,
/// the parent where it is two dots, and a name otherwise.
proof fn lemma_one_segment(segment: Seq<u8>)
    requires
        !segment.contains(0x2fu8),
    ensures
        segments(segment) == seq![segment],
        parse_path(segment) == segment_components(seq![segment]),
    decreases segment.len(),
{
    if segment.len() > 0 {
        let head = segment.drop_last();
        assert forall|i: int| 0 <= i < head.len() implies head[i] != 0x2fu8 by {
            assert(segment.contains(segment[i]));
        }
        lemma_one_segment(head);
        assert(segment.contains(segment.last()));
        assert(head.push(segment.last()) == segment);
        assert(seq![head].drop_last().push(segment) == seq![segment]);
        assert(segment.contains(segment[0]));
        assert(seq![head].last() == head);
    } else {
        assert(segment == Seq::<u8>::empty());
    }
    assert(segments(segment) == seq![segment]);
    assert(Seq::<ComponentView>::empty() + segment_components(seq![segment]) == segment_components(
        seq![segment],
    ));
}

/// A spelling without slashes names nothing where it is empty, the directory
/// itself where it is a dot, its parent where it is two dots, and a name
/// otherwise.
pub proof fn spelling_without_slashes(segment: Seq<u8>)
    requires
        !segment.contains(0x2fu8),
    ensures
        parse_path(segment) == if segment.len() == 0 {
            Seq::empty()
        } else if segment == seq![0x2eu8] {
            seq![ComponentView::CurDir]
        } else if segment == seq![0x2eu8, 0x2eu8] {
            seq![ComponentView::ParentDir]
        } else {
            seq![ComponentView::Normal(segment)]
        },
{
    lemma_one_segment(segment);
    let one = seq![segment];
    assert(one.drop_last() == Seq::<Seq<u8>>::empty());
    assert(segment_components(one.drop_last()) == Seq::<ComponentView>::empty());
    if segment.len() > 0 {
        assert(parse_path(segment).len() == 1);
    }
}

/// Behind a spelling that is not empty, a slash and a segment add nothing where
/// the segment is empty or a dot, the parent where it is two dots, and a name
/// otherwise.
pub proof fn spelling_goes_on(text: Seq<u8>, segment: Seq<u8>)
    requires
        text.len() > 0,
        !segment.contains(0x2fu8),
    ensures
        parse_path(text + seq![0x2fu8] + segment) == if segment.len() == 0 || segment
            == seq![0x2eu8] {
            parse_path(text)
        } else if segment == seq![0x2eu8, 0x2eu8] {
            parse_path(text).push(ComponentView::ParentDir)
        } else {
            parse_path(text).push(ComponentView::Normal(segment))
        },
{
    let whole = text + seq![0x2fu8] + segment;
    lemma_one_segment(segment);
    lemma_segments_behind(text, segment);
    lemma_segments_free_of_slash(text);
    assert(whole == text.push(0x2fu8) + segment);
    assert(segments(whole) == segments(text).push(segment));
    assert(segments(whole).drop_last() == segments(text));
    assert(whole[0] == text[0]);
    let root = crate::path::root_of(text);
    assert(crate::path::root_of(whole) == root);
    let before = segment_components(segments(text));
    if segment.len() > 0 && segment != seq![0x2eu8] {
        let c = segment_components(segments(whole)).last();
        assert(root + before.push(c) == (root + before).push(c));
    }
}

/// A spelling that begins with a slash begins at the root.
pub proof fn spelling_from_the_root(segment: Seq<u8>)
    requires
        !segment.contains(0x2fu8),
    ensures
        parse_path(seq![0x2fu8] + segment) == if segment.len() == 0 || segment == seq![0x2eu8] {
            seq![ComponentView::RootDir]
        } else if segment == seq![0x2eu8, 0x2eu8] {
            seq![ComponentView::RootDir, ComponentView::ParentDir]
        } else {
            seq![ComponentView::RootDir, ComponentView::Normal(segment)]
        },
{
    let none: Seq<u8> = Seq::empty();
    let whole = seq![0x2fu8] + segment;
    lemma_one_segment(segment);
    lemma_one_segment(none);
    lemma_segments_behind(none, segment);
    assert(whole == none.push(0x2fu8) + segment);
    assert(segments(whole) == seq![none, segment]);
    assert(seq![none, segment].drop_last() == seq![none]);
    assert(seq![none].drop_last() == Seq::<Seq<u8>>::empty());
    reveal_with_fuel(segment_components, 3);
    assert(segment_components(seq![none]) == Seq::<ComponentView>::empty());
    assert(crate::path::root_of(whole) == seq![ComponentView::RootDir]);
    assert(parse_path(whole) == seq![ComponentView::RootDir] + segment_components(
        seq![none, segment],
    ));
}

/// The shortest spelling: the names one after the other with a slash between
/// them, and one in front where the path begins at the root.
pub proof fn shortest_spelling(path: PathView, last: ComponentView)
    ensures
        path_text(Seq::empty()) == Seq::<u8>::empty(),
        ({
            let spelled = match last {
                ComponentView::RootDir => seq![0x2fu8],
                ComponentView::CurDir => seq![0x2eu8],
                ComponentView::ParentDir => seq![0x2eu8, 0x2eu8],
                ComponentView::Normal(name) => name,
            };
            path_text(path.push(last)) == if path.len() == 0 {
                spelled
            } else if path[path.len() - 1] is RootDir {
                path_text(path) + spelled
            } else {
                path_text(path) + seq![0x2fu8] + spelled
            }
        }),
{
    assert(path.push(last).drop_last() == path);
    if path.len() == 0 {
        assert(path_text(path) == Seq::<u8>::empty());
    }
}

/// How a joined path is spelled: an absolute one stands alone, and any other
/// stands behind the base and a slash, unless one is there.
pub proof fn joined_spelling(base: Seq<u8>, other: Seq<u8>)
    ensures
        other.len() > 0 && other[0] == 0x2fu8 ==> join_spelling(base, other) == other,
        base.len() == 0 ==> join_spelling(base, other) == other,
        !(other.len() > 0 && other[0] == 0x2fu8) && base.len() > 0 && base[base.len() - 1]
            == 0x2fu8 ==> join_spelling(base, other) == base + other,
        !(other.len() > 0 && other[0] == 0x2fu8) && base.len() > 0 && base[base.len() - 1]
            != 0x2fu8 ==> join_spelling(base, other) == base + seq![0x2fu8] + other,
{
    assert(base.push(0x2fu8) == base + seq![0x2fu8]);
}

/// Joining gives the components of the one behind those of the other, but for a
/// dot that comes first; an absolute path stands alone.
pub proof fn joined_components(base: PathView, other: PathView)
    ensures
        other.len() > 0 && other[0] is RootDir ==> join(base, other) == other,
        base.len() == 0 ==> join(base, other) == other,
        other.len() == 0 ==> join(base, other) == base,
        base.len() > 0 && other.len() > 0 && other[0] is CurDir ==> join(base, other) == base
            + other.subrange(1, other.len() as int),
        other.len() > 0 && !(other[0] is RootDir) && !(other[0] is CurDir) ==> join(base, other)
            == base + other,
{
    assert(base + Seq::<ComponentView>::empty() == base);
    assert(Seq::<ComponentView>::empty() + other == other);
    if other.len() == 0 {
        assert(base + other == base);
    }
    if base.len() == 0 {
        assert(base + other == other);
    }
}

/// A path leads back to the one it goes on from, and there is nothing before the
/// root or the empty path.
pub proof fn parents(path: PathView, last: ComponentView)
    ensures
        parent(Seq::empty()) is None,
        last is RootDir ==> parent(path.push(last)) is None,
        !(last is RootDir) ==> parent(path.push(last)) == Some(path),
{
    assert(path.push(last).drop_last() == path);
}

// ---------------------------------------------------------------------------
// Normal form
// ---------------------------------------------------------------------------

/// What follows a path is followed from where it leads.
proof fn lemma_follow(a: PathView, b: PathView, rest: PathView)
    requires
        normalize(a) == normalize(b),
    ensures
        normalize(a + rest) == normalize(b + rest),
    decreases rest.len(),
{
    if rest.len() == 0 {
        assert(a + rest == a);
        assert(b + rest == b);
    } else {
        assert((a + rest).drop_last() == a + rest.drop_last());
        assert((b + rest).drop_last() == b + rest.drop_last());
        assert((a + rest).last() == (b + rest).last());
        lemma_follow(a, b, rest.drop_last());
    }
}

/// A path of names, behind a root or not, is its own normal form.
pub proof fn names_are_kept(path: PathView)
    requires
        forall|i: int|
            0 <= i < path.len() ==> (#[trigger] path[i]) is Normal || (i == 0
                && path[i] is RootDir),
    ensures
        normalize(path) == path,
{
    normal_is_kept(path);
}

/// A dot makes no difference, wherever it stands.
pub proof fn dots_are_dropped(path: PathView, rest: PathView)
    ensures
        normalize(path + seq![ComponentView::CurDir] + rest) == normalize(path + rest),
{
    let dotted = path + seq![ComponentView::CurDir];
    assert(dotted.drop_last() == path);
    assert(normalize(dotted) == normalize(path));
    lemma_follow(dotted, path, rest);
}

/// Two dots take back the name before them, wherever they stand.
pub proof fn parents_take_back_names(path: PathView, name: Seq<u8>, rest: PathView)
    ensures
        normalize(
            path + seq![ComponentView::Normal(name), ComponentView::ParentDir] + rest,
        ) == normalize(path + rest),
{
    let named = path.push(ComponentView::Normal(name));
    let back = path + seq![ComponentView::Normal(name), ComponentView::ParentDir];
    assert(named.drop_last() == path);
    assert(back.drop_last() == named);
    assert(normalize(named) == normalize(path).push(ComponentView::Normal(name)));
    assert(normalize(path).push(ComponentView::Normal(name)).drop_last() == normalize(path));
    assert(normalize(back) == normalize(path));
    lemma_follow(back, path, rest);
}

/// Two dots make no difference at the beginning or at the root.
pub proof fn nothing_stands_above(rest: PathView)
    ensures
        normalize(seq![ComponentView::ParentDir] + rest) == normalize(rest),
        normalize(seq![ComponentView::RootDir, ComponentView::ParentDir] + rest) == normalize(
            seq![ComponentView::RootDir] + rest,
        ),
{
    let none: PathView = Seq::empty();
    let up = seq![ComponentView::ParentDir];
    assert(up.drop_last() == none);
    assert(normalize(up) == normalize(none));
    lemma_follow(up, none, rest);
    assert(none + rest == rest);
    let root = seq![ComponentView::RootDir];
    let above = seq![ComponentView::RootDir, ComponentView::ParentDir];
    assert(above.drop_last() == root);
    assert(root.drop_last() == none);
    assert(normalize(root) == root);
    assert(normalize(above) == normalize(root));
    lemma_follow(above, root, rest);
}

/// Joining two paths follows the one and then the other, unless the other begins
/// at the root.
pub proof fn joining_follows_both(base: PathView, relative: PathView)
    ensures
        relative.len() > 0 && relative[0] is RootDir ==> join_normal(base, relative) == normalize(
            relative,
        ),
        !(relative.len() > 0 && relative[0] is RootDir) ==> join_normal(base, relative)
            == normalize(base + relative),
{
    if !(relative.len() > 0 && relative[0] is RootDir) {
        if base.len() == 0 {
            assert(base + relative == relative);
        } else if relative.len() > 0 && relative[0] is CurDir {
            let rest = relative.drop_first();
            assert(base + relative == base + seq![ComponentView::CurDir] + rest);
            dots_are_dropped(base, rest);
        }
    }
}

// ---------------------------------------------------------------------------
// The file that a line takes in
// ---------------------------------------------------------------------------

/// A file takes in the path that a line names: from its own directory, where
/// the path is relative.
pub proof fn files_are_sought_beside_the_one_that_names_them(
    base: PathView,
    own: Seq<u8>,
    line: Seq<char>,
    named: PathView,
)
    requires
        forall|i: int|
            0 <= i < base.len() ==> (#[trigger] base[i]) is Normal || (i == 0
                && base[i] is RootDir),
        target(line) == Some(named),
    ensures
        !(named.len() > 0 && named[0] is RootDir) ==> taken_in(
            base.push(ComponentView::Normal(own)),
            line,
        ) == Some(base + named),
        named.len() > 0 && named[0] is RootDir ==> taken_in(
            base.push(ComponentView::Normal(own)),
            line,
        ) == Some(named),
{
    let current = base.push(ComponentView::Normal(own));
    assert(current.drop_last() == base);
    lemma_target_is_normal(line);
    joining_follows_both(base, named);
    names_are_kept(named);
    if !(named.len() > 0 && named[0] is RootDir) {
        let joined = base + named;
        assert forall|i: int| 0 <= i < joined.len() implies (#[trigger] joined[i]) is Normal || (i
            == 0 && joined[i] is RootDir) by {
            if i < base.len() {
                assert(joined[i] == base[i]);
            } else {
                assert(joined[i] == named[i - base.len()]);
            }
        }
        names_are_kept(joined);
    }
}

/// From any path, a relative path that a line names is followed from the path
/// without its last component; where there is no such component, it stands for
/// itself, as an absolute path always does. A line that names none takes in none.
pub proof fn files_are_sought_from_the_parent(
    base: PathView,
    own: ComponentView,
    line: Seq<char>,
)
    ensures
        target(line) is None ==> taken_in(base, line) is None,
        target(line) matches Some(named) ==> {
            &&& named.len() > 0 && named[0] is RootDir ==> taken_in(base, line) == Some(named)
            &&& taken_in(Seq::empty(), line) == Some(named)
            &&& !(named.len() > 0 && named[0] is RootDir) && !(own is RootDir) ==> taken_in(
                base.push(own),
                line,
            ) == Some(normalize(base + named))
            &&& own is RootDir ==> taken_in(base.push(own), line) == Some(named)
        },
{
    if let Some(named) = target(line) {
        let none: PathView = Seq::empty();
        assert(base.push(own).drop_last() == base);
        lemma_target_is_normal(line);
        names_are_kept(named);
        joining_follows_both(base, named);
        joining_follows_both(none, named);
        joining_follows_both(crate::load::directory(base), named);
        assert(none + named == named);
    }
}

/// The path that a line names is in normal form.
proof fn lemma_target_is_normal(line: Seq<char>)
    ensures
        target(line) matches Some(named) ==> forall|i: int|
            0 <= i < named.len() ==> (#[trigger] named[i]) is Normal || (i == 0
                && named[i] is RootDir),
{
    if let Some(named) = target(line) {
        let statement = crate::text::trim(line, crate::text::TrimSet::WhiteSpace);
        let name = crate::directive::named_file(statement)->Some_0;
        normalized_is_normal(text_path(name));
    }
}

// ---------------------------------------------------------------------------
// Order
// ---------------------------------------------------------------------------

/// The first component in which they differ decides the order of two paths: the
/// root, then a dot, then two dots, then names in the order of their bytes.
pub proof fn first_difference_orders_paths(
    common: PathView,
    a: ComponentView,
    rest_a: PathView,
    b: ComponentView,
    rest_b: PathView,
)
    requires
        a != b,
    ensures
        path_before(common + seq![a] + rest_a, common + seq![b] + rest_b) == match (a, b) {
            (ComponentView::RootDir, _) => true,
            (_, ComponentView::RootDir) => false,
            (ComponentView::CurDir, _) => true,
            (_, ComponentView::CurDir) => false,
            (ComponentView::ParentDir, _) => true,
            (_, ComponentView::ParentDir) => false,
            (ComponentView::Normal(x), ComponentView::Normal(y)) => bytes_before(x, y),
        },
    decreases common.len(),
{
    let x = common + seq![a] + rest_a;
    let y = common + seq![b] + rest_b;
    if common.len() == 0 {
        assert(x[0] == a && y[0] == b);
    } else {
        let more = common.drop_first();
        assert(x[0] == common[0] && y[0] == common[0]);
        assert(x.drop_first() == more + seq![a] + rest_a);
        assert(y.drop_first() == more + seq![b] + rest_b);
        first_difference_orders_paths(more, a, rest_a, b, rest_b);
    }
}

/// A path stands before those that go on from it, and not before itself.
pub proof fn shorter_paths_stand_first(common: PathView, rest: PathView)
    ensures
        path_before(common, common + rest) == (rest.len() > 0),
        !path_before(common + rest, common),
    decreases common.len(),
{
    let whole = common + rest;
    if common.len() > 0 {
        assert(whole[0] == common[0]);
        assert(whole.drop_first() == common.drop_first() + rest);
        shorter_paths_stand_first(common.drop_first(), rest);
    }
}

/// What the components of a path are like: the root and a dot stand only at the
/// beginning, and a name is not empty, holds no slash and is no dot or two dots.
pub proof fn components_of_paths(path: PathView, i: int)
    requires
        is_path(path),
        0 <= i < path.len(),
    ensures
        path[i] is RootDir || path[i] is CurDir ==> i == 0,
        path[i] matches ComponentView::Normal(name) ==> {
            &&& name.len() > 0
            &&& !name.contains(0x2fu8)
            &&& name != seq![0x2eu8]
            &&& name != seq![0x2eu8, 0x2eu8]
        },
{
    assert(crate::path::fits(path[i], i));
}

/// A path stands for the components of its spelling, and is short where the
/// shortest spelling of these is its own.
pub proof fn paths_stand_for_their_components(path: VirtualPath)
    ensures
        path@ == parse_path(path.spelling()),
        path.is_short() <==> path.spelling() == path_text(parse_path(path.spelling())),
{
}

/// Maps keep paths in the order of paths, and texts in that of their bytes.
pub proof fn maps_keep_their_order<V>(
    a: PathView,
    b: PathView,
    x: Seq<char>,
    y: Seq<char>,
    by_path: Seq<(PathView, V)>,
    by_text: Seq<(Seq<char>, V)>,
    i: int,
    j: int,
)
    ensures
        VirtualPath::before(a, b) == path_before(a, b),
        String::before(x, y) == bytes_before(encode_utf8(x), encode_utf8(y)),
        rises::<VirtualPath, V>(by_path) && 0 <= i < j < by_path.len() ==> path_before(
            by_path[i].0,
            by_path[j].0,
        ),
        rises::<String, V>(by_text) && 0 <= i < j < by_text.len() ==> bytes_before(
            encode_utf8(by_text[i].0),
            encode_utf8(by_text[j].0),
        ),
{
    if rises::<VirtualPath, V>(by_path) && 0 <= i < j < by_path.len() {
        assert(VirtualPath::before(by_path[i].0, by_path[j].0));
    }
    if rises::<String, V>(by_text) && 0 <= i < j < by_text.len() {
        assert(String::before(by_text[i].0, by_text[j].0));
    }
}

/// A map has each of its entries, under what the key stands for, and no other.
pub proof fn maps_have_their_entries<V>(
    map: OrderedMap<VirtualPath, V>,
    i: int,
    path: PathView,
)
    requires
        rises::<VirtualPath, V>(map.sorted()),
    ensures
        0 <= i < map.entries().len() ==> {
            let (key, value) = map.entries()[i];
            &&& map@.contains_key(key@) && map@[key@] == value
            &&& map.keys().contains_key(key@) && map.keys()[key@] == key
        },
        map@.contains_key(path) ==> exists|k: int|
            0 <= k < map.entries().len() && (#[trigger] map.entries()[k]).0@ == path,
{
    let entries = map.entries();
    lemma_keys_rise(entries);
    if 0 <= i < entries.len() {
        assert(map.sorted()[i] == (entries[i].0@, entries[i].1));
        assert(with_keys(entries)[i] == (entries[i].0@, entries[i].0));
        lemma_entry_is_there::<VirtualPath, V>(map.sorted(), i);
        lemma_entry_is_there::<VirtualPath, VirtualPath>(with_keys(entries), i);
    }
    if map@.contains_key(path) {
        let k = lemma_key_has_entry::<VirtualPath, V>(map.sorted(), path);
        assert(map.sorted()[k] == (entries[k].0@, entries[k].1));
    }
}

} // verus!
