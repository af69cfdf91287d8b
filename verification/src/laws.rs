//! What holds of loading and expanding feature files taken together.

use crate::directive::{named_file, target};
use crate::error::LoadFailure;
use crate::expand::{expand, expand_line, features_path, lemma_unopened, Expanded};
use crate::line_ends::{has_crlf, lf_text, lf_text_is_kept, lf_text_keeps_targets};
use crate::load::{
    accounts, collect, collect_keeps_files, collect_line, contents_of, directory,
    lemma_some_reader, load, taken_in, Collected, Files,
};
use crate::path::{
    is_absolute, is_normal, join, normal_is_kept, normalize, normalized_is_normal, parse_path,
    text_path, PathView,
};
use crate::source::{read_at, Answer, FontSource, ReadLog, Reader};
use crate::text::{split_lines, trim, TrimSet};
use vstd::prelude::*;

verus! {

broadcast use vstd::seq::group_seq_axioms;

/// Whether one of the `lines` of the file at `current` takes in `path`.
pub open spec fn lines_take_in(current: PathView, lines: Seq<Seq<char>>, path: PathView) -> bool {
    exists|i: int|
        0 <= i < lines.len() && taken_in(current, #[trigger] lines[i]) == Some(path)
}

/// Whether the file at `current` with the given text takes in `path`.
pub open spec fn takes_in(current: PathView, text: Seq<char>, path: PathView) -> bool {
    lines_take_in(current, split_lines(text), path)
}

/// Whether each of `files` takes in only files that are there and of a lower
/// rank. Such files cannot take each other in in a circle.
pub open spec fn ranked(files: Files, rank: Map<PathView, nat>) -> bool {
    forall|p: PathView, q: PathView|
        files.contains_key(p) && #[trigger] takes_in(p, files[p], q) ==> files.contains_key(q)
            && rank[q] < rank[p]
}

/// What collecting adds to `files`.
pub open spec fn added(
    reader: Reader,
    current: PathView,
    lines: Seq<Seq<char>>,
    open: Seq<PathView>,
    files: Files,
    all: Files,
) -> bool {
    // Each file that the lines take in is there.
    &&& forall|q: PathView| #[trigger]
        lines_take_in(current, lines, q) ==> all.contains_key(q)
    // Each added file is in normal form, was not open, and has the text that was read.
    &&& forall|p: PathView| #[trigger]
        all.contains_key(p) && !files.contains_key(p) ==> is_normal(p) && !open.contains(p)
            && contents_of(read_at(reader, p), p) == Ok::<Seq<char>, LoadFailure>(all[p])
    // Each added file is taken in by the lines or by a file that is there.
    &&& forall|p: PathView| #[trigger]
        all.contains_key(p) && !files.contains_key(p) ==> lines_take_in(current, lines, p) || exists|
            q: PathView,
        |
            all.contains_key(q) && #[trigger] takes_in(q, all[q], p)
}

/// Lines take in what the first or one of the others takes in.
pub proof fn lemma_lines_take_in(current: PathView, lines: Seq<Seq<char>>, path: PathView)
    requires
        lines.len() > 0,
    ensures
        lines_take_in(current, lines, path) <==> (taken_in(current, lines[0]) == Some(path)
            || lines_take_in(current, lines.drop_first(), path)),
{
    if lines_take_in(current, lines, path) {
        let i = choose|i: int|
            0 <= i < lines.len() && taken_in(current, #[trigger] lines[i]) == Some(path);
        if i > 0 {
            assert(lines.drop_first()[i - 1] == lines[i]);
        }
    }
    if lines_take_in(current, lines.drop_first(), path) {
        let i = choose|i: int|
            0 <= i < lines.drop_first().len() && taken_in(
                current,
                #[trigger] lines.drop_first()[i],
            ) == Some(path);
        assert(lines[i + 1] == lines.drop_first()[i]);
    }
}

/// What the first line adds and what the others add is what the lines add.
proof fn lemma_added_twice(
    reader: Reader,
    current: PathView,
    lines: Seq<Seq<char>>,
    open: Seq<PathView>,
    files: Files,
    mid: Files,
    all: Files,
)
    requires
        lines.len() > 0,
        mid.submap_of(all),
        added(reader, current, seq![lines[0]], open, files, mid),
        added(reader, current, lines.drop_first(), open, mid, all),
    ensures
        added(reader, current, lines, open, files, all),
{
    let first = seq![lines[0]];
    assert forall|q: PathView| #[trigger] lines_take_in(
        current,
        lines,
        q,
    ) implies all.contains_key(q) by {
        lemma_lines_take_in(current, lines, q);
        if taken_in(current, lines[0]) == Some(q) {
            assert(taken_in(current, first[0]) == Some(q));
            assert(lines_take_in(current, first, q));
            assert(mid.dom().contains(q));
        }
    }
    assert forall|p: PathView| #[trigger]
        all.contains_key(p) && !files.contains_key(p) implies is_normal(p) && !open.contains(p)
        && contents_of(read_at(reader, p), p) == Ok::<Seq<char>, LoadFailure>(all[p]) by {
        if mid.contains_key(p) {
            assert(mid.dom().contains(p));
        }
    }
    assert forall|p: PathView| #[trigger]
        all.contains_key(p) && !files.contains_key(p) implies lines_take_in(current, lines, p)
        || exists|q: PathView| all.contains_key(q) && #[trigger] takes_in(q, all[q], p) by {
        lemma_lines_take_in(current, lines, p);
        if mid.contains_key(p) && !lines_take_in(current, lines, p) {
            assert(!lines_take_in(current, first, p)) by {
                assert(first.drop_first() == Seq::<Seq<char>>::empty());
                lemma_lines_take_in(current, first, p);
            }
            let q = choose|q: PathView|
                mid.contains_key(q) && #[trigger] takes_in(q, mid[q], p);
            assert(all.dom().contains(q));
            assert(takes_in(q, all[q], p));
        }
    }
}

/// What a file that a line takes in adds, and the file itself.
proof fn lemma_added_file(
    reader: Reader,
    current: PathView,
    line: Seq<char>,
    open: Seq<PathView>,
    files: Files,
    inner: Files,
    path: PathView,
    text: Seq<char>,
)
    requires
        taken_in(current, line) == Some(path),
        is_normal(path),
        !open.contains(path),
        !inner.contains_key(path),
        contents_of(read_at(reader, path), path) == Ok::<Seq<char>, LoadFailure>(text),
        added(reader, path, split_lines(text), open.push(path), files, inner),
    ensures
        added(reader, current, seq![line], open, files, inner.insert(path, text)),
{
    let all = inner.insert(path, text);
    let lines = split_lines(text);
    assert(seq![line][0] == line);
    assert(lines_take_in(current, seq![line], path));
    assert forall|p: PathView| #[trigger]
        all.contains_key(p) && !files.contains_key(p) implies is_normal(p) && !open.contains(p)
        && contents_of(read_at(reader, p), p) == Ok::<Seq<char>, LoadFailure>(all[p]) by {
        if p != path {
            assert(inner.contains_key(p));
            if open.contains(p) {
                let k = choose|k: int| 0 <= k < open.len() && open[k] == p;
                assert(open.push(path)[k] == p);
            }
        }
    }
    assert forall|p: PathView| #[trigger]
        all.contains_key(p) && !files.contains_key(p) implies lines_take_in(
        current,
        seq![line],
        p,
    ) || exists|q: PathView| all.contains_key(q) && #[trigger] takes_in(q, all[q], p) by {
        if p != path {
            assert(inner.contains_key(p));
            if lines_take_in(path, lines, p) {
                assert(takes_in(path, all[path], p));
            } else {
                let q = choose|q: PathView|
                    inner.contains_key(q) && #[trigger] takes_in(q, inner[q], p);
                assert(all.contains_key(q) && takes_in(q, all[q], p));
            }
        }
    }
}

/// Collecting keeps the files ranked, below a new bound.
proof fn lemma_collect_ranks(
    reader: Reader,
    current: PathView,
    lines: Seq<Seq<char>>,
    open: Seq<PathView>,
    files: Files,
    rank: Map<PathView, nat>,
    bound: nat,
) -> (res: (Map<PathView, nat>, nat))
    requires
        collect(reader, current, lines, open, files).result is Ok,
        files.dom().finite(),
        ranked(files, rank),
        forall|p: PathView| #[trigger] files.contains_key(p) ==> rank[p] < bound,
    ensures
        ({
            let all = collect(reader, current, lines, open, files).files;
            &&& all.dom().finite()
            &&& ranked(all, res.0)
            &&& forall|p: PathView| #[trigger] all.contains_key(p) ==> res.0[p] < res.1
            &&& added(reader, current, lines, open, files, all)
        }),
    decreases usize::MAX - open.len(), lines.len(),
{
    let all = collect(reader, current, lines, open, files).files;
    if lines.len() == 0 {
        assert(added(reader, current, lines, open, files, all));
        (rank, bound)
    } else {
        let after = collect_line(reader, current, lines[0], open, files);
        let (rank1, bound1) = lemma_collect_line_ranks(
            reader,
            current,
            lines[0],
            open,
            files,
            rank,
            bound,
        );
        let rest = lines.drop_first();
        let (rank2, bound2) = lemma_collect_ranks(
            reader,
            current,
            rest,
            open,
            after.files,
            rank1,
            bound1,
        );
        crate::load::collect_keeps_files(reader, current, rest, open, after.files);
        lemma_added_twice(reader, current, lines, open, files, after.files, all);
        (rank2, bound2)
    }
}

proof fn lemma_collect_line_ranks(
    reader: Reader,
    current: PathView,
    line: Seq<char>,
    open: Seq<PathView>,
    files: Files,
    rank: Map<PathView, nat>,
    bound: nat,
) -> (res: (Map<PathView, nat>, nat))
    requires
        collect_line(reader, current, line, open, files).result is Ok,
        files.dom().finite(),
        ranked(files, rank),
        forall|p: PathView| #[trigger] files.contains_key(p) ==> rank[p] < bound,
    ensures
        ({
            let all = collect_line(reader, current, line, open, files).files;
            &&& all.dom().finite()
            &&& files.submap_of(all)
            &&& ranked(all, res.0)
            &&& forall|p: PathView| #[trigger] all.contains_key(p) ==> res.0[p] < res.1
            &&& added(reader, current, seq![line], open, files, all)
        }),
    decreases usize::MAX - open.len(), 0nat,
{
    let all = collect_line(reader, current, line, open, files).files;
    assert forall|q: PathView| #[trigger] lines_take_in(current, seq![line], q) implies taken_in(
        current,
        line,
    ) == Some(q) by {}
    match taken_in(current, line) {
        None => (rank, bound),
        Some(path) => {
            if files.contains_key(path) {
                (rank, bound)
            } else {
                let text = contents_of(read_at(reader, path), path)->Ok_0;
                let lines = split_lines(text);
                let inner = collect(reader, path, lines, open.push(path), files);
                let (rank1, bound1) = lemma_collect_ranks(
                    reader,
                    path,
                    lines,
                    open.push(path),
                    files,
                    rank,
                    bound,
                );
                crate::load::collect_keeps_files(reader, path, lines, open.push(path), files);
                crate::load::lemma_taken_in_is_normal(current, line);
                assert(open.push(path)[open.len() as int] == path);
                assert(!inner.files.contains_key(path));
                let rank2 = rank1.insert(path, bound1);
                assert forall|p: PathView, q: PathView|
                    all.contains_key(p) && #[trigger] takes_in(p, all[p], q) implies all.contains_key(q)
                    && rank2[q] < rank2[p] by {
                    if p == path {
                        assert(lines_take_in(path, lines, q));
                        assert(inner.files.contains_key(q));
                    } else {
                        assert(inner.files.contains_key(p));
                        assert(takes_in(p, inner.files[p], q));
                    }
                }
                assert forall|p: PathView| #[trigger] all.contains_key(p) implies rank2[p] < bound1
                    + 1 by {
                    if p != path {
                        assert(inner.files.contains_key(p));
                    }
                }
                assert forall|p: PathView| files.dom().contains(p) implies all.dom().contains(p)
                    && files[p] == all[p] by {
                    assert(inner.files.dom().contains(p));
                }
                lemma_added_file(reader, current, line, open, files, inner.files, path, text);
                (rank2, bound1 + 1)
            }
        },
    }
}

/// What loading returns beside the text of a feature file is what the file
/// takes in, directly or through others, and nothing else: each file is there
/// with the text that was read, each file that is taken in is there, and each
/// file that is there is taken in. The feature file itself is not among them,
/// and no file takes itself in, directly or through others.
pub proof fn loaded_files_are_those_taken_in(reader: Reader, spelling: Seq<u8>)
    requires
        load(reader, spelling) matches Ok(Some(_)),
    ensures
        ({
            let (text, files) = load(reader, spelling)->Ok_0->Some_0;
            let start = normalize(parse_path(spelling));
            &&& contents_of(reader(spelling), parse_path(spelling)) == Ok::<Seq<char>, LoadFailure>(text)
            &&& files.dom().finite()
            &&& !files.contains_key(start)
            &&& forall|p: PathView| #[trigger]
                files.contains_key(p) ==> is_normal(p) && contents_of(read_at(reader, p), p) == Ok::<
                    Seq<char>,
                    LoadFailure,
                >(files[p])
            &&& forall|q: PathView| #[trigger]
                takes_in(start, text, q) ==> files.contains_key(q)
            &&& forall|p: PathView, q: PathView|
                files.contains_key(p) && #[trigger] takes_in(p, files[p], q)
                    ==> files.contains_key(q)
            &&& forall|p: PathView| #[trigger]
                files.contains_key(p) ==> takes_in(start, text, p) || exists|q: PathView|
                    files.contains_key(q) && #[trigger] takes_in(q, files[q], p)
            &&& exists|rank: Map<PathView, nat>| #[trigger] ranked(files, rank)
        }),
{
    let (text, files) = load(reader, spelling)->Ok_0->Some_0;
    let start = normalize(parse_path(spelling));
    let (rank, bound) = lemma_collect_ranks(
        reader,
        start,
        split_lines(text),
        seq![start],
        Map::empty(),
        Map::empty(),
        0,
    );
    assert(ranked(files, rank));
    assert(seq![start][0] == start);
    assert forall|p: PathView| #[trigger] files.contains_key(p) implies is_normal(p)
        && contents_of(read_at(reader, p), p) == Ok::<Seq<char>, LoadFailure>(files[p]) && (takes_in(
        start,
        text,
        p,
    ) || exists|q: PathView| files.contains_key(q) && #[trigger] takes_in(q, files[q], p)) by {
        assert(!Map::<PathView, Seq<char>>::empty().contains_key(p));
    }
}

/// Lines that take in only files of a rank below `bound` can be expanded while
/// only files of higher ranks are open.
proof fn lemma_ranked_files_expand(
    files: Files,
    rank: Map<PathView, nat>,
    current: PathView,
    lines: Seq<Seq<char>>,
    open: Seq<PathView>,
    bound: nat,
)
    requires
        files.dom().finite(),
        ranked(files, rank),
        forall|q: PathView| #[trigger]
            lines_take_in(current, lines, q) ==> files.contains_key(q) && rank[q] < bound,
        forall|k: int|
            0 <= k < open.len() && files.contains_key(#[trigger] open[k]) ==> rank[open[k]]
                >= bound,
    ensures
        expand(files, current, lines, open).result is Ok,
    decreases bound, lines.len(),
{
    if lines.len() > 0 {
        assert forall|q: PathView| #[trigger] lines_take_in(
            current,
            lines.drop_first(),
            q,
        ) implies files.contains_key(q) && rank[q] < bound by {
            lemma_lines_take_in(current, lines, q);
            assert(lines_take_in(current, lines, q));
        }
        lemma_ranked_files_expand(files, rank, current, lines.drop_first(), open, bound);
        let first = expand_line(files, current, lines[0], open);
        if let Some(path) = taken_in(current, lines[0]) {
            assert(lines_take_in(current, lines, path));
            let inner = open.push(path);
            assert forall|k: int|
                0 <= k < inner.len() && files.contains_key(
                    #[trigger] inner[k],
                ) implies rank[inner[k]] >= rank[path] by {
                if k < open.len() {
                    assert(inner[k] == open[k]);
                }
            }
            assert forall|q: PathView| #[trigger] lines_take_in(
                path,
                split_lines(files[path]),
                q,
            ) implies files.contains_key(q) && rank[q] < rank[path] by {
                assert(takes_in(path, files[path], q));
            }
            lemma_unopened(files, open, path);
            lemma_ranked_files_expand(
                files,
                rank,
                path,
                split_lines(files[path]),
                inner,
                rank[path],
            );
        }
        assert(first.result is Ok);
    }
}

/// Features that were loaded can be expanded.
pub proof fn loaded_features_expand(reader: Reader, spelling: Seq<u8>)
    requires
        normalize(parse_path(spelling)) == features_path(),
        load(reader, spelling) matches Ok(Some(_)),
    ensures
        ({
            let (text, files) = load(reader, spelling)->Ok_0->Some_0;
            expand(files, features_path(), split_lines(text), seq![features_path()]).result is Ok
        }),
{
    let (text, files) = load(reader, spelling)->Ok_0->Some_0;
    let start = normalize(parse_path(spelling));
    let (rank, bound) = lemma_collect_ranks(
        reader,
        start,
        split_lines(text),
        seq![start],
        Map::empty(),
        Map::empty(),
        0,
    );
    loaded_files_are_those_taken_in(reader, spelling);
    lemma_ranked_files_expand(files, rank, start, split_lines(text), seq![start], bound);
}

/// The lines of a text make up the text.
pub proof fn lines_make_up_text(text: Seq<char>)
    ensures
        split_lines(text).flatten() == text,
    decreases text.len(),
{
    let lines = split_lines(text);
    if text.len() == 0 {
        assert(lines.flatten() == text);
    } else {
        let head = split_lines(text.drop_last());
        lines_make_up_text(text.drop_last());
        if text.len() > 1 {
            crate::text::lemma_lines_exist(text.drop_last());
        }
        let fresh = text.len() == 1 || text[text.len() - 2] == '\n';
        lines.lemma_flatten_and_flatten_alt_are_equivalent();
        head.lemma_flatten_and_flatten_alt_are_equivalent();
        assert(text == text.drop_last().push(text.last()));
        if fresh {
            assert(lines.drop_last() == head);
            assert(head.flatten_alt() + seq![text.last()] == text);
        } else {
            assert(lines.drop_last() == head.drop_last());
            assert(head.flatten_alt() == head.drop_last().flatten_alt() + head.last());
            assert(head.drop_last().flatten_alt() + head.last().push(text.last()) == (
            head.drop_last().flatten_alt() + head.last()).push(text.last()));
        }
    }
}

/// Lines that take in nothing expand to themselves, whatever files there are.
pub proof fn plain_lines_expand_to_themselves(
    files: Files,
    current: PathView,
    lines: Seq<Seq<char>>,
    open: Seq<PathView>,
)
    requires
        files.dom().finite(),
        forall|i: int| 0 <= i < lines.len() ==> taken_in(current, #[trigger] lines[i]) is None,
    ensures
        expand(files, current, lines, open) == (Expanded { open, result: Ok(lines.flatten()) }),
    decreases lines.len(),
{
    if lines.len() == 0 {
        assert(lines.flatten() == Seq::<char>::empty());
    } else {
        let rest = lines.drop_first();
        assert forall|i: int| 0 <= i < rest.len() implies taken_in(
            current,
            #[trigger] rest[i],
        ) is None by {
            assert(rest[i] == lines[i + 1]);
        }
        plain_lines_expand_to_themselves(files, current, rest, open);
        assert(expand_line(files, current, lines[0], open).result == Ok::<Seq<char>, LoadFailure>(
            lines[0],
        ));
        assert(lines.flatten() == lines[0] + rest.flatten());
    }
}

/// Features that take in nothing expand to themselves.
pub proof fn plain_features_expand_to_themselves(files: Files, text: Seq<char>)
    requires
        files.dom().finite(),
        forall|path: PathView| !takes_in(features_path(), text, path),
    ensures
        expand(files, features_path(), split_lines(text), seq![features_path()]).result == Ok::<
            Seq<char>,
            LoadFailure,
        >(text),
{
    let lines = split_lines(text);
    assert forall|i: int| 0 <= i < lines.len() implies taken_in(
        features_path(),
        #[trigger] lines[i],
    ) is None by {
        if let Some(path) = taken_in(features_path(), lines[i]) {
            assert(takes_in(features_path(), text, path));
        }
    }
    plain_lines_expand_to_themselves(files, features_path(), lines, seq![features_path()]);
    lines_make_up_text(text);
}

/// The given files with normalized line ends.
pub open spec fn lf_files(files: Files) -> Files {
    files.map_values(|text: Seq<char>| lf_text(text))
}

/// Collecting from a source that holds the same files with normalized line
/// ends gives the same files with normalized line ends.
proof fn lemma_collect_again(
    reader: Reader,
    again: Reader,
    current: PathView,
    lines: Seq<Seq<char>>,
    lf_lines: Seq<Seq<char>>,
    open: Seq<PathView>,
    files: Files,
    all: Files,
)
    requires
        collect(reader, current, lines, open, files).result is Ok,
        collect(reader, current, lines, open, files).files.submap_of(all),
        forall|p: PathView| #[trigger]
            all.contains_key(p) ==> contents_of(read_at(again, p), p) == Ok::<Seq<char>, LoadFailure>(
                lf_text(all[p]),
            ),
        lines.len() == lf_lines.len(),
        forall|i: int|
            0 <= i < lines.len() ==> target(#[trigger] lf_lines[i]) == target(lines[i]),
    ensures
        collect(again, current, lf_lines, open, lf_files(files)) == (Collected {
            open,
            files: lf_files(collect(reader, current, lines, open, files).files),
            result: Ok(()),
        }),
    decreases usize::MAX - open.len(), lines.len(),
{
    if lines.len() > 0 {
        let after = collect_line(reader, current, lines[0], open, files);
        let rest = lines.drop_first();
        let lf_rest = lf_lines.drop_first();
        let done = collect(reader, current, rest, open, after.files).files;
        crate::load::collect_keeps_files(reader, current, rest, open, after.files);
        vstd::map_lib::lemma_submap_of_trans(after.files, done, all);
        lemma_collect_line_again(
            reader,
            again,
            current,
            lines[0],
            lf_lines[0],
            open,
            files,
            all,
        );
        assert forall|i: int| 0 <= i < rest.len() implies target(#[trigger] lf_rest[i]) == target(
            rest[i],
        ) by {
            assert(lf_rest[i] == lf_lines[i + 1]);
        }
        lemma_collect_again(reader, again, current, rest, lf_rest, open, after.files, all);
    }
}

proof fn lemma_collect_line_again(
    reader: Reader,
    again: Reader,
    current: PathView,
    line: Seq<char>,
    lf_line: Seq<char>,
    open: Seq<PathView>,
    files: Files,
    all: Files,
)
    requires
        collect_line(reader, current, line, open, files).result is Ok,
        collect_line(reader, current, line, open, files).files.submap_of(all),
        forall|p: PathView| #[trigger]
            all.contains_key(p) ==> contents_of(read_at(again, p), p) == Ok::<Seq<char>, LoadFailure>(
                lf_text(all[p]),
            ),
        target(lf_line) == target(line),
    ensures
        collect_line(again, current, lf_line, open, lf_files(files)) == (Collected {
            open,
            files: lf_files(collect_line(reader, current, line, open, files).files),
            result: Ok(()),
        }),
    decreases usize::MAX - open.len(), 0nat,
{
    if let Some(path) = taken_in(current, line) {
        if !files.contains_key(path) {
            let text = contents_of(read_at(reader, path), path)->Ok_0;
            let lines = split_lines(text);
            let inner = collect(reader, path, lines, open.push(path), files);
            let here = inner.files.insert(path, text);
            assert(here == collect_line(reader, current, line, open, files).files);
            assert(here.dom().contains(path) && all.dom().contains(path));
            assert(here[path] == all[path]);
            assert(open.push(path)[open.len() as int] == path);
            lemma_open_is_not_collected(reader, path, lines, open.push(path), files, path);
            assert forall|p: PathView| #[trigger]
                inner.files.dom().contains(p) implies #[trigger] all.dom().contains(p)
                && inner.files[p] == all[p] by {
                assert(here.dom().contains(p));
                assert(all.dom().contains(p));
            }
            assert(inner.files.submap_of(all));
            lf_text_keeps_targets(text);
            lemma_collect_again(
                reader,
                again,
                path,
                lines,
                split_lines(lf_text(text)),
                open.push(path),
                files,
                all,
            );
            assert(lf_files(here) == lf_files(inner.files).insert(path, lf_text(text)));
        }
    }
}

/// Collecting does not add a file that is open.
proof fn lemma_open_is_not_collected(
    reader: Reader,
    current: PathView,
    lines: Seq<Seq<char>>,
    open: Seq<PathView>,
    files: Files,
    path: PathView,
)
    requires
        open.contains(path),
        !files.contains_key(path),
    ensures
        !collect(reader, current, lines, open, files).files.contains_key(path),
    decreases usize::MAX - open.len(), lines.len(),
{
    if lines.len() > 0 {
        let after = collect_line(reader, current, lines[0], open, files);
        if let Some(next) = taken_in(current, lines[0]) {
            if !open.contains(next) && !files.contains_key(next) && open.len() < usize::MAX {
                if let Ok(text) = contents_of(read_at(reader, next), next) {
                    let k = choose|k: int| 0 <= k < open.len() && open[k] == path;
                    assert(open.push(next)[k] == path);
                    lemma_open_is_not_collected(
                        reader,
                        next,
                        split_lines(text),
                        open.push(next),
                        files,
                        path,
                    );
                }
            }
        }
        assert(!after.files.contains_key(path));
        if after.result is Ok {
            lemma_open_is_not_collected(
                reader,
                current,
                lines.drop_first(),
                open,
                after.files,
                path,
            );
        }
    }
}

/// Features that were loaded, written with normalized line ends, load again:
/// as they were, but for their line ends.
pub proof fn normalized_features_load_again(reader: Reader, again: Reader, spelling: Seq<u8>)
    requires
        load(reader, spelling) matches Ok(Some(_)),
        ({
            let (text, files) = load(reader, spelling)->Ok_0->Some_0;
            &&& contents_of(again(spelling), parse_path(spelling)) == Ok::<Seq<char>, LoadFailure>(lf_text(text))
            &&& forall|p: PathView| #[trigger]
                files.contains_key(p) ==> contents_of(read_at(again, p), p) == Ok::<Seq<char>, LoadFailure>(
                    lf_text(files[p]),
                )
        }),
    ensures
        ({
            let (text, files) = load(reader, spelling)->Ok_0->Some_0;
            load(again, spelling) == Ok::<Option<(Seq<char>, Files)>, LoadFailure>(
                Some((lf_text(text), lf_files(files))),
            )
        }),
{
    let (text, files) = load(reader, spelling)->Ok_0->Some_0;
    let start = normalize(parse_path(spelling));
    lf_text_keeps_targets(text);
    lemma_collect_again(
        reader,
        again,
        start,
        split_lines(text),
        split_lines(lf_text(text)),
        seq![start],
        Map::empty(),
        files,
    );
    assert(lf_files(Map::empty()) == Map::<PathView, Seq<char>>::empty());
}

/// Expanding fails only for a file that is open already or for a file that is
/// not there.
pub proof fn expanding_fails_for_open_or_missing_files(
    files: Files,
    current: PathView,
    lines: Seq<Seq<char>>,
    open: Seq<PathView>,
)
    requires
        files.dom().finite(),
    ensures
        match expand(files, current, lines, open).result {
            Ok(_) => true,
            Err(LoadFailure::Cycle(path)) => expand(files, current, lines, open).open.contains(path),
            Err(LoadFailure::Missing(path)) => !files.contains_key(path),
            Err(_) => false,
        },
    decreases crate::expand::unopened(files, open), lines.len(),
{
    if lines.len() > 0 {
        let first = expand_line(files, current, lines[0], open);
        if let Some(path) = taken_in(current, lines[0]) {
            if !open.contains(path) && files.contains_key(path) {
                lemma_unopened(files, open, path);
                expanding_fails_for_open_or_missing_files(
                    files,
                    path,
                    split_lines(files[path]),
                    open.push(path),
                );
            }
        }
        if first.result is Ok {
            expanding_fails_for_open_or_missing_files(files, current, lines.drop_first(), open);
        }
    }
}

/// A file takes in only files at absolute paths and files below its own
/// directory, whatever the dots in their names.
pub proof fn named_files_lie_below(current: PathView, line: Seq<char>)
    requires
        is_normal(current),
        taken_in(current, line) is Some,
    ensures
        ({
            let named = target(line)->Some_0;
            taken_in(current, line)->Some_0 == if is_absolute(named) {
                named
            } else {
                directory(current) + named
            }
        }),
{
    let named = target(line)->Some_0;
    let base = directory(current);
    let name = named_file(trim(line, TrimSet::WhiteSpace))->Some_0;
    normalized_is_normal(text_path(name));
    assert(is_normal(named));
    normal_is_kept(named);
    if !is_absolute(named) {
        let joined = join(base, named);
        if named.len() > 0 {
            assert(named[0] is Normal);
        }
        assert(joined == base + named);
        assert forall|i: int| 0 <= i < joined.len() implies ((#[trigger] joined[i]) is Normal || (i
            == 0 && joined[i] is RootDir)) by {
            if i < base.len() {
                assert(joined[i] == current[i]);
            } else {
                assert(joined[i] == named[i - base.len()]);
            }
        }
        normal_is_kept(joined);
    }
}

/// Files without a carriage return before a line feed are kept as they are.
pub proof fn lf_files_are_kept(files: Files)
    requires
        forall|p: PathView| #[trigger] files.contains_key(p) ==> !has_crlf(files[p]),
    ensures
        lf_files(files) == files,
{
    assert forall|p: PathView| files.contains_key(p) implies lf_files(files)[p] == files[p] by {
        lf_text_is_kept(files[p]);
    }
    assert(lf_files(files) =~= files);
}

/// The text of the file at position `i` of a chain of files: the first has the
/// given text, and the others are read at their paths.
pub open spec fn text_in_chain(
    reader: Reader,
    text: Seq<char>,
    chain: Seq<PathView>,
    i: int,
) -> Result<Seq<char>, LoadFailure> {
    if i == 0 {
        Ok(text)
    } else {
        contents_of(read_at(reader, chain[i]), chain[i])
    }
}

/// Whether the file at position `i` of a chain of files takes in `other`.
pub open spec fn member_takes_in(
    reader: Reader,
    text: Seq<char>,
    chain: Seq<PathView>,
    i: int,
    other: PathView,
) -> bool {
    text_in_chain(reader, text, chain, i) matches Ok(own) && takes_in(chain[i], own, other)
}

/// Whether each file of a chain takes in the next one.
pub open spec fn linked(reader: Reader, text: Seq<char>, chain: Seq<PathView>) -> bool {
    forall|i: int|
        #![trigger chain[i]]
        0 <= i < chain.len() - 1 ==> member_takes_in(reader, text, chain, i, chain[i + 1])
}

/// Whether `failure` is found in the files: the last of the chain takes in a
/// file that is in the chain already, does not exist, cannot be read or is not
/// UTF-8.
pub open spec fn is_found(
    reader: Reader,
    text: Seq<char>,
    chain: Seq<PathView>,
    failure: LoadFailure,
) -> bool {
    match failure {
        LoadFailure::TooDeep => chain.len() >= usize::MAX,
        _ => exists|path: PathView|
            {
                &&& #[trigger] member_takes_in(reader, text, chain, chain.len() - 1, path)
                &&& match failure {
                    LoadFailure::Cycle(at) => at == path && chain.contains(path),
                    _ => contents_of(read_at(reader, path), path) == Err::<Seq<char>, LoadFailure>(failure),
                }
            },
    }
}

proof fn lemma_failure_is_found(
    reader: Reader,
    text: Seq<char>,
    lines: Seq<Seq<char>>,
    open: Seq<PathView>,
    files: Files,
)
    requires
        open.len() > 0,
        linked(reader, text, open),
        forall|path: PathView| #[trigger]
            lines_take_in(open.last(), lines, path) ==> member_takes_in(
                reader,
                text,
                open,
                open.len() - 1,
                path,
            ),
    ensures
        ({
            let out = collect(reader, open.last(), lines, open, files);
            out.result matches Err(failure) ==> linked(reader, text, out.open) && is_found(
                reader,
                text,
                out.open,
                failure,
            ) && out.open.len() > 0 && out.open[0] == open[0]
        }),
    decreases usize::MAX - open.len(), lines.len(),
{
    if lines.len() > 0 {
        let current = open.last();
        let after = collect_line(reader, current, lines[0], open, files);
        if let Some(path) = taken_in(current, lines[0]) {
            assert(lines_take_in(current, lines, path));
            assert(member_takes_in(reader, text, open, open.len() - 1, path));
            if !open.contains(path) && !files.contains_key(path) && open.len() < usize::MAX {
                if let Ok(own) = contents_of(read_at(reader, path), path) {
                    let inner = open.push(path);
                    assert forall|i: int|
                        #![trigger inner[i]]
                        0 <= i < inner.len() - 1 implies member_takes_in(
                        reader,
                        text,
                        inner,
                        i,
                        inner[i + 1],
                    ) by {
                        assert(inner[i] == open[i]);
                        if i + 1 < open.len() {
                            assert(inner[i + 1] == open[i + 1]);
                        }
                    }
                    assert forall|q: PathView| #[trigger] lines_take_in(
                        path,
                        split_lines(own),
                        q,
                    ) implies member_takes_in(reader, text, inner, inner.len() - 1, q) by {
                        assert(takes_in(path, own, q));
                    }
                    lemma_failure_is_found(reader, text, split_lines(own), inner, files);
                    assert(inner[0] == open[0]);
                }
            }
        }
        if after.result is Ok {
            assert forall|q: PathView| #[trigger] lines_take_in(
                current,
                lines.drop_first(),
                q,
            ) implies member_takes_in(reader, text, open, open.len() - 1, q) by {
                lemma_lines_take_in(current, lines, q);
                assert(lines_take_in(current, lines, q));
            }
            lemma_failure_is_found(reader, text, lines.drop_first(), open, after.files);
        }
    }
}

/// Where loading fails, the failure is found in the files: the feature file
/// itself cannot be read or is not UTF-8; or a chain of files, each taking in
/// the next, leads from it to one that takes in a file which is in the chain
/// already, does not exist, cannot be read or is not UTF-8.
pub proof fn load_failures_are_found(reader: Reader, spelling: Seq<u8>) -> (chain: Seq<PathView>)
    requires
        load(reader, spelling) is Err,
    ensures
        match contents_of(reader(spelling), parse_path(spelling)) {
            Err(failure) => load(reader, spelling)->Err_0 == failure,
            Ok(text) => {
                &&& chain.len() > 0
                &&& chain[0] == normalize(parse_path(spelling))
                &&& linked(reader, text, chain)
                &&& is_found(reader, text, chain, load(reader, spelling)->Err_0)
            },
        },
{
    let start = normalize(parse_path(spelling));
    match contents_of(reader(spelling), parse_path(spelling)) {
        Err(_) => seq![start],
        Ok(text) => {
            let lines = split_lines(text);
            let first = seq![start];
            assert forall|q: PathView| #[trigger] lines_take_in(
                start,
                lines,
                q,
            ) implies member_takes_in(reader, text, first, 0, q) by {
                assert(takes_in(start, text, q));
            }
            lemma_failure_is_found(reader, text, lines, first, Map::empty());
            collect(reader, start, lines, first, Map::empty()).open
        },
    }
}

/// Whether collecting has nothing to do: each file that the lines take in is
/// there, and none of them is open.
spec fn all_there(
    current: PathView,
    lines: Seq<Seq<char>>,
    open: Seq<PathView>,
    files: Files,
) -> bool {
    forall|path: PathView| #[trigger]
        lines_take_in(current, lines, path) ==> files.contains_key(path) && !open.contains(path)
}

proof fn lemma_collected_is_there(
    reader: Reader,
    current: PathView,
    lines: Seq<Seq<char>>,
    open: Seq<PathView>,
    files: Files,
)
    requires
        collect(reader, current, lines, open, files).result is Ok,
    ensures
        all_there(current, lines, open, collect(reader, current, lines, open, files).files),
    decreases lines.len(),
{
    let all = collect(reader, current, lines, open, files).files;
    if lines.len() > 0 {
        let after = collect_line(reader, current, lines[0], open, files);
        lemma_collected_is_there(reader, current, lines.drop_first(), open, after.files);
        collect_keeps_files(reader, current, lines.drop_first(), open, after.files);
        assert forall|path: PathView| #[trigger] lines_take_in(
            current,
            lines,
            path,
        ) implies all.contains_key(path) && !open.contains(path) by {
            lemma_lines_take_in(current, lines, path);
            if taken_in(current, lines[0]) == Some(path) {
                assert(after.files.dom().contains(path));
                assert(all.dom().contains(path));
            }
        }
    }
}

proof fn lemma_nothing_to_collect(
    reader: Reader,
    current: PathView,
    lines: Seq<Seq<char>>,
    open: Seq<PathView>,
    files: Files,
)
    requires
        all_there(current, lines, open, files),
    ensures
        collect(reader, current, lines, open, files) == (Collected {
            open,
            files,
            result: Ok(()),
        }),
    decreases lines.len(),
{
    if lines.len() > 0 {
        assert forall|path: PathView| #[trigger] lines_take_in(
            current,
            lines.drop_first(),
            path,
        ) implies files.contains_key(path) && !open.contains(path) by {
            lemma_lines_take_in(current, lines, path);
            assert(lines_take_in(current, lines, path));
        }
        if let Some(path) = taken_in(current, lines[0]) {
            assert(lines_take_in(current, lines, path));
        }
        assert(collect_line(reader, current, lines[0], open, files) == (Collected {
            open,
            files,
            result: Ok(()),
        }));
        lemma_nothing_to_collect(reader, current, lines.drop_first(), open, files);
    }
}

/// Collecting a second time, with what the first time collected, leaves the open
/// files and the collected ones as they are, whatever the source answers now.
pub proof fn collecting_again_changes_nothing(
    reader: Reader,
    again: Reader,
    current: PathView,
    lines: Seq<Seq<char>>,
    open: Seq<PathView>,
    files: Files,
)
    requires
        collect(reader, current, lines, open, files).result is Ok,
    ensures
        ({
            let all = collect(reader, current, lines, open, files).files;
            collect(again, current, lines, open, all) == (Collected {
                open,
                files: all,
                result: Ok(()),
            })
        }),
{
    let all = collect(reader, current, lines, open, files).files;
    lemma_collected_is_there(reader, current, lines, open, files);
    lemma_nothing_to_collect(again, current, lines, open, all);
}

/// No answer of the source accounts for collecting a second time: it succeeds
/// and changes nothing without asking.
pub proof fn collecting_again_needs_no_answer<S: FontSource>(
    source: &S,
    log: ReadLog,
    outcome: Collected,
    reader: Reader,
    current: PathView,
    lines: Seq<Seq<char>>,
    open: Seq<PathView>,
    files: Files,
)
    requires
        collect(reader, current, lines, open, files).result is Ok,
        accounts(
            source,
            log,
            current,
            lines,
            open,
            collect(reader, current, lines, open, files).files,
            outcome,
        ),
    ensures
        log == Map::<PathView, Answer>::empty(),
        outcome == (Collected {
            open,
            files: collect(reader, current, lines, open, files).files,
            result: Ok(()),
        }),
{
    let again: Reader = |spelling: Seq<u8>| log[parse_path(spelling)];
    lemma_some_reader(log);
    collecting_again_changes_nothing(reader, again, current, lines, open, files);
    assert(log =~= Map::<PathView, Answer>::empty());
}

} // verus!
