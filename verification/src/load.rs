//! Loading a feature file and all the files that it takes in.

use crate::decode::{decode, decoded};
use crate::directive::{parse_include_target, target};
use crate::error::{FontLoadError, LoadFailure};
use crate::ordered_map::OrderedMap;
use crate::path::{
    is_normal, is_path, join_normal, join_virtual_path, normalize, normalize_virtual_path,
    normalized_is_normal, parent, parse_path, path_text, text_names_path, PathView, VirtualPath,
};
use crate::source::{
    agrees, answer_of, answers_as, gave, read_at, Answer, FontSource, ReadLog, Reader,
};
use crate::text::{lines_of, split_lines, texts};
use vstd::prelude::*;

verus! {

broadcast use vstd::seq::group_seq_axioms;

/// The texts of a font's feature files by their paths.
pub type Files = Map<PathView, Seq<char>>;

/// The texts of the given files.
pub open spec fn file_texts(files: Map<PathView, String>) -> Files {
    files.map_values(|s: String| s@)
}

/// The given paths.
pub open spec fn paths(paths: Seq<VirtualPath>) -> Seq<PathView> {
    paths.map_values(|p: VirtualPath| p@)
}

/// The directory from which a file takes in others.
pub open spec fn directory(path: PathView) -> PathView {
    match parent(path) {
        Some(up) => up,
        None => Seq::empty(),
    }
}

/// The path that a line of the file at `current` takes in, if it takes in one.
pub open spec fn taken_in(current: PathView, line: Seq<char>) -> Option<PathView> {
    match target(line) {
        Some(path) => Some(join_normal(directory(current), path)),
        None => None,
    }
}

/// The text of a file, or why it cannot be had.
pub open spec fn contents_of(answer: Answer, path: PathView) -> Result<Seq<char>, LoadFailure> {
    match answer {
        Answer::Absent => Err(LoadFailure::Missing(path)),
        Answer::Failed(error) => Err(LoadFailure::FeatureFile(error)),
        Answer::Data(bytes) => match decoded(bytes) {
            Ok(text) => Ok(text),
            Err(error) => Err(LoadFailure::FeatureFile(error)),
        },
    }
}

/// Where collecting files has led.
#[verifier::ext_equal]
pub struct Collected {
    /// The files that are open within each other, the outermost first.
    pub open: Seq<PathView>,
    /// The files that have been taken in whole.
    pub files: Files,
    /// Whether it failed.
    pub result: Result<(), LoadFailure>,
}

/// Collects the files that the remaining `lines` of the file at `current` take
/// in, in the order of the lines and each with what it takes in itself. A file
/// that is already there is not read again. The first failure ends it.
pub open spec fn collect(
    reader: Reader,
    current: PathView,
    lines: Seq<Seq<char>>,
    open: Seq<PathView>,
    files: Files,
) -> Collected
    decreases usize::MAX - open.len(), lines.len(),
{
    if lines.len() == 0 {
        Collected { open, files, result: Ok(()) }
    } else {
        let after = collect_line(reader, current, lines[0], open, files);
        match after.result {
            Ok(()) => collect(reader, current, lines.drop_first(), open, after.files),
            Err(_) => after,
        }
    }
}

/// Collects the file that one line of the file at `current` takes in.
pub open spec fn collect_line(
    reader: Reader,
    current: PathView,
    line: Seq<char>,
    open: Seq<PathView>,
    files: Files,
) -> Collected
    decreases usize::MAX - open.len(), 0nat,
{
    match taken_in(current, line) {
        None => Collected { open, files, result: Ok(()) },
        Some(path) => if open.contains(path) {
            Collected { open, files, result: Err(LoadFailure::Cycle(path)) }
        } else if files.contains_key(path) {
            Collected { open, files, result: Ok(()) }
        } else {
            match contents_of(read_at(reader, path), path) {
                Err(failure) => Collected { open, files, result: Err(failure) },
                Ok(text) => if open.len() >= usize::MAX {
                    Collected { open, files, result: Err(LoadFailure::TooDeep) }
                } else {
                    let inner = collect(reader, path, split_lines(text), open.push(path), files);
                    match inner.result {
                        Ok(()) => Collected {
                            open,
                            files: inner.files.insert(path, text),
                            result: Ok(()),
                        },
                        Err(_) => inner,
                    }
                },
            }
        },
    }
}

/// What loading the feature file at the path with the given spelling gives:
/// `None` where there is no such file, and otherwise its text and the files that
/// it takes in.
pub open spec fn load(reader: Reader, spelling: Seq<u8>) -> Result<
    Option<(Seq<char>, Files)>,
    LoadFailure,
> {
    match reader(spelling) {
        Answer::Absent => Ok(None),
        answer => match contents_of(answer, parse_path(spelling)) {
            Err(failure) => Err(failure),
            Ok(text) => {
                let start = normalize(parse_path(spelling));
                let all = collect(reader, start, split_lines(text), seq![start], Map::empty());
                match all.result {
                    Ok(()) => Ok(Some((text, all.files))),
                    Err(failure) => Err(failure),
                }
            },
        },
    }
}

/// Whether `log` accounts for what collecting gave: `source` gave these
/// answers, each to a path in normal form that was neither open nor there, and
/// whoever answers alike makes it come to `outcome`. Where it succeeded, they
/// are the answers for the files that it added.
pub open spec fn accounts<S: FontSource>(
    source: &S,
    log: ReadLog,
    current: PathView,
    lines: Seq<Seq<char>>,
    open: Seq<PathView>,
    files: Files,
    outcome: Collected,
) -> bool {
    &&& gave(source, log)
    &&& forall|path: PathView| #[trigger]
        log.contains_key(path) ==> is_path(path) && is_normal(path) && !open.contains(path)
            && !files.contains_key(path)
    &&& outcome.result is Ok ==> forall|path: PathView|
        #![trigger log.contains_key(path)]
        #![trigger outcome.files.contains_key(path)]
        log.contains_key(path) <==> outcome.files.contains_key(path) && !files.contains_key(path)
    &&& forall|reader: Reader| #[trigger]
        agrees(reader, log) ==> collect(reader, current, lines, open, files) == outcome
}

/// The text of a file that was read.
fn read_contents(
    read: Option<Result<Vec<u8>, std::io::Error>>,
    path: &VirtualPath,
) -> (res: Result<String, FontLoadError>)
    ensures
        match res {
            Ok(text) => contents_of(answer_of(read), path@) == Ok::<Seq<char>, LoadFailure>(text@),
            Err(error) => contents_of(answer_of(read), path@) == Err::<Seq<char>, LoadFailure>(
                error@,
            ) && (path.is_short() ==> error.is_short()),
        },
{
    match read {
        None => Err(FontLoadError::MissingIncludedFeatureFile { path: path.clone() }),
        Some(Err(error)) => Err(FontLoadError::FeatureFile(error)),
        Some(Ok(data)) => match decode(data) {
            Ok(text) => Ok(text),
            Err(error) => Err(FontLoadError::FeatureFile(error)),
        },
    }
}

/// Whether `path` is one of `all`.
pub(crate) fn contains_path(all: &Vec<VirtualPath>, path: &VirtualPath) -> (res: bool)
    ensures
        res == paths(all@).contains(path@),
{
    let mut i: usize = 0;
    while i < all.len()
        invariant
            i <= all@.len(),
            forall|j: int| 0 <= j < i ==> #[trigger] paths(all@)[j] != path@,
        decreases all@.len() - i,
    {
        if all[i] == *path {
            assert(paths(all@)[i as int] == path@);
            return true;
        }
        i += 1;
    }
    false
}

/// The directory from which the file at `path` takes in others.
pub(crate) fn directory_of(path: &VirtualPath) -> (res: VirtualPath)
    ensures
        res@ == directory(path@),
{
    match path.parent() {
        Some(up) => up,
        None => {
            proof {
                reveal_strlit("");
                assert(""@ == Seq::<char>::empty());
                text_names_path(Seq::empty());
            }
            VirtualPath::new("")
        },
    }
}

/// What collecting has led to, as seen in the values that it changed.
pub open spec fn collected(
    open: Seq<VirtualPath>,
    files: Map<PathView, String>,
    res: Result<(), FontLoadError>,
) -> Collected {
    Collected {
        open: paths(open),
        files: file_texts(files),
        result: match res {
            Ok(()) => Ok(()),
            Err(error) => Err(error@),
        },
    }
}

/// Collecting keeps the files that are there, and leaves the open files as they
/// were where it succeeds.
pub proof fn collect_keeps_files(
    reader: Reader,
    current: PathView,
    lines: Seq<Seq<char>>,
    open: Seq<PathView>,
    files: Files,
)
    ensures
        files.submap_of(collect(reader, current, lines, open, files).files),
        collect(reader, current, lines, open, files).result is Ok ==> collect(
            reader,
            current,
            lines,
            open,
            files,
        ).open == open,
    decreases usize::MAX - open.len(), lines.len(),
{
    if lines.len() > 0 {
        collect_line_keeps_files(reader, current, lines[0], open, files);
        let after = collect_line(reader, current, lines[0], open, files);
        if after.result is Ok {
            collect_keeps_files(reader, current, lines.drop_first(), open, after.files);
            vstd::map_lib::lemma_submap_of_trans(
                files,
                after.files,
                collect(reader, current, lines, open, files).files,
            );
        }
    }
}

proof fn collect_line_keeps_files(
    reader: Reader,
    current: PathView,
    line: Seq<char>,
    open: Seq<PathView>,
    files: Files,
)
    ensures
        files.submap_of(collect_line(reader, current, line, open, files).files),
        collect_line(reader, current, line, open, files).result is Ok ==> collect_line(
            reader,
            current,
            line,
            open,
            files,
        ).open == open,
    decreases usize::MAX - open.len(), 0nat,
{
    if let Some(path) = taken_in(current, line) {
        if !open.contains(path) && !files.contains_key(path) && open.len() < usize::MAX {
            if let Ok(text) = contents_of(read_at(reader, path), path) {
                collect_keeps_files(reader, path, split_lines(text), open.push(path), files);
            }
        }
    }
}

/// A source that can answer in one way only agrees with all that it gave.
proof fn lemma_settled<S: FontSource>(source: &S, log: ReadLog)
    requires
        gave(source, log),
    ensures
        forall|reader: Reader| #[trigger] answers_as(source, reader) ==> agrees(reader, log),
{
    assert forall|reader: Reader| #[trigger] answers_as(source, reader) implies agrees(
        reader,
        log,
    ) by {
        assert forall|path: PathView| #[trigger] log.contains_key(path) implies read_at(
            reader,
            path,
        ) == log[path] by {
            assert(source.may_answer(path_text(path), log[path]));
        }
    }
}

/// Whether the first of `lines` makes collecting come to `outcome`, a failure,
/// for whoever answers as `log` says.
spec fn fails_in(
    log: ReadLog,
    current: PathView,
    lines: Seq<Seq<char>>,
    open: Seq<PathView>,
    files: Files,
    outcome: Collected,
) -> bool {
    &&& lines.len() > 0
    &&& outcome.result is Err
    &&& forall|reader: Reader| #[trigger]
        agrees(reader, log) ==> collect_line(reader, current, lines[0], open, files) == outcome
}

/// A failure in the first of the remaining lines is what collecting comes to.
proof fn lemma_fails_in<S: FontSource>(
    source: &S,
    log: ReadLog,
    current: PathView,
    all: Seq<Seq<char>>,
    open: Seq<PathView>,
    files: Files,
    rest: Seq<Seq<char>>,
    here: Files,
    outcome: Collected,
)
    requires
        gave(source, log),
        forall|path: PathView| #[trigger]
            log.contains_key(path) ==> is_path(path) && is_normal(path) && !open.contains(path)
                && !files.contains_key(path),
        forall|reader: Reader| #[trigger]
            agrees(reader, log) ==> collect(reader, current, all, open, files) == collect(
                reader,
                current,
                rest,
                open,
                here,
            ),
        fails_in(log, current, rest, open, here, outcome),
    ensures
        accounts(source, log, current, all, open, files, outcome),
        forall|reader: Reader| #[trigger]
            answers_as(source, reader) ==> outcome == collect(reader, current, all, open, files),
{
    assert forall|reader: Reader| #[trigger] agrees(reader, log) implies collect(
        reader,
        current,
        all,
        open,
        files,
    ) == outcome by {
        assert(collect_line(reader, current, rest[0], open, here) == outcome);
    }
    lemma_settled(source, log);
}

/// Some reader answers as a log says.
pub proof fn lemma_some_reader(log: ReadLog)
    requires
        forall|path: PathView| #[trigger] log.contains_key(path) ==> is_path(path),
    ensures
        agrees(|spelling: Seq<u8>| log[parse_path(spelling)], log),
{
    let reader: Reader = |spelling: Seq<u8>| log[parse_path(spelling)];
    assert forall|path: PathView| #[trigger] log.contains_key(path) implies read_at(reader, path)
        == log[path] by {
        text_names_path(path);
    }
}

/// A path that is taken in is in normal form.
pub proof fn lemma_taken_in_is_normal(current: PathView, line: Seq<char>)
    ensures
        taken_in(current, line) matches Some(path) ==> is_normal(path),
{
    if let Some(path) = target(line) {
        normalized_is_normal(path);
        normalized_is_normal(crate::path::join(directory(current), path));
    }
}

/// Whether the keys of `before` are kept, and the others are spelled in the
/// shortest way.
pub open spec fn adds_short_keys(
    before: OrderedMap<VirtualPath, String>,
    after: OrderedMap<VirtualPath, String>,
) -> bool {
    forall|path: PathView| #[trigger]
        after@.contains_key(path) ==> if before@.contains_key(path) {
            after.keys()[path] == before.keys()[path]
        } else {
            after.keys()[path].spelling() == path_text(path)
        }
}

/// Adding twice is adding.
proof fn lemma_adds_twice(
    before: OrderedMap<VirtualPath, String>,
    between: OrderedMap<VirtualPath, String>,
    after: OrderedMap<VirtualPath, String>,
)
    requires
        adds_short_keys(before, between),
        adds_short_keys(between, after),
        file_texts(before@).submap_of(file_texts(between@)),
    ensures
        adds_short_keys(before, after),
{
    assert forall|path: PathView| #[trigger] after@.contains_key(path) implies if before@.contains_key(
        path,
    ) {
        after.keys()[path] == before.keys()[path]
    } else {
        after.keys()[path].spelling() == path_text(path)
    } by {
        assert(file_texts(before@).dom().contains(path) ==> file_texts(between@).dom().contains(
            path,
        ));
        assert(between@.contains_key(path) || !before@.contains_key(path));
    }
}

/// Collects the files that the file at `current_path` with the given contents
/// takes in, directly or through others. `stack` holds the files that are open
/// within each other.
pub fn collect_feature_includes<S: FontSource>(
    source: &S,
    current_path: &VirtualPath,
    contents: &str,
    stack: &mut Vec<VirtualPath>,
    included_files: &mut OrderedMap<VirtualPath, String>,
) -> (res: Result<(), FontLoadError>)
    ensures
        exists|log: ReadLog| #[trigger]
            accounts(
                source,
                log,
                current_path@,
                split_lines(contents@),
                paths(old(stack)@),
                file_texts(old(included_files)@),
                collected(final(stack)@, final(included_files)@, res),
            ),
        forall|reader: Reader| #[trigger]
            answers_as(source, reader) ==> collected(final(stack)@, final(included_files)@, res)
                == collect(
                reader,
                current_path@,
                split_lines(contents@),
                paths(old(stack)@),
                file_texts(old(included_files)@),
            ),
        adds_short_keys(*old(included_files), *final(included_files)),
        res matches Err(error) ==> error.is_short(),
    decreases usize::MAX - old(stack)@.len(),
{
    let lines = lines_of(contents);
    let ghost current = current_path@;
    let ghost all = split_lines(contents@);
    let ghost open = paths(stack@);
    let ghost files = file_texts(included_files@);
    let ghost mut log: ReadLog = Map::empty();
    let base = directory_of(current_path);
    let mut i: usize = 0;
    assert(all.skip(0) == all);
    while i < lines.len()
        invariant
            current == current_path@,
            base@ == directory(current),
            all == split_lines(contents@),
            texts(lines@) == all,
            i <= lines@.len(),
            open == paths(old(stack)@),
            files == file_texts(old(included_files)@),
            paths(stack@) == open,
            gave(source, log),
            files.submap_of(file_texts(included_files@)),
            forall|path: PathView| #[trigger]
                log.contains_key(path) ==> is_path(path) && is_normal(path) && !open.contains(path),
            adds_short_keys(*old(included_files), *included_files),
            forall|path: PathView|
                #![trigger log.contains_key(path)]
                #![trigger included_files@.contains_key(path)]
                log.contains_key(path) <==> included_files@.contains_key(path)
                    && !files.contains_key(path),
            forall|reader: Reader| #[trigger]
                agrees(reader, log) ==> collect(reader, current, all, open, files) == collect(
                    reader,
                    current,
                    all.skip(i as int),
                    open,
                    file_texts(included_files@),
                ),
        decreases lines@.len() - i,
    {
        let ghost here = file_texts(included_files@);
        let ghost here_files = *included_files;
        let ghost rest = all.skip(i as int);
        assert(rest[0] == lines@[i as int]@) by {
            assert(texts(lines@)[i as int] == lines@[i as int]@);
        }
        assert(rest.drop_first() == all.skip(i + 1));
        if let Some(include_target) = parse_include_target(lines[i].as_str()) {
            let include_path = join_virtual_path(&base, &include_target);
            let ghost path = include_path@;
            proof {
                lemma_taken_in_is_normal(current, rest[0]);
                assert(taken_in(current, rest[0]) == Some(path));
            }
            if contains_path(stack, &include_path) {
                let res = Err(FontLoadError::FeatureIncludeCycle { path: include_path });
                proof {
                    let outcome = collected(stack@, included_files@, res);
                    assert(fails_in(log, current, rest, open, here, outcome));
                    lemma_fails_in(source, log, current, all, open, files, rest, here, outcome);
                }
                return res;
            }
            if !included_files.contains_key(&include_path) {
                let ghost asked = log;
                let read = source.try_read(&include_path);
                let ghost answer = answer_of(read);
                proof {
                    log = log.insert(path, answer);
                    assert(!here.contains_key(path));
                    assert(!files.dom().contains(path));
                    assert forall|p: PathView| #[trigger] log.contains_key(p) implies is_path(p)
                        && is_normal(p) && !open.contains(p) && !files.contains_key(p)
                        && source.may_answer(path_text(p), log[p]) by {
                        if p != path {
                            assert(asked.contains_key(p));
                        }
                    }
                    assert forall|reader: Reader| #[trigger] agrees(reader, log) implies agrees(
                        reader,
                        asked,
                    ) && read_at(reader, path) == answer by {
                        assert(log.contains_key(path));
                        assert forall|p: PathView| #[trigger] asked.contains_key(p) implies read_at(
                            reader,
                            p,
                        ) == asked[p] by {
                            assert(log.contains_key(p));
                        }
                    }
                }
                let include_contents = match read_contents(read, &include_path) {
                    Ok(text) => text,
                    Err(error) => {
                        let res = Err(error);
                        proof {
                            let outcome = collected(stack@, included_files@, res);
                            assert(fails_in(log, current, rest, open, here, outcome));
                            lemma_fails_in(source, log, current, all, open, files, rest, here, outcome);
                        }
                        return res;
                    },
                };
                let ghost text = include_contents@;
                stack.push(include_path.clone());
                assert(stack.len() <= usize::MAX);
                assert(paths(stack@) == open.push(path));
                let nested = collect_feature_includes(
                    source,
                    &include_path,
                    include_contents.as_str(),
                    stack,
                    included_files,
                );
                let ghost outcome = collected(stack@, included_files@, nested);
                let ghost inner_log = choose|inner_log: ReadLog| #[trigger]
                    accounts(
                        source,
                        inner_log,
                        path,
                        split_lines(text),
                        open.push(path),
                        here,
                        outcome,
                    );
                let ghost outer_log = log;
                proof {
                    lemma_adds_twice(*old(included_files), here_files, *included_files);
                    log = log.union_prefer_right(inner_log);
                    assert(open.push(path)[open.len() as int] == path);
                    assert forall|reader: Reader| #[trigger] agrees(reader, log) implies agrees(
                        reader,
                        asked,
                    ) && read_at(reader, path) == answer && agrees(reader, inner_log) by {
                        assert forall|p: PathView| #[trigger]
                            inner_log.contains_key(p) implies read_at(reader, p)
                            == inner_log[p] by {
                            assert(log.contains_key(p));
                        }
                        assert forall|p: PathView| #[trigger]
                            outer_log.contains_key(p) implies read_at(reader, p)
                            == outer_log[p] by {
                            assert(log.contains_key(p));
                            assert(!inner_log.contains_key(p));
                        }
                        assert(agrees(reader, outer_log));
                    }
                    assert forall|p: PathView| #[trigger] log.contains_key(p) implies is_path(p)
                        && is_normal(p) && !open.contains(p) && !files.contains_key(p)
                        && source.may_answer(path_text(p), log[p]) by {
                        if inner_log.contains_key(p) {
                            if open.contains(p) {
                                let k = choose|k: int| 0 <= k < open.len() && open[k] == p;
                                assert(open.push(path)[k] == p);
                            }
                            assert(files.dom().contains(p) ==> here.dom().contains(p));
                        } else {
                            assert(outer_log.contains_key(p));
                        }
                    }
                    let some_reader: Reader = |spelling: Seq<u8>| inner_log[parse_path(spelling)];
                    lemma_some_reader(inner_log);
                    collect_keeps_files(
                        some_reader,
                        path,
                        split_lines(text),
                        open.push(path),
                        here,
                    );
                }
                match nested {
                    Ok(()) => {},
                    Err(error) => {
                        let res = Err(error);
                        proof {
                            let outcome = collected(stack@, included_files@, res);
                            assert(fails_in(log, current, rest, open, here, outcome));
                            lemma_fails_in(source, log, current, all, open, files, rest, here, outcome);
                        }
                        return res;
                    },
                }
                stack.pop();
                assert(paths(stack@) == open.push(path).drop_last());
                assert(open.push(path).drop_last() == open);
                let ghost inner_files = included_files@;
                included_files.insert(include_path, include_contents);
                assert(file_texts(included_files@) == file_texts(inner_files).insert(path, text));
                assert(adds_short_keys(*old(included_files), *included_files)) by {
                    assert(adds_short_keys(here_files, *included_files));
                    lemma_adds_twice(*old(included_files), here_files, *included_files);
                }
                proof {
                    let there = file_texts(included_files@);
                    assert forall|p: PathView| here.dom().contains(p) implies there.dom().contains(
                        p,
                    ) && there[p] == here[p] by {
                        assert(file_texts(inner_files).dom().contains(p));
                    }
                    vstd::map_lib::lemma_submap_of_trans(files, here, there);
                    assert forall|p: PathView| #[trigger] log.contains_key(p) implies there.contains_key(p) by {
                        if !inner_log.contains_key(p) && p != path {
                            assert(asked.contains_key(p));
                            assert(here.dom().contains(p));
                        }
                    }
                }
            }
        }
        proof {
            let there = file_texts(included_files@);
            assert forall|reader: Reader| #[trigger] agrees(reader, log) implies collect(
                reader,
                current,
                all,
                open,
                files,
            ) == collect(reader, current, all.skip(i + 1), open, there) by {
                let after = collect_line(reader, current, rest[0], open, here);
                assert(after == (Collected { open, files: there, result: Ok(()) }));
            }
        }
        i += 1;
    }
    assert(all.skip(all.len() as int) == Seq::<Seq<char>>::empty());
    assert(accounts(
        source,
        log,
        current,
        all,
        open,
        files,
        collected(stack@, included_files@, Ok(())),
    ));
    proof {
        lemma_settled(source, log);
    }
    Ok(())
}

/// Whether `first` and `log` account for what loading gave: `source` gave the
/// first answer for the feature file and the others for further files, and
/// whoever answers alike makes it come to `outcome`. Where loading succeeded,
/// the further files are those that it returned.
pub open spec fn accounts_for_load<S: FontSource>(
    source: &S,
    first: Answer,
    log: ReadLog,
    spelling: Seq<u8>,
    outcome: Result<Option<(Seq<char>, Files)>, LoadFailure>,
) -> bool {
    &&& source.may_answer(spelling, first)
    &&& gave(source, log)
    &&& forall|path: PathView| #[trigger]
        log.contains_key(path) ==> is_path(path) && is_normal(path) && path != normalize(
            parse_path(spelling),
        )
    &&& match outcome {
        Ok(None) => log == Map::<PathView, Answer>::empty(),
        Ok(Some((_, files))) => log.dom() == files.dom(),
        Err(_) => true,
    }
    &&& forall|reader: Reader| #[trigger]
        agrees(reader, log) && reader(spelling) == first ==> load(reader, spelling) == outcome
}

/// The text of a feature file and the files that it takes in by their paths,
/// where there is such a file.
pub type FeatureFilesLoadResult = Option<(String, OrderedMap<VirtualPath, String>)>;

/// What loading gave.
pub open spec fn loaded(res: Result<FeatureFilesLoadResult, FontLoadError>) -> Result<
    Option<(Seq<char>, Files)>,
    LoadFailure,
> {
    match res {
        Ok(None) => Ok(None),
        Ok(Some((text, files))) => Ok(Some((text@, file_texts(files@)))),
        Err(error) => Err(error@),
    }
}

/// Loads the feature file at `path` and all the files that it takes in,
/// directly or through others.
///
/// Returns `None` where `source` has no file at `path`.
pub fn load_feature_files<S: FontSource>(source: &S, path: &VirtualPath) -> (res: Result<
    FeatureFilesLoadResult,
    FontLoadError,
>)
    ensures
        exists|first: Answer, log: ReadLog| #[trigger]
            accounts_for_load(source, first, log, path.spelling(), loaded(res)),
        forall|reader: Reader| #[trigger]
            answers_as(source, reader) ==> loaded(res) == load(reader, path.spelling()),
        res matches Ok(Some((_, files))) ==> forall|p: PathView| #[trigger]
            files@.contains_key(p) ==> files.keys()[p].spelling() == path_text(p),
        res matches Err(error) ==> error.is_short(),
{
    let read = source.try_read(path);
    let ghost first = answer_of(read);
    let ghost spelling = path.spelling();
    let ghost none: ReadLog = Map::empty();
    assert forall|reader: Reader| #[trigger] answers_as(source, reader) implies reader(spelling)
        == first by {
        assert(source.may_answer(spelling, first));
    }
    if read.is_none() {
        let res = Ok(None);
        assert(accounts_for_load(source, first, none, spelling, loaded(res)));
        return res;
    }
    let contents = match read_contents(read, path) {
        Ok(text) => text,
        Err(error) => {
            let res = Err(error);
            assert(accounts_for_load(source, first, none, spelling, loaded(res)));
            return res;
        },
    };
    let normalized_path = normalize_virtual_path(path);
    let ghost start = normalized_path@;
    let mut stack: Vec<VirtualPath> = Vec::new();
    stack.push(normalized_path.clone());
    let mut included_files: OrderedMap<VirtualPath, String> = OrderedMap::new();
    assert(paths(stack@) == seq![start]);
    assert(file_texts(included_files@) == Map::<PathView, Seq<char>>::empty());
    let collecting = collect_feature_includes(
        source,
        &normalized_path,
        contents.as_str(),
        &mut stack,
        &mut included_files,
    );
    let ghost outcome = collected(stack@, included_files@, collecting);
    let ghost log = choose|log: ReadLog| #[trigger]
        accounts(
            source,
            log,
            start,
            split_lines(contents@),
            seq![start],
            Map::empty(),
            outcome,
        );
    proof {
        assert(seq![start][0] == start);
        if collecting is Ok {
            assert(log.dom() =~= outcome.files.dom());
        }
    }
    let res = match collecting {
        Ok(()) => Ok(Some((contents, included_files))),
        Err(error) => Err(error),
    };
    assert(accounts_for_load(source, first, log, spelling, loaded(res)));
    res
}

} // verus!
