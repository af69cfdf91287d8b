//! What holds of loading feature files, line by line and as a whole.

use crate::decode::{io_error, utf8_error};
use crate::error::{FontLoadError, LoadFailure};
use crate::expand::expanded;
use crate::laws::{
    is_found, linked, load_failures_are_found, loaded_files_are_those_taken_in, member_takes_in,
    ranked, takes_in, text_in_chain,
};
use crate::load::{
    accounts, accounts_for_load, adds_short_keys, collect, collect_keeps_files, collect_line,
    collected, contents_of, file_texts, load, loaded, paths, taken_in, Collected,
    FeatureFilesLoadResult, Files,
};
use crate::memory::{answer_from, MemorySource};
use crate::ordered_map::OrderedMap;
use crate::path::{
    normal_is_kept, normalize, parse_path, path_text, text_names_path, PathView, VirtualPath,
};
use crate::source::{agrees, answer_of, answers_as, Answer, FontSource, ReadLog, Reader};
use crate::text::{split_lines, texts};
use vstd::prelude::*;
use vstd::utf8::{decode_utf8, encode_utf8, valid_utf8};

verus! {

broadcast use vstd::seq::group_seq_axioms;

// ---------------------------------------------------------------------------
// Reading a file
// ---------------------------------------------------------------------------

/// What an answer comes to: a file that is absent is missing, a failure is
/// handed on, and bytes are the text that they encode, or invalid data.
pub proof fn answers_are_read(path: PathView, error: std::io::Error, bytes: Seq<u8>, text: Seq<char>)
    ensures
        contents_of(Answer::Absent, path) == Err::<Seq<char>, LoadFailure>(
            LoadFailure::Missing(path),
        ),
        contents_of(Answer::Failed(error), path) == Err::<Seq<char>, LoadFailure>(
            LoadFailure::FeatureFile(error),
        ),
        contents_of(Answer::Data(encode_utf8(text)), path) == Ok::<Seq<char>, LoadFailure>(text),
        valid_utf8(bytes) ==> contents_of(Answer::Data(bytes), path) == Ok::<
            Seq<char>,
            LoadFailure,
        >(decode_utf8(bytes)),
        !valid_utf8(bytes) ==> contents_of(Answer::Data(bytes), path) == Err::<
            Seq<char>,
            LoadFailure,
        >(
            LoadFailure::FeatureFile(
                io_error(std::io::ErrorKind::InvalidData, utf8_error(bytes)),
            ),
        ),
{
    vstd::utf8::encode_utf8_valid_utf8(text);
    vstd::utf8::encode_utf8_decode_utf8(text);
}

/// What a read returns is the answer.
pub proof fn reads_are_answers(error: std::io::Error, data: Vec<u8>)
    ensures
        answer_of(None) == Answer::Absent,
        answer_of(Some(Err(error))) == Answer::Failed(error),
        answer_of(Some(Ok(data))) == Answer::Data(data@),
{
}

// ---------------------------------------------------------------------------
// Line by line
// ---------------------------------------------------------------------------

/// Lines are collected one after the other, each with what the ones before it
/// collected, and the first failure ends it.
pub proof fn collecting_goes_on(
    reader: Reader,
    current: PathView,
    lines: Seq<Seq<char>>,
    more: Seq<Seq<char>>,
    open: Seq<PathView>,
    files: Files,
)
    ensures
        ({
            let first = collect(reader, current, lines, open, files);
            collect(reader, current, lines + more, open, files) == match first.result {
                Err(_) => first,
                Ok(()) => collect(reader, current, more, open, first.files),
            }
        }),
    decreases lines.len(),
{
    if lines.len() == 0 {
        assert(lines + more == more);
    } else {
        assert((lines + more)[0] == lines[0]);
        assert((lines + more).drop_first() == lines.drop_first() + more);
        let after = collect_line(reader, current, lines[0], open, files);
        collecting_goes_on(reader, current, lines.drop_first(), more, open, after.files);
    }
}

/// A single line: one that takes in nothing, or a file that is there, changes
/// nothing. A file that is open is a failure. Any other file is read at the
/// shortest spelling of its path, and added with its whole text behind all that
/// its own lines add.
pub proof fn one_line_collects(
    reader: Reader,
    current: PathView,
    line: Seq<char>,
    open: Seq<PathView>,
    files: Files,
)
    requires
        open.len() < usize::MAX,
    ensures
        collect(reader, current, Seq::empty(), open, files) == (Collected {
            open,
            files,
            result: Ok(()),
        }),
        ({
            let out = collect(reader, current, seq![line], open, files);
            let unchanged = Collected { open, files, result: Ok(()) };
            match taken_in(current, line) {
                None => out == unchanged,
                Some(path) => {
                    &&& open.contains(path) ==> out == (Collected {
                        open,
                        files,
                        result: Err(LoadFailure::Cycle(path)),
                    })
                    &&& !open.contains(path) && files.contains_key(path) ==> out == unchanged
                    &&& !open.contains(path) && !files.contains_key(path) ==> match reader(
                        path_text(path),
                    ) {
                        Answer::Absent => out == (Collected {
                            open,
                            files,
                            result: Err(LoadFailure::Missing(path)),
                        }),
                        Answer::Failed(error) => out == (Collected {
                            open,
                            files,
                            result: Err(LoadFailure::FeatureFile(error)),
                        }),
                        Answer::Data(bytes) => if valid_utf8(bytes) {
                            let text = decode_utf8(bytes);
                            let inner = collect(
                                reader,
                                path,
                                split_lines(text),
                                open.push(path),
                                files,
                            );
                            match inner.result {
                                Ok(()) => out == (Collected {
                                    open,
                                    files: inner.files.insert(path, text),
                                    result: Ok(()),
                                }),
                                Err(_) => out == inner,
                            }
                        } else {
                            out == (Collected {
                                open,
                                files,
                                result: Err(
                                    LoadFailure::FeatureFile(
                                        io_error(
                                            std::io::ErrorKind::InvalidData,
                                            utf8_error(bytes),
                                        ),
                                    ),
                                ),
                            })
                        },
                    }
                },
            }
        }),
{
    let one = seq![line];
    let none: Seq<Seq<char>> = Seq::empty();
    assert(one[0] == line);
    assert(one.drop_first() == none);
    let after = collect_line(reader, current, line, open, files);
    collect_keeps_files(reader, current, one, open, files);
    assert(collect(reader, current, none, open, after.files) == (Collected {
        open,
        files: after.files,
        result: Ok(()),
    }));
}

// ---------------------------------------------------------------------------
// As a whole
// ---------------------------------------------------------------------------

/// Loading asks for the feature file under the spelling that it is given, and
/// then collects from its lines, with the file itself open and no other there.
pub proof fn loading_starts_at_the_feature_file(reader: Reader, spelling: Seq<u8>)
    ensures
        match reader(spelling) {
            Answer::Absent => load(reader, spelling) == Ok::<
                Option<(Seq<char>, Files)>,
                LoadFailure,
            >(None),
            Answer::Failed(error) => load(reader, spelling) == Err::<
                Option<(Seq<char>, Files)>,
                LoadFailure,
            >(LoadFailure::FeatureFile(error)),
            Answer::Data(bytes) => if valid_utf8(bytes) {
                let text = decode_utf8(bytes);
                let start = normalize(parse_path(spelling));
                let all = collect(reader, start, split_lines(text), seq![start], Map::empty());
                load(reader, spelling) == match all.result {
                    Ok(()) => Ok::<Option<(Seq<char>, Files)>, LoadFailure>(
                        Some((text, all.files)),
                    ),
                    Err(failure) => Err(failure),
                }
            } else {
                load(reader, spelling) == Err::<Option<(Seq<char>, Files)>, LoadFailure>(
                    LoadFailure::FeatureFile(
                        io_error(std::io::ErrorKind::InvalidData, utf8_error(bytes)),
                    ),
                )
            },
        },
{
}

/// Whether `chain` leads from the feature file with the given text from file to
/// file, each taking in the next. The last of them need not be readable.
pub open spec fn is_read_chain(
    reader: Reader,
    start: PathView,
    text: Seq<char>,
    chain: Seq<PathView>,
) -> bool {
    &&& chain.len() > 0
    &&& chain[0] == start
    &&& linked(reader, text, chain)
}

/// Whether all files of a chain behind the first can be read, and none of them
/// is in it twice.
pub open spec fn is_read_sound(reader: Reader, chain: Seq<PathView>) -> bool {
    &&& forall|i: int|
        0 < i < chain.len() ==> contents_of(reader(path_text(#[trigger] chain[i])), chain[i]) is Ok
    &&& chain.no_duplicates()
}

/// A feature file that can be read is loaded exactly where every chain of files
/// that leads from it can be read and repeats none, unless one is longer than
/// memory.
pub proof fn loading_succeeds_for_sound_chains(reader: Reader, spelling: Seq<u8>, text: Seq<char>)
    requires
        contents_of(reader(spelling), parse_path(spelling)) == Ok::<Seq<char>, LoadFailure>(text),
    ensures
        load(reader, spelling) is Ok ==> forall|chain: Seq<PathView>| #[trigger]
            is_read_chain(reader, normalize(parse_path(spelling)), text, chain)
                ==> is_read_sound(reader, chain),
        (forall|chain: Seq<PathView>| #[trigger]
            is_read_chain(reader, normalize(parse_path(spelling)), text, chain) ==> is_read_sound(
                reader,
                chain,
            )) ==> load(reader, spelling) is Ok || load(reader, spelling)->Err_0
            == LoadFailure::TooDeep,
{
    let start = normalize(parse_path(spelling));
    match load(reader, spelling) {
        Ok(_) => {
            loaded_files_are_those_taken_in(reader, spelling);
            let files = load(reader, spelling)->Ok_0->Some_0.1;
            let rank = choose|rank: Map<PathView, nat>| #[trigger] ranked(files, rank);
            assert forall|chain: Seq<PathView>| #[trigger]
                is_read_chain(reader, start, text, chain) implies is_read_sound(reader, chain) by {
                lemma_read_chain_is_sound(reader, start, text, files, rank, chain);
            }
        },
        Err(failure) => {
            let open = load_failures_are_found(reader, spelling);
            if failure != LoadFailure::TooDeep {
                let path = choose|path: PathView|
                    {
                        &&& #[trigger] member_takes_in(reader, text, open, open.len() - 1, path)
                        &&& match failure {
                            LoadFailure::Cycle(at) => at == path && open.contains(path),
                            _ => contents_of(crate::source::read_at(reader, path), path) == Err::<
                                Seq<char>,
                                LoadFailure,
                            >(failure),
                        }
                    };
                let chain = open.push(path);
                let n = open.len() as int;
                assert(is_found(reader, text, open, failure));
                assert forall|i: int|
                    #![trigger chain[i]]
                    0 <= i < chain.len() - 1 implies member_takes_in(
                    reader,
                    text,
                    chain,
                    i,
                    chain[i + 1],
                ) by {
                    assert(chain[i] == open[i]);
                    assert(text_in_chain(reader, text, chain, i) == text_in_chain(
                        reader,
                        text,
                        open,
                        i,
                    ));
                    if i + 1 < open.len() {
                        assert(chain[i + 1] == open[i + 1]);
                    }
                }
                assert(chain[0] == open[0]);
                assert(is_read_chain(reader, start, text, chain));
                assert(chain[n] == path);
                if open.contains(path) {
                    let k = choose|k: int| 0 <= k < open.len() && open[k] == path;
                    assert(chain[k] == chain[n]);
                }
                assert(!is_read_sound(reader, chain));
            }
        },
    }
}

/// A chain through files that were loaded stays within them, along falling
/// ranks.
proof fn lemma_read_chain_is_sound(
    reader: Reader,
    start: PathView,
    text: Seq<char>,
    files: Files,
    rank: Map<PathView, nat>,
    chain: Seq<PathView>,
)
    requires
        is_read_chain(reader, start, text, chain),
        ranked(files, rank),
        !files.contains_key(start),
        forall|p: PathView| #[trigger]
            files.contains_key(p) ==> contents_of(crate::source::read_at(reader, p), p) == Ok::<
                Seq<char>,
                LoadFailure,
            >(files[p]),
        forall|q: PathView| #[trigger] takes_in(start, text, q) ==> files.contains_key(q),
    ensures
        is_read_sound(reader, chain),
        forall|i: int| 0 < i < chain.len() ==> files.contains_key(#[trigger] chain[i]),
        forall|i: int, j: int|
            0 < i < j < chain.len() ==> rank[#[trigger] chain[j]] < rank[#[trigger] chain[i]],
    decreases chain.len(),
{
    if chain.len() > 1 {
        let head = chain.drop_last();
        let n = head.len() - 1;
        let last = chain.last();
        assert forall|i: int|
            #![trigger head[i]]
            0 <= i < head.len() - 1 implies member_takes_in(
            reader,
            text,
            head,
            i,
            head[i + 1],
        ) by {
            assert(head[i] == chain[i]);
            assert(head[i + 1] == chain[i + 1]);
            assert(member_takes_in(reader, text, chain, i, chain[i + 1]));
        }
        lemma_read_chain_is_sound(reader, start, text, files, rank, head);
        assert(chain[n] == head[n]);
        assert(member_takes_in(reader, text, chain, n, chain[n + 1]));
        if n > 0 {
            assert(files.contains_key(head[n]));
            assert(takes_in(chain[n], files[chain[n]], last));
        } else {
            assert(takes_in(start, text, last));
        }
        assert(files.contains_key(last));
        assert forall|i: int| 0 < i < chain.len() implies files.contains_key(
            #[trigger] chain[i],
        ) by {
            if i < head.len() {
                assert(chain[i] == head[i]);
            }
        }
        assert forall|i: int, j: int| 0 < i < j < chain.len() implies rank[#[trigger] chain[j]]
            < rank[#[trigger] chain[i]] by {
            assert(chain[i] == head[i]);
            if j < head.len() {
                assert(chain[j] == head[j]);
            } else if i < n {
                assert(rank[head[n]] < rank[head[i]]);
            }
        }
        assert forall|i: int, j: int|
            0 <= i < chain.len() && 0 <= j < chain.len() && i != j implies chain[i] != chain[j] by {
            if i == 0 {
                assert(files.contains_key(chain[j]));
            } else if j == 0 {
                assert(files.contains_key(chain[i]));
            }
        }
        assert forall|i: int| 0 < i < chain.len() implies contents_of(
            reader(path_text(#[trigger] chain[i])),
            chain[i],
        ) is Ok by {
            assert(files.contains_key(chain[i]));
        }
    }
}

// ---------------------------------------------------------------------------
// What values stand for
// ---------------------------------------------------------------------------

/// Files, paths and texts stand for what they hold, one for one.
pub proof fn values_stand_for_themselves(
    files: Map<PathView, String>,
    stack: Seq<VirtualPath>,
    lines: Seq<String>,
)
    ensures
        file_texts(files).dom() == files.dom(),
        forall|p: PathView| #[trigger]
            files.contains_key(p) ==> file_texts(files)[p] == files[p]@,
        paths(stack).len() == stack.len(),
        forall|i: int| 0 <= i < stack.len() ==> #[trigger] paths(stack)[i] == stack[i]@,
        texts(lines).len() == lines.len(),
        forall|i: int| 0 <= i < lines.len() ==> #[trigger] texts(lines)[i] == lines[i]@,
{
}

/// Results stand for what they return, one for one.
pub proof fn results_stand_for_themselves(
    text: String,
    files: OrderedMap<VirtualPath, String>,
    stack: Seq<VirtualPath>,
    error: FontLoadError,
)
    ensures
        loaded(Ok::<FeatureFilesLoadResult, FontLoadError>(None)) == Ok::<
            Option<(Seq<char>, Files)>,
            LoadFailure,
        >(None),
        loaded(Ok(Some((text, files)))) == Ok::<Option<(Seq<char>, Files)>, LoadFailure>(
            Some((text@, file_texts(files@))),
        ),
        loaded(Err(error)) == Err::<Option<(Seq<char>, Files)>, LoadFailure>(error@),
        collected(stack, files@, Ok(())) == (Collected {
            open: paths(stack),
            files: file_texts(files@),
            result: Ok(()),
        }),
        collected(stack, files@, Err(error)) == (Collected {
            open: paths(stack),
            files: file_texts(files@),
            result: Err(error@),
        }),
        expanded(stack, Ok(text)) == (crate::expand::Expanded {
            open: paths(stack),
            result: Ok(text@),
        }),
        expanded(stack, Err(error)) == (crate::expand::Expanded {
            open: paths(stack),
            result: Err(error@),
        }),
        match error {
            FontLoadError::FeatureFile(source) => error@ == LoadFailure::FeatureFile(source),
            FontLoadError::FeatureIncludeCycle { path } => error@ == LoadFailure::Cycle(path@),
            FontLoadError::MissingIncludedFeatureFile { path } => error@ == LoadFailure::Missing(
                path@,
            ),
        },
{
}

/// The answers that account for collecting: the source can have given each of
/// them for the shortest spelling of a path that was neither open nor there;
/// whoever gives these answers makes it come to the same; and where it succeeded,
/// they are those for the added files.
pub proof fn answers_account_for_collecting<S: FontSource>(
    source: &S,
    log: ReadLog,
    current: PathView,
    lines: Seq<Seq<char>>,
    open: Seq<PathView>,
    files: Files,
    outcome: Collected,
    path: PathView,
    reader: Reader,
)
    requires
        accounts(source, log, current, lines, open, files, outcome),
    ensures
        log.contains_key(path) ==> {
            &&& source.may_answer(path_text(path), log[path])
            &&& parse_path(path_text(path)) == path
            &&& normalize(path) == path
            &&& !open.contains(path)
            &&& !files.contains_key(path)
        },
        outcome.result is Ok ==> (log.contains_key(path) <==> outcome.files.contains_key(path)
            && !files.contains_key(path)),
        (forall|p: PathView| #[trigger] log.contains_key(p) ==> reader(path_text(p)) == log[p])
            ==> collect(reader, current, lines, open, files) == outcome,
{
    if log.contains_key(path) {
        text_names_path(path);
        normal_is_kept(path);
    }
    if (forall|p: PathView| #[trigger] log.contains_key(p) ==> reader(path_text(p)) == log[p]) {
        assert(agrees(reader, log));
    }
}

/// The answers that account for loading: the one for the feature file under its
/// own spelling, and those for the files that it takes in.
pub proof fn answers_account_for_loading<S: FontSource>(
    source: &S,
    first: Answer,
    log: ReadLog,
    spelling: Seq<u8>,
    outcome: Result<Option<(Seq<char>, Files)>, LoadFailure>,
    path: PathView,
    reader: Reader,
)
    requires
        accounts_for_load(source, first, log, spelling, outcome),
    ensures
        source.may_answer(spelling, first),
        log.contains_key(path) ==> {
            &&& source.may_answer(path_text(path), log[path])
            &&& parse_path(path_text(path)) == path
            &&& normalize(path) == path
            &&& path != normalize(parse_path(spelling))
        },
        outcome == Ok::<Option<(Seq<char>, Files)>, LoadFailure>(None) ==> !log.contains_key(path),
        outcome matches Ok(Some((_, files))) ==> (log.contains_key(path) <==> files.contains_key(
            path,
        )),
        reader(spelling) == first && (forall|p: PathView| #[trigger]
            log.contains_key(p) ==> reader(path_text(p)) == log[p]) ==> load(reader, spelling)
            == outcome,
{
    if log.contains_key(path) {
        text_names_path(path);
        normal_is_kept(path);
    }
    if let Ok(Some((_, files))) = outcome {
        assert(log.dom().contains(path) <==> files.dom().contains(path));
    }
    if (forall|p: PathView| #[trigger] log.contains_key(p) ==> reader(path_text(p)) == log[p]) {
        assert(agrees(reader, log));
    }
}

/// A source that can give no answers but those of a reader answers as that
/// reader does.
pub proof fn settled_sources_answer_as_a_reader<S: FontSource>(source: &S, reader: Reader)
    requires
        forall|spelling: Seq<u8>, answer: Answer| #[trigger]
            source.may_answer(spelling, answer) ==> answer == reader(spelling),
    ensures
        answers_as(source, reader),
{
}

/// Files in memory answer with the bytes under the path, whatever its spelling.
pub proof fn files_in_memory_answer(
    source: MemorySource,
    spelling: Seq<u8>,
    answer: Answer,
)
    ensures
        source.may_answer(spelling, answer) <==> answer == if source.files@.contains_key(
            parse_path(spelling),
        ) {
            Answer::Data(source.files@[parse_path(spelling)]@)
        } else {
            Answer::Absent
        },
        answer_from(source.files@, parse_path(spelling)) == if source.files@.contains_key(
            parse_path(spelling),
        ) {
            Answer::Data(source.files@[parse_path(spelling)]@)
        } else {
            Answer::Absent
        },
{
}

/// The keys that collecting adds are the shortest spellings of their paths, and
/// the others are kept.
pub proof fn added_keys_are_short(
    before: OrderedMap<VirtualPath, String>,
    after: OrderedMap<VirtualPath, String>,
    path: PathView,
)
    requires
        adds_short_keys(before, after),
        after@.contains_key(path),
    ensures
        before@.contains_key(path) ==> after.keys()[path] == before.keys()[path],
        !before@.contains_key(path) ==> after.keys()[path].spelling() == path_text(path),
{
}

/// The paths of errors are spelled in the shortest way.
pub proof fn errors_are_short(error: FontLoadError)
    requires
        error.is_short(),
    ensures
        match error {
            FontLoadError::FeatureFile(_) => true,
            FontLoadError::FeatureIncludeCycle { path } => path.spelling() == path_text(
                parse_path(path.spelling()),
            ),
            FontLoadError::MissingIncludedFeatureFile { path } => path.spelling() == path_text(
                parse_path(path.spelling()),
            ),
        },
{
}

} // verus!
