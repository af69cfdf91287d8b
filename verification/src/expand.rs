//! Putting feature files in the place of the lines that take them in.

use crate::directive::parse_include_target;
use crate::error::{FontLoadError, LoadFailure};
use crate::load::{contains_path, directory, directory_of, file_texts, paths, taken_in, Files};
use crate::names::FEATURES_FILE;
use crate::ordered_map::{lemma_map_of_is_finite, OrderedMap};
use crate::path::{
    join_virtual_path, normalize, normalize_virtual_path, parse_path, PathView, VirtualPath,
};
use crate::text::{lines_of, split_lines, texts};
use vstd::prelude::*;
use vstd::utf8::encode_utf8;

verus! {

broadcast use vstd::seq::group_seq_axioms;

/// Where expanding has led.
#[verifier::ext_equal]
pub struct Expanded {
    /// The files that are open within each other, the outermost first.
    pub open: Seq<PathView>,
    /// The text, or why there is none.
    pub result: Result<Seq<char>, LoadFailure>,
}

/// How many of `files` are not open.
pub open spec fn unopened(files: Files, open: Seq<PathView>) -> nat {
    files.dom().difference(open.to_set()).len()
}

/// Opening a file leaves fewer files unopened.
pub proof fn lemma_unopened(files: Files, open: Seq<PathView>, path: PathView)
    requires
        files.dom().finite(),
        files.contains_key(path),
        !open.contains(path),
    ensures
        unopened(files, open.push(path)) < unopened(files, open),
{
    let before = files.dom().difference(open.to_set());
    let after = files.dom().difference(open.push(path).to_set());
    assert(open.push(path).contains(path)) by {
        assert(open.push(path)[open.len() as int] == path);
    }
    assert(after =~= before.remove(path)) by {
        assert forall|p: PathView| p != path implies open.push(path).contains(p) == open.contains(
            p,
        ) by {
            if open.contains(p) {
                let k = choose|k: int| 0 <= k < open.len() && open[k] == p;
                assert(open.push(path)[k] == p);
            }
        }
    }
}

/// `text` in front of what expanding gave.
pub open spec fn behind(text: Seq<char>, rest: Expanded) -> Expanded {
    Expanded {
        open: rest.open,
        result: match rest.result {
            Ok(more) => Ok(text + more),
            Err(failure) => Err(failure),
        },
    }
}

/// Expands the remaining `lines` of the file at `current`: a line that takes in
/// a file gives the expanded text of that file, any other line gives itself.
/// The first failure ends it.
pub open spec fn expand(
    files: Files,
    current: PathView,
    lines: Seq<Seq<char>>,
    open: Seq<PathView>,
) -> Expanded
    decreases unopened(files, open), lines.len(),
    when files.dom().finite()
{
    if lines.len() == 0 {
        Expanded { open, result: Ok(Seq::empty()) }
    } else {
        let first = expand_line(files, current, lines[0], open);
        match first.result {
            Ok(text) => behind(text, expand(files, current, lines.drop_first(), open)),
            Err(_) => first,
        }
    }
}

/// Expands one line of the file at `current`.
pub open spec fn expand_line(
    files: Files,
    current: PathView,
    line: Seq<char>,
    open: Seq<PathView>,
) -> Expanded
    decreases unopened(files, open), 0nat,
    when files.dom().finite()
{
    match taken_in(current, line) {
        None => Expanded { open, result: Ok(line) },
        Some(path) => if open.contains(path) {
            Expanded { open, result: Err(LoadFailure::Cycle(path)) }
        } else if !files.contains_key(path) {
            Expanded { open: open.push(path), result: Err(LoadFailure::Missing(path)) }
        } else {
            proof {
                lemma_unopened(files, open, path);
            }
            let inner = expand(files, path, split_lines(files[path]), open.push(path));
            match inner.result {
                Ok(text) => Expanded { open, result: Ok(text) },
                Err(_) => inner,
            }
        },
    }
}

/// What expanding has led to, as seen in the values that it changed.
pub open spec fn expanded(
    open: Seq<VirtualPath>,
    res: Result<String, FontLoadError>,
) -> Expanded {
    Expanded {
        open: paths(open),
        result: match res {
            Ok(text) => Ok(text@),
            Err(error) => Err(error@),
        },
    }
}

/// Expands the file at `current_path` with the given contents. `stack` holds
/// the files that are open within each other.
pub fn expand_feature_text_from_map(
    current_path: &VirtualPath,
    contents: &str,
    feature_files: &OrderedMap<VirtualPath, String>,
    stack: &mut Vec<VirtualPath>,
) -> (res: Result<String, FontLoadError>)
    ensures
        expanded(final(stack)@, res) == expand(
            file_texts(feature_files@),
            current_path@,
            split_lines(contents@),
            paths(old(stack)@),
        ),
        res matches Err(error) ==> error.is_short(),
    decreases unopened(file_texts(feature_files@), paths(old(stack)@)),
{
    let lines = lines_of(contents);
    let ghost current = current_path@;
    let ghost all = split_lines(contents@);
    let ghost open = paths(stack@);
    let ghost files = file_texts(feature_files@);
    proof {
        lemma_map_of_is_finite(feature_files.sorted());
        assert(files.dom() == feature_files@.dom());
    }
    let base = directory_of(current_path);
    let mut out = String::new();
    let mut i: usize = 0;
    assert(all.skip(0) == all);
    assert(behind(out@, expand(files, current, all, open)) == expand(files, current, all, open)) by {
        if let Ok(text) = expand(files, current, all, open).result {
            assert(out@ + text == text);
        }
    }
    while i < lines.len()
        invariant
            current == current_path@,
            base@ == directory(current),
            all == split_lines(contents@),
            texts(lines@) == all,
            i <= lines@.len(),
            open == paths(old(stack)@),
            files == file_texts(feature_files@),
            files.dom().finite(),
            paths(stack@) == open,
            expand(files, current, all, open) == behind(
                out@,
                expand(files, current, all.skip(i as int), open),
            ),
        decreases lines@.len() - i,
    {
        let ghost rest = all.skip(i as int);
        let ghost first = expand_line(files, current, rest[0], open);
        let ghost before = out@;
        assert(rest[0] == lines@[i as int]@) by {
            assert(texts(lines@)[i as int] == lines@[i as int]@);
        }
        assert(rest.drop_first() == all.skip(i + 1));
        if let Some(include_target) = parse_include_target(lines[i].as_str()) {
            let include_path = join_virtual_path(&base, &include_target);
            let ghost path = include_path@;
            assert(taken_in(current, rest[0]) == Some(path));
            if contains_path(stack, &include_path) {
                return Err(FontLoadError::FeatureIncludeCycle { path: include_path });
            }
            stack.push(include_path.clone());
            assert(paths(stack@) == open.push(path));
            let include_contents = match feature_files.get(&include_path) {
                Some(include_contents) => include_contents,
                None => {
                    return Err(FontLoadError::MissingIncludedFeatureFile { path: include_path });
                },
            };
            proof {
                lemma_unopened(files, open, path);
            }
            match expand_feature_text_from_map(
                &include_path,
                include_contents.as_str(),
                feature_files,
                stack,
            ) {
                Ok(text) => {
                    out.append(text.as_str());
                    assert(first.result == Ok::<Seq<char>, LoadFailure>(text@));
                },
                Err(error) => {
                    return Err(error);
                },
            }
            proof {
                expand_restores_open(files, path, split_lines(files[path]), open.push(path));
            }
            stack.pop();
            assert(paths(stack@) == open.push(path).drop_last());
            assert(open.push(path).drop_last() == open);
        } else {
            out.append(lines[i].as_str());
        }
        proof {
            assert(first.result matches Ok(text) && out@ == before + text);
            if let (Ok(text), Ok(more)) = (
                first.result,
                expand(files, current, all.skip(i + 1), open).result,
            ) {
                assert(before + (text + more) == (before + text) + more);
            }
        }
        i += 1;
    }
    assert(all.skip(all.len() as int) == Seq::<Seq<char>>::empty());
    assert(out@ + Seq::<char>::empty() == out@);
    Ok(out)
}

/// Where expanding succeeds, the open files are as they were.
pub proof fn expand_restores_open(
    files: Files,
    current: PathView,
    lines: Seq<Seq<char>>,
    open: Seq<PathView>,
)
    requires
        files.dom().finite(),
    ensures
        expand(files, current, lines, open).result is Ok ==> expand(
            files,
            current,
            lines,
            open,
        ).open == open,
    decreases lines.len(),
{
    if lines.len() > 0 {
        expand_restores_open(files, current, lines.drop_first(), open);
    }
}

/// How the path of the features is spelled.
pub open spec fn features_spelling() -> Seq<u8> {
    encode_utf8(FEATURES_FILE@)
}

/// The path of the features.
pub open spec fn features_path() -> PathView {
    normalize(parse_path(features_spelling()))
}

/// Expands `features` with the given feature files: the result is one text in
/// which the files stand in the place of the lines that take them in.
pub fn expand_feature_text(
    features: &str,
    feature_files: &OrderedMap<VirtualPath, String>,
) -> (res: Result<String, FontLoadError>)
    ensures
        match res {
            Ok(text) => Ok(text@),
            Err(error) => Err(error@),
        } == expand(
            file_texts(feature_files@),
            features_path(),
            split_lines(features@),
            seq![features_path()],
        ).result,
        res matches Err(error) ==> error.is_short(),
{
    let root_path = normalize_virtual_path(&VirtualPath::new(FEATURES_FILE));
    let mut stack: Vec<VirtualPath> = Vec::new();
    stack.push(root_path.clone());
    assert(paths(stack@) == seq![features_path()]);
    expand_feature_text_from_map(&root_path, features, feature_files, &mut stack)
}

} // verus!
