//! What holds of expanding feature files, whether or not they were loaded.

use crate::directive::target;
use crate::error::LoadFailure;
use crate::expand::{
    expand, expand_line, expand_restores_open, features_path, lemma_unopened, unopened, Expanded,
};
use crate::laws::{
    lemma_lines_take_in, lf_files, lines_make_up_text, lines_take_in,
    plain_lines_expand_to_themselves, takes_in,
};
use crate::line_ends::{
    ends_with_crlf, is_line, lemma_lines_are_lines, lf_text, lf_text_keeps_lines,
    lf_text_keeps_target,
};
use crate::load::{taken_in, Files};
use crate::path::{ComponentView, PathView};
use crate::path_laws::{names_are_kept, spelling_without_slashes};
use crate::text::{lemma_lines_exist, split_lines};
use vstd::prelude::*;
use vstd::utf8::{encode_utf8, is_ascii_chars, is_ascii_chars_encode_utf8};

verus! {

broadcast use vstd::seq::group_seq_axioms;

// ---------------------------------------------------------------------------
// Texts of whole lines
// ---------------------------------------------------------------------------

/// Whether `text` is empty or ends in a line feed.
pub open spec fn ends_line(text: Seq<char>) -> bool {
    text.len() == 0 || text.last() == '\n'
}

/// Whether each of `files` is empty or ends in a line feed.
pub open spec fn have_whole_lines(files: Files) -> bool {
    forall|path: PathView| #[trigger] files.contains_key(path) ==> ends_line(files[path])
}

/// Whether one of the lines of `text` is a directive.
pub open spec fn has_directive(text: Seq<char>) -> bool {
    exists|i: int|
        0 <= i < split_lines(text).len() && target(#[trigger] split_lines(text)[i]) is Some
}

/// The lines of a text go on behind a line feed.
pub proof fn lines_go_on(text: Seq<char>, more: Seq<char>)
    requires
        ends_line(text),
    ensures
        split_lines(text + more) == split_lines(text) + split_lines(more),
    decreases more.len(),
{
    let whole = text + more;
    if more.len() == 0 {
        assert(whole == text);
        assert(split_lines(text) + split_lines(more) == split_lines(text));
    } else {
        let head = more.drop_last();
        lines_go_on(text, head);
        assert(whole.drop_last() == text + head);
        assert(whole.last() == more.last());
        if more.len() == 1 {
            assert(head == Seq::<char>::empty());
            assert(split_lines(head) == Seq::<Seq<char>>::empty());
            if text.len() > 0 {
                assert(whole[whole.len() - 2] == text.last());
            }
            assert(split_lines(text).push(seq![more.last()]) == split_lines(text) + split_lines(
                more,
            ));
        } else {
            lemma_lines_exist(head);
            assert(whole[whole.len() - 2] == more[more.len() - 2]);
            let before = split_lines(text) + split_lines(head);
            if more[more.len() - 2] == '\n' {
                assert(before.push(seq![more.last()]) == split_lines(text) + split_lines(head).push(
                    seq![more.last()],
                ));
            } else {
                assert(before.last() == split_lines(head).last());
                assert(before.drop_last() == split_lines(text) + split_lines(head).drop_last());
                let last = split_lines(head).last().push(more.last());
                assert(before.drop_last().push(last) == split_lines(text) + split_lines(
                    head,
                ).drop_last().push(last));
            }
        }
    }
}

/// A line has itself as its only line.
proof fn lemma_line_of_line(line: Seq<char>)
    requires
        is_line(line),
    ensures
        split_lines(line) == seq![line],
    decreases line.len(),
{
    let head = line.drop_last();
    if line.len() == 1 {
        assert(head == Seq::<char>::empty());
        assert(seq![line.last()] == line);
        assert(split_lines(head).push(line) == seq![line]);
    } else {
        assert(forall|j: int| 0 <= j < head.len() ==> head[j] == line[j]);
        lemma_line_of_line(head);
        assert(line[line.len() - 2] != '\n');
        assert(head.push(line.last()) == line);
        assert(seq![head].drop_last().push(line) == seq![line]);
    }
}

/// Whether each of `lines` is a line, and each but the last ends in a line feed.
pub open spec fn are_lines(lines: Seq<Seq<char>>) -> bool {
    &&& forall|i: int| 0 <= i < lines.len() ==> is_line(#[trigger] lines[i])
    &&& forall|i: int| 0 <= i < lines.len() - 1 ==> (#[trigger] lines[i]).last() == '\n'
}

/// The lines of a text end in line feeds, but for the last one, which ends as
/// the text does.
pub proof fn lemma_lines_end(text: Seq<char>)
    ensures
        are_lines(split_lines(text)),
        text.len() > 0 ==> split_lines(text).len() > 0 && split_lines(text).last().last()
            == text.last(),
    decreases text.len(),
{
    lemma_lines_are_lines(text);
    if text.len() > 0 {
        let head = text.drop_last();
        lemma_lines_end(head);
        let lines = split_lines(text);
        let before = split_lines(head);
        assert forall|i: int| 0 <= i < lines.len() - 1 implies (#[trigger] lines[i]).last()
            == '\n' by {
            assert(lines[i] == before[i]);
            if i == before.len() - 1 {
                assert(before.last().last() == head.last());
            }
        }
    }
}

/// The first line and the others of lines are lines.
proof fn lemma_rest_are_lines(lines: Seq<Seq<char>>)
    requires
        are_lines(lines),
        lines.len() > 0,
    ensures
        is_line(lines[0]),
        are_lines(lines.drop_first()),
        lines.len() > 1 ==> ends_line(lines[0]) && lines.drop_first().last() == lines.last(),
{
    let rest = lines.drop_first();
    assert forall|i: int| 0 <= i < rest.len() implies is_line(#[trigger] rest[i]) by {
        assert(rest[i] == lines[i + 1]);
    }
    assert forall|i: int| 0 <= i < rest.len() - 1 implies (#[trigger] rest[i]).last() == '\n' by {
        assert(rest[i] == lines[i + 1]);
    }
}

/// What lines expand to ends in a line feed where they do.
proof fn lemma_expanded_ends_line(
    files: Files,
    current: PathView,
    lines: Seq<Seq<char>>,
    open: Seq<PathView>,
)
    requires
        files.dom().finite(),
        have_whole_lines(files),
        are_lines(lines),
        lines.len() > 0 ==> lines.last().last() == '\n',
    ensures
        expand(files, current, lines, open).result matches Ok(text) ==> ends_line(text),
    decreases unopened(files, open), lines.len(),
{
    if lines.len() > 0 {
        let first = expand_line(files, current, lines[0], open);
        let rest = expand(files, current, lines.drop_first(), open);
        lemma_rest_are_lines(lines);
        lemma_expanded_ends_line(files, current, lines.drop_first(), open);
        lemma_line_expands_to_whole_lines(files, current, lines[0], open);
        if let (Ok(text), Ok(more)) = (first.result, rest.result) {
            if more.len() > 0 {
                assert((text + more).last() == more.last());
            } else {
                assert(text + more == text);
            }
        }
    }
}

/// What a line that ends in a line feed, or takes in a file, expands to ends in
/// a line feed.
proof fn lemma_line_expands_to_whole_lines(
    files: Files,
    current: PathView,
    line: Seq<char>,
    open: Seq<PathView>,
)
    requires
        files.dom().finite(),
        have_whole_lines(files),
        ends_line(line) || taken_in(current, line) is Some,
    ensures
        expand_line(files, current, line, open).result matches Ok(text) ==> ends_line(text),
    decreases unopened(files, open), 0nat,
{
    if let Some(path) = taken_in(current, line) {
        if !open.contains(path) && files.contains_key(path) {
            lemma_unopened(files, open, path);
            lemma_lines_end(files[path]);
            lemma_expanded_ends_line(files, path, split_lines(files[path]), open.push(path));
        }
    }
}

/// What lines expand to holds no directive.
proof fn lemma_expanded_has_no_directive(
    files: Files,
    current: PathView,
    lines: Seq<Seq<char>>,
    open: Seq<PathView>,
)
    requires
        files.dom().finite(),
        have_whole_lines(files),
        are_lines(lines),
    ensures
        expand(files, current, lines, open).result matches Ok(text) ==> !has_directive(text),
    decreases unopened(files, open), lines.len(),
{
    if lines.len() > 0 {
        let first = expand_line(files, current, lines[0], open);
        let rest = expand(files, current, lines.drop_first(), open);
        lemma_rest_are_lines(lines);
        lemma_expanded_has_no_directive(files, current, lines.drop_first(), open);
        match taken_in(current, lines[0]) {
            None => {
                lemma_line_of_line(lines[0]);
            },
            Some(path) => {
                if !open.contains(path) && files.contains_key(path) {
                    lemma_unopened(files, open, path);
                    lemma_lines_end(files[path]);
                    lemma_expanded_has_no_directive(
                        files,
                        path,
                        split_lines(files[path]),
                        open.push(path),
                    );
                }
            },
        }
        if let (Ok(text), Ok(more)) = (first.result, rest.result) {
            assert(!has_directive(text));
            if lines.len() == 1 {
                assert(text + more == text);
            } else {
                lemma_line_expands_to_whole_lines(files, current, lines[0], open);
                lines_go_on(text, more);
                let all = split_lines(text + more);
                assert forall|i: int| 0 <= i < all.len() implies target(
                    #[trigger] all[i],
                ) is None by {
                    if i < split_lines(text).len() {
                        assert(all[i] == split_lines(text)[i]);
                    } else {
                        assert(all[i] == split_lines(more)[i - split_lines(text).len()]);
                    }
                }
            }
        }
    } else {
        assert(split_lines(Seq::<char>::empty()).len() == 0);
    }
}

/// Where each file is empty or ends in a line feed, expanded text holds no
/// directive.
pub proof fn expanded_text_has_no_directive(
    files: Files,
    current: PathView,
    text: Seq<char>,
    open: Seq<PathView>,
)
    requires
        files.dom().finite(),
        have_whole_lines(files),
    ensures
        expand(files, current, split_lines(text), open).result matches Ok(out)
            ==> !has_directive(out),
{
    lemma_lines_end(text);
    lemma_expanded_has_no_directive(files, current, split_lines(text), open);
}

/// Where each file is empty or ends in a line feed, expanding twice is expanding
/// once.
pub proof fn expanding_is_idempotent(
    files: Files,
    current: PathView,
    text: Seq<char>,
    open: Seq<PathView>,
)
    requires
        files.dom().finite(),
        have_whole_lines(files),
    ensures
        expand(files, current, split_lines(text), open).result matches Ok(out) ==> expand(
            files,
            current,
            split_lines(out),
            open,
        ).result == Ok::<Seq<char>, LoadFailure>(out),
{
    if let Ok(out) = expand(files, current, split_lines(text), open).result {
        expanded_text_has_no_directive(files, current, text, open);
        let lines = split_lines(out);
        assert forall|i: int| 0 <= i < lines.len() implies taken_in(
            current,
            #[trigger] lines[i],
        ) is None by {
            assert(target(lines[i]) is None);
        }
        plain_lines_expand_to_themselves(files, current, lines, open);
        lines_make_up_text(out);
    }
}

// ---------------------------------------------------------------------------
// Piece by piece
// ---------------------------------------------------------------------------

/// Lines are expanded one after the other: the texts stand in the order of the
/// lines, and the first failure ends it.
pub proof fn expanding_goes_on(
    files: Files,
    current: PathView,
    lines: Seq<Seq<char>>,
    more: Seq<Seq<char>>,
    open: Seq<PathView>,
)
    requires
        files.dom().finite(),
    ensures
        ({
            let first = expand(files, current, lines, open);
            let then = expand(files, current, more, open);
            expand(files, current, lines + more, open) == match first.result {
                Err(_) => first,
                Ok(text) => match then.result {
                    Err(_) => then,
                    Ok(rest) => Expanded { open, result: Ok(text + rest) },
                },
            }
        }),
    decreases lines.len(),
{
    expand_restores_open(files, current, more, open);
    if lines.len() == 0 {
        assert(lines + more == more);
        if let Ok(rest) = expand(files, current, more, open).result {
            assert(Seq::<char>::empty() + rest == rest);
        }
    } else {
        let rest = lines.drop_first();
        assert((lines + more)[0] == lines[0]);
        assert((lines + more).drop_first() == rest + more);
        expanding_goes_on(files, current, rest, more, open);
        let first = expand_line(files, current, lines[0], open);
        if let (Ok(a), Ok(b), Ok(c)) = (
            first.result,
            expand(files, current, rest, open).result,
            expand(files, current, more, open).result,
        ) {
            assert(a + (b + c) == a + b + c);
        }
    }
}

/// A single line: one that takes in nothing stays as it is, and one that takes
/// in a file gives all that the file expands to, while the file is open. A file
/// that is open already and a file that is not there are failures.
pub proof fn one_line_expands(
    files: Files,
    current: PathView,
    line: Seq<char>,
    open: Seq<PathView>,
)
    requires
        files.dom().finite(),
    ensures
        expand(files, current, Seq::empty(), open) == (Expanded {
            open,
            result: Ok(Seq::empty()),
        }),
        ({
            let out = expand(files, current, seq![line], open);
            match taken_in(current, line) {
                None => out == (Expanded { open, result: Ok(line) }),
                Some(path) => {
                    &&& open.contains(path) ==> out == (Expanded {
                        open,
                        result: Err(LoadFailure::Cycle(path)),
                    })
                    &&& !open.contains(path) && !files.contains_key(path) ==> out == (Expanded {
                        open: open.push(path),
                        result: Err(LoadFailure::Missing(path)),
                    })
                    &&& !open.contains(path) && files.contains_key(path) ==> {
                        let inner = expand(
                            files,
                            path,
                            split_lines(files[path]),
                            open.push(path),
                        );
                        match inner.result {
                            Ok(text) => out == (Expanded { open, result: Ok(text) }),
                            Err(_) => out == inner,
                        }
                    }
                },
            }
        }),
{
    let one = seq![line];
    let none: Seq<Seq<char>> = Seq::empty();
    assert(one[0] == line);
    assert(one.drop_first() == none);
    let rest = expand(files, current, none, open);
    assert(rest == (Expanded { open, result: Ok(Seq::empty()) }));
    let first = expand_line(files, current, line, open);
    if let Ok(text) = first.result {
        assert(text + Seq::<char>::empty() == text);
    }
}

/// A text is expanded piece by piece: what stands before a line, the line, and
/// what stands behind it.
pub proof fn pieces_of_text_expand(
    files: Files,
    current: PathView,
    before: Seq<char>,
    line: Seq<char>,
    after: Seq<char>,
    open: Seq<PathView>,
)
    requires
        files.dom().finite(),
        before.len() == 0 || before[before.len() - 1] == '\n',
        line.len() > 0,
        forall|j: int| 0 <= j < line.len() - 1 ==> line[j] != '\n',
        line[line.len() - 1] == '\n' || after.len() == 0,
    ensures
        ({
            let first = expand(files, current, split_lines(before), open);
            let middle = expand(files, current, seq![line], open);
            let then = expand(files, current, split_lines(after), open);
            expand(files, current, split_lines(before + line + after), open)
                == match first.result {
                Err(_) => first,
                Ok(a) => match middle.result {
                    Err(_) => middle,
                    Ok(b) => match then.result {
                        Err(_) => then,
                        Ok(c) => Expanded { open, result: Ok(a + b + c) },
                    },
                },
            }
        }),
{
    lemma_line_of_line(line);
    lines_go_on(before, line + after);
    assert(before + line + after == before + (line + after));
    if after.len() == 0 {
        assert(line + after == line);
        assert(split_lines(after) == Seq::<Seq<char>>::empty());
        assert(split_lines(line) + split_lines(after) == seq![line]);
    } else {
        lines_go_on(line, after);
    }
    assert(split_lines(line + after) == seq![line] + split_lines(after));
    expanding_goes_on(files, current, seq![line], split_lines(after), open);
    expanding_goes_on(
        files,
        current,
        split_lines(before),
        seq![line] + split_lines(after),
        open,
    );
    if let (Ok(a), Ok(b), Ok(c)) = (
        expand(files, current, split_lines(before), open).result,
        expand(files, current, seq![line], open).result,
        expand(files, current, split_lines(after), open).result,
    ) {
        assert(a + (b + c) == a + b + c);
    }
}

/// A line that takes in a file without directives is replaced by the text of
/// that file, however the line is written, and the text around it is kept.
pub proof fn a_file_takes_the_place_of_its_line(
    files: Files,
    current: PathView,
    before: Seq<char>,
    line: Seq<char>,
    after: Seq<char>,
    open: Seq<PathView>,
    path: PathView,
)
    requires
        files.dom().finite(),
        before.len() == 0 || before[before.len() - 1] == '\n',
        line.len() > 0,
        forall|j: int| 0 <= j < line.len() - 1 ==> line[j] != '\n',
        line[line.len() - 1] == '\n' || after.len() == 0,
        taken_in(current, line) == Some(path),
        !open.contains(path),
        files.contains_key(path),
        forall|i: int|
            0 <= i < split_lines(before).len() ==> target(
                #[trigger] split_lines(before)[i],
            ) is None,
        forall|i: int|
            0 <= i < split_lines(after).len() ==> target(#[trigger] split_lines(after)[i]) is None,
        forall|i: int|
            0 <= i < split_lines(files[path]).len() ==> target(
                #[trigger] split_lines(files[path])[i],
            ) is None,
    ensures
        expand(files, current, split_lines(before + line + after), open) == (Expanded {
            open,
            result: Ok(before + files[path] + after),
        }),
{
    lemma_plain_text_expands(files, current, before, open);
    lemma_plain_text_expands(files, current, after, open);
    lemma_plain_text_expands(files, path, files[path], open.push(path));
    one_line_expands(files, current, line, open);
    pieces_of_text_expand(files, current, before, line, after, open);
}

proof fn lemma_plain_text_expands(
    files: Files,
    current: PathView,
    text: Seq<char>,
    open: Seq<PathView>,
)
    requires
        files.dom().finite(),
        forall|i: int|
            0 <= i < split_lines(text).len() ==> target(#[trigger] split_lines(text)[i]) is None,
    ensures
        expand(files, current, split_lines(text), open) == (Expanded { open, result: Ok(text) }),
{
    let lines = split_lines(text);
    assert forall|i: int| 0 <= i < lines.len() implies taken_in(
        current,
        #[trigger] lines[i],
    ) is None by {
        assert(target(lines[i]) is None);
    }
    plain_lines_expand_to_themselves(files, current, lines, open);
    lines_make_up_text(text);
}

/// The path of the features is the name of their file.
pub proof fn features_are_at_their_name()
    ensures
        features_path() == seq![ComponentView::Normal(encode_utf8("features.fea"@))],
{
    reveal_strlit("features.fea");
    let text = "features.fea"@;
    let name = encode_utf8(text);
    assert(is_ascii_chars(text));
    is_ascii_chars_encode_utf8(text);
    assert forall|i: int| 0 <= i < name.len() implies name[i] != 0x2fu8 by {
        assert(text[i] as u8 == name[i]);
    }
    assert(name.len() == 12);
    spelling_without_slashes(name);
    names_are_kept(seq![ComponentView::Normal(name)]);
}

// ---------------------------------------------------------------------------
// Line ends
// ---------------------------------------------------------------------------

/// Line ends can be normalized piece by piece, where the pieces are whole lines.
pub proof fn lf_text_goes_on(text: Seq<char>, more: Seq<char>)
    requires
        ends_line(text),
    ensures
        lf_text(text + more) == lf_text(text) + lf_text(more),
    decreases more.len(),
{
    let whole = text + more;
    if more.len() == 0 {
        assert(whole == text);
        assert(lf_text(text) + lf_text(more) == lf_text(text));
    } else {
        assert(whole.last() == more.last());
        if more.len() == 1 && text.len() > 0 {
            assert(whole[whole.len() - 2] == text.last());
        }
        if more.len() >= 2 {
            assert(whole[whole.len() - 2] == more[more.len() - 2]);
        }
        assert(ends_with_crlf(whole) == ends_with_crlf(more));
        let head = if ends_with_crlf(more) {
            more.take(more.len() - 2)
        } else {
            more.drop_last()
        };
        lf_text_goes_on(text, head);
        if ends_with_crlf(more) {
            assert(whole.take(whole.len() - 2) == text + head);
        } else {
            assert(whole.drop_last() == text + head);
        }
        assert((lf_text(text) + lf_text(head)).push(more.last()) == lf_text(text) + lf_text(
            head,
        ).push(more.last()));
    }
}

/// What expanding gave, with normalized line ends.
pub open spec fn lf_expanded(out: Expanded) -> Expanded {
    Expanded {
        open: out.open,
        result: match out.result {
            Ok(text) => Ok(lf_text(text)),
            Err(failure) => Err(failure),
        },
    }
}

/// The given lines with normalized line ends.
spec fn lf_lines(lines: Seq<Seq<char>>) -> Seq<Seq<char>> {
    lines.map_values(|line: Seq<char>| lf_text(line))
}

proof fn lemma_expand_lf_lines(
    files: Files,
    current: PathView,
    lines: Seq<Seq<char>>,
    open: Seq<PathView>,
)
    requires
        files.dom().finite(),
        have_whole_lines(files),
        are_lines(lines),
    ensures
        expand(lf_files(files), current, lf_lines(lines), open) == lf_expanded(
            expand(files, current, lines, open),
        ),
    decreases unopened(files, open), lines.len(),
{
    let lf = lf_files(files);
    assert(lf.dom() == files.dom());
    if lines.len() > 0 {
        let first = expand_line(files, current, lines[0], open);
        let rest = expand(files, current, lines.drop_first(), open);
        lemma_rest_are_lines(lines);
        lemma_expand_lf_lines(files, current, lines.drop_first(), open);
        assert(lf_lines(lines).drop_first() == lf_lines(lines.drop_first()));
        lf_text_keeps_target(lines[0]);
        if let Some(path) = taken_in(current, lines[0]) {
            if !open.contains(path) && files.contains_key(path) {
                lemma_unopened(files, open, path);
                lemma_lines_end(files[path]);
                lf_text_keeps_lines(files[path]);
                lemma_expand_lf_lines(files, path, split_lines(files[path]), open.push(path));
            }
        }
        assert(expand_line(lf, current, lf_lines(lines)[0], open) == lf_expanded(first));
        if let (Ok(text), Ok(more)) = (first.result, rest.result) {
            if lines.len() == 1 {
                assert(text + more == text);
                assert(lf_text(text) + lf_text(more) == lf_text(text));
            } else {
                lemma_line_expands_to_whole_lines(files, current, lines[0], open);
                lf_text_goes_on(text, more);
            }
        }
    }
}

/// Where each file is empty or ends in a line feed, it makes no difference
/// whether line ends are normalized before or after expanding.
pub proof fn expanding_commutes_with_normalizing(
    files: Files,
    current: PathView,
    text: Seq<char>,
    open: Seq<PathView>,
)
    requires
        files.dom().finite(),
        have_whole_lines(files),
    ensures
        expand(lf_files(files), current, split_lines(lf_text(text)), open) == lf_expanded(
            expand(files, current, split_lines(text), open),
        ),
{
    lemma_lines_end(text);
    lf_text_keeps_lines(text);
    lemma_expand_lf_lines(files, current, split_lines(text), open);
}

// ---------------------------------------------------------------------------
// Chains
// ---------------------------------------------------------------------------

/// The text of the file at position `i` of a chain: the first has the given
/// text.
pub open spec fn chain_text(
    files: Files,
    text: Seq<char>,
    chain: Seq<PathView>,
    i: int,
) -> Seq<char> {
    if i == 0 {
        text
    } else {
        files[chain[i]]
    }
}

/// Whether `chain` leads from the file at `start` with the given text from file
/// to file, each taking in the next. Only its last file need not be there.
pub open spec fn is_chain(
    files: Files,
    start: PathView,
    text: Seq<char>,
    chain: Seq<PathView>,
) -> bool {
    &&& chain.len() > 0
    &&& chain[0] == start
    &&& forall|i: int|
        #![trigger chain[i]]
        0 <= i < chain.len() - 1 ==> (i > 0 ==> files.contains_key(chain[i])) && takes_in(
            chain[i],
            chain_text(files, text, chain, i),
            chain[i + 1],
        )
}

/// Whether a chain stays within the files and repeats none.
pub open spec fn is_sound(files: Files, chain: Seq<PathView>) -> bool {
    &&& forall|i: int| 0 < i < chain.len() ==> files.contains_key(#[trigger] chain[i])
    &&& chain.no_duplicates()
}

/// Lines can be expanded only where each file that they take in can be.
proof fn lemma_taken_in_expands(
    files: Files,
    current: PathView,
    lines: Seq<Seq<char>>,
    open: Seq<PathView>,
    path: PathView,
)
    requires
        files.dom().finite(),
        expand(files, current, lines, open).result is Ok,
        lines_take_in(current, lines, path),
    ensures
        !open.contains(path),
        files.contains_key(path),
        expand(files, path, split_lines(files[path]), open.push(path)).result is Ok,
    decreases lines.len(),
{
    lemma_lines_take_in(current, lines, path);
    let first = expand_line(files, current, lines[0], open);
    assert(first.result is Ok);
    if taken_in(current, lines[0]) != Some(path) {
        lemma_taken_in_expands(files, current, lines.drop_first(), open, path);
    }
}

/// A chain from a file that can be expanded is sound, and its last file can be
/// expanded.
proof fn lemma_chain_is_sound(
    files: Files,
    start: PathView,
    text: Seq<char>,
    chain: Seq<PathView>,
)
    requires
        files.dom().finite(),
        expand(files, start, split_lines(text), seq![start]).result is Ok,
        is_chain(files, start, text, chain),
    ensures
        is_sound(files, chain),
        expand(
            files,
            chain.last(),
            split_lines(chain_text(files, text, chain, chain.len() - 1)),
            chain,
        ).result is Ok,
    decreases chain.len(),
{
    if chain.len() == 1 {
        assert(chain == seq![start]);
    } else {
        let head = chain.drop_last();
        let last = chain.last();
        let n = head.len() - 1;
        assert forall|i: int|
            #![trigger head[i]]
            0 <= i < head.len() - 1 implies (i > 0 ==> files.contains_key(head[i])) && takes_in(
            head[i],
            chain_text(files, text, head, i),
            head[i + 1],
        ) by {
            assert(head[i] == chain[i]);
        }
        lemma_chain_is_sound(files, start, text, head);
        assert(chain[n] == head[n]);
        assert(chain_text(files, text, chain, n) == chain_text(files, text, head, n));
        assert(takes_in(head[n], chain_text(files, text, head, n), last));
        lemma_taken_in_expands(
            files,
            head.last(),
            split_lines(chain_text(files, text, head, n)),
            head,
            last,
        );
        assert(head.push(last) == chain);
        assert forall|i: int| 0 < i < chain.len() implies files.contains_key(
            #[trigger] chain[i],
        ) by {
            if i < head.len() {
                assert(head[i] == chain[i]);
            }
        }
        assert forall|i: int, j: int|
            0 <= i < chain.len() && 0 <= j < chain.len() && i != j implies chain[i] != chain[j] by {
            if i < head.len() {
                assert(head[i] == chain[i]);
                assert(head.contains(head[i]));
            }
            if j < head.len() {
                assert(head[j] == chain[j]);
                assert(head.contains(head[j]));
            }
        }
    }
}

/// Where lines cannot be expanded, a chain through them is not sound.
proof fn lemma_unsound_chain(
    files: Files,
    start: PathView,
    text: Seq<char>,
    lines: Seq<Seq<char>>,
    open: Seq<PathView>,
) -> (chain: Seq<PathView>)
    requires
        files.dom().finite(),
        is_chain(files, start, text, open),
        open.len() > 1 ==> files.contains_key(open.last()),
        forall|path: PathView| #[trigger]
            lines_take_in(open.last(), lines, path) ==> takes_in(
                open.last(),
                chain_text(files, text, open, open.len() - 1),
                path,
            ),
        expand(files, open.last(), lines, open).result is Err,
    ensures
        is_chain(files, start, text, chain),
        !is_sound(files, chain),
    decreases unopened(files, open), lines.len(),
{
    let current = open.last();
    let first = expand_line(files, current, lines[0], open);
    if first.result is Ok {
        assert forall|path: PathView| #[trigger] lines_take_in(
            current,
            lines.drop_first(),
            path,
        ) implies takes_in(current, chain_text(files, text, open, open.len() - 1), path) by {
            lemma_lines_take_in(current, lines, path);
            assert(lines_take_in(current, lines, path));
        }
        lemma_unsound_chain(files, start, text, lines.drop_first(), open)
    } else {
        let path = taken_in(current, lines[0])->Some_0;
        assert(lines_take_in(current, lines, path));
        let inner = open.push(path);
        assert(inner[0] == open[0]);
        assert forall|i: int|
            #![trigger inner[i]]
            0 <= i < inner.len() - 1 implies (i > 0 ==> files.contains_key(inner[i])) && takes_in(
            inner[i],
            chain_text(files, text, inner, i),
            inner[i + 1],
        ) by {
            assert(inner[i] == open[i]);
            if i + 1 < open.len() {
                assert(inner[i + 1] == open[i + 1]);
            }
        }
        if open.contains(path) {
            let k = choose|k: int| 0 <= k < open.len() && open[k] == path;
            assert(inner[k] == inner[open.len() as int]);
            inner
        } else if !files.contains_key(path) {
            assert(inner[open.len() as int] == path);
            inner
        } else {
            lemma_unopened(files, open, path);
            assert forall|q: PathView| #[trigger] lines_take_in(
                path,
                split_lines(files[path]),
                q,
            ) implies takes_in(path, chain_text(files, text, inner, inner.len() - 1), q) by {}
            lemma_unsound_chain(files, start, text, split_lines(files[path]), inner)
        }
    }
}

/// A text can be expanded exactly where every chain of files that leads from it
/// stays within the files and repeats none.
pub proof fn expanding_succeeds_for_sound_chains(
    files: Files,
    start: PathView,
    text: Seq<char>,
)
    requires
        files.dom().finite(),
    ensures
        expand(files, start, split_lines(text), seq![start]).result is Ok <==> forall|
            chain: Seq<PathView>,
        | #[trigger]
            is_chain(files, start, text, chain) ==> is_sound(files, chain),
{
    let lines = split_lines(text);
    if expand(files, start, lines, seq![start]).result is Ok {
        assert forall|chain: Seq<PathView>| #[trigger]
            is_chain(files, start, text, chain) implies is_sound(files, chain) by {
            lemma_chain_is_sound(files, start, text, chain);
        }
    } else {
        assert(seq![start].last() == start);
        assert(is_chain(files, start, text, seq![start]));
        let chain = lemma_unsound_chain(files, start, text, lines, seq![start]);
        assert(is_chain(files, start, text, chain));
    }
}

} // verus!
