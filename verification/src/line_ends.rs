//! Line ends of feature text.

use crate::directive::target;
use crate::text::{split_lines, to_chars, trim, trim_end, trim_start, TrimSet};
use std::borrow::Cow;
use vstd::prelude::*;

verus! {

broadcast use vstd::seq::group_seq_axioms;

/// Whether `text` ends with a carriage return and a line feed.
pub open spec fn ends_with_crlf(text: Seq<char>) -> bool {
    text.len() >= 2 && text[text.len() - 2] == '\r' && text.last() == '\n'
}

/// `text` with each carriage return and line feed replaced by a line feed.
pub open spec fn lf_text(text: Seq<char>) -> Seq<char>
    decreases text.len(),
{
    if text.len() == 0 {
        text
    } else if ends_with_crlf(text) {
        lf_text(text.take(text.len() - 2)).push('\n')
    } else {
        lf_text(text.drop_last()).push(text.last())
    }
}

/// Whether a carriage return stands directly before a line feed in `text`.
pub open spec fn has_crlf(text: Seq<char>) -> bool {
    exists|i: int| 0 <= i < text.len() - 1 && #[trigger] text[i] == '\r' && text[i + 1] == '\n'
}

/// Text without a carriage return before a line feed is kept as it is.
pub proof fn lf_text_is_kept(text: Seq<char>)
    requires
        !has_crlf(text),
    ensures
        lf_text(text) == text,
    decreases text.len(),
{
    if text.len() > 0 {
        if ends_with_crlf(text) {
            assert(text[text.len() - 2] == '\r');
            assert(has_crlf(text));
        }
        let head = text.drop_last();
        assert forall|i: int| 0 <= i < head.len() - 1 && #[trigger] head[i] == '\r' implies head[i
            + 1] != '\n' by {
            assert(text[i] == '\r');
        }
        lf_text_is_kept(head);
        assert(head.push(text.last()) == text);
    }
}

/// Normalized text has no carriage return before a line feed, unless two of them
/// stood before it.
pub proof fn lf_text_has_no_crlf(text: Seq<char>)
    requires
        forall|i: int|
            0 <= i < text.len() - 2 && #[trigger] text[i] == '\r' && text[i + 1] == '\r' ==> text[i
                + 2] != '\n',
    ensures
        !has_crlf(lf_text(text)),
        text.len() > 0 ==> lf_text(text).len() > 0 && lf_text(text).last() == text.last(),
    decreases text.len(),
{
    if text.len() > 0 {
        let crlf = ends_with_crlf(text);
        let head = if crlf {
            text.take(text.len() - 2)
        } else {
            text.drop_last()
        };
        assert forall|i: int|
            0 <= i < head.len() - 2 && #[trigger] head[i] == '\r' && head[i + 1]
                == '\r' implies head[i + 2] != '\n' by {
            assert(text[i] == '\r');
        }
        lf_text_has_no_crlf(head);
        let done = lf_text(head);
        let res = lf_text(text);
        assert(res == done.push(text.last()));
        if has_crlf(res) {
            let i = choose|i: int|
                0 <= i < res.len() - 1 && #[trigger] res[i] == '\r' && res[i + 1] == '\n';
            if i < done.len() - 1 {
                assert(done[i] == '\r' && done[i + 1] == '\n');
            } else {
                assert(done.last() == '\r');
                lemma_lf_last(head);
                assert(head.last() == '\r');
                if crlf {
                    assert(text[text.len() - 3] == '\r');
                }
            }
            assert(false);
        }
    }
}

/// Normalizing line ends twice is normalizing them once, unless two carriage
/// returns stand before a line feed.
pub proof fn lf_text_is_idempotent(text: Seq<char>)
    requires
        forall|i: int|
            0 <= i < text.len() - 2 && #[trigger] text[i] == '\r' && text[i + 1] == '\r' ==> text[i
                + 2] != '\n',
    ensures
        lf_text(lf_text(text)) == lf_text(text),
{
    lf_text_has_no_crlf(text);
    lf_text_is_kept(lf_text(text));
}

/// The last character of a text stays last.
pub proof fn lemma_lf_last(text: Seq<char>)
    ensures
        text.len() == 0 <==> lf_text(text).len() == 0,
        text.len() > 0 ==> lf_text(text).last() == text.last(),
{
}

/// Normalizes CRLF to LF in feature text.
pub fn normalize_feature_text(contents: &str) -> (res: Cow<'_, str>)
    ensures
        res@ == lf_text(contents@),
        res is Borrowed <==> !contents@.contains('\r'),
{
    let chars = to_chars(contents);
    let n = chars.len();
    let mut found = false;
    let mut i: usize = 0;
    while i < n && !found
        invariant
            n == chars@.len(),
            i <= n,
            !found ==> forall|j: int| 0 <= j < i ==> chars@[j] != '\r',
            found ==> chars@.contains('\r'),
        decreases n - i,
    {
        if chars[i] == '\r' {
            assert(chars@.contains(chars@[i as int]));
            found = true;
        }
        i += 1;
    }
    if !found {
        proof {
            lf_text_is_kept(contents@);
        }
        return Cow::Borrowed(contents);
    }
    let mut out = String::new();
    let mut skipped = false;
    i = 0;
    assert(chars@.take(0) == Seq::<char>::empty());
    while i < n
        invariant
            n == chars@.len(),
            i <= n,
            skipped ==> 0 < i < n && chars@[i - 1] == '\r' && chars@[i as int] == '\n',
            !skipped && 0 < i < n ==> !(chars@[i - 1] == '\r' && chars@[i as int] == '\n'),
            out@ == lf_text(
                chars@.take(
                    if skipped {
                        i - 1
                    } else {
                        i as int
                    },
                ),
            ),
        decreases n - i,
    {
        let c = chars[i];
        let ghost next = chars@.take(i + 1);
        assert(next.drop_last() == chars@.take(i as int));
        assert(next.last() == c);
        if skipped {
            assert(next.take(next.len() - 2) == chars@.take(i - 1));
        }
        if c == '\r' && i + 1 < n && chars[i + 1] == '\n' {
            skipped = true;
        } else {
            out.push(c);
            skipped = false;
        }
        i += 1;
    }
    assert(chars@.take(n as int) == chars@);
    Cow::Owned(out)
}

// ---------------------------------------------------------------------------
// Line ends and directives
// ---------------------------------------------------------------------------

/// Whether a line feed stands in `line` only at its end.
pub open spec fn is_line(line: Seq<char>) -> bool {
    &&& line.len() > 0
    &&& forall|j: int| 0 <= j < line.len() - 1 ==> line[j] != '\n'
}

/// The lines of a text are lines, and its last character ends the last one.
pub proof fn lemma_lines_are_lines(text: Seq<char>)
    ensures
        forall|i: int| 0 <= i < split_lines(text).len() ==> is_line(#[trigger] split_lines(text)[i]),
        text.len() > 0 ==> split_lines(text).len() > 0 && split_lines(text).last().last()
            == text.last(),
    decreases text.len(),
{
    if text.len() > 0 {
        lemma_lines_are_lines(text.drop_last());
        if text.len() > 1 {
            assert(text.drop_last().last() == text[text.len() - 2]);
        }
    }
}

/// The lines of a text with normalized line ends are the normalized lines of
/// the text.
pub proof fn lf_text_keeps_lines(text: Seq<char>)
    ensures
        split_lines(lf_text(text)) == split_lines(text).map_values(|line: Seq<char>| lf_text(line)),
    decreases text.len(),
{
    let f = |line: Seq<char>| lf_text(line);
    let done = lf_text(text);
    if text.len() == 0 {
        assert(split_lines(text).map_values(f) == Seq::<Seq<char>>::empty());
    } else {
        let c = text.last();
        let crlf = ends_with_crlf(text);
        let head = if crlf {
            text.take(text.len() - 2)
        } else {
            text.drop_last()
        };
        lf_text_keeps_lines(head);
        lemma_lf_last(head);
        lemma_lines_are_lines(head);
        let lines = split_lines(head);
        assert(done == lf_text(head).push(c));
        assert(done.drop_last() == lf_text(head));
        let fresh = head.len() == 0 || head.last() == '\n';
        let tail: Seq<char> = if crlf {
            seq!['\r', '\n']
        } else {
            seq![c]
        };
        if crlf {
            let middle = text.drop_last();
            assert(middle.drop_last() == head);
            reveal_with_fuel(split_lines, 3);
            if !fresh {
                assert(middle.len() > 1 && middle[middle.len() - 2] == head.last());
                assert(split_lines(middle) == lines.drop_last().push(lines.last().push('\r')));
                assert(split_lines(middle).drop_last() == lines.drop_last());
                assert(lines.last().push('\r').push('\n') == lines.last() + tail);
            } else {
                assert(split_lines(middle) == lines.push(seq!['\r']));
                assert(split_lines(middle).drop_last() == lines);
                assert(seq!['\r'].push('\n') == tail);
            }
        }
        if fresh {
            assert(split_lines(text) == lines.push(tail));
            assert(lf_text(tail) == seq![c]) by {
                reveal_with_fuel(lf_text, 3);
                if crlf {
                    assert(ends_with_crlf(tail));
                    assert(tail.take(0) == Seq::<char>::empty());
                    assert(Seq::<char>::empty().push('\n') == seq!['\n']);
                } else {
                    assert(tail.drop_last() == Seq::<char>::empty());
                    assert(Seq::<char>::empty().push(c) == seq![c]);
                }
            }
            assert(split_lines(done) == split_lines(lf_text(head)).push(seq![c]));
            assert(lines.push(tail).map_values(f) == lines.map_values(f).push(lf_text(tail)));
        } else {
            let last = lines.last();
            assert(!crlf ==> last.push(c) == last + tail);
            assert(split_lines(text) == lines.drop_last().push(last + tail));
            assert(lf_text(last + tail) == lf_text(last).push(c)) by {
                if crlf {
                    assert((last + tail).take((last + tail).len() - 2) == last);
                    assert(ends_with_crlf(last + tail));
                } else {
                    assert((last + tail).drop_last() == last);
                    assert(last.last() == head.last());
                    assert((last + tail)[(last + tail).len() - 2] == last.last());
                    assert(text[text.len() - 2] == head.last());
                }
            }
            let mapped = lines.map_values(f);
            assert(mapped.last() == lf_text(last));
            assert(done[done.len() - 2] == lf_text(head).last());
            assert(split_lines(done) == mapped.drop_last().push(mapped.last().push(c)));
            assert(lines.drop_last().push(last + tail).map_values(f) == mapped.drop_last().push(
                lf_text(last + tail),
            ));
        }
    }
}

proof fn lemma_trim_start_push(text: Seq<char>, c: char)
    requires
        TrimSet::WhiteSpace.has(c),
    ensures
        trim_end(trim_start(text.push(c), TrimSet::WhiteSpace), TrimSet::WhiteSpace) == trim(
            text,
            TrimSet::WhiteSpace,
        ),
    decreases text.len(),
{
    let set = TrimSet::WhiteSpace;
    if text.len() == 0 {
        let none: Seq<char> = Seq::empty();
        assert(text.push(c).drop_first() == none);
        reveal_with_fuel(trim_start, 2);
        assert(trim_start(text.push(c), set) == none);
        assert(trim_start(text, set) == none);
    } else if set.has(text.first()) {
        assert(text.push(c).drop_first() == text.drop_first().push(c));
        lemma_trim_start_push(text.drop_first(), c);
    } else {
        assert(text.push(c).first() == text.first());
        assert(text.push(c).drop_last() == text);
    }
}

/// White space at the end of a line does not change the file that it takes in.
pub proof fn white_space_keeps_target(line: Seq<char>, c: char)
    requires
        TrimSet::WhiteSpace.has(c),
    ensures
        target(line.push(c)) == target(line),
{
    lemma_trim_start_push(line, c);
}

/// Normalizing line ends does not change the file that a line takes in.
pub proof fn lf_text_keeps_target(line: Seq<char>)
    requires
        is_line(line),
    ensures
        target(lf_text(line)) == target(line),
{
    if ends_with_crlf(line) {
        let head = line.take(line.len() - 2);
        assert(!has_crlf(head));
        lf_text_is_kept(head);
        white_space_keeps_target(head, '\r');
        white_space_keeps_target(head.push('\r'), '\n');
        white_space_keeps_target(head, '\n');
        assert(head.push('\r').push('\n') == line);
    } else {
        if has_crlf(line) {
            let i = choose|i: int|
                0 <= i < line.len() - 1 && #[trigger] line[i] == '\r' && line[i + 1] == '\n';
            assert(i == line.len() - 2);
        }
        lf_text_is_kept(line);
    }
}

/// Normalizing line ends does not change which files the lines of a text take
/// in.
pub proof fn lf_text_keeps_targets(text: Seq<char>)
    ensures
        split_lines(lf_text(text)).len() == split_lines(text).len(),
        forall|i: int|
            0 <= i < split_lines(text).len() ==> target(#[trigger] split_lines(lf_text(text))[i])
                == target(split_lines(text)[i]),
{
    lf_text_keeps_lines(text);
    lemma_lines_are_lines(text);
    assert forall|i: int| 0 <= i < split_lines(text).len() implies target(
        #[trigger] split_lines(lf_text(text))[i],
    ) == target(split_lines(text)[i]) by {
        lf_text_keeps_target(split_lines(text)[i]);
    }
}

} // verus!
