//! What holds of trimming, of lines, of line ends and of the order of bytes.

use crate::expand_laws::lf_text_goes_on;
use crate::laws::lines_make_up_text;
use crate::line_ends::{lf_text, lf_text_is_kept};
use crate::text::{bytes_before, split_lines, trim, trim_end, trim_start, TrimSet};
use vstd::prelude::*;

verus! {

broadcast use vstd::seq::group_seq_axioms;

// ---------------------------------------------------------------------------
// Trimming
// ---------------------------------------------------------------------------

proof fn lemma_trim_start_skips(front: Seq<char>, rest: Seq<char>, set: TrimSet)
    requires
        forall|i: int| 0 <= i < front.len() ==> set.has(#[trigger] front[i]),
    ensures
        trim_start(front + rest, set) == trim_start(rest, set),
    decreases front.len(),
{
    if front.len() == 0 {
        assert(front + rest == rest);
    } else {
        assert((front + rest).first() == front[0]);
        assert((front + rest).drop_first() == front.drop_first() + rest);
        lemma_trim_start_skips(front.drop_first(), rest, set);
    }
}

proof fn lemma_trim_end_skips(rest: Seq<char>, back: Seq<char>, set: TrimSet)
    requires
        forall|i: int| 0 <= i < back.len() ==> set.has(#[trigger] back[i]),
    ensures
        trim_end(rest + back, set) == trim_end(rest, set),
    decreases back.len(),
{
    if back.len() == 0 {
        assert(rest + back == rest);
    } else {
        assert((rest + back).last() == back[back.len() - 1]);
        assert((rest + back).drop_last() == rest + back.drop_last());
        lemma_trim_end_skips(rest, back.drop_last(), set);
    }
}

/// Characters of the set around a text that neither begins nor ends with one
/// are stripped, and nothing else is.
pub proof fn trimming_strips_what_surrounds(
    front: Seq<char>,
    text: Seq<char>,
    back: Seq<char>,
    set: TrimSet,
)
    requires
        forall|i: int| 0 <= i < front.len() ==> set.has(#[trigger] front[i]),
        forall|i: int| 0 <= i < back.len() ==> set.has(#[trigger] back[i]),
        text.len() > 0 ==> !set.has(text[0]) && !set.has(text[text.len() - 1]),
    ensures
        trim(front + text + back, set) == text,
{
    assert(front + text + back == front + (text + back));
    lemma_trim_start_skips(front, text + back, set);
    if text.len() == 0 {
        assert(text + back == back + Seq::empty());
        lemma_trim_start_skips(back, Seq::empty(), set);
        assert(trim_start(Seq::empty(), set) == Seq::<char>::empty());
        assert(text == Seq::<char>::empty());
    } else {
        assert((text + back).first() == text[0]);
        lemma_trim_end_skips(text, back, set);
    }
}

proof fn lemma_trim_start_leaves(text: Seq<char>, set: TrimSet) -> (front: Seq<char>)
    ensures
        text == front + trim_start(text, set),
        forall|i: int| 0 <= i < front.len() ==> set.has(#[trigger] front[i]),
        trim_start(text, set).len() > 0 ==> !set.has(trim_start(text, set)[0]),
    decreases text.len(),
{
    if text.len() > 0 && set.has(text.first()) {
        let front = lemma_trim_start_leaves(text.drop_first(), set);
        let whole = seq![text.first()] + front;
        assert(text == seq![text.first()] + text.drop_first());
        assert(whole + trim_start(text, set) == seq![text.first()] + (front + trim_start(
            text,
            set,
        )));
        whole
    } else {
        assert(text == Seq::<char>::empty() + text);
        Seq::empty()
    }
}

proof fn lemma_trim_end_leaves(text: Seq<char>, set: TrimSet) -> (back: Seq<char>)
    ensures
        text == trim_end(text, set) + back,
        forall|i: int| 0 <= i < back.len() ==> set.has(#[trigger] back[i]),
        trim_end(text, set).len() > 0 ==> !set.has(
            trim_end(text, set)[trim_end(text, set).len() - 1],
        ),
    decreases text.len(),
{
    if text.len() > 0 && set.has(text.last()) {
        let back = lemma_trim_end_leaves(text.drop_last(), set);
        let whole = back.push(text.last());
        assert(text == text.drop_last().push(text.last()));
        assert(trim_end(text, set) + whole == (trim_end(text, set) + back).push(text.last()));
        whole
    } else {
        assert(text == text + Seq::<char>::empty());
        Seq::empty()
    }
}

/// A text is what trimming leaves, with characters of the set around it; what is
/// left neither begins nor ends with one.
pub proof fn trimming_leaves_the_middle(text: Seq<char>, set: TrimSet) -> (around: (
    Seq<char>,
    Seq<char>,
))
    ensures
        text == around.0 + trim(text, set) + around.1,
        forall|i: int| 0 <= i < around.0.len() ==> set.has(#[trigger] around.0[i]),
        forall|i: int| 0 <= i < around.1.len() ==> set.has(#[trigger] around.1[i]),
        trim(text, set).len() > 0 ==> !set.has(trim(text, set)[0]) && !set.has(
            trim(text, set)[trim(text, set).len() - 1],
        ),
{
    let front = lemma_trim_start_leaves(text, set);
    let rest = trim_start(text, set);
    let back = lemma_trim_end_leaves(rest, set);
    let middle = trim_end(rest, set);
    if middle.len() > 0 {
        assert(rest[0] == middle[0]);
    }
    assert(front + (middle + back) == front + middle + back);
    (front, back)
}

// ---------------------------------------------------------------------------
// Lines
// ---------------------------------------------------------------------------

/// The lines of a text put together are the text; no line is empty, a line feed
/// stands only at the end of a line, and each line but the last ends in one.
pub proof fn lines_end_in_line_feeds(text: Seq<char>)
    ensures
        split_lines(text).flatten() == text,
        forall|i: int|
            0 <= i < split_lines(text).len() ==> (#[trigger] split_lines(text)[i]).len() > 0,
        forall|i: int, j: int|
            0 <= i < split_lines(text).len() && 0 <= j < split_lines(text)[i].len() - 1
                ==> #[trigger] split_lines(text)[i][j] != '\n',
        forall|i: int|
            0 <= i < split_lines(text).len() - 1 ==> (#[trigger] split_lines(text)[i])[split_lines(
                text,
            )[i].len() - 1] == '\n',
{
    lines_make_up_text(text);
    crate::line_ends::lemma_lines_are_lines(text);
    crate::expand_laws::lemma_lines_end(text);
    let lines = split_lines(text);
    assert forall|i: int, j: int|
        0 <= i < lines.len() && 0 <= j < lines[i].len() - 1 implies #[trigger] lines[i][j] != '\n' by {
        assert(crate::line_ends::is_line(lines[i]));
    }
}

// ---------------------------------------------------------------------------
// Line ends
// ---------------------------------------------------------------------------

/// The first carriage return that stands before a line feed is left out, what
/// stands before it is kept, and what follows is normalized in turn.
pub proof fn normalizing_drops_the_first_carriage_return(head: Seq<char>, rest: Seq<char>)
    requires
        forall|i: int|
            0 <= i < head.len() - 1 && #[trigger] head[i] == '\r' ==> head[i + 1] != '\n',
    ensures
        lf_text(head + seq!['\r', '\n'] + rest) == head + seq!['\n'] + lf_text(rest),
{
    let text = head + seq!['\r', '\n'];
    assert(text.take(text.len() - 2) == head);
    assert(text[text.len() - 2] == '\r' && text.last() == '\n');
    lf_text_is_kept(head);
    assert(lf_text(text) == head.push('\n'));
    assert(head.push('\n') == head + seq!['\n']);
    lf_text_goes_on(text, rest);
}

/// A text in which no carriage return stands before a line feed is kept.
pub proof fn normalizing_keeps_other_text(text: Seq<char>)
    requires
        forall|i: int|
            0 <= i < text.len() - 1 && #[trigger] text[i] == '\r' ==> text[i + 1] != '\n',
    ensures
        lf_text(text) == text,
{
    lf_text_is_kept(text);
}

// ---------------------------------------------------------------------------
// Order
// ---------------------------------------------------------------------------

/// The first byte in which they differ decides the order of two sequences.
pub proof fn first_difference_orders_bytes(
    common: Seq<u8>,
    a: u8,
    rest_a: Seq<u8>,
    b: u8,
    rest_b: Seq<u8>,
)
    requires
        a != b,
    ensures
        bytes_before(common + seq![a] + rest_a, common + seq![b] + rest_b) == (a < b),
    decreases common.len(),
{
    let x = common + seq![a] + rest_a;
    let y = common + seq![b] + rest_b;
    if common.len() == 0 {
        assert(x[0] == a && y[0] == b);
    } else {
        let more = common.drop_first();
        assert(x[0] == common[0] && y[0] == common[0]);
        assert(x.drop_first() == more + seq![a] + rest_a);
        assert(y.drop_first() == more + seq![b] + rest_b);
        first_difference_orders_bytes(more, a, rest_a, b, rest_b);
    }
}

/// A sequence stands before its continuations, and not before itself.
pub proof fn shorter_bytes_stand_first(common: Seq<u8>, rest: Seq<u8>)
    ensures
        bytes_before(common, common + rest) == (rest.len() > 0),
        !bytes_before(common + rest, common),
    decreases common.len(),
{
    let whole = common + rest;
    if common.len() > 0 {
        assert(whole[0] == common[0]);
        assert(whole.drop_first() == common.drop_first() + rest);
        shorter_bytes_stand_first(common.drop_first(), rest);
    }
}

} // verus!
