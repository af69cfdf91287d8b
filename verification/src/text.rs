//! Text as sequences of characters: white space, trimming, lines, line ends
//! and order.

use vstd::prelude::*;
use vstd::utf8::{encode_utf8, encode_utf8_decode_utf8};

verus! {

broadcast use vstd::seq::group_seq_axioms;

/// `String::push` appends one character to the end of the string.
pub assume_specification[ String::push ](string: &mut String, c: char)
    ensures
        final(string)@ == old(string)@.push(c),
;

/// The characters with the Unicode property `White_Space`.
pub open spec fn is_white_space(c: char) -> bool {
    ||| '\u{9}' <= c <= '\u{d}'
    ||| c == ' '
    ||| c == '\u{85}'
    ||| c == '\u{a0}'
    ||| c == '\u{1680}'
    ||| '\u{2000}' <= c <= '\u{200a}'
    ||| c == '\u{2028}'
    ||| c == '\u{2029}'
    ||| c == '\u{202f}'
    ||| c == '\u{205f}'
    ||| c == '\u{3000}'
}

/// A set of characters that can be stripped from the ends of a text.
#[derive(Clone, Copy, Debug, PartialEq, Eq, Structural)]
pub enum TrimSet {
    /// The Unicode white space.
    WhiteSpace,
    /// The double and the single quote.
    Quotes,
}

impl TrimSet {
    pub open spec fn has(self, c: char) -> bool {
        match self {
            TrimSet::WhiteSpace => is_white_space(c),
            TrimSet::Quotes => c == '"' || c == '\'',
        }
    }

    /// Whether `c` belongs to the set.
    pub fn contains(&self, c: char) -> (res: bool)
        ensures
            res == self.has(c),
    {
        match self {
            TrimSet::WhiteSpace => {
                ('\u{9}' <= c && c <= '\u{d}') || c == ' ' || c == '\u{85}' || c == '\u{a0}' || c
                    == '\u{1680}' || ('\u{2000}' <= c && c <= '\u{200a}') || c == '\u{2028}' || c
                    == '\u{2029}' || c == '\u{202f}' || c == '\u{205f}' || c == '\u{3000}'
            },
            TrimSet::Quotes => c == '"' || c == '\'',
        }
    }
}

/// `text` without its longest prefix of characters of `set`.
pub open spec fn trim_start(text: Seq<char>, set: TrimSet) -> Seq<char>
    decreases text.len(),
{
    if text.len() > 0 && set.has(text.first()) {
        trim_start(text.drop_first(), set)
    } else {
        text
    }
}

/// `text` without its longest suffix of characters of `set`.
pub open spec fn trim_end(text: Seq<char>, set: TrimSet) -> Seq<char>
    decreases text.len(),
{
    if text.len() > 0 && set.has(text.last()) {
        trim_end(text.drop_last(), set)
    } else {
        text
    }
}

/// `text` stripped of the characters of `set` on both sides.
pub open spec fn trim(text: Seq<char>, set: TrimSet) -> Seq<char> {
    trim_end(trim_start(text, set), set)
}

/// The characters of `text` in order.
pub fn to_chars(text: &str) -> (chars: Vec<char>)
    ensures
        chars@ == text@,
{
    let mut chars: Vec<char> = Vec::new();
    for c in iter: text.chars()
        invariant
            iter.seq() == text@,
            chars@ == text@.take(iter.index()),
    {
        chars.push(c);
    }
    chars
}

/// The text made of `chars`.
pub fn from_chars(chars: &[char]) -> (text: String)
    ensures
        text@ == chars@,
{
    let mut text = String::new();
    let mut i: usize = 0;
    while i < chars.len()
        invariant
            i <= chars@.len(),
            text@ == chars@.take(i as int),
        decreases chars@.len() - i,
    {
        text.push(chars[i]);
        i += 1;
    }
    text
}

/// Strips the characters of `set` from both ends of `chars`.
pub fn trim_chars(chars: &[char], set: TrimSet) -> (res: &[char])
    ensures
        res@ == trim(chars@, set),
{
    let mut lo: usize = 0;
    assert(chars@.skip(0) == chars@);
    while lo < chars.len() && set.contains(chars[lo])
        invariant
            lo <= chars@.len(),
            trim_start(chars@, set) == trim_start(chars@.skip(lo as int), set),
        decreases chars@.len() - lo,
    {
        assert(chars@.skip(lo as int).drop_first() == chars@.skip(lo + 1));
        lo += 1;
    }
    let mut hi: usize = chars.len();
    assert(chars@.subrange(lo as int, hi as int) == chars@.skip(lo as int));
    while hi > lo && set.contains(chars[hi - 1])
        invariant
            lo <= hi <= chars@.len(),
            trim_start(chars@, set) == chars@.skip(lo as int),
            trim(chars@, set) == trim_end(chars@.subrange(lo as int, hi as int), set),
        decreases hi,
    {
        assert(chars@.subrange(lo as int, hi as int).drop_last() == chars@.subrange(
            lo as int,
            hi - 1,
        ));
        hi -= 1;
    }
    vstd::slice::slice_subrange(chars, lo, hi)
}

/// The texts of a sequence of strings.
pub open spec fn texts(strings: Seq<String>) -> Seq<Seq<char>> {
    strings.map_values(|s: String| s@)
}

/// The lines of `text`, each with the line feed that ends it. Only the last
/// line can lack one, and no line is empty.
pub open spec fn split_lines(text: Seq<char>) -> Seq<Seq<char>>
    decreases text.len(),
{
    if text.len() == 0 {
        Seq::empty()
    } else {
        let head = split_lines(text.drop_last());
        if text.len() == 1 || text[text.len() - 2] == '\n' {
            head.push(seq![text.last()])
        } else {
            head.drop_last().push(head.last().push(text.last()))
        }
    }
}

/// A text that is not empty has a line.
pub proof fn lemma_lines_exist(text: Seq<char>)
    requires
        text.len() > 0,
    ensures
        split_lines(text).len() > 0,
    decreases text.len(),
{
    if text.len() > 1 {
        lemma_lines_exist(text.drop_last());
    }
}

/// Cuts `text` after each line feed.
pub fn lines_of(text: &str) -> (lines: Vec<String>)
    ensures
        texts(lines@) == split_lines(text@),
{
    let mut lines: Vec<String> = Vec::new();
    let mut line = String::new();
    for c in iter: text.chars()
        invariant
            iter.seq() == text@,
            iter.index() == 0 ==> lines@.len() == 0 && line@.len() == 0,
            iter.index() > 0 ==> (line@.len() == 0 <==> text@[iter.index() - 1] == '\n'),
            split_lines(text@.take(iter.index())) == if line@.len() == 0 {
                texts(lines@)
            } else {
                texts(lines@).push(line@)
            },
    {
        let ghost before = line@;
        let ghost lines_before = lines@;
        proof {
            let i = iter.index();
            assert(text@.take(i + 1).drop_last() == text@.take(i));
            assert(text@.take(i + 1).last() == c);
            if before.len() > 0 {
                assert(texts(lines@).push(before).drop_last() == texts(lines@));
            }
            assert(before.push(c) == if before.len() == 0 { seq![c] } else { before.push(c) });
        }
        line.push(c);
        if c == '\n' {
            let ghost whole = line@;
            lines.push(line);
            assert(texts(lines@) == texts(lines_before).push(whole));
            line = String::new();
        }
    }
    assert(text@.take(text@.len() as int) == text@);
    if !line.as_str().is_empty() {
        let ghost lines_before = lines@;
        let ghost whole = line@;
        lines.push(line);
        assert(texts(lines@) == texts(lines_before).push(whole));
    }
    lines
}

/// Whether `a` stands before `b`: by the first byte in which they differ.
pub open spec fn bytes_before(a: Seq<u8>, b: Seq<u8>) -> bool
    decreases a.len(),
{
    if b.len() == 0 {
        false
    } else if a.len() == 0 {
        true
    } else if a[0] == b[0] {
        bytes_before(a.drop_first(), b.drop_first())
    } else {
        a[0] < b[0]
    }
}

/// Of two sequences of bytes, one stands before the other or they are equal,
/// and only one of the three holds.
pub proof fn lemma_bytes_before_total(a: Seq<u8>, b: Seq<u8>)
    ensures
        a == b ==> !bytes_before(a, b),
        bytes_before(a, b) ==> !bytes_before(b, a),
        bytes_before(a, b) || bytes_before(b, a) || a == b,
    decreases a.len(),
{
    if a.len() > 0 && b.len() > 0 && a[0] == b[0] {
        lemma_bytes_before_total(a.drop_first(), b.drop_first());
        if a.drop_first() == b.drop_first() {
            assert(a == seq![a[0]] + a.drop_first());
            assert(b == seq![b[0]] + b.drop_first());
        }
    } else if a.len() == 0 && b.len() == 0 {
        assert(a == b);
    }
}

/// The order of bytes is transitive.
pub proof fn lemma_bytes_before_transitive(a: Seq<u8>, b: Seq<u8>, c: Seq<u8>)
    requires
        bytes_before(a, b),
        bytes_before(b, c),
    ensures
        bytes_before(a, c),
    decreases a.len(),
{
    if a.len() > 0 && a[0] == b[0] && b[0] == c[0] {
        lemma_bytes_before_transitive(a.drop_first(), b.drop_first(), c.drop_first());
    }
}

/// Whether `a` stands before `b`.
pub fn is_bytes_before(a: &[u8], b: &[u8]) -> (res: bool)
    ensures
        res == bytes_before(a@, b@),
{
    let mut i: usize = 0;
    assert(a@.skip(0) == a@);
    assert(b@.skip(0) == b@);
    while i < a.len() && i < b.len() && a[i] == b[i]
        invariant
            i <= a@.len(),
            i <= b@.len(),
            bytes_before(a@, b@) == bytes_before(a@.skip(i as int), b@.skip(i as int)),
        decreases a@.len() - i,
    {
        assert(a@.skip(i as int).drop_first() == a@.skip(i + 1));
        assert(b@.skip(i as int).drop_first() == b@.skip(i + 1));
        i += 1;
    }
    if i < b.len() {
        i == a.len() || a[i] < b[i]
    } else {
        false
    }
}

/// Whether `a` stands before `b` in the order of their UTF-8 bytes.
pub open spec fn text_before(a: Seq<char>, b: Seq<char>) -> bool {
    bytes_before(encode_utf8(a), encode_utf8(b))
}

/// Of two texts, one stands before the other or they are equal, and only one
/// of the three holds.
pub proof fn lemma_text_before_total(a: Seq<char>, b: Seq<char>)
    ensures
        a == b ==> !text_before(a, b),
        text_before(a, b) ==> !text_before(b, a),
        text_before(a, b) || text_before(b, a) || a == b,
{
    lemma_bytes_before_total(encode_utf8(a), encode_utf8(b));
    encode_utf8_decode_utf8(a);
    encode_utf8_decode_utf8(b);
}

/// The order of texts is transitive.
pub proof fn lemma_text_before_transitive(a: Seq<char>, b: Seq<char>, c: Seq<char>)
    requires
        text_before(a, b),
        text_before(b, c),
    ensures
        text_before(a, c),
{
    lemma_bytes_before_transitive(encode_utf8(a), encode_utf8(b), encode_utf8(c));
}

/// Whether `a` stands before `b`.
pub fn is_text_before(a: &str, b: &str) -> (res: bool)
    ensures
        res == text_before(a@, b@),
{
    is_bytes_before(a.as_bytes(), b.as_bytes())
}

} // verus!
