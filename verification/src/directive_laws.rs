//! What a directive looks like, and that nothing else is one.

use crate::directive::{parenthesized, target};
use crate::path::{normalize, parse_path};
use crate::text::{trim, TrimSet};
use crate::text_laws::{trimming_leaves_the_middle, trimming_strips_what_surrounds};
use vstd::prelude::*;
use vstd::utf8::encode_utf8;

verus! {

broadcast use vstd::seq::group_seq_axioms;

/// Whether `text` is white space, or empty.
pub open spec fn is_blank(text: Seq<char>) -> bool {
    forall|i: int| 0 <= i < text.len() ==> TrimSet::WhiteSpace.has(#[trigger] text[i])
}

/// Whether `text` is made of quotes, or empty.
pub open spec fn is_quotes(text: Seq<char>) -> bool {
    forall|i: int|
        0 <= i < text.len() ==> (#[trigger] text[i]) == '"' || text[i] == '\''
}

/// The pieces of a line with a directive.
pub struct Directive {
    /// The white space at the beginning.
    pub indent: Seq<char>,
    /// What stands between the keyword and the parenthesis.
    pub gap: Seq<char>,
    /// The white space behind the parenthesis.
    pub blank: Seq<char>,
    /// The quotes before the name.
    pub quotes: Seq<char>,
    pub name: Seq<char>,
    /// The quotes behind the name.
    pub end_quotes: Seq<char>,
    /// The white space before the parenthesis.
    pub end_blank: Seq<char>,
    /// What stands behind the parenthesis, to the semicolon.
    pub tail: Seq<char>,
    /// The white space at the end.
    pub end: Seq<char>,
}

impl Directive {
    /// What stands between the parentheses.
    pub open spec fn inner(self) -> Seq<char> {
        self.blank + (self.quotes + self.name + self.end_quotes) + self.end_blank
    }

    /// The line.
    pub open spec fn line(self) -> Seq<char> {
        self.indent + ("include"@ + self.gap + seq!['('] + self.inner() + seq![')'] + self.tail)
            + self.end
    }

    /// Whether the pieces are what they should be. The name is not empty, and
    /// white space or a quote at one of its ends is no part of it, unless quotes
    /// keep the white space in.
    pub open spec fn is_proper(self) -> bool {
        &&& is_blank(self.indent)
        &&& is_blank(self.blank)
        &&& is_blank(self.end_blank)
        &&& is_blank(self.end)
        &&& is_quotes(self.quotes)
        &&& is_quotes(self.end_quotes)
        &&& forall|i: int| 0 <= i < self.gap.len() ==> #[trigger] self.gap[i] != '('
        &&& forall|i: int| 0 <= i < self.tail.len() ==> #[trigger] self.tail[i] != ')'
        &&& self.tail.len() > 0
        &&& self.tail[self.tail.len() - 1] == ';'
        &&& self.name.len() > 0
        &&& self.name[0] != '"' && self.name[0] != '\''
        &&& self.name[self.name.len() - 1] != '"' && self.name[self.name.len() - 1] != '\''
        &&& self.quotes.len() == 0 ==> !TrimSet::WhiteSpace.has(self.name[0])
        &&& self.end_quotes.len() == 0 ==> !TrimSet::WhiteSpace.has(
            self.name[self.name.len() - 1],
        )
    }
}

/// Where the first opening parenthesis stands behind `front` and the last
/// closing one before `back`, what is between them is parenthesized.
proof fn lemma_parenthesized(front: Seq<char>, inner: Seq<char>, back: Seq<char>)
    requires
        forall|i: int| 0 <= i < front.len() ==> #[trigger] front[i] != '(',
        forall|i: int| 0 <= i < back.len() ==> #[trigger] back[i] != ')',
    ensures
        parenthesized(front + seq!['('] + inner + seq![')'] + back) == Some(inner),
{
    let whole = front + seq!['('] + inner + seq![')'] + back;
    let open = front.len() as int;
    let close = open + 1 + inner.len();
    whole.index_of_first_ensures('(');
    whole.index_of_last_ensures(')');
    assert(whole[open] == '(');
    assert(whole[close] == ')');
    assert(whole.contains('('));
    assert(whole.contains(')'));
    assert forall|i: int| 0 <= i < open implies whole[i] != '(' by {
        assert(whole[i] == front[i]);
    }
    assert forall|i: int| close < i < whole.len() implies whole[i] != ')' by {
        assert(whole[i] == back[i - close - 1]);
    }
    assert(whole.index_of_first('(') == Some(open));
    assert(whole.index_of_last(')') == Some(close));
    assert(whole.subrange(open + 1, close) == inner);
}

/// Each line of the form of a directive names its file.
pub proof fn directives_name_their_files(directive: Directive)
    requires
        directive.is_proper(),
    ensures
        target(directive.line()) == Some(normalize(parse_path(encode_utf8(directive.name)))),
{
    let d = directive;
    let middle = d.quotes + d.name + d.end_quotes;
    let front = "include"@ + d.gap;
    let statement = "include"@ + d.gap + seq!['('] + d.inner() + seq![')'] + d.tail;
    reveal_strlit("include");
    assert("include"@.len() == 7 && "include"@[0] == 'i');
    assert(statement[0] == 'i');
    assert(statement[statement.len() - 1] == d.tail[d.tail.len() - 1]);
    trimming_strips_what_surrounds(d.indent, statement, d.end, TrimSet::WhiteSpace);
    assert(trim(d.line(), TrimSet::WhiteSpace) == statement);
    assert("include"@ == statement.subrange(0, 7));
    assert("include"@.is_prefix_of(statement));
    assert forall|i: int| 0 <= i < front.len() implies #[trigger] front[i] != '(' by {
        if i < 7 {
            assert(front[i] == "include"@[i]);
        } else {
            assert(front[i] == d.gap[i - 7]);
        }
    }
    lemma_parenthesized(front, d.inner(), d.tail);
    assert(parenthesized(statement) == Some(d.inner()));
    assert(middle[0] == if d.quotes.len() > 0 { d.quotes[0] } else { d.name[0] });
    assert(middle[middle.len() - 1] == if d.end_quotes.len() > 0 {
        d.end_quotes[d.end_quotes.len() - 1]
    } else {
        d.name[d.name.len() - 1]
    });
    trimming_strips_what_surrounds(d.blank, middle, d.end_blank, TrimSet::WhiteSpace);
    trimming_strips_what_surrounds(d.quotes, d.name, d.end_quotes, TrimSet::Quotes);
}

/// A line that names a file has the form of a directive.
pub proof fn only_directives_name_files(line: Seq<char>) -> (directive: Directive)
    requires
        target(line) is Some,
    ensures
        directive.is_proper(),
        directive.line() == line,
        target(line) == Some(normalize(parse_path(encode_utf8(directive.name)))),
{
    let statement = trim(line, TrimSet::WhiteSpace);
    let (indent, end) = trimming_leaves_the_middle(line, TrimSet::WhiteSpace);
    reveal_strlit("include");
    statement.index_of_first_ensures('(');
    statement.index_of_last_ensures(')');
    let open = statement.index_of_first('(')->Some_0;
    let close = statement.index_of_last(')')->Some_0;
    assert(open < close);
    assert("include"@.len() == 7);
    assert(open >= 7) by {
        if open < 7 {
            assert("include"@[open] == statement.subrange(0, 7)[open]);
        }
    }
    let gap = statement.subrange(7, open);
    let inner = statement.subrange(open + 1, close);
    let tail = statement.subrange(close + 1, statement.len() as int);
    assert(parenthesized(statement) == Some(inner));
    let middle = trim(inner, TrimSet::WhiteSpace);
    let (blank, end_blank) = trimming_leaves_the_middle(inner, TrimSet::WhiteSpace);
    let name = trim(middle, TrimSet::Quotes);
    let (quotes, end_quotes) = trimming_leaves_the_middle(middle, TrimSet::Quotes);
    let directive = Directive {
        indent,
        gap,
        blank,
        quotes,
        name,
        end_quotes,
        end_blank,
        tail,
        end,
    };
    assert("include"@ == statement.subrange(0, 7));
    assert(statement == "include"@ + gap + seq!['('] + inner + seq![')'] + tail);
    assert(directive.inner() == inner);
    assert(directive.line() == line);
    assert(statement[statement.len() - 1] == ';');
    assert(close < statement.len() - 1);
    assert(name.len() > 0);
    assert forall|i: int| 0 <= i < gap.len() implies #[trigger] gap[i] != '(' by {
        assert(gap[i] == statement[i + 7]);
    }
    assert forall|i: int| 0 <= i < tail.len() implies #[trigger] tail[i] != ')' by {
        assert(tail[i] == statement[i + close + 1]);
    }
    if quotes.len() == 0 {
        assert(middle[0] == name[0]);
    }
    if end_quotes.len() == 0 {
        assert(middle[middle.len() - 1] == name[name.len() - 1]);
    }
    directives_name_their_files(directive);
    directive
}

/// The usual directive names its file, however it is indented and whether or
/// not quotes stand around the name.
pub proof fn usual_directives_name_their_files(
    indent: Seq<char>,
    blank: Seq<char>,
    quotes: Seq<char>,
    name: Seq<char>,
    end_blank: Seq<char>,
    end: Seq<char>,
)
    requires
        is_blank(indent),
        is_blank(blank),
        is_blank(end_blank),
        is_blank(end),
        quotes.len() == 0 || quotes == seq!['"'] || quotes == seq!['\''],
        name.len() > 0,
        !TrimSet::WhiteSpace.has(name[0]) && name[0] != '"' && name[0] != '\'',
        !TrimSet::WhiteSpace.has(name[name.len() - 1]) && name[name.len() - 1] != '"'
            && name[name.len() - 1] != '\'',
    ensures
        target(
            indent + "include("@ + blank + quotes + name + quotes + end_blank + ");"@ + end,
        ) == Some(normalize(parse_path(encode_utf8(name)))),
{
    reveal_strlit("include");
    reveal_strlit("include(");
    reveal_strlit(");");
    let directive = Directive {
        indent,
        gap: Seq::empty(),
        blank,
        quotes,
        name,
        end_quotes: quotes,
        end_blank,
        tail: seq![';'],
        end,
    };
    assert("include("@ == "include"@ + Seq::<char>::empty() + seq!['(']);
    assert(");"@ == seq![')'] + seq![';']);
    assert(directive.line() == indent + "include("@ + blank + quotes + name + quotes + end_blank
        + ");"@ + end);
    directives_name_their_files(directive);
}

} // verus!
