//! The directive by which a feature file takes in another one.

use crate::path::{is_path, normalize, normalize_virtual_path, text_path, PathView, VirtualPath};
use crate::text::{from_chars, to_chars, trim, trim_chars, TrimSet};
use vstd::prelude::*;

verus! {

broadcast use vstd::seq::group_seq_axioms;

/// What stands between the first opening and the last closing parenthesis of
/// `text`, where the two stand in that order.
pub open spec fn parenthesized(text: Seq<char>) -> Option<Seq<char>> {
    match (text.index_of_first('('), text.index_of_last(')')) {
        (Some(open), Some(close)) => if close < open {
            None
        } else {
            Some(text.subrange(open + 1, close))
        },
        _ => None,
    }
}

/// The file that a statement names: its text between the parentheses, without
/// white space and then without quotes around it. A name of which nothing is
/// left is none.
pub open spec fn named_file(statement: Seq<char>) -> Option<Seq<char>> {
    match parenthesized(statement) {
        Some(inner) => {
            let name = trim(trim(inner, TrimSet::WhiteSpace), TrimSet::Quotes);
            if name.len() == 0 {
                None
            } else {
                Some(name)
            }
        },
        None => None,
    }
}

/// Whether a statement takes in a file: it begins with the keyword and ends
/// with a semicolon.
pub open spec fn takes_in(statement: Seq<char>) -> bool {
    &&& "include"@.is_prefix_of(statement)
    &&& statement.len() > 0
    &&& statement.last() == ';'
}

/// The path that a line takes in, if it takes in one.
pub open spec fn target(line: Seq<char>) -> Option<PathView> {
    let statement = trim(line, TrimSet::WhiteSpace);
    if takes_in(statement) {
        match named_file(statement) {
            Some(name) => Some(normalize(text_path(name))),
            None => None,
        }
    } else {
        None
    }
}

/// Whether `chars` begins with `prefix`.
fn starts_with(chars: &[char], prefix: &[char]) -> (res: bool)
    ensures
        res == prefix@.is_prefix_of(chars@),
{
    if prefix.len() > chars.len() {
        return false;
    }
    let mut i: usize = 0;
    while i < prefix.len()
        invariant
            i <= prefix@.len() <= chars@.len(),
            forall|j: int| 0 <= j < i ==> prefix@[j] == chars@[j],
        decreases prefix@.len() - i,
    {
        if chars[i] != prefix[i] {
            assert(chars@.subrange(0, prefix@.len() as int)[i as int] != prefix@[i as int]);
            return false;
        }
        i += 1;
    }
    true
}

/// The first position of `c`.
fn find(chars: &[char], c: char) -> (res: Option<usize>)
    ensures
        match res {
            Some(i) => chars@.index_of_first(c) == Some(i as int) && i < chars@.len(),
            None => chars@.index_of_first(c) is None,
        },
{
    let mut i: usize = 0;
    while i < chars.len()
        invariant
            i <= chars@.len(),
            forall|j: int| 0 <= j < i ==> chars@[j] != c,
        decreases chars@.len() - i,
    {
        if chars[i] == c {
            proof {
                assert(chars@.contains(chars@[i as int]));
                chars@.index_of_first_ensures(c);
            }
            return Some(i);
        }
        i += 1;
    }
    proof {
        chars@.index_of_first_ensures(c);
    }
    None
}

/// The last position of `c`.
fn rfind(chars: &[char], c: char) -> (res: Option<usize>)
    ensures
        match res {
            Some(i) => chars@.index_of_last(c) == Some(i as int) && i < chars@.len(),
            None => chars@.index_of_last(c) is None,
        },
{
    let mut i: usize = chars.len();
    while i > 0
        invariant
            i <= chars@.len(),
            forall|j: int| i <= j < chars@.len() ==> chars@[j] != c,
        decreases i,
    {
        i -= 1;
        if chars[i] == c {
            proof {
                assert(chars@.contains(chars@[i as int]));
                chars@.index_of_last_ensures(c);
            }
            return Some(i);
        }
    }
    proof {
        chars@.index_of_last_ensures(c);
    }
    None
}

/// The path that `line` takes in, if it takes in one.
pub fn parse_include_target(line: &str) -> (res: Option<VirtualPath>)
    ensures
        match res {
            Some(path) => target(line@) == Some(path@) && path.is_short() && is_path(path@),
            None => target(line@) is None,
        },
{
    let chars = to_chars(line);
    let keyword = to_chars("include");
    let trimmed = trim_chars(chars.as_slice(), TrimSet::WhiteSpace);
    if !starts_with(trimmed, keyword.as_slice()) || trimmed.len() == 0 || trimmed[trimmed.len() - 1]
        != ';' {
        return None;
    }
    let open = match find(trimmed, '(') {
        Some(open) => open,
        None => return None,
    };
    let close = match rfind(trimmed, ')') {
        Some(close) => close,
        None => return None,
    };
    proof {
        trimmed@.index_of_first_ensures('(');
        trimmed@.index_of_last_ensures(')');
    }
    if close < open {
        return None;
    }
    let inner = trim_chars(
        vstd::slice::slice_subrange(trimmed, open + 1, close),
        TrimSet::WhiteSpace,
    );
    let name = trim_chars(inner, TrimSet::Quotes);
    if name.len() == 0 {
        return None;
    }
    Some(normalize_virtual_path(&VirtualPath::new(from_chars(name).as_str())))
}

} // verus!
