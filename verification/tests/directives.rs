use norad::directive::parse_include_target;
use norad::line_ends::normalize_feature_text;
use norad::path::VirtualPath;
use norad::text::{from_chars, is_text_before, lines_of, to_chars, trim_chars, TrimSet};
use std::borrow::Cow;

/// The texts of paths that are Unicode.
trait Text {
    fn to_text(&self) -> String;
}

impl Text for VirtualPath {
    fn to_text(&self) -> String {
        String::from_utf8(self.to_bytes()).unwrap()
    }
}

fn target(line: &str) -> Option<String> {
    parse_include_target(line).map(|path| path.to_text())
}

#[test]
fn directives_name_their_files() {
    assert_eq!(target("include(a.fea);").as_deref(), Some("a.fea"));
    assert_eq!(target("include( includes/shared.fea );\n").as_deref(), Some("includes/shared.fea"));
    assert_eq!(target("  include (a/../b.fea) ;\r\n").as_deref(), Some("b.fea"));
    assert_eq!(target("include(\"a.fea\");").as_deref(), Some("a.fea"));
    assert_eq!(target("include('a b.fea');").as_deref(), Some("a b.fea"));
    assert_eq!(target("include(/abs/./a.fea);").as_deref(), Some("/abs/a.fea"));
    assert_eq!(target("\u{a0}include(a.fea);\u{3000}").as_deref(), Some("a.fea"));
    assert_eq!(target("include(a(1).fea);").as_deref(), Some("a(1).fea"));
    // White space inside quotes belongs to the name.
    assert_eq!(target("include(\" a.fea \");").as_deref(), Some(" a.fea "));
    // Only the keyword and the semicolon are looked at around the parentheses.
    assert_eq!(target("includes(a.fea) # b;").as_deref(), Some("a.fea"));
}

#[test]
fn other_lines_name_no_file() {
    assert_eq!(target(""), None);
    assert_eq!(target("\n"), None);
    assert_eq!(target("include(a.fea)"), None);
    assert_eq!(target("# include(a.fea);"), None);
    assert_eq!(target("Include(a.fea);"), None);
    assert_eq!(target("include a.fea;"), None);
    assert_eq!(target("include)a.fea(;"), None);
    assert_eq!(target("include(a.fea;"), None);
    assert_eq!(target("include a.fea);"), None);
    assert_eq!(target("include();"), None);
    assert_eq!(target("include(  );"), None);
    assert_eq!(target("include(\"\");"), None);
    assert_eq!(target("include(a.fea); # comment"), None);
    assert_eq!(target("feature liga {"), None);
}

#[test]
fn line_ends_are_normalized() {
    let plain = normalize_feature_text("a\nb\n");
    assert_eq!(plain, "a\nb\n");
    assert!(matches!(plain, Cow::Borrowed(_)));
    let crlf = normalize_feature_text("a\r\nb\r\n\r\n");
    assert_eq!(crlf, "a\nb\n\n");
    assert!(matches!(crlf, Cow::Owned(_)));
    for text in ["", "\r", "\n", "\r\n", "\r\r\n", "\n\r", "a\rb", "é\r\nü", "\r\n\r", "\r\r\n\n"] {
        assert_eq!(normalize_feature_text(text), text.replace("\r\n", "\n"), "{:?}", text);
        assert_eq!(
            matches!(normalize_feature_text(text), Cow::Owned(_)),
            text.contains('\r'),
            "{:?}",
            text
        );
    }
}

#[test]
fn normalizing_twice_is_normalizing_once() {
    for text in ["a\r\nb", "a\rb\r\n", "\r\n\r\n"] {
        let once = normalize_feature_text(text).into_owned();
        assert_eq!(normalize_feature_text(&once), once);
    }
    // Two carriage returns before a line feed are the exception.
    assert_eq!(normalize_feature_text("\r\r\n"), "\r\n");
    assert_eq!(normalize_feature_text("\r\n"), "\n");
}

#[test]
fn normalizing_keeps_the_named_files() {
    let text = "include(a.fea);\r\nb\r\n  include(c.fea); \r\n";
    let normalized = normalize_feature_text(text);
    let before: Vec<_> = lines_of(text).iter().map(|line| target(line)).collect();
    let after: Vec<_> = lines_of(&normalized).iter().map(|line| target(line)).collect();
    assert_eq!(before, after);
    assert_eq!(after, [Some("a.fea".to_string()), None, Some("c.fea".to_string())]);
}

#[test]
fn lines_are_those_of_split_inclusive() {
    for text in ["", "a", "\n", "a\n", "a\nb", "\n\na\n\n", "é\r\nü\n", "\r", "a\u{2028}b\nc"] {
        let expected: Vec<&str> = text.split_inclusive('\n').collect();
        assert_eq!(lines_of(text), expected, "{:?}", text);
        assert_eq!(lines_of(text).concat(), text);
    }
}

#[test]
fn white_space_is_that_of_unicode() {
    for code in 0..=0x10ffff_u32 {
        if let Some(c) = char::from_u32(code) {
            assert_eq!(TrimSet::WhiteSpace.contains(c), c.is_whitespace(), "{:?}", c);
            assert_eq!(TrimSet::Quotes.contains(c), c == '"' || c == '\'', "{:?}", c);
        }
    }
}

#[test]
fn trimming_strips_both_ends() {
    for text in ["", " ", " a", "a ", "  a b\t\n", "\u{85}x\u{2003}", "''a'\"", "\"'\""] {
        let chars = to_chars(text);
        assert_eq!(from_chars(trim_chars(&chars, TrimSet::WhiteSpace)), text.trim());
        assert_eq!(
            from_chars(trim_chars(&chars, TrimSet::Quotes)),
            text.trim_matches(|c| c == '"' || c == '\'')
        );
    }
}

#[test]
fn texts_are_in_the_order_of_their_bytes() {
    let texts = ["", "a", "aa", "ab", "b", "Z", "é", "\u{7f}", "\u{ffff}", "\u{10000}", "a\u{0}"];
    for a in texts {
        for b in texts {
            assert_eq!(is_text_before(a, b), a.as_bytes() < b.as_bytes(), "{:?} {:?}", a, b);
        }
    }
}
