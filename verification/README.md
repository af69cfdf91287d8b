# norad

Reading and writing the feature files of a UFO font without a file system, in
Verus: executable Rust whose behaviour is stated in contracts and proved.

- `load_feature_files` reads a feature file from a `FontSource`, and with it
  all files that it takes in, directly or through others.
- `expand_feature_text` puts the text of these files in the place of the
  directives that name them.
- `normalize_feature_text` turns CRLF into LF.
- `save_font_with_sink` writes a font to a `FontSink`, file by file.

## Layout

| module | what it holds |
| --- | --- |
| `text` | characters, trimming, lines |
| `path` | virtual paths and their normal form |
| `ordered_map` | maps in the order of their keys |
| `directive` | the directive by which a file takes in another |
| `line_ends` | CRLF and LF |
| `decode` | from bytes to text |
| `source`, `sink`, `memory` | where files are read from and written to |
| `error` | what can go wrong |
| `load`, `expand` | loading and expanding feature files |
| `font`, `names`, `save` | what a font is written from, and writing it |
| `laws`, `expand_laws`, `save_laws` | what holds of these taken together |

## Sources, sinks and property lists

Any type can be a `FontSource` or a `FontSink`. A source says with `may_answer`
which answers it can give; a source that says nothing may answer anything, and
may answer differently each time. A sink keeps, for the proofs only, the
history of what it was handed. `MemorySource` and `MemorySink` are one of each.

Property lists are made by the caller: `save_font_with_sink` is handed a
function that turns a part of the font into bytes, and settles which parts are
written, with what contents, where, in which order and when it stops.

Paths follow the rules of Unix on every machine: `/` stands between names, a name
is made of any bytes, and there are no drive prefixes. A path reaches a source or
a sink as it is spelled; two spellings of the same components are the same path.

## What is not proved

- `String::push` appends one character.
- `String::from_utf8` succeeds exactly on valid UTF-8 and gives its text; its
  error depends on the bytes alone.
- `std::io::Error::new` makes an error that depends on its kind and its cause
  alone, and `std::io::Error::kind` gives its kind back.
- A `std::io::Error` is otherwise carried through as it is.
