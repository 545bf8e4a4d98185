# rust_sed

A stream editor in the manner of GNU sed, written in Verus: the script
parser, the addresses, the commands and the editing cycle are verified
against specifications; the program around them reads files and writes
output.

## Layout

- `src/` is the verified library.
  - `parser/` reads a script into commands. `script.rs` states what a
    script parses to (`script_parses`, through a fuel-indexed definition),
    and `Parser::parse_all` is proved to return exactly that.
  - `engine/` holds the flattened program (`program.rs`), the text edits of
    `s`, `y` and `l` (`edit.rs`) and address selection (`address.rs`).
    `engine.rs` is the editing cycle as a state machine: `Engine::step`
    takes the answer to the last request and returns the next request
    (output to write, a file or line to read, a command to run), and is
    proved against `step_spec`.
  - `options.rs` reads the command line one argument at a time; `cli.rs`
    joins and parses the scripts, and formats messages.
  - `labels.rs` checks that every branch names a label.
  - `laws.rs` holds properties that span several functions, each a proof
    function.
  - `sed_regex.rs` is the only place that calls the `regex` crate and
    `fancy_regex`: a pattern is compiled by `regex`, and one that `regex`
    refuses because it holds a backreference (`\1` to `\9`) by
    `fancy_regex`.
- `app/main.rs` is the program: it reads arguments and files, answers the
  engine's requests, and writes the results.
- `tests/` runs the library on concrete scripts and inputs.

## Text and bytes

The pattern space holds bytes, so input that is not UTF-8 comes out as it
went in. `y` and the case conversions of `s` (`\U`, `\L`, `\u`, `\l`) read
the pattern space character by character: a well-formed UTF-8 sequence is
one character, any other byte is one character of its own.

Text that a script writes (the replacement of `s`, the target of `y`, the
text of `a`, `i`, `c`) is written in UTF-8. A byte that comes from a
numeric escape (`\d`, `\o`, `\x`) or from a script file that is not UTF-8
is kept apart as a raw byte (a code point of the private-use block
U+10FF00 to U+10FFFF stands for it) and is written back as that single
byte. The case conversions apply Unicode case mapping to a character read
from UTF-8 and ASCII case to an ASCII letter; a byte that is not UTF-8
keeps its case.
