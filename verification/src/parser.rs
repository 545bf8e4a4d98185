use vstd::prelude::*;
use vstd::string::StringSliceAdditionalSpecFns;
use crate::scan::{
    blank_end, byte_at, continuation_run, digit_end, digits_value, lead_width, lemma_blank_end,
    lemma_continuation_run, lemma_digit_end, lemma_separator_end, literal, saturate, separator_end,
};
use crate::text::{byte_as_char_exec, chars_of, decimal, push_decimal, push_str, string_from_chars, utf8_decode};
use crate::types::ScriptSource;

mod text_args;
mod regex_args;
mod substitute;
mod commands;
mod script;

pub use self::commands::starts_with_hash_n;
pub use self::commands::ParseError;
pub use self::regex_args::{repl_escape, tr_escape};
pub use self::text_args::{text_from, text_line};
pub use self::script::{command_fuel, commands_fuel, commands_parse, command_parses, prepend, script_fuel, script_parses, lemma_script_unique, ParseCfg, Parsed};

verus! {

/// The characters of `count_groups` from `i` on, counting unescaped `(`
/// outside bracket expressions.
pub open spec fn groups_from(c: Seq<char>, i: int, in_bracket: bool) -> nat
    decreases c.len() - i,
{
    if i < 0 || i >= c.len() {
        0
    } else if c[i] == '\\' {
        if i + 1 < c.len() {
            groups_from(c, i + 2, in_bracket)
        } else {
            0
        }
    } else if c[i] == '[' && !in_bracket {
        groups_from(c, i + 1, true)
    } else if c[i] == ']' && in_bracket {
        groups_from(c, i + 1, false)
    } else if c[i] == '(' && !in_bracket {
        1 + groups_from(c, i + 1, in_bracket)
    } else {
        groups_from(c, i + 1, in_bracket)
    }
}

proof fn lemma_groups_bound(c: Seq<char>, i: int, b: bool)
    requires
        0 <= i,
    ensures
        groups_from(c, i, b) <= if i < c.len() { c.len() - i } else { 0 },
    decreases c.len() - i,
{
    if i < c.len() {
        if c[i] == '\\' {
            if i + 1 < c.len() {
                lemma_groups_bound(c, i + 2, b);
            }
        } else if c[i] == '[' && !b {
            lemma_groups_bound(c, i + 1, true);
        } else if c[i] == ']' && b {
            lemma_groups_bound(c, i + 1, false);
        } else {
            lemma_groups_bound(c, i + 1, b);
        }
    }
}

/// Count unescaped `(` in an ERE pattern to determine number of capture groups
pub fn count_groups(pattern: &str) -> (n: usize)
    ensures
        n == groups_from(pattern@, 0, false),
{
    let chars = chars_of(pattern);
    let mut count: usize = 0;
    let mut i: usize = 0;
    let mut in_bracket = false;
    proof { lemma_groups_bound(chars@, 0, false); }
    while i < chars.len()
        invariant
            i <= chars.len(),
            count + groups_from(chars@, i as int, in_bracket) == groups_from(chars@, 0, false),
            groups_from(chars@, 0, false) <= chars@.len(),
        decreases chars.len() - i,
    {
        if chars[i] == '\\' {
            if i + 1 < chars.len() {
                i += 2;
            } else {
                i = chars.len();
            }
        } else if chars[i] == '[' && !in_bracket {
            in_bracket = true;
            i += 1;
        } else if chars[i] == ']' && in_bracket {
            in_bracket = false;
            i += 1;
        } else if chars[i] == '(' && !in_bracket {
            count += 1;
            i += 1;
        } else {
            i += 1;
        }
    }
    count
}

/// The number of newlines in `s`.
pub open spec fn count_newlines(s: Seq<u8>) -> nat
    decreases s.len(),
{
    if s.len() == 0 {
        0
    } else {
        count_newlines(s.drop_last()) + if s.last() == 10 { 1nat } else { 0nat }
    }
}

/// The text of a parse error: where the script came from, the character
/// position (for `-e`) or line (for `-f`) of the command, and the message.
pub open spec fn error_text(source: ScriptSource, input: Seq<u8>, cmd_start: int, char_pos: nat, msg: Seq<char>) -> Seq<char> {
    match source {
        ScriptSource::Expression(n) => "-e expression #"@ + decimal(n as nat) + ", char "@
            + decimal(char_pos) + ": "@ + msg,
        ScriptSource::File(name) => "file "@ + name@ + " line "@ + decimal(
            count_newlines(input.take(cmd_start)) + 1,
        ) + ": "@ + msg,
    }
}

/// A recursive-descent parser for sed scripts.
pub struct Parser<'a> {
    input: &'a [u8],
    pos: usize,
    extended: bool,
    pub hash_n_quiet: bool,
    source: ScriptSource,
    cmd_start: usize,
    pub sandbox: bool,
    pub posix: bool,
    pub is_last_script: bool,
    block_depth: usize,
}

impl<'a> Parser<'a> {
    /// The script's bytes.
    pub closed spec fn text(&self) -> Seq<u8> {
        self.input@
    }

    /// Where the parser stands in the script.
    pub closed spec fn position(&self) -> int {
        self.pos as int
    }

    /// A `#n` first line was seen.
    pub closed spec fn hash_n_seen(&self) -> bool {
        self.hash_n_quiet
    }

    /// `--sandbox` is in force.
    pub closed spec fn sandbox_on(&self) -> bool {
        self.sandbox
    }

    /// `--posix` is in force.
    pub closed spec fn posix_on(&self) -> bool {
        self.posix
    }

    /// How many blocks the parser is inside.
    pub closed spec fn depth(&self) -> nat {
        self.block_depth as nat
    }

    /// This script is the last one given.
    pub closed spec fn last_script(&self) -> bool {
        self.is_last_script
    }

    /// The settings the parser reads the script under.
    pub closed spec fn parse_cfg(&self) -> ParseCfg {
        ParseCfg { extended: self.extended, posix: self.posix, sandbox: self.sandbox, last: self.is_last_script }
    }

    /// Where the command read last starts.
    pub closed spec fn command_start(&self) -> int {
        self.cmd_start as int
    }

    /// Where the script came from.
    pub closed spec fn source_of(&self) -> ScriptSource {
        self.source
    }

    /// The parser's positions are inside the script.
    pub closed spec fn wf(&self) -> bool {
        &&& self.cmd_start <= self.pos <= self.input@.len()
        &&& self.input@.len() < usize::MAX
        &&& self.block_depth <= self.pos
    }

    /// The parser still works on the same script with the same settings and
    /// command start, and has not moved back.
    spec fn keeps(&self, old: &Self) -> bool {
        &&& self.wf()
        &&& self.same_config(old)
        &&& self.cmd_start == old.cmd_start
        &&& self.block_depth == old.block_depth
        &&& self.hash_n_quiet == old.hash_n_quiet
        &&& old.pos <= self.pos
    }

    /// `m` is the report of error `e` (message, position, character
    /// position), and the parser stands where the error was found.
    spec fn reports(&self, m: Seq<char>, e: (Seq<char>, int, int)) -> bool {
        &&& self.pos == e.1
        &&& m == error_text(self.source, self.input@, self.cmd_start as int, e.2 as nat, e.0)
    }

    /// The error text for `msg` reported at the parser's current state.
    pub closed spec fn err_spec(&self, msg: Seq<char>) -> Seq<char> {
        error_text(self.source, self.input@, self.cmd_start as int, (self.pos - self.cmd_start) as nat, msg)
    }

    /// The parser's settings and script are those of `other`.
    pub closed spec fn same_config(&self, other: &Self) -> bool {
        &&& self.input@ == other.input@
        &&& self.extended == other.extended
        &&& self.source == other.source
        &&& self.sandbox == other.sandbox
        &&& self.posix == other.posix
        &&& self.is_last_script == other.is_last_script
    }

    pub fn new(input: &'a str, extended: bool, source: ScriptSource) -> (p: Self)
        requires
            input.spec_bytes().len() < usize::MAX,
        ensures
            p.wf(),
            p.text() == input.spec_bytes(),
            p.position() == 0,
            !p.hash_n_seen(),
            !p.sandbox_on(),
            !p.posix_on(),
            p.last_script(),
            p.depth() == 0,
            p.parse_cfg() == (ParseCfg { extended, posix: false, sandbox: false, last: true }),
            p.command_start() == 0,
            p.source_of() == source,
    {
        Parser {
            input: input.as_bytes(),
            pos: 0,
            extended,
            hash_n_quiet: false,
            source,
            cmd_start: 0,
            sandbox: false,
            posix: false,
            is_last_script: true,
            block_depth: 0,
        }
    }

    /// Turns `--sandbox` on or off.
    pub fn set_sandbox(&mut self, on: bool)
        ensures
            final(self).sandbox_on() == on,
            final(self).wf() == old(self).wf(),
            final(self).text() == old(self).text(),
            final(self).position() == old(self).position(),
            final(self).hash_n_seen() == old(self).hash_n_seen(),
            final(self).posix_on() == old(self).posix_on(),
            final(self).last_script() == old(self).last_script(),
            final(self).depth() == old(self).depth(),
            final(self).parse_cfg() == (ParseCfg { extended: old(self).parse_cfg().extended, posix: old(self).parse_cfg().posix, sandbox: on, last: old(self).parse_cfg().last }),
            final(self).command_start() == old(self).command_start(),
            final(self).source_of() == old(self).source_of(),
    {
        self.sandbox = on;
    }

    /// Turns `--posix` on or off.
    pub fn set_posix(&mut self, on: bool)
        ensures
            final(self).posix_on() == on,
            final(self).wf() == old(self).wf(),
            final(self).text() == old(self).text(),
            final(self).position() == old(self).position(),
            final(self).hash_n_seen() == old(self).hash_n_seen(),
            final(self).sandbox_on() == old(self).sandbox_on(),
            final(self).last_script() == old(self).last_script(),
            final(self).depth() == old(self).depth(),
            final(self).parse_cfg() == (ParseCfg { extended: old(self).parse_cfg().extended, posix: on, sandbox: old(self).parse_cfg().sandbox, last: old(self).parse_cfg().last }),
            final(self).command_start() == old(self).command_start(),
            final(self).source_of() == old(self).source_of(),
    {
        self.posix = on;
    }

    /// Says whether this script is the last one given.
    pub fn set_last_script(&mut self, last: bool)
        ensures
            final(self).last_script() == last,
            final(self).wf() == old(self).wf(),
            final(self).text() == old(self).text(),
            final(self).position() == old(self).position(),
            final(self).hash_n_seen() == old(self).hash_n_seen(),
            final(self).sandbox_on() == old(self).sandbox_on(),
            final(self).posix_on() == old(self).posix_on(),
            final(self).depth() == old(self).depth(),
            final(self).parse_cfg() == (ParseCfg { extended: old(self).parse_cfg().extended, posix: old(self).parse_cfg().posix, sandbox: old(self).parse_cfg().sandbox, last: last }),
            final(self).command_start() == old(self).command_start(),
            final(self).source_of() == old(self).source_of(),
    {
        self.is_last_script = last;
    }

    /// Whether a `#n` first line was seen.
    pub fn saw_hash_n(&self) -> (b: bool)
        ensures
            b == self.hash_n_seen(),
    {
        self.hash_n_quiet
    }

    /// Format an error with explicit char position
    fn err_at(&self, char_pos: usize, msg: &str) -> (e: String)
        requires
            self.wf(),
        ensures
            e@ == error_text(self.source, self.input@, self.cmd_start as int, char_pos as nat, msg@),
    {
        let m = chars_of(msg);
        self.err_at_chars(char_pos, &m)
    }

    fn err_at_chars(&self, char_pos: usize, msg: &Vec<char>) -> (e: String)
        requires
            self.wf(),
        ensures
            e@ == error_text(self.source, self.input@, self.cmd_start as int, char_pos as nat, msg@),
    {
        let mut out: Vec<char> = Vec::new();
        match &self.source {
            ScriptSource::Expression(n) => {
                push_str(&mut out, "-e expression #");
                push_decimal(*n, &mut out);
                push_str(&mut out, ", char ");
                push_decimal(char_pos, &mut out);
                push_str(&mut out, ": ");
            },
            ScriptSource::File(name) => {
                let line = self.newlines_before_command() + 1;
                push_str(&mut out, "file ");
                push_str(&mut out, name.as_str());
                push_str(&mut out, " line ");
                push_decimal(line, &mut out);
                push_str(&mut out, ": ");
            },
        }
        let mut m = msg.clone();
        out.append(&mut m);
        string_from_chars(out.as_slice())
    }

    fn newlines_before_command(&self) -> (n: usize)
        requires
            self.wf(),
        ensures
            n == count_newlines(self.input@.take(self.cmd_start as int)),
            n <= self.cmd_start,
    {
        let mut n: usize = 0;
        let mut i: usize = 0;
        while i < self.cmd_start
            invariant
                self.wf(),
                i <= self.cmd_start,
                n == count_newlines(self.input@.take(i as int)),
                n <= i,
            decreases self.cmd_start - i,
        {
            assert(self.input@.take(i + 1).drop_last() =~= self.input@.take(i as int));
            if self.input[i] == 10 {
                n += 1;
            }
            i += 1;
        }
        n
    }

    /// Format an error with source location info
    fn err(&self, msg: &str) -> (e: String)
        requires
            self.wf(),
        ensures
            e@ == self.err_spec(msg@),
    {
        self.err_at(self.pos - self.cmd_start, msg)
    }

    fn err_chars(&self, msg: &Vec<char>) -> (e: String)
        requires
            self.wf(),
        ensures
            e@ == self.err_spec(msg@),
    {
        self.err_at_chars(self.pos - self.cmd_start, msg)
    }

    fn peek(&self) -> (b: Option<u8>)
        requires
            self.wf(),
        ensures
            b == byte_at(self.input@, self.pos as int),
    {
        if self.pos < self.input.len() {
            Some(self.input[self.pos])
        } else {
            None
        }
    }

    fn advance(&mut self) -> (b: Option<u8>)
        requires
            old(self).wf(),
        ensures
            final(self).keeps(old(self)),
            b == byte_at(old(self).input@, old(self).pos as int),
            final(self).pos == if b is Some { old(self).pos + 1 } else { old(self).pos as int },
    {
        if self.pos < self.input.len() {
            let ch = self.input[self.pos];
            self.pos += 1;
            Some(ch)
        } else {
            None
        }
    }

    fn skip_whitespace(&mut self)
        requires
            old(self).wf(),
        ensures
            final(self).keeps(old(self)),
            final(self).pos == blank_end(old(self).input@, old(self).pos as int),
    {
        proof { lemma_blank_end(self.input@, self.pos as int); }
        while self.pos < self.input.len() && (self.input[self.pos] == 32 || self.input[self.pos] == 9)
            invariant
                self.keeps(old(self)),
                blank_end(self.input@, self.pos as int) == blank_end(old(self).input@, old(self).pos as int),
            decreases self.input@.len() - self.pos,
        {
            self.pos += 1;
        }
    }

    fn at_end(&self) -> (b: bool)
        ensures
            b == (self.pos >= self.input@.len()),
    {
        self.pos >= self.input.len()
    }

    fn skip_blanks_and_newlines(&mut self)
        requires
            old(self).wf(),
        ensures
            final(self).keeps(old(self)),
            final(self).pos == separator_end(old(self).input@, old(self).pos as int),
    {
        proof { lemma_separator_end(self.input@, self.pos as int); }
        while self.pos < self.input.len() && (self.input[self.pos] == 32 || self.input[self.pos] == 9
            || self.input[self.pos] == 10 || self.input[self.pos] == 59)
            invariant
                self.keeps(old(self)),
                separator_end(self.input@, self.pos as int) == separator_end(old(self).input@, old(self).pos as int),
            decreases self.input@.len() - self.pos,
        {
            self.pos += 1;
        }
    }

    /// Push a literal character to `target`. If `ch` is the start of a
    /// multi-byte UTF-8 sequence, consume the continuation bytes from the
    /// input so the full Unicode code point is preserved (otherwise the
    /// byte is pushed as a Latin-1 char).
    fn push_literal(&mut self, ch: u8, target: &mut Vec<char>)
        requires
            old(self).wf(),
        ensures
            final(self).keeps(old(self)),
            final(target)@ == old(target)@ + literal(old(self).input@, ch, old(self).pos as int).0,
            final(self).pos == literal(old(self).input@, ch, old(self).pos as int).1,
    {
        if ch < 0x80 {
            target.push(ch as char);
            return;
        }
        let n: usize = if ch & 0xE0 == 0xC0 {
            2
        } else if ch & 0xF0 == 0xE0 {
            3
        } else if ch & 0xF8 == 0xF0 {
            4
        } else {
            1
        };
        let ghost p0 = self.pos as int;
        let ghost s = self.input@;
        proof { lemma_continuation_run(s, p0, n - 1); }
        let mut buf: Vec<u8> = Vec::new();
        buf.push(ch);
        let mut len: usize = 1;
        while len < n && self.pos < self.input.len() && self.input[self.pos] & 0xC0 == 0x80
            invariant
                self.keeps(old(self)),
                s == self.input@,
                p0 == old(self).pos,
                1 <= len <= n <= 4,
                n as int == lead_width(ch),
                self.pos == p0 + len - 1,
                buf@ == seq![ch] + s.subrange(p0, self.pos as int),
                continuation_run(s, p0, n - 1) == (len - 1) + continuation_run(s, self.pos as int, n - len),
            decreases n - len,
        {
            let ghost q = self.pos as int;
            assert(s.subrange(p0, q + 1) =~= s.subrange(p0, q).push(s[q]));
            buf.push(self.input[self.pos]);
            len += 1;
            self.pos += 1;
            assert(buf@ =~= seq![ch] + s.subrange(p0, self.pos as int));
        }
        assert(continuation_run(s, self.pos as int, n - len) == 0);
        match utf8_decode(buf.as_slice()) {
            Some(chars) => {
                if chars.len() > 0 {
                    target.push(chars[0]);
                    assert(chars@.take(1) =~= seq![chars@[0]]);
                } else {
                    assert(chars@.take(1) =~= Seq::<char>::empty());
                    assert(target@ =~= old(target)@ + chars@.take(1));
                }
            },
            None => target.push(byte_as_char_exec(ch)),
        }
    }

    fn parse_number(&mut self) -> (n: Result<usize, String>)
        requires
            old(self).wf(),
        ensures
            final(self).keeps(old(self)),
            final(self).pos == digit_end(old(self).input@, old(self).pos as int),
            n == Ok::<usize, String>(saturate(digits_value(old(self).input@, old(self).pos as int, final(self).pos as int))),
    {
        let ghost p0 = self.pos as int;
        let ghost s = self.input@;
        proof { lemma_digit_end(s, p0); }
        let mut n: usize = 0;
        while self.pos < self.input.len() && 48 <= self.input[self.pos] && self.input[self.pos] <= 57
            invariant
                self.keeps(old(self)),
                s == self.input@,
                p0 == old(self).pos,
                p0 <= self.pos,
                digit_end(s, self.pos as int) == digit_end(s, p0),
                n == saturate(digits_value(s, p0, self.pos as int)),
            decreases s.len() - self.pos,
        {
            let d = (self.input[self.pos] - 48) as usize;
            let ghost v = digits_value(s, p0, self.pos as int);
            assert(digits_value(s, p0, self.pos + 1) == v * 10 + d);
            if n == usize::MAX {
                assert(v >= usize::MAX);
                assert(v * 10 + d >= usize::MAX) by (nonlinear_arith)
                    requires
                        v >= usize::MAX,
                ;
            } else if n > (usize::MAX - d) / 10 {
                assert(v == n);
                assert(v * 10 + d > usize::MAX) by (nonlinear_arith)
                    requires
                        v > (usize::MAX - d) / 10,
                        d <= 9,
                ;
                n = usize::MAX;
            } else {
                assert(v == n);
                assert(n * 10 + d <= usize::MAX) by (nonlinear_arith)
                    requires
                        n <= (usize::MAX - d) / 10,
                        d <= 9,
                ;
                n = n * 10 + d;
            }
            self.pos += 1;
        }
        Ok(n)
    }
}

} // verus!
