use vstd::prelude::*;
use super::{error_text, Parser};
use super::script::{
    block_so_far, command_fuel, command_parses, commands_fuel, commands_parse, lemma_block_close, lemma_block_error,
    lemma_block_start, lemma_block_step, lemma_block_unmatched, lemma_command_block_done, lemma_command_block_error,
    lemma_command_simple, lemma_command_simple_error, lemma_command_none, lemma_command_head_error, lemma_script_comment,
    lemma_script_end, lemma_script_error, lemma_script_start, lemma_script_step, script_fuel, script_parses,
    script_so_far, Parsed,
};
use super::regex_args::rx;
use super::substitute::{addr_ere, addr_mods, compiled_pattern, substitute_result, translit_result};
use super::text_args::{filename_end, label_end, lemma_filename_end, lemma_label_end, lemma_text_from, text_from};
use crate::scan::{blank_end, byte_at, digit_end, digits_value, is_digit, lemma_blank_end, lemma_digit_end, lemma_separator_end, saturate, separator_end};
use crate::sed_regex::sed_compile_error;
use crate::text::{chars_of, script_chars, push_str, string_from_chars, trim_chars, trimmed};
use crate::types::{
    count, layout, lemma_layout_len, lemma_layout_push, lemma_layout_single, Entry,
    address_model, command_model, range_model, Address, AddressModel, AddressRange, Command, CommandModel,
    RangeModel, SedCommand,
};

verus! {

/// An error: its message, where the input stands, and the character
/// position it is reported at.
pub type ParseError = (Seq<char>, int, int);

/// An error reported at the position where it is found.
pub open spec fn error_here(msg: Seq<char>, pos: int, cs: int) -> ParseError {
    (msg, pos, pos - cs)
}

/// The regex address whose text starts at `q` (after its opening
/// delimiter `d`).
pub open spec fn regex_address(s: Seq<u8>, q: int, d: u8, cs: int, extended: bool, posix: bool) -> Result<(Option<AddressModel>, int), ParseError> {
    match rx(s, d, q, false, false) {
        None => Err(error_here("unterminated address regex"@, s.len() as int, cs)),
        Some(r) => {
            let has_mod = byte_at(s, r.1) == Some(73u8) || byte_at(s, r.1) == Some(77u8);
            if r.0.len() == 0 {
                if has_mod {
                    Err(("cannot specify modifiers on empty regexp"@, r.1, r.1 - cs + 1))
                } else {
                    Ok((Some(AddressModel::LastRegex), r.1))
                }
            } else {
                let m = addr_mods(s, r.1, Seq::empty());
                let c = compiled_pattern(addr_ere(r.0, m.0, extended), posix);
                match sed_compile_error(c) {
                    None => Ok((Some(AddressModel::Regex(c)), m.1)),
                    Some(e) => Err(error_here(e, m.1, cs)),
                }
            }
        },
    }
}

/// The number written at `p` (saturated) and where it ends.
pub open spec fn number_at(s: Seq<u8>, p: int) -> (usize, int) {
    let e = digit_end(s, p);
    (saturate(digits_value(s, p, e)), e)
}

/// The address (if any) that starts after the blanks at `p`, and where
/// the input continues.
pub open spec fn address_at(s: Seq<u8>, p: int, cs: int, extended: bool, posix: bool) -> Result<(Option<AddressModel>, int), ParseError> {
    let q = blank_end(s, p);
    match byte_at(s, q) {
        Some(b) => if b == 43 {
            if posix {
                Err(("unexpected `,'"@, q, q - cs + 1))
            } else {
                let n = number_at(s, q + 1);
                Ok((Some(AddressModel::Relative(n.0)), n.1))
            }
        } else if b == 126 {
            if posix {
                Err(("unexpected `,'"@, q, q - cs + 1))
            } else {
                let n = number_at(s, q + 1);
                Ok((Some(AddressModel::Multiple(n.0)), n.1))
            }
        } else if b == 36 {
            Ok((Some(AddressModel::Last), q + 1))
        } else if is_digit(b) {
            let n = number_at(s, q);
            if byte_at(s, n.1) == Some(126u8) {
                let st = number_at(s, n.1 + 1);
                Ok((Some(AddressModel::Step(n.0, st.0)), st.1))
            } else {
                Ok((Some(AddressModel::Line(n.0)), n.1))
            }
        } else if b == 47 {
            regex_address(s, q + 1, 47, cs, extended, posix)
        } else if b == 92 {
            match byte_at(s, q + 1) {
                None => Err(error_here("expected delimiter after \\"@, q + 1, cs)),
                Some(d) => regex_address(s, q + 2, d, cs, extended, posix),
            }
        } else {
            Ok((None, q))
        },
        None => Ok((None, q)),
    }
}

/// The address or address range of a command that starts at `p` (= `cs`).
pub open spec fn range_at(s: Seq<u8>, p: int, cs: int, extended: bool, posix: bool) -> Result<(RangeModel, int), ParseError> {
    match address_at(s, p, cs, extended, posix) {
        Err(e) => Err(e),
        Ok(x) => match x.0 {
            None => Ok((RangeModel::NoAddress, x.1)),
            Some(a) => if a is Relative || a is Multiple {
                Err(error_here("invalid usage of +N or ~N as first address"@, x.1, cs))
            } else if byte_at(s, x.1) == Some(44u8) {
                match address_at(s, x.1 + 1, cs, extended, posix) {
                    Err(e) => Err(e),
                    Ok(y) => match y.0 {
                        None => Err(error_here("expected address after ','"@, y.1, cs)),
                        Some(b) => if (a == AddressModel::Line(0) && b is Line) || (posix && a == AddressModel::Line(0)) {
                            Err(("invalid usage of line address 0"@, y.1, y.1 + 1))
                        } else {
                            Ok((RangeModel::Range(a, b), y.1))
                        },
                    },
                }
            } else {
                Ok((RangeModel::Single(a), x.1))
            },
        },
    }
}

/// A byte that may follow a command that takes no argument.
pub open spec fn may_follow_command(b: u8) -> bool {
    b == 10 || b == 59 || b == 125 || b == 35 || b == 32 || b == 9
}

/// Commands that take no argument (checked for extra characters).
pub open spec fn takes_no_argument(c: CommandModel) -> bool {
    c is Delete || c is DeleteFirstLine || c is Print || c is PrintFirstLine || c is PrintLineNum
        || c is HoldReplace || c is HoldAppend || c is GetReplace || c is GetAppend || c is Exchange
        || c is Next || c is NextAppend || c is Filename || c is PrintEscaped || c is Quit
        || c is QuitNoprint || c is Block || c is Transliterate
}

/// GNU commands that `--posix` refuses.
pub open spec fn gnu_only_command(b: u8) -> bool {
    b == 101 || b == 70 || b == 118 || b == 81 || b == 84 || b == 82 || b == 87
}

/// One-address commands: `q` and `Q` always, the others under `--posix`.
pub open spec fn one_address_command(b: u8, posix: bool) -> bool {
    b == 113 || b == 81 || (posix && (b == 97 || b == 105 || b == 99 || b == 108 || b == 61 || b == 114 || b == 82))
}

/// The head of a command whose text starts after the blanks at `p`: its
/// address range, whether it is negated, and where its command character
/// stands (`None`: nothing but blanks is left). The checks that need the
/// command character but not what follows it are made here.
pub open spec fn command_head(s: Seq<u8>, p: int, extended: bool, posix: bool, depth: nat) -> Result<Option<(RangeModel, bool, int)>, ParseError> {
    let q = blank_end(s, p);
    if q >= s.len() {
        Ok(None)
    } else {
        match range_at(s, q, q, extended, posix) {
            Err(e) => Err(e),
            Ok(r) => {
                let q1 = blank_end(s, r.1);
                let neg = byte_at(s, q1) == Some(33u8);
                let q2 = if neg { blank_end(s, q1 + 1) } else { q1 };
                if neg && byte_at(s, q2) == Some(33u8) {
                    Err(error_here("multiple `!'s"@, q2 + 1, q))
                } else if q2 >= s.len() {
                    if !(r.0 is NoAddress) || neg {
                        Err(error_here("missing command"@, q2, q))
                    } else {
                        Ok(None)
                    }
                } else if head_error(s, q2, q, r.0 is NoAddress, r.0 is Range, posix, depth) is Some {
                    Err(head_error(s, q2, q, r.0 is NoAddress, r.0 is Range, posix, depth)->0)
                } else {
                    Ok(Some((r.0, neg, q2)))
                }
            },
        }
    }
}

/// The errors found at the command character `s[q2]` of a command that
/// starts at `q`, given its address range: `:`, `#` and (inside a block)
/// `}` take no address, and some commands take one address only.
pub open spec fn head_error(s: Seq<u8>, q2: int, q: int, no_address: bool, is_range: bool, posix: bool, depth: nat) -> Option<ParseError> {
    if !no_address && s[q2] == 58 {
        Some(error_here(": doesn't want any addresses"@, q2 + 1, q))
    } else if !no_address && s[q2] == 35 {
        Some(error_here("comments don't accept any addresses"@, q2 + 1, q))
    } else if !no_address && s[q2] == 125 && depth > 0 {
        Some(("`}' doesn't want any addresses"@, q2, q2 + 1))
    } else if is_range && one_address_command(s[q2], posix) {
        Some(error_here("command only uses one address"@, q2 + 1, q))
    } else {
        None
    }
}

/// What is left of the line after a command's first line: the input skips
/// past the next newline (or to the end).
pub open spec fn line_end(s: Seq<u8>, p: int) -> int
    decreases s.len() - p,
{
    if p < 0 || p >= s.len() {
        p
    } else if s[p] == 10 {
        p + 1
    } else {
        line_end(s, p + 1)
    }
}

/// The value of decimal digits `t[i..j]`.
pub open spec fn chars_value(t: Seq<char>, i: int, j: int) -> nat
    decreases j - i,
{
    if j <= i {
        0
    } else {
        chars_value(t, i, j - 1) * 10 + (t[j - 1] as u32 - 48) as nat
    }
}

/// `u32::from_str` on `t`: an optional `+`, then one or more decimal
/// digits whose value fits in a `u32`.
pub open spec fn parse_u32(t: Seq<char>) -> Option<u32> {
    let start: int = if t.len() > 0 && t[0] == '+' { 1 } else { 0 };
    if start >= t.len() {
        None
    } else if exists|i: int| start <= i < t.len() && !('0' <= #[trigger] t[i] && t[i] <= '9') {
        None
    } else if chars_value(t, start, t.len() as int) > u32::MAX {
        None
    } else {
        Some(chars_value(t, start, t.len() as int) as u32)
    }
}

/// Where the first `.` at or after `i` is (or the end).
pub open spec fn dot_index(t: Seq<char>, i: int) -> int
    decreases t.len() - i,
{
    if i < 0 || i >= t.len() || t[i] == '.' {
        i
    } else {
        dot_index(t, i + 1)
    }
}

/// A version `major.minor[...]` that asks for a newer sed than 4.9; a part
/// that does not read as a number counts as 0.
pub open spec fn version_newer(v: Seq<char>) -> bool {
    let d1 = dot_index(v, 0);
    let major = match parse_u32(v.subrange(0, d1)) {
        Some(n) => n as int,
        None => 0,
    };
    let minor = if d1 < v.len() {
        let d2 = dot_index(v, d1 + 1);
        match parse_u32(v.subrange(d1 + 1, d2)) {
            Some(n) => n as int,
            None => 0,
        }
    } else {
        0
    };
    major > 4 || (major == 4 && minor > 9)
}

/// Where the input continues after the optional backslash-newline (or
/// blanks) that may follow `a`, `i`, `c`.
pub open spec fn after_text_start(s: Seq<u8>, p: int) -> int {
    if byte_at(s, p) == Some(92u8) {
        if byte_at(s, p + 1) == Some(10u8) { p + 2 } else { p + 1 }
    } else if byte_at(s, p) == Some(32u8) || byte_at(s, p) == Some(9u8) {
        blank_end(s, p)
    } else {
        p
    }
}

/// The label that starts after the blanks at `p`, if any, and its end.
pub open spec fn label_after_blanks(s: Seq<u8>, p: int) -> (Option<Seq<char>>, int) {
    let q = blank_end(s, p);
    let e = label_end(s, q);
    (if e == q { None } else { Some(script_chars(s.subrange(q, e))) }, e)
}

/// The file name that starts after the blanks at `p`, and its end.
pub open spec fn filename_after_blanks(s: Seq<u8>, p: int) -> (Seq<char>, int) {
    let q = blank_end(s, p);
    let e = filename_end(s, q);
    (trimmed(script_chars(s.subrange(q, e))), e)
}

/// The exit code that may follow `q`/`Q` (after blanks), and where it ends.
pub open spec fn exit_code_at(s: Seq<u8>, p: int) -> (Option<i32>, int) {
    let q = blank_end(s, p);
    match byte_at(s, q) {
        Some(b) => if is_digit(b) {
            let n = number_at(s, q);
            (Some(n.0 as i32), n.1)
        } else {
            (None, q)
        },
        None => (None, q),
    }
}

/// The commands that take nothing after their character.
pub open spec fn plain_command(b: u8) -> Option<CommandModel> {
    if b == 100 {
        Some(CommandModel::Delete)
    } else if b == 68 {
        Some(CommandModel::DeleteFirstLine)
    } else if b == 112 {
        Some(CommandModel::Print)
    } else if b == 80 {
        Some(CommandModel::PrintFirstLine)
    } else if b == 61 {
        Some(CommandModel::PrintLineNum)
    } else if b == 110 {
        Some(CommandModel::Next)
    } else if b == 78 {
        Some(CommandModel::NextAppend)
    } else if b == 104 {
        Some(CommandModel::HoldReplace)
    } else if b == 72 {
        Some(CommandModel::HoldAppend)
    } else if b == 103 {
        Some(CommandModel::GetReplace)
    } else if b == 71 {
        Some(CommandModel::GetAppend)
    } else if b == 120 {
        Some(CommandModel::Exchange)
    } else if b == 70 {
        Some(CommandModel::Filename)
    } else if b == 10 || b == 59 {
        Some(CommandModel::Noop)
    } else {
        None
    }
}

/// The message for a command character that sed does not know.
pub open spec fn unknown_command_message(ch: u8) -> Seq<char> {
    "unknown command: `"@ + seq![ch as char] + "'"@
}

/// A command other than a block whose character is at `p`, in a command
/// that starts at `cs`: the command and where the input continues, or the
/// error. (For `{` the value says nothing.)
pub open spec fn simple_command(
    s: Seq<u8>,
    p: int,
    cs: int,
    extended: bool,
    posix: bool,
    sandbox: bool,
    last_script: bool,
    depth: nat,
) -> Result<(CommandModel, int), ParseError> {
    let p1 = p + 1;
    match byte_at(s, p) {
        None => Err(error_here("expected command"@, p, cs)),
        Some(ch) => if posix && gnu_only_command(ch) {
            Err(error_here(unknown_command_message(ch), p1, cs))
        } else if plain_command(ch) is Some {
            Ok((plain_command(ch)->0, p1))
        } else if ch == 115 {
            substitute_result(s, p1, cs, extended, posix, sandbox)
        } else if ch == 121 {
            translit_result(s, p1, cs)
        } else if ch == 108 {
            match byte_at(s, p1) {
                Some(b) => if is_digit(b) {
                    if posix {
                        Err(("extra characters after command"@, p1, p1 - cs + 1))
                    } else {
                        let n = number_at(s, p1);
                        Ok((CommandModel::PrintEscaped(Some(n.0)), n.1))
                    }
                } else {
                    Ok((CommandModel::PrintEscaped(None), p1))
                },
                None => Ok((CommandModel::PrintEscaped(None), p1)),
            }
        } else if ch == 113 {
            let c = exit_code_at(s, p1);
            Ok((CommandModel::Quit(c.0), c.1))
        } else if ch == 81 {
            let c = exit_code_at(s, p1);
            Ok((CommandModel::QuitNoprint(c.0), c.1))
        } else if ch == 97 || ch == 105 || ch == 99 {
            match byte_at(s, p1) {
                None => Err(error_here(
                    if last_script { "expected \\ after `a', `c' or `i'"@ } else { "incomplete command"@ },
                    p1,
                    cs,
                )),
                Some(next) => if posix && next != 92 {
                    Err(("expected \\ after `a', `c' or `i'"@, p1, p1 - cs + 1))
                } else {
                    let t = text_from(s, after_text_start(s, p1), Seq::empty());
                    if posix && t.0.len() == 0 && t.1 >= s.len() && !last_script {
                        Err(error_here("incomplete command"@, t.1, cs))
                    } else if ch == 97 {
                        Ok((CommandModel::Append(t.0), t.1))
                    } else if ch == 105 {
                        Ok((CommandModel::Insert(t.0), t.1))
                    } else {
                        Ok((CommandModel::Change(t.0), t.1))
                    }
                },
            }
        } else if ch == 58 {
            let l = label_after_blanks(s, p1);
            match l.0 {
                None => Err(error_here("\":\" lacks a label"@, l.1, cs)),
                Some(t) => Ok((CommandModel::Label(t), l.1)),
            }
        } else if ch == 98 {
            let l = label_after_blanks(s, p1);
            Ok((CommandModel::Branch(l.0), l.1))
        } else if ch == 116 {
            let l = label_after_blanks(s, p1);
            Ok((CommandModel::BranchIfSub(l.0), l.1))
        } else if ch == 84 {
            let l = label_after_blanks(s, p1);
            Ok((CommandModel::BranchIfNoSub(l.0), l.1))
        } else if ch == 114 || ch == 82 || ch == 119 || ch == 87 {
            if sandbox {
                Err(error_here("e/r/w commands disabled in sandbox mode"@, p1, cs))
            } else {
                let f = filename_after_blanks(s, p1);
                if f.0.len() == 0 {
                    Err(error_here("missing filename in r/R/w/W commands"@, f.1, cs))
                } else if ch == 114 {
                    Ok((CommandModel::ReadFile(f.0), f.1))
                } else if ch == 82 {
                    Ok((CommandModel::ReadLine(f.0), f.1))
                } else if ch == 119 {
                    Ok((CommandModel::WriteFile(f.0), f.1))
                } else {
                    Ok((CommandModel::WriteFirstLine(f.0), f.1))
                }
            }
        } else if ch == 101 {
            if sandbox {
                Err(error_here("e/r/w commands disabled in sandbox mode"@, p1, cs))
            } else if byte_at(s, p1) == Some(10u8) || byte_at(s, p1) == Some(59u8) || p1 >= s.len() {
                Ok((CommandModel::Execute(None), p1))
            } else {
                let t = text_from(s, blank_end(s, p1), Seq::empty());
                if t.0.len() == 0 {
                    Ok((CommandModel::Execute(None), t.1))
                } else {
                    Ok((CommandModel::Execute(Some(t.0)), t.1))
                }
            }
        } else if ch == 118 {
            let f = filename_after_blanks(s, p1);
            if f.0.len() > 0 && version_newer(f.0) {
                Err(error_here("expected newer version of sed"@, f.1, cs))
            } else {
                Ok((CommandModel::Noop, f.1))
            }
        } else if ch == 35 {
            Ok((CommandModel::Noop, line_end(s, p1)))
        } else if ch == 125 {
            if depth == 0 {
                Err(error_here("unexpected `}'"@, p1, cs))
            } else {
                Ok((CommandModel::Noop, p))
            }
        } else {
            Err(error_here(unknown_command_message(ch), p1, cs))
        },
    }
}

impl<'a> Parser<'a> {
    /// A regex address whose text starts here (after its delimiter).
    fn regex_address_exec(&mut self, delim: u8) -> (r: Result<Option<Address>, String>)
        requires
            old(self).wf(),
        ensures
            final(self).keeps(old(self)),
            match regex_address(old(self).input@, old(self).pos as int, delim, old(self).cmd_start as int, old(self).extended, old(self).posix) {
                Ok(x) => r matches Ok(a) && final(self).pos == x.1 && match x.0 {
                    None => a is None,
                    Some(m) => a matches Some(ad) && address_model(ad) == m,
                },
                Err(e) => r matches Err(m) && final(self).reports(m@, e),
            },
    {
        let pattern = match self.parse_regex_delimited(delim) {
            Ok(p) => p,
            Err(e) => { return Err(e); },
        };
        let has_modifiers = self.peek() == Some(73u8) || self.peek() == Some(77u8);
        if pattern.len() == 0 {
            if has_modifiers {
                return Err(self.err_at(self.pos - self.cmd_start + 1, "cannot specify modifiers on empty regexp"));
            }
            Ok(Some(Address::LastRegex))
        } else {
            let flags = self.parse_addr_regex_modifiers();
            match self.compile_regex(&pattern, &flags) {
                Ok(re) => Ok(Some(Address::Regex(re))),
                Err(e) => Err(e),
            }
        }
    }

    pub(super) fn try_parse_address(&mut self) -> (r: Result<Option<Address>, String>)
        requires
            old(self).wf(),
        ensures
            final(self).keeps(old(self)),
            r matches Ok(Some(_)) ==> final(self).pos > old(self).pos,
            match address_at(old(self).input@, old(self).pos as int, old(self).cmd_start as int, old(self).extended, old(self).posix) {
                Ok(x) => r matches Ok(a) && final(self).pos == x.1 && match x.0 {
                    None => a is None,
                    Some(m) => a matches Some(ad) && address_model(ad) == m,
                },
                Err(e) => r matches Err(m) && final(self).reports(m@, e),
            },
    {
        self.skip_whitespace();
        match self.peek() {
            Some(43u8) => {
                if self.posix {
                    return Err(self.err_at(self.pos - self.cmd_start + 1, "unexpected `,'"));
                }
                self.advance();
                let n = match self.parse_number() {
                    Ok(n) => n,
                    Err(e) => { return Err(e); },
                };
                Ok(Some(Address::Relative(n)))
            },
            Some(126u8) => {
                if self.posix {
                    return Err(self.err_at(self.pos - self.cmd_start + 1, "unexpected `,'"));
                }
                self.advance();
                let n = match self.parse_number() {
                    Ok(n) => n,
                    Err(e) => { return Err(e); },
                };
                Ok(Some(Address::Multiple(n)))
            },
            Some(36u8) => {
                self.advance();
                Ok(Some(Address::Last))
            },
            Some(47u8) => {
                self.advance();
                self.regex_address_exec(47)
            },
            Some(92u8) => {
                self.advance();
                let delim = match self.advance() {
                    Some(d) => d,
                    None => { return Err(self.err("expected delimiter after \\")); },
                };
                self.regex_address_exec(delim)
            },
            Some(b) => {
                if 48 <= b && b <= 57 {
                    proof { lemma_digit_end(self.input@, self.pos + 1); }
                    let n = match self.parse_number() {
                        Ok(n) => n,
                        Err(e) => { return Err(e); },
                    };
                    if self.peek() == Some(126u8) {
                        self.advance();
                        let step = match self.parse_number() {
                            Ok(n) => n,
                            Err(e) => { return Err(e); },
                        };
                        Ok(Some(Address::Step(n, step)))
                    } else {
                        Ok(Some(Address::Line(n)))
                    }
                } else {
                    Ok(None)
                }
            },
            None => Ok(None),
        }
    }

    pub(super) fn parse_address_range(&mut self) -> (r: Result<AddressRange, String>)
        requires
            old(self).wf(),
        ensures
            final(self).keeps(old(self)),
            r matches Ok(a) && !(a is NoAddress) ==> final(self).pos > old(self).pos,
            match range_at(old(self).input@, old(self).pos as int, old(self).cmd_start as int, old(self).extended, old(self).posix) {
                Ok(x) => r matches Ok(a) && range_model(a) == x.0 && final(self).pos == x.1,
                Err(e) => r matches Err(m) && final(self).reports(m@, e),
            },
    {
        let first = match self.try_parse_address() {
            Ok(a) => a,
            Err(e) => { return Err(e); },
        };
        match first {
            None => Ok(AddressRange::NoAddress),
            Some(addr) => {
                let relative = match &addr {
                    Address::Relative(_) => true,
                    Address::Multiple(_) => true,
                    _ => false,
                };
                if relative {
                    return Err(self.err("invalid usage of +N or ~N as first address"));
                }
                if self.peek() == Some(44u8) {
                    self.advance();
                    let second = match self.try_parse_address() {
                        Ok(a) => a,
                        Err(e) => { return Err(e); },
                    };
                    match second {
                        Some(addr2) => {
                            let first_is_zero = match &addr {
                                Address::Line(n) => *n == 0,
                                _ => false,
                            };
                            let second_is_line = match &addr2 {
                                Address::Line(_) => true,
                                _ => false,
                            };
                            if first_is_zero && second_is_line {
                                return Err(self.err_at(self.pos + 1, "invalid usage of line address 0"));
                            }
                            if self.posix && first_is_zero {
                                return Err(self.err_at(self.pos + 1, "invalid usage of line address 0"));
                            }
                            Ok(AddressRange::Range(addr, addr2))
                        },
                        None => Err(self.err("expected address after ','")),
                    }
                } else {
                    Ok(AddressRange::Single(addr))
                }
            },
        }
    }
}

/// The first item of a script from `p` is a `#n` comment line.
pub open spec fn starts_with_hash_n(s: Seq<u8>, p: int) -> bool {
    let q = separator_end(s, p);
    byte_at(s, q) == Some(35u8) && byte_at(s, q + 1) == Some(110u8)
}

proof fn lemma_chars_value_grows(t: Seq<char>, i: int, j: int)
    requires
        i <= j,
    ensures
        chars_value(t, i, j) <= chars_value(t, i, j + 1),
{
    assert(chars_value(t, i, j + 1) == chars_value(t, i, j) * 10 + (t[j] as u32 - 48) as nat);
}

proof fn lemma_parse_u32_non_digit(u: Seq<char>, k: int)
    requires
        0 <= k < u.len(),
        !('0' <= u[k] && u[k] <= '9'),
        (if u.len() > 0 && u[0] == '+' { 1int } else { 0int }) <= k,
    ensures
        parse_u32(u) is None,
{
    assert(!('0' <= u[k] && u[k] <= '9'));
}

proof fn lemma_chars_value_mono(t: Seq<char>, i: int, j: int, k: int)
    requires
        i <= j <= k,
    ensures
        chars_value(t, i, j) <= chars_value(t, i, k),
    decreases k - j,
{
    if j < k {
        lemma_chars_value_grows(t, i, k - 1);
        lemma_chars_value_mono(t, i, j, k - 1);
    }
}

proof fn lemma_dot_index(t: Seq<char>, i: int)
    requires
        0 <= i <= t.len(),
    ensures
        i <= dot_index(t, i) <= t.len(),
    decreases t.len() - i,
{
    if i < t.len() && t[i] != '.' {
        lemma_dot_index(t, i + 1);
    }
}

/// `u32::from_str` on `t[lo..hi]`.
fn parse_u32_range(t: &Vec<char>, lo: usize, hi: usize) -> (r: Option<u32>)
    requires
        lo <= hi <= t.len(),
    ensures
        r == parse_u32(t@.subrange(lo as int, hi as int)),
{
    let ghost u = t@.subrange(lo as int, hi as int);
    let start: usize = if lo < hi && t[lo] == '+' { lo + 1 } else { lo };
    if start >= hi {
        return None;
    }
    let ghost st: int = start - lo;
    assert(st == (if u.len() > 0 && u[0] == '+' { 1int } else { 0int }));
    let mut v: u64 = 0;
    let mut i = start;
    while i < hi
        invariant
            lo <= start <= i <= hi <= t.len(),
            st == start - lo,
            st == (if u.len() > 0 && u[0] == '+' { 1int } else { 0int }),
            st < u.len(),
            u == t@.subrange(lo as int, hi as int),
            forall|k: int| st <= k < i - lo ==> '0' <= #[trigger] u[k] && u[k] <= '9',
            v == chars_value(u, st, i - lo),
            v <= u32::MAX,
        decreases hi - i,
    {
        let c = t[i];
        if !('0' <= c && c <= '9') {
            proof { lemma_parse_u32_non_digit(u, i - lo); }
            return None;
        }
        let d = (c as u32 - 48) as u64;
        assert(chars_value(u, st, i - lo + 1) == chars_value(u, st, i - lo) * 10 + d);
        v = v * 10 + d;
        i += 1;
        if v > 0xFFFF_FFFFu64 {
            proof { lemma_chars_value_mono(u, st, i - lo, hi - lo); }
            return None;
        }
    }
    Some(v as u32)
}

/// Whether the version text `v` asks for a newer sed than 4.9.
fn version_is_newer(v: &Vec<char>) -> (b: bool)
    ensures
        b == version_newer(v@),
{
    let mut d1: usize = 0;
    while d1 < v.len() && v[d1] != '.'
        invariant
            d1 <= v.len(),
            dot_index(v@, d1 as int) == dot_index(v@, 0),
        decreases v.len() - d1,
    {
        d1 += 1;
    }
    let major: u32 = match parse_u32_range(v, 0, d1) {
        Some(n) => n,
        None => 0,
    };
    let mut minor: u32 = 0;
    if d1 < v.len() {
        let mut d2: usize = d1 + 1;
        while d2 < v.len() && v[d2] != '.'
            invariant
                d1 + 1 <= d2 <= v.len(),
                dot_index(v@, d2 as int) == dot_index(v@, d1 + 1),
            decreases v.len() - d2,
        {
            d2 += 1;
        }
        minor = match parse_u32_range(v, d1 + 1, d2) {
            Some(n) => n,
            None => 0,
        };
    }
    major > 4 || (major == 4 && minor > 9)
}

impl<'a> Parser<'a> {
    /// `a`, `i`, `c` (the command character already consumed).
    fn parse_text_command(&mut self, ch: u8) -> (r: Result<Command, String>)
        requires
            old(self).wf(),
            old(self).pos >= 1,
            ch == 97 || ch == 105 || ch == 99,
            old(self).input@[old(self).pos - 1] == ch,
            !(old(self).posix && gnu_only_command(ch)),
        ensures
            final(self).keeps(old(self)),
            match simple_command(old(self).input@, old(self).pos - 1, old(self).cmd_start as int, old(self).extended, old(self).posix, old(self).sandbox, old(self).is_last_script, old(self).block_depth as nat) {
                Ok(x) => r matches Ok(c) && command_model(c) == x.0 && final(self).pos == x.1,
                Err(e) => r matches Err(m) && final(self).reports(m@, e),
            },
    {
        let next = self.peek();
        if next.is_none() {
            if self.is_last_script {
                return Err(self.err("expected \\ after `a', `c' or `i'"));
            } else {
                return Err(self.err("incomplete command"));
            }
        }
        if self.posix && next != Some(92u8) {
            return Err(self.err_at(self.pos - self.cmd_start + 1, "expected \\ after `a', `c' or `i'"));
        }
        self.skip_optional_backslash_newline();
        proof { lemma_text_from(self.input@, self.pos as int, Seq::empty()); }
        let text = self.parse_text_arg();
        if self.posix && text.len() == 0 && self.at_end() && !self.is_last_script {
            return Err(self.err("incomplete command"));
        }
        let t = string_from_chars(text.as_slice());
        if ch == 97 {
            Ok(Command::Append(t))
        } else if ch == 105 {
            Ok(Command::Insert(t))
        } else {
            Ok(Command::Change(t))
        }
    }

    /// `r`, `R`, `w`, `W` (the command character already consumed).
    fn parse_file_command(&mut self, ch: u8) -> (r: Result<Command, String>)
        requires
            old(self).wf(),
            old(self).pos >= 1,
            ch == 114 || ch == 82 || ch == 119 || ch == 87,
            old(self).input@[old(self).pos - 1] == ch,
            !(old(self).posix && gnu_only_command(ch)),
        ensures
            final(self).keeps(old(self)),
            match simple_command(old(self).input@, old(self).pos - 1, old(self).cmd_start as int, old(self).extended, old(self).posix, old(self).sandbox, old(self).is_last_script, old(self).block_depth as nat) {
                Ok(x) => r matches Ok(c) && command_model(c) == x.0 && final(self).pos == x.1,
                Err(e) => r matches Err(m) && final(self).reports(m@, e),
            },
    {
        if self.sandbox {
            return Err(self.err("e/r/w commands disabled in sandbox mode"));
        }
        self.skip_whitespace();
        let file = self.parse_filename();
        if file.len() == 0 {
            return Err(self.err("missing filename in r/R/w/W commands"));
        }
        let f = string_from_chars(file.as_slice());
        if ch == 114 {
            Ok(Command::ReadFile(f))
        } else if ch == 82 {
            Ok(Command::ReadLine(f))
        } else if ch == 119 {
            Ok(Command::WriteFile(f))
        } else {
            Ok(Command::WriteFirstLine(f))
        }
    }

    /// `e` (the command character already consumed).
    fn parse_execute(&mut self) -> (r: Result<Command, String>)
        requires
            old(self).wf(),
            old(self).pos >= 1,
            old(self).input@[old(self).pos - 1] == 101,
            !old(self).posix,
        ensures
            final(self).keeps(old(self)),
            match simple_command(old(self).input@, old(self).pos - 1, old(self).cmd_start as int, old(self).extended, old(self).posix, old(self).sandbox, old(self).is_last_script, old(self).block_depth as nat) {
                Ok(x) => r matches Ok(c) && command_model(c) == x.0 && final(self).pos == x.1,
                Err(e) => r matches Err(m) && final(self).reports(m@, e),
            },
    {
        if self.sandbox {
            return Err(self.err("e/r/w commands disabled in sandbox mode"));
        }
        if self.peek() == Some(10u8) || self.peek() == Some(59u8) || self.at_end() {
            return Ok(Command::Execute(None));
        }
        self.skip_whitespace();
        proof { lemma_text_from(self.input@, self.pos as int, Seq::empty()); }
        let text = self.parse_text_arg();
        if text.len() == 0 {
            Ok(Command::Execute(None))
        } else {
            Ok(Command::Execute(Some(string_from_chars(text.as_slice()))))
        }
    }

    /// `v` (the command character already consumed).
    fn parse_version(&mut self) -> (r: Result<Command, String>)
        requires
            old(self).wf(),
            old(self).pos >= 1,
            old(self).input@[old(self).pos - 1] == 118,
            !old(self).posix,
        ensures
            final(self).keeps(old(self)),
            match simple_command(old(self).input@, old(self).pos - 1, old(self).cmd_start as int, old(self).extended, old(self).posix, old(self).sandbox, old(self).is_last_script, old(self).block_depth as nat) {
                Ok(x) => r matches Ok(c) && command_model(c) == x.0 && final(self).pos == x.1,
                Err(e) => r matches Err(m) && final(self).reports(m@, e),
            },
    {
        self.skip_whitespace();
        let ver = self.parse_filename();
        if ver.len() > 0 && version_is_newer(&ver) {
            return Err(self.err("expected newer version of sed"));
        }
        Ok(Command::Noop)
    }

    /// A `#` comment: skips the rest of the line.
    fn skip_comment_line(&mut self)
        requires
            old(self).wf(),
        ensures
            final(self).keeps(old(self)),
            final(self).pos == line_end(old(self).input@, old(self).pos as int),
    {
        let ghost s = self.input@;
        loop
            invariant
                self.keeps(old(self)),
                s == self.input@,
                line_end(s, self.pos as int) == line_end(s, old(self).pos as int),
            decreases s.len() - self.pos,
        {
            match self.advance() {
                Some(10u8) => { return; },
                Some(_) => {},
                None => { return; },
            }
        }
    }

    /// `l` (the command character already consumed).
    fn parse_print_escaped(&mut self) -> (r: Result<Command, String>)
        requires
            old(self).wf(),
            old(self).pos >= 1,
            old(self).input@[old(self).pos - 1] == 108,
        ensures
            final(self).keeps(old(self)),
            match simple_command(old(self).input@, old(self).pos - 1, old(self).cmd_start as int, old(self).extended, old(self).posix, old(self).sandbox, old(self).is_last_script, old(self).block_depth as nat) {
                Ok(x) => r matches Ok(c) && command_model(c) == x.0 && final(self).pos == x.1,
                Err(e) => r matches Err(m) && final(self).reports(m@, e),
            },
    {
        if let Some(d) = self.peek() {
            if 48 <= d && d <= 57 {
                if self.posix {
                    return Err(self.err_at(self.pos - self.cmd_start + 1, "extra characters after command"));
                }
                let n = match self.parse_number() {
                    Ok(n) => n,
                    Err(e) => { return Err(e); },
                };
                return Ok(Command::PrintEscaped(Some(n)));
            }
        }
        Ok(Command::PrintEscaped(None))
    }

    /// `:`, `b`, `t`, `T` (the command character already consumed).
    fn parse_label_command(&mut self, ch: u8) -> (r: Result<Command, String>)
        requires
            old(self).wf(),
            old(self).pos >= 1,
            ch == 58 || ch == 98 || ch == 116 || ch == 84,
            old(self).input@[old(self).pos - 1] == ch,
            !(old(self).posix && gnu_only_command(ch)),
        ensures
            final(self).keeps(old(self)),
            match simple_command(old(self).input@, old(self).pos - 1, old(self).cmd_start as int, old(self).extended, old(self).posix, old(self).sandbox, old(self).is_last_script, old(self).block_depth as nat) {
                Ok(x) => r matches Ok(c) && command_model(c) == x.0 && final(self).pos == x.1,
                Err(e) => r matches Err(m) && final(self).reports(m@, e),
            },
    {
        self.skip_whitespace();
        if ch == 58 {
            proof { lemma_label_end(self.input@, self.pos as int); }
            let start = self.pos;
            let label = self.parse_label();
            if self.pos == start {
                return Err(self.err("\":\" lacks a label"));
            }
            Ok(Command::Label(label))
        } else {
            let label = self.try_parse_label();
            if ch == 98 {
                Ok(Command::Branch(label))
            } else if ch == 116 {
                Ok(Command::BranchIfSub(label))
            } else {
                Ok(Command::BranchIfNoSub(label))
            }
        }
    }

    /// `q`, `Q` (the command character already consumed).
    fn parse_quit(&mut self, ch: u8) -> (r: Result<Command, String>)
        requires
            old(self).wf(),
            old(self).pos >= 1,
            ch == 113 || ch == 81,
            old(self).input@[old(self).pos - 1] == ch,
            !(old(self).posix && gnu_only_command(ch)),
        ensures
            final(self).keeps(old(self)),
            match simple_command(old(self).input@, old(self).pos - 1, old(self).cmd_start as int, old(self).extended, old(self).posix, old(self).sandbox, old(self).is_last_script, old(self).block_depth as nat) {
                Ok(x) => r matches Ok(c) && command_model(c) == x.0 && final(self).pos == x.1,
                Err(e) => r matches Err(m) && final(self).reports(m@, e),
            },
    {
        self.skip_whitespace();
        let code = self.try_parse_exit_code();
        if ch == 113 {
            Ok(Command::Quit(code))
        } else {
            Ok(Command::QuitNoprint(code))
        }
    }
}

/// The command for a character that takes nothing after it, if it is one.
fn plain_command_of(ch: u8) -> (r: Option<Command>)
    ensures
        match plain_command(ch) {
            None => r is None,
            Some(m) => r matches Some(c) && command_model(c) == m,
        },
{
    if ch == 100 {
        Some(Command::Delete)
    } else if ch == 68 {
        Some(Command::DeleteFirstLine)
    } else if ch == 112 {
        Some(Command::Print)
    } else if ch == 80 {
        Some(Command::PrintFirstLine)
    } else if ch == 61 {
        Some(Command::PrintLineNum)
    } else if ch == 110 {
        Some(Command::Next)
    } else if ch == 78 {
        Some(Command::NextAppend)
    } else if ch == 104 {
        Some(Command::HoldReplace)
    } else if ch == 72 {
        Some(Command::HoldAppend)
    } else if ch == 103 {
        Some(Command::GetReplace)
    } else if ch == 71 {
        Some(Command::GetAppend)
    } else if ch == 120 {
        Some(Command::Exchange)
    } else if ch == 70 {
        Some(Command::Filename)
    } else if ch == 10 || ch == 59 {
        Some(Command::Noop)
    } else {
        None
    }
}

/// Whether `c` is a command that takes no argument, so that only a
/// separator, a comment or a blank may follow it.
fn takes_no_argument_exec(c: &Command) -> (b: bool)
    ensures
        b == takes_no_argument(command_model(*c)),
{
    match c {
        Command::Delete | Command::DeleteFirstLine | Command::Print | Command::PrintFirstLine
        | Command::PrintLineNum | Command::HoldReplace | Command::HoldAppend | Command::GetReplace
        | Command::GetAppend | Command::Exchange | Command::Next | Command::NextAppend | Command::Filename
        | Command::PrintEscaped(_) | Command::Quit(_) | Command::QuitNoprint(_) | Command::Block(_)
        | Command::Transliterate(_, _) => true,
        _ => false,
    }
}

impl<'a> Parser<'a> {
    /// The error for a command character that sed does not know.
    fn unknown_command(&self, ch: u8) -> (e: String)
        requires
            self.wf(),
        ensures
            e@ == self.err_spec(unknown_command_message(ch)),
    {
        let mut msg: Vec<char> = Vec::new();
        push_str(&mut msg, "unknown command: `");
        msg.push(ch as char);
        push_str(&mut msg, "'");
        self.err_chars(&msg)
    }

    /// A command other than `{` and `}`, whose character `ch` was just read.
    fn parse_simple_command(&mut self, ch: u8) -> (r: Result<Command, String>)
        requires
            old(self).wf(),
            old(self).pos >= 1,
            old(self).input@[old(self).pos - 1] == ch,
            ch != 123,
            ch != 125,
            !(old(self).posix && gnu_only_command(ch)),
        ensures
            final(self).keeps(old(self)),
            match simple_command(old(self).input@, old(self).pos - 1, old(self).cmd_start as int, old(self).extended, old(self).posix, old(self).sandbox, old(self).is_last_script, old(self).block_depth as nat) {
                Ok(x) => r matches Ok(c) && command_model(c) == x.0 && final(self).pos == x.1,
                Err(e) => r matches Err(m) && final(self).reports(m@, e),
            },
    {
        if let Some(c) = plain_command_of(ch) {
            return Ok(c);
        }
        if ch == 115 {
            self.parse_substitute()
        } else if ch == 121 {
            self.parse_transliterate()
        } else if ch == 108 {
            self.parse_print_escaped()
        } else if ch == 113 || ch == 81 {
            self.parse_quit(ch)
        } else if ch == 97 || ch == 105 || ch == 99 {
            self.parse_text_command(ch)
        } else if ch == 58 || ch == 98 || ch == 116 || ch == 84 {
            self.parse_label_command(ch)
        } else if ch == 114 || ch == 82 || ch == 119 || ch == 87 {
            self.parse_file_command(ch)
        } else if ch == 101 {
            self.parse_execute()
        } else if ch == 118 {
            self.parse_version()
        } else if ch == 35 {
            self.skip_comment_line();
            Ok(Command::Noop)
        } else {
            Err(self.unknown_command(ch))
        }
    }

    #[verifier::rlimit(40)]
    fn parse_command_char(&mut self) -> (r: Result<Command, String>)
        requires
            old(self).wf(),
        ensures
            final(self).wf(),
            final(self).same_config(old(self)),
            final(self).hash_n_quiet == old(self).hash_n_quiet,
            r is Ok ==> final(self).block_depth == old(self).block_depth,
            byte_at(old(self).input@, old(self).pos as int) != Some(123u8) ==> {
                &&& final(self).cmd_start == old(self).cmd_start
                &&& final(self).block_depth == old(self).block_depth
                &&& match simple_command(old(self).input@, old(self).pos as int, old(self).cmd_start as int, old(self).extended, old(self).posix, old(self).sandbox, old(self).is_last_script, old(self).block_depth as nat) {
                    Ok(x) => r matches Ok(c) && command_model(c) == x.0 && final(self).pos == x.1,
                    Err(e) => r matches Err(m) && final(self).reports(m@, e),
                }
            },
            byte_at(old(self).input@, old(self).pos as int) == Some(123u8) ==> match r {
                Ok(c) => c matches Command::Block(v) && commands_parse(old(self).input@, old(self).pos + 1, old(self).parse_cfg(),
                    (old(self).block_depth + 1) as nat, old(self).cmd_start as int,
                    Parsed::Done(layout(v@), final(self).pos as int, final(self).cmd_start as int)),
                Err(m) => exists|e: ParseError| #[trigger] commands_parse(old(self).input@, old(self).pos + 1, old(self).parse_cfg(),
                    (old(self).block_depth + 1) as nat, old(self).cmd_start as int, Parsed::Error(e, final(self).cmd_start as int))
                    && final(self).reports(m@, e),
            },
            r is Ok && byte_at(old(self).input@, old(self).pos as int) != Some(125u8) ==> final(self).pos > old(self).pos,
            old(self).pos <= final(self).pos,
        decreases old(self).input@.len() - old(self).pos, 1int,
    {
        let ch = match self.advance() {
            Some(c) => c,
            None => { return Err(self.err("expected command")); },
        };
        if self.posix && (ch == 101 || ch == 70 || ch == 118 || ch == 81 || ch == 84 || ch == 82 || ch == 87) {
            return Err(self.unknown_command(ch));
        }
        if ch == 123 {
            let ghost mid = *self;
            proof { assert(mid.parse_cfg() == old(self).parse_cfg()); }
            let r = self.parse_block();
            proof {
                if let Err(m) = &r {
                    let e = choose|e: ParseError| #[trigger] commands_parse(mid.input@, mid.pos as int, mid.parse_cfg(),
                        (mid.block_depth + 1) as nat, mid.cmd_start as int, Parsed::Error(e, self.cmd_start as int))
                        && self.reports(m@, e);
                    assert(commands_parse(old(self).input@, old(self).pos + 1, old(self).parse_cfg(),
                        (old(self).block_depth + 1) as nat, old(self).cmd_start as int, Parsed::Error(e, self.cmd_start as int)));
                }
            }
            return r;
        }
        if ch == 125 {
            if self.block_depth == 0 {
                return Err(self.err("unexpected `}'"));
            }
            // Inside a block, `}` after an address closes the block: put
            // it back so that the block parser sees it.
            self.pos = self.pos - 1;
            return Ok(Command::Noop);
        }
        self.parse_simple_command(ch)
    }

    /// The commands of a block, after its `{`, up to and including its `}`.
    fn parse_block(&mut self) -> (r: Result<Command, String>)
        requires
            old(self).wf(),
            old(self).pos >= 1,
            old(self).block_depth < old(self).pos,
            old(self).input@[old(self).pos - 1] == 123,
        ensures
            final(self).wf(),
            final(self).same_config(old(self)),
            final(self).hash_n_quiet == old(self).hash_n_quiet,
            r is Ok ==> (r matches Ok(c) && c is Block) && final(self).block_depth == old(self).block_depth,
            old(self).pos <= final(self).pos,
            match r {
                Ok(c) => c matches Command::Block(v) && commands_parse(old(self).input@, old(self).pos as int, old(self).parse_cfg(),
                    (old(self).block_depth + 1) as nat, old(self).cmd_start as int,
                    Parsed::Done(layout(v@), final(self).pos as int, final(self).cmd_start as int)),
                Err(m) => exists|e: ParseError| #[trigger] commands_parse(old(self).input@, old(self).pos as int, old(self).parse_cfg(),
                    (old(self).block_depth + 1) as nat, old(self).cmd_start as int, Parsed::Error(e, final(self).cmd_start as int))
                    && final(self).reports(m@, e),
            },
        decreases old(self).input@.len() - old(self).pos + 1, 0int,
    {
        let ghost s = self.input@;
        let ghost cfg = self.parse_cfg();
        let ghost p0 = self.pos as int;
        let ghost cs0 = self.cmd_start as int;
        let ghost depth0 = self.block_depth;
        self.block_depth = self.block_depth + 1;
        let ghost d: nat = (depth0 + 1) as nat;
        let mut cmds: Vec<SedCommand> = Vec::new();
        let ghost mut k: nat = 0;
        let ghost mut bound: nat = 0;
        proof {
            lemma_block_start(s, p0, cfg, d, cs0);
            assert(layout(cmds@) =~= Seq::<Entry>::empty());
        }
        loop
            invariant
                self.wf(),
                self.same_config(old(self)),
                s == self.input@,
                self.hash_n_quiet == old(self).hash_n_quiet,
                self.block_depth == depth0 + 1,
                depth0 == old(self).block_depth,
                old(self).pos <= self.pos,
                cfg == self.parse_cfg(),
                cfg == old(self).parse_cfg(),
                d == depth0 + 1,
                p0 == old(self).pos,
                cs0 == old(self).cmd_start,
                block_so_far(s, p0, cfg, d, cs0, k, bound, layout(cmds@), self.pos as int, self.cmd_start as int),
            decreases self.input@.len() - self.pos,
        {
            proof { lemma_separator_end(s, self.pos as int); }
            let ghost pos0 = self.pos as int;
            let ghost cs1 = self.cmd_start as int;
            self.skip_blanks_and_newlines();
            if self.peek() == Some(125u8) {
                self.advance();
                self.block_depth = self.block_depth - 1;
                proof { lemma_block_close(s, p0, cfg, d, cs0, k, bound, layout(cmds@), pos0, cs1); }
                return Ok(Command::Block(cmds));
            }
            if self.at_end() {
                let m = self.err_at(0, "unmatched `{'");
                proof {
                    lemma_block_unmatched(s, p0, cfg, d, cs0, k, bound, layout(cmds@), pos0, cs1);
                    let e = ("unmatched `{'"@, self.pos as int, 0int);
                    assert(self.reports(m@, e));
                    assert(commands_parse(s, p0, cfg, d, cs0, Parsed::Error(e, self.cmd_start as int)));
                    assert(commands_parse(old(self).input@, old(self).pos as int, old(self).parse_cfg(),
                        (old(self).block_depth + 1) as nat, old(self).cmd_start as int, Parsed::Error(e, self.cmd_start as int)));
                }
                return Err(m);
            }
            let ghost before = self.pos as int;
            assert(blank_end(s, before) == before);
            match self.parse_command() {
                Ok(Some(cmd)) => {
                    proof {
                        let f0 = choose|f: nat| #[trigger] command_fuel(s, before, cfg, d, cs1, f)
                            == Parsed::Done(layout(seq![cmd]), self.pos as int, self.cmd_start as int);
                        lemma_block_step(s, p0, cfg, d, cs0, k, bound, layout(cmds@), pos0, cs1, f0, layout(seq![cmd]),
                            self.pos as int, self.cmd_start as int);
                        lemma_layout_push(cmds@, cmd);
                        bound = if bound > f0 { bound } else { f0 };
                        k = k + 1;
                    }
                    cmds.push(cmd);
                },
                Ok(None) => {
                    proof {
                        let f0 = choose|f: nat| #[trigger] command_fuel(s, before, cfg, d, cs1, f)
                            == Parsed::Done(Seq::<Entry>::empty(), self.pos as int, self.cmd_start as int);
                        lemma_block_step(s, p0, cfg, d, cs0, k, bound, layout(cmds@), pos0, cs1, f0, Seq::<Entry>::empty(),
                            self.pos as int, self.cmd_start as int);
                        assert(layout(cmds@) + Seq::<Entry>::empty() =~= layout(cmds@));
                        bound = if bound > f0 { bound } else { f0 };
                        k = k + 1;
                    }
                },
                Err(m) => {
                    proof {
                        let e = choose|e: ParseError| #[trigger] command_parses(s, before, cfg, d, cs1, Parsed::Error(e, self.cmd_start as int))
                            && self.reports(m@, e);
                        let f0 = choose|f: nat| #[trigger] command_fuel(s, before, cfg, d, cs1, f) == Parsed::Error(e, self.cmd_start as int);
                        lemma_block_error(s, p0, cfg, d, cs0, k, bound, layout(cmds@), pos0, cs1, f0, e, self.cmd_start as int);
                        assert(commands_parse(s, p0, cfg, d, cs0, Parsed::Error(e, self.cmd_start as int)));
                        assert(self.reports(m@, e));
                        assert(commands_parse(old(self).input@, old(self).pos as int, old(self).parse_cfg(),
                            (old(self).block_depth + 1) as nat, old(self).cmd_start as int, Parsed::Error(e, self.cmd_start as int)));
                    }
                    return Err(m);
                },
            }
            assert(self.pos > before);
        }
    }

    /// The `!` that may follow an address range (after blanks), and the
    /// blanks after it.
    fn parse_negation(&mut self) -> (r: Result<bool, String>)
        requires
            old(self).wf(),
        ensures
            final(self).keeps(old(self)),
            ({
                let s = old(self).input@;
                let q1 = blank_end(s, old(self).pos as int);
                let neg = byte_at(s, q1) == Some(33u8);
                let q2 = if neg { blank_end(s, q1 + 1) } else { q1 };
                if neg && byte_at(s, q2) == Some(33u8) {
                    r matches Err(m) && final(self).reports(m@, error_here("multiple `!'s"@, q2 + 1, old(self).cmd_start as int))
                } else {
                    r == Ok::<bool, String>(neg) && final(self).pos == q2
                }
            }),
    {
        let ghost s = self.input@;
        proof { lemma_blank_end(s, self.pos as int); }
        self.skip_whitespace();
        if self.peek() == Some(33u8) {
            self.advance();
            proof { lemma_blank_end(s, self.pos as int); }
            self.skip_whitespace();
            if self.peek() == Some(33u8) {
                self.advance();
                return Err(self.err("multiple `!'s"));
            }
            Ok(true)
        } else {
            Ok(false)
        }
    }

    /// The checks at the command character, where the parser stands (see
    /// `head_error`).
    fn check_head(&mut self, no_address: bool, is_range: bool) -> (r: Result<(), String>)
        requires
            old(self).wf(),
            old(self).pos < old(self).input@.len(),
        ensures
            final(self).keeps(old(self)),
            match head_error(old(self).input@, old(self).pos as int, old(self).cmd_start as int, no_address, is_range, old(self).posix, old(self).block_depth as nat) {
                Some(e) => r matches Err(m) && final(self).reports(m@, e),
                None => r is Ok && final(self).pos == old(self).pos,
            },
    {
        if !no_address {
            if self.peek() == Some(58u8) {
                self.advance();
                return Err(self.err(": doesn't want any addresses"));
            }
            if self.peek() == Some(35u8) {
                self.advance();
                return Err(self.err("comments don't accept any addresses"));
            }
            if self.peek() == Some(125u8) && self.block_depth > 0 {
                return Err(self.err_at(self.pos + 1, "`}' doesn't want any addresses"));
            }
        }
        if is_range {
            if let Some(ch) = self.peek() {
                if ch == 113 || ch == 81 || (self.posix && (ch == 97 || ch == 105 || ch == 99 || ch == 108
                    || ch == 61 || ch == 114 || ch == 82)) {
                    self.advance();
                    return Err(self.err("command only uses one address"));
                }
            }
        }
        Ok(())
    }

    /// The address range and `!` of a command, up to its command character
    /// (`None`: nothing but blanks is left).
    #[verifier::rlimit(60)]
    fn parse_command_head(&mut self) -> (r: Result<Option<(AddressRange, bool)>, String>)
        requires
            old(self).wf(),
        ensures
            final(self).wf(),
            final(self).same_config(old(self)),
            final(self).hash_n_quiet == old(self).hash_n_quiet,
            final(self).block_depth == old(self).block_depth,
            old(self).pos <= final(self).pos,
            ({
                let s = old(self).input@;
                let q = blank_end(s, old(self).pos as int);
                match command_head(s, old(self).pos as int, old(self).extended, old(self).posix, old(self).block_depth as nat) {
                    Err(e) => r matches Err(m) && final(self).cmd_start == q && final(self).reports(m@, e),
                    Ok(None) => r matches Ok(None) && q >= s.len() && final(self).pos == q
                        && final(self).cmd_start == old(self).cmd_start,
                    Ok(Some(h)) => r matches Ok(Some(a)) && range_model(a.0) == h.0 && a.1 == h.1
                        && final(self).pos == h.2 && final(self).cmd_start == q
                        && (h.0 is NoAddress && !h.1 ==> h.2 == q)
                        && (!(h.0 is NoAddress && !h.1) ==> h.2 > q),
                }
            }),
    {
        let ghost s = self.input@;
        proof { lemma_blank_end(s, self.pos as int); }
        self.skip_whitespace();
        if self.at_end() {
            return Ok(None);
        }
        let ghost q = self.pos as int;
        assert(blank_end(s, q) == q);
        self.cmd_start = self.pos;
        let address = match self.parse_address_range() {
            Ok(a) => a,
            Err(e) => { return Err(e); },
        };
        let ghost r1 = self.pos as int;
        proof { lemma_blank_end(s, r1); }
        self.skip_whitespace();
        let negated = match self.parse_negation() {
            Ok(n) => n,
            Err(e) => { return Err(e); },
        };
        let no_address = match &address {
            AddressRange::NoAddress => true,
            _ => false,
        };
        let is_range = match &address {
            AddressRange::Range(_, _) => true,
            _ => false,
        };
        if no_address {
            assert(r1 == q);
            assert(blank_end(s, r1) == q);
        }
        if self.at_end() {
            if !no_address || negated {
                return Err(self.err("missing command"));
            }
            return Ok(None);
        }
        match self.check_head(no_address, is_range) {
            Ok(()) => {},
            Err(e) => { return Err(e); },
        }
        Ok(Some((address, negated)))
    }

    fn parse_command(&mut self) -> (r: Result<Option<SedCommand>, String>)
        requires
            old(self).wf(),
        ensures
            final(self).wf(),
            final(self).same_config(old(self)),
            final(self).hash_n_quiet == old(self).hash_n_quiet,
            r is Ok ==> final(self).block_depth == old(self).block_depth,
            old(self).pos <= final(self).pos,
            ({
                let s = old(self).input@;
                let q = blank_end(s, old(self).pos as int);
                r is Ok && q < s.len() && !(s[q] == 125 && old(self).block_depth > 0) ==> final(self).pos > old(self).pos
            }),
            match r {
                Ok(Some(c)) => command_parses(old(self).input@, old(self).pos as int, old(self).parse_cfg(), old(self).block_depth as nat,
                    old(self).cmd_start as int, Parsed::Done(layout(seq![c]), final(self).pos as int, final(self).cmd_start as int)),
                Ok(None) => command_parses(old(self).input@, old(self).pos as int, old(self).parse_cfg(), old(self).block_depth as nat,
                    old(self).cmd_start as int, Parsed::Done(Seq::empty(), final(self).pos as int, final(self).cmd_start as int)),
                Err(m) => exists|e: ParseError| #[trigger] command_parses(old(self).input@, old(self).pos as int, old(self).parse_cfg(),
                    old(self).block_depth as nat, old(self).cmd_start as int, Parsed::Error(e, final(self).cmd_start as int))
                    && final(self).reports(m@, e),
            },
        decreases old(self).input@.len() - old(self).pos, 3int,
    {
        let ghost s = self.input@;
        let ghost cfg = self.parse_cfg();
        let ghost p0 = self.pos as int;
        let ghost cs0 = self.cmd_start as int;
        let ghost depth = self.block_depth as nat;
        let (address, negated) = match self.parse_command_head() {
            Ok(Some(h)) => h,
            Ok(None) => {
                proof { lemma_command_none(s, p0, cfg, depth, cs0); }
                return Ok(None);
            },
            Err(m) => {
                proof {
                    if let Err(e) = command_head(s, p0, cfg.extended, cfg.posix, depth) {
                        lemma_command_head_error(s, p0, cfg, depth, cs0, e);
                    }
                }
                return Err(m);
            },
        };
        let ghost h: (RangeModel, bool, int) = match command_head(s, p0, cfg.extended, cfg.posix, depth) {
            Ok(Some(h)) => h,
            _ => (RangeModel::NoAddress, false, 0),
        };
        self.parse_command_body(address, negated, Ghost(p0), Ghost(cs0), Ghost(h))
    }

    /// The rest of a command that starts at `p0` (its command start before
    /// was `cs0`), once its head `h` has been read.
    #[verifier::rlimit(100)]
    fn parse_command_body(&mut self, address: AddressRange, negated: bool, Ghost(p0): Ghost<int>, Ghost(cs0): Ghost<int>,
        Ghost(h): Ghost<(RangeModel, bool, int)>) -> (r: Result<Option<SedCommand>, String>)
        requires
            old(self).wf(),
            0 <= p0 <= old(self).pos,
            command_head(old(self).input@, p0, old(self).extended, old(self).posix, old(self).block_depth as nat)
                == Ok::<Option<(RangeModel, bool, int)>, ParseError>(Some(h)),
            old(self).pos == h.2,
            old(self).cmd_start == blank_end(old(self).input@, p0),
            range_model(address) == h.0,
            negated == h.1,
            h.0 is NoAddress && !h.1 ==> h.2 == blank_end(old(self).input@, p0),
            !(h.0 is NoAddress && !h.1) ==> h.2 > blank_end(old(self).input@, p0),
        ensures
            final(self).wf(),
            final(self).same_config(old(self)),
            final(self).hash_n_quiet == old(self).hash_n_quiet,
            r is Ok ==> final(self).block_depth == old(self).block_depth,
            old(self).pos <= final(self).pos,
            ({
                let s = old(self).input@;
                let q = blank_end(s, p0);
                r is Ok && q < s.len() && !(s[q] == 125 && old(self).block_depth > 0) ==> final(self).pos > p0
            }),
            match r {
                Ok(Some(c)) => command_parses(old(self).input@, p0, old(self).parse_cfg(), old(self).block_depth as nat,
                    cs0, Parsed::Done(layout(seq![c]), final(self).pos as int, final(self).cmd_start as int)),
                Ok(None) => false,
                Err(m) => exists|e: ParseError| #[trigger] command_parses(old(self).input@, p0, old(self).parse_cfg(),
                    old(self).block_depth as nat, cs0, Parsed::Error(e, final(self).cmd_start as int))
                    && final(self).reports(m@, e),
            },
        decreases old(self).input@.len() - old(self).pos, 2int,
    {
        let ghost s = self.input@;
        let ghost cfg = self.parse_cfg();
        let ghost depth = self.block_depth as nat;
        let ghost q = self.cmd_start as int;
        let ghost is_block = byte_at(s, h.2) == Some(123u8);
        let cmd = match self.parse_command_char() {
            Ok(c) => c,
            Err(m) => {
                proof {
                    if is_block {
                        let e = choose|e: ParseError| #[trigger] commands_parse(s, h.2 + 1, cfg, depth + 1, q,
                            Parsed::Error(e, self.cmd_start as int)) && self.reports(m@, e);
                        lemma_command_block_error(s, p0, cfg, depth, cs0, h, e, self.cmd_start as int);
                    } else if let Err(e) = simple_command(s, h.2, q, cfg.extended, cfg.posix, cfg.sandbox, cfg.last, depth) {
                        lemma_command_simple_error(s, p0, cfg, depth, cs0, h, e);
                    }
                }
                return Err(m);
            },
        };
        if takes_no_argument_exec(&cmd) {
            if let Some(ch) = self.peek() {
                if ch != 10 && ch != 59 && ch != 125 && ch != 35 && ch != 32 && ch != 9 {
                    let m = self.err_at(self.pos - self.cmd_start + 1, "extra characters after command");
                    proof {
                        if is_block {
                            if let Command::Block(v) = &cmd {
                                lemma_command_block_done(s, p0, cfg, depth, cs0, h, layout(v@), self.pos as int, self.cmd_start as int);
                            }
                        } else {
                            lemma_command_simple(s, p0, cfg, depth, cs0, h, (command_model(cmd), self.pos as int));
                        }
                    }
                    return Err(m);
                }
            }
        }
        let result = SedCommand { address, negated, command: cmd };
        proof {
            lemma_layout_single(result);
            if is_block {
                if let Command::Block(v) = &result.command {
                    lemma_layout_len(v@);
                    lemma_command_block_done(s, p0, cfg, depth, cs0, h, layout(v@), self.pos as int, self.cmd_start as int);
                }
            } else {
                lemma_command_simple(s, p0, cfg, depth, cs0, h, (command_model(result.command), self.pos as int));
            }
        }
        Ok(Some(result))
    }

    /// Parses the whole script: its commands in order, blocks nested, `#`
    /// comment lines skipped (`#n` on the first line of the first script
    /// is noted).
    #[verifier::rlimit(40)]
    pub fn parse_all(&mut self, is_first_script: bool) -> (r: Result<Vec<SedCommand>, String>)
        requires
            old(self).wf(),
            old(self).depth() == 0,
        ensures
            final(self).wf(),
            final(self).text() == old(self).text(),
            r is Ok ==> final(self).position() == final(self).text().len(),
            r is Ok ==> final(self).hash_n_seen() == (old(self).hash_n_seen() || (is_first_script
                && starts_with_hash_n(old(self).text(), old(self).position()))),
            match r {
                Ok(v) => script_parses(old(self).text(), old(self).position(), old(self).parse_cfg(), old(self).command_start(),
                    Parsed::Done(layout(v@), final(self).position(), final(self).command_start())),
                Err(m) => exists|e: ParseError| #[trigger] script_parses(old(self).text(), old(self).position(), old(self).parse_cfg(),
                    old(self).command_start(), Parsed::Error(e, final(self).command_start()))
                    && final(self).position() == e.1
                    && m@ == error_text(old(self).source_of(), old(self).text(), final(self).command_start(), e.2 as nat, e.0),
            },
    {
        let ghost s = self.input@;
        let ghost cfg = self.parse_cfg();
        let ghost p0 = self.pos as int;
        let ghost cs0 = self.cmd_start as int;
        let ghost mut k: nat = 0;
        let ghost mut bound: nat = 0;
        let mut commands: Vec<SedCommand> = Vec::new();
        let mut first_comment = is_first_script;
        proof {
            lemma_script_start(s, p0, cfg, cs0);
            assert(layout(commands@) =~= Seq::<Entry>::empty());
        }
        loop
            invariant
                self.wf(),
                self.same_config(old(self)),
                self.block_depth == 0,
                s == self.input@,
                cfg == self.parse_cfg(),
                cfg == old(self).parse_cfg(),
                p0 == old(self).pos,
                cs0 == old(self).cmd_start,
                first_comment ==> is_first_script && self.hash_n_quiet == old(self).hash_n_quiet
                    && separator_end(s, self.pos as int) == separator_end(s, old(self).pos as int),
                !first_comment ==> self.hash_n_quiet == (old(self).hash_n_quiet || (is_first_script
                    && starts_with_hash_n(s, old(self).pos as int))),
                script_so_far(s, p0, cfg, cs0, k, bound, layout(commands@), self.pos as int, self.cmd_start as int),
            decreases s.len() - self.pos,
        {
            proof { lemma_separator_end(s, self.pos as int); }
            let ghost pos0 = self.pos as int;
            let ghost cs1 = self.cmd_start as int;
            self.skip_blanks_and_newlines();
            if self.at_end() {
                proof { lemma_script_end(s, p0, cfg, cs0, k, bound, layout(commands@), pos0, cs1); }
                assert(separator_end(s, self.pos as int) == self.pos);
                return Ok(commands);
            }
            if self.peek() == Some(35u8) {
                self.advance();
                if first_comment && self.peek() == Some(110u8) {
                    self.hash_n_quiet = true;
                }
                first_comment = false;
                self.skip_comment_line();
                proof {
                    lemma_script_comment(s, p0, cfg, cs0, k, bound, layout(commands@), pos0, cs1);
                    k = k + 1;
                }
                continue;
            }
            first_comment = false;
            let ghost before = self.pos as int;
            assert(blank_end(s, before) == before);
            match self.parse_command() {
                Ok(Some(cmd)) => {
                    proof {
                        let f0 = choose|f: nat| #[trigger] command_fuel(s, before, cfg, 0, cs1, f)
                            == Parsed::Done(layout(seq![cmd]), self.pos as int, self.cmd_start as int);
                        lemma_script_step(s, p0, cfg, cs0, k, bound, layout(commands@), pos0, cs1, f0, layout(seq![cmd]),
                            self.pos as int, self.cmd_start as int);
                        lemma_layout_push(commands@, cmd);
                        bound = if bound > f0 { bound } else { f0 };
                        k = k + 1;
                    }
                    commands.push(cmd);
                },
                Ok(None) => {
                    proof {
                        let f0 = choose|f: nat| #[trigger] command_fuel(s, before, cfg, 0, cs1, f)
                            == Parsed::Done(Seq::<Entry>::empty(), self.pos as int, self.cmd_start as int);
                        lemma_script_step(s, p0, cfg, cs0, k, bound, layout(commands@), pos0, cs1, f0, Seq::<Entry>::empty(),
                            self.pos as int, self.cmd_start as int);
                        assert(layout(commands@) + Seq::<Entry>::empty() =~= layout(commands@));
                        bound = if bound > f0 { bound } else { f0 };
                        k = k + 1;
                    }
                },
                Err(m) => {
                    proof {
                        let e = choose|e: ParseError| #[trigger] command_parses(s, before, cfg, 0, cs1, Parsed::Error(e, self.cmd_start as int))
                            && self.reports(m@, e);
                        let f0 = choose|f: nat| #[trigger] command_fuel(s, before, cfg, 0, cs1, f) == Parsed::Error(e, self.cmd_start as int);
                        lemma_script_error(s, p0, cfg, cs0, k, bound, layout(commands@), pos0, cs1, f0, e, self.cmd_start as int);
                        assert(script_parses(old(self).text(), old(self).position(), old(self).parse_cfg(),
                            old(self).command_start(), Parsed::Error(e, self.command_start())));
                    }
                    return Err(m);
                },
            }
            assert(self.pos > before);
        }
    }
}

} // verus!
