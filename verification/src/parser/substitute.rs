use vstd::prelude::*;
use super::{count_groups, groups_from, Parser};
use super::regex_args::{repl, rx, tr};
use super::text_args::{filename_end, lemma_filename_end};
use crate::regex_util::{bre_from, bre_to_ere, fix_from, fix_posix_char_class, fix_posix_char_class_posix};
use crate::scan::{blank_end, byte_at, digit_end, digits_value, is_digit, lemma_blank_end, lemma_digit_end, saturate};
use crate::sed_regex::{sed_compile_error, SedRegex};
use crate::text::{chars_of, script_chars, push_decimal, push_str, string_from_chars, trimmed};
use crate::types::{command_model, Command, CommandModel, FlagsModel, SubstFlags};

verus! {

/// The flags of an `s` command before any are read.
pub open spec fn no_flags() -> SubstFlags {
    SubstFlags {
        global: false,
        nth: None,
        print: false,
        write_file: None,
        case_insensitive: false,
        multiline: false,
        execute: false,
        print_before_exec: false,
    }
}

/// `a` and `b` agree on every flag but the write file.
pub open spec fn same_bits(a: SubstFlags, b: SubstFlags) -> bool {
    &&& a.global == b.global
    &&& a.nth == b.nth
    &&& a.print == b.print
    &&& a.case_insensitive == b.case_insensitive
    &&& a.multiline == b.multiline
    &&& a.execute == b.execute
    &&& a.print_before_exec == b.print_before_exec
}

pub open spec fn is_alpha(b: u8) -> bool {
    (65 <= b && b <= 90) || (97 <= b && b <= 122)
}

/// The flags of an `s` command from `p` on, given those read so far: the
/// flags, the `w` file if one ends them, and where the input continues; or
/// the message of the error and where the input stands when it is found.
pub open spec fn flags_from(
    s: Seq<u8>,
    p: int,
    f: SubstFlags,
    seen_g: bool,
    seen_p: bool,
    posix: bool,
    sandbox: bool,
) -> Result<(SubstFlags, Option<Seq<char>>, int), (Seq<char>, int)>
    decreases s.len() - p,
{
    if p < 0 || p >= s.len() {
        Ok((f, None, p))
    } else {
        let b = s[p];
        if b == 103 {
            if seen_g {
                Err(("multiple `g' options to `s' command"@, p + 1))
            } else {
                flags_from(s, p + 1, SubstFlags { global: true, ..f }, true, seen_p, posix, sandbox)
            }
        } else if b == 112 {
            if seen_p {
                Err(("multiple `p' options to `s' command"@, p + 1))
            } else {
                flags_from(s, p + 1, SubstFlags { print: true, ..f }, seen_g, true, posix, sandbox)
            }
        } else if b == 105 || b == 73 {
            if posix {
                Err(("unknown option to `s'"@, p + 1))
            } else {
                flags_from(s, p + 1, SubstFlags { case_insensitive: true, ..f }, seen_g, seen_p, posix, sandbox)
            }
        } else if b == 101 {
            if posix {
                Err(("unknown option to `s'"@, p + 1))
            } else if sandbox {
                Err(("e/r/w commands disabled in sandbox mode"@, p + 1))
            } else {
                flags_from(
                    s,
                    p + 1,
                    SubstFlags {
                        execute: true,
                        print_before_exec: f.print_before_exec || (f.print && !f.execute),
                        ..f
                    },
                    seen_g,
                    seen_p,
                    posix,
                    sandbox,
                )
            }
        } else if b == 109 || b == 77 {
            if posix {
                Err(("unknown option to `s'"@, p + 1))
            } else {
                flags_from(s, p + 1, SubstFlags { multiline: true, ..f }, seen_g, seen_p, posix, sandbox)
            }
        } else if b == 119 {
            if sandbox {
                Err(("e/r/w commands disabled in sandbox mode"@, p + 1))
            } else {
                let q = blank_end(s, p + 1);
                let e = filename_end(s, q);
                let name = trimmed(script_chars(s.subrange(q, e)));
                if name.len() == 0 {
                    Err(("missing filename in r/R/w/W commands"@, e))
                } else {
                    Ok((f, Some(name), e))
                }
            }
        } else if b == 13 {
            if byte_at(s, p + 1) != Some(10u8) {
                Err(("unknown option to `s'"@, p + 1))
            } else {
                flags_from(s, p + 1, f, seen_g, seen_p, posix, sandbox)
            }
        } else if is_digit(b) {
            if f.nth is Some {
                Err(("multiple number options to `s' command"@, p + 1))
            } else {
                let e = digit_end(s, p);
                let n = saturate(digits_value(s, p, e));
                if n == 0 {
                    Err(("number option to `s' command may not be zero"@, e))
                } else if p < e <= s.len() {
                    flags_from(s, e, SubstFlags { nth: Some(n), ..f }, seen_g, seen_p, posix, sandbox)
                } else {
                    Ok((f, None, p))
                }
            }
        } else if is_alpha(b) {
            Err(("unknown option to `s'"@, p + 1))
        } else {
            Ok((f, None, p))
        }
    }
}

/// The first back-reference `\N` (1 to 9) of a replacement, scanned from
/// `i`, that names a group beyond the `groups` the regex has.
pub open spec fn first_bad_ref(r: Seq<char>, i: int, groups: nat) -> Option<nat>
    decreases r.len() - i,
{
    if i < 0 || i >= r.len() {
        None
    } else if r[i] == '\\' && i + 1 < r.len() {
        if '1' <= r[i + 1] && r[i + 1] <= '9' && (r[i + 1] as u32 - 48) > groups {
            Some((r[i + 1] as u32 - 48) as nat)
        } else {
            first_bad_ref(r, i + 2, groups)
        }
    } else {
        first_bad_ref(r, i + 1, groups)
    }
}

/// The inline-flag group that `i`/`m` flags put in front of a regex.
pub open spec fn case_prefix(ci: bool, ml: bool) -> Seq<char> {
    if ci && ml {
        "(?im)"@
    } else if ci {
        "(?i)"@
    } else if ml {
        "(?m)"@
    } else {
        Seq::empty()
    }
}

/// The text compiled for a regex whose ERE form (flags included) is
/// `ere`: `.` is made to match a newline too, and bracket expressions are
/// rewritten for the regex crate.
pub open spec fn compiled_pattern(ere: Seq<char>, posix: bool) -> Seq<char> {
    "(?s)"@ + fix_from(ere, posix, 0)
}

/// The address regex modifiers `I` and `M` from `p` on, given the flags
/// collected so far: the inline flags (`i`, `m`, each once, in the order of
/// first appearance) and where the input continues.
pub open spec fn addr_mods(s: Seq<u8>, p: int, flags: Seq<char>) -> (Seq<char>, int)
    decreases s.len() - p,
{
    if p < 0 || p >= s.len() {
        (flags, p)
    } else if s[p] == 73 {
        addr_mods(s, p + 1, if flags.contains('i') { flags } else { flags.push('i') })
    } else if s[p] == 77 {
        addr_mods(s, p + 1, if flags.contains('m') { flags } else { flags.push('m') })
    } else {
        (flags, p)
    }
}

/// The ERE for an address regex `pattern` with inline `flags`.
pub open spec fn addr_ere(pattern: Seq<char>, flags: Seq<char>, extended: bool) -> Seq<char> {
    let ere = if extended { pattern } else { bre_from(pattern, 0) };
    if flags.len() > 0 {
        "(?"@ + flags + ")"@ + ere
    } else {
        ere
    }
}

/// The parts of an `s` command read from `p` on (the `s` already
/// consumed): regex text, replacement text, flags, write file and where the
/// input continues; or an error message and where the input stands.
pub open spec fn substitute_parts(s: Seq<u8>, p: int, posix: bool, sandbox: bool) -> Result<
    (Seq<char>, Seq<char>, SubstFlags, Option<Seq<char>>, int),
    (Seq<char>, int),
> {
    match byte_at(s, p) {
        None => Err(("unterminated `s' command"@, p)),
        Some(d) => if d == 92 || d == 10 {
            Err(("delimiter character is not a single-byte character"@, p + 1))
        } else {
            match rx(s, d, p + 1, false, false) {
                None => Err(("unterminated `s' command"@, s.len() as int)),
                Some(pat) => match repl(s, d, pat.1, false) {
                    Err((false, q)) => Err(("unterminated `s' command"@, q)),
                    Err((true, q)) => Err(("recursive escaping after \\c not allowed"@, q)),
                    Ok(rep) => match flags_from(s, rep.1, no_flags(), false, false, posix, sandbox) {
                        Err(e) => Err(e),
                        Ok(fl) => Ok((pat.0, rep.0, fl.0, fl.1, fl.2)),
                    },
                },
            }
        },
    }
}

/// The ERE of an `s` command's regex text `pat` under flags `f`.
pub open spec fn substitute_ere(pat: Seq<char>, f: SubstFlags, extended: bool) -> Seq<char> {
    case_prefix(f.case_insensitive, f.multiline) + if extended { pat } else { bre_from(pat, 0) }
}

proof fn lemma_addr_mods(s: Seq<u8>, p: int, flags: Seq<char>)
    requires
        0 <= p <= s.len(),
    ensures
        p <= addr_mods(s, p, flags).1 <= s.len(),
    decreases s.len() - p,
{
    if p < s.len() {
        if s[p] == 73 {
            lemma_addr_mods(s, p + 1, if flags.contains('i') { flags } else { flags.push('i') });
        } else if s[p] == 77 {
            lemma_addr_mods(s, p + 1, if flags.contains('m') { flags } else { flags.push('m') });
        }
    }
}

fn contains_char(v: &Vec<char>, c: char) -> (b: bool)
    ensures
        b == v@.contains(c),
{
    let mut i: usize = 0;
    while i < v.len()
        invariant
            i <= v.len(),
            forall|k: int| 0 <= k < i ==> v@[k] != c,
        decreases v.len() - i,
    {
        if v[i] == c {
            assert(v@[i as int] == c);
            return true;
        }
        i += 1;
    }
    false
}

impl<'a> Parser<'a> {
    /// Reads the `I`/`M` modifiers after an address regex and gives the
    /// inline flags they stand for.
    pub(super) fn parse_addr_regex_modifiers(&mut self) -> (flags: Vec<char>)
        requires
            old(self).wf(),
        ensures
            final(self).keeps(old(self)),
            (flags@, final(self).pos as int) == addr_mods(old(self).input@, old(self).pos as int, Seq::empty()),
    {
        let ghost s = self.input@;
        let mut flags: Vec<char> = Vec::new();
        proof { lemma_addr_mods(s, self.pos as int, Seq::empty()); }
        loop
            invariant
                self.keeps(old(self)),
                s == self.input@,
                addr_mods(s, self.pos as int, flags@) == addr_mods(s, old(self).pos as int, Seq::empty()),
            decreases s.len() - self.pos,
        {
            match self.peek() {
                Some(73u8) => {
                    self.advance();
                    if !contains_char(&flags, 'i') {
                        flags.push('i');
                    }
                },
                Some(77u8) => {
                    self.advance();
                    if !contains_char(&flags, 'm') {
                        flags.push('m');
                    }
                },
                _ => {
                    return flags;
                },
            }
        }
    }

    /// Compiles an address regex with its inline `flags`.
    pub(super) fn compile_regex(&self, pattern: &Vec<char>, flags: &Vec<char>) -> (r: Result<SedRegex, String>)
        requires
            self.wf(),
        ensures
            pattern@.len() == 0 ==> (r matches Err(e) && e@ == self.err_spec("empty regex"@)),
            pattern@.len() > 0 ==> match sed_compile_error(
                compiled_pattern(addr_ere(pattern@, flags@, self.extended), self.posix),
            ) {
                None => r matches Ok(re) && re@ == compiled_pattern(addr_ere(pattern@, flags@, self.extended), self.posix),
                Some(m) => r matches Err(e) && e@ == self.err_spec(m),
            },
    {
        if pattern.len() == 0 {
            return Err(self.err("empty regex"));
        }
        let text = string_from_chars(pattern.as_slice());
        let pat = if self.extended {
            text
        } else {
            bre_to_ere(text.as_str())
        };
        let mut full: Vec<char> = Vec::new();
        if flags.len() > 0 {
            push_str(&mut full, "(?");
            let mut f = flags.clone();
            full.append(&mut f);
            push_str(&mut full, ")");
        }
        push_str(&mut full, pat.as_str());
        assert(full@ =~= addr_ere(pattern@, flags@, self.extended));
        self.compile_ere(&full)
    }

    /// Compiles the ERE `ere` (see `compiled_pattern`).
    fn compile_ere(&self, ere: &Vec<char>) -> (r: Result<SedRegex, String>)
        requires
            self.wf(),
        ensures
            match sed_compile_error(compiled_pattern(ere@, self.posix)) {
                None => r matches Ok(re) && re@ == compiled_pattern(ere@, self.posix),
                Some(m) => r matches Err(e) && e@ == self.err_spec(m),
            },
    {
        let text = string_from_chars(ere.as_slice());
        let fixed = if self.posix {
            fix_posix_char_class_posix(text.as_str())
        } else {
            fix_posix_char_class(text.as_str())
        };
        let mut full: Vec<char> = Vec::new();
        push_str(&mut full, "(?s)");
        push_str(&mut full, fixed.as_str());
        let compiled = string_from_chars(full.as_slice());
        match SedRegex::new(compiled.as_str()) {
            Ok(re) => Ok(re),
            Err(m) => {
                let mc = chars_of(m.as_str());
                Err(self.err_chars(&mc))
            },
        }
    }

    /// Reads one flag of an `s` command. `None`: go on with the next one;
    /// `Some(Ok(()))`: the flags are complete; `Some(Err(m))`: error `m`.
    #[verifier::rlimit(60)]
    #[verifier::spinoff_prover]
    fn sub_flag_step(&mut self, flags: &mut SubstFlags, seen_g: &mut bool, seen_p: &mut bool) -> (r: Option<Result<(), String>>)
        requires
            old(self).wf(),
            old(flags).write_file is None,
        ensures
            final(self).keeps(old(self)),
            ({
                let fr = flags_from(old(self).input@, old(self).pos as int, *old(flags), *old(seen_g), *old(seen_p), old(self).posix, old(self).sandbox);
                match r {
                    None => final(self).pos > old(self).pos && final(flags).write_file is None
                        && flags_from(final(self).input@, final(self).pos as int, *final(flags), *final(seen_g), *final(seen_p), final(self).posix, final(self).sandbox) == fr,
                    Some(Ok(())) => fr matches Ok(x) && same_bits(*final(flags), x.0) && final(self).pos == x.2 && match x.1 {
                        None => final(flags).write_file is None,
                        Some(n) => final(flags).write_file matches Some(w) && w@ == n,
                    },
                    Some(Err(m)) => fr matches Err(e) && m@ == final(self).err_spec(e.0) && final(self).pos == e.1,
                }
            }),
    {
        let b = match self.peek() {
            Some(b) => b,
            None => { return Some(Ok(())); },
        };
        if b == 103 {
            self.advance();
            if *seen_g {
                return Some(Err(self.err("multiple `g' options to `s' command")));
            }
            *seen_g = true;
            flags.global = true;
        } else if b == 112 {
            self.advance();
            if *seen_p {
                return Some(Err(self.err("multiple `p' options to `s' command")));
            }
            *seen_p = true;
            flags.print = true;
        } else if b == 105 || b == 73 {
            self.advance();
            if self.posix {
                return Some(Err(self.err("unknown option to `s'")));
            }
            flags.case_insensitive = true;
        } else if b == 101 {
            self.advance();
            if self.posix {
                return Some(Err(self.err("unknown option to `s'")));
            }
            if self.sandbox {
                return Some(Err(self.err("e/r/w commands disabled in sandbox mode")));
            }
            if flags.print && !flags.execute {
                flags.print_before_exec = true;
            }
            flags.execute = true;
        } else if b == 109 || b == 77 {
            self.advance();
            if self.posix {
                return Some(Err(self.err("unknown option to `s'")));
            }
            flags.multiline = true;
        } else if b == 119 {
            self.advance();
            if self.sandbox {
                return Some(Err(self.err("e/r/w commands disabled in sandbox mode")));
            }
            self.skip_whitespace();
            let file = self.parse_filename();
            if file.len() == 0 {
                return Some(Err(self.err("missing filename in r/R/w/W commands")));
            }
            flags.write_file = Some(string_from_chars(file.as_slice()));
            return Some(Ok(()));
        } else if b == 13 {
            self.advance();
            if self.peek() != Some(10u8) {
                return Some(Err(self.err("unknown option to `s'")));
            }
        } else if 48 <= b && b <= 57 {
            if flags.nth.is_some() {
                self.advance();
                return Some(Err(self.err("multiple number options to `s' command")));
            }
            proof { lemma_digit_end(self.input@, self.pos as int); }
            let n = match self.parse_number() {
                Ok(n) => n,
                Err(e) => { return Some(Err(e)); },
            };
            if n == 0 {
                return Some(Err(self.err("number option to `s' command may not be zero")));
            }
            flags.nth = Some(n);
        } else if (65 <= b && b <= 90) || (97 <= b && b <= 122) {
            self.advance();
            return Some(Err(self.err("unknown option to `s'")));
        } else {
            return Some(Ok(()));
        }
        None
    }

    pub(super) fn parse_sub_flags(&mut self) -> (r: Result<SubstFlags, String>)
        requires
            old(self).wf(),
        ensures
            final(self).keeps(old(self)),
            match flags_from(old(self).input@, old(self).pos as int, no_flags(), false, false, old(self).posix, old(self).sandbox) {
                Ok(x) => r matches Ok(fl) && same_bits(fl, x.0) && final(self).pos == x.2 && match x.1 {
                    None => fl.write_file is None,
                    Some(n) => fl.write_file matches Some(w) && w@ == n,
                },
                Err(e) => r matches Err(m) && m@ == final(self).err_spec(e.0) && final(self).pos == e.1,
            },
    {
        let ghost s = self.input@;
        let mut flags = SubstFlags {
            global: false,
            nth: None,
            print: false,
            write_file: None,
            case_insensitive: false,
            multiline: false,
            execute: false,
            print_before_exec: false,
        };
        let mut seen_g = false;
        let mut seen_p = false;
        loop
            invariant
                self.keeps(old(self)),
                s == self.input@,
                flags.write_file is None,
                flags_from(s, self.pos as int, flags, seen_g, seen_p, self.posix, self.sandbox)
                    == flags_from(s, old(self).pos as int, no_flags(), false, false, old(self).posix, old(self).sandbox),
            decreases s.len() - self.pos,
        {
            match self.sub_flag_step(&mut flags, &mut seen_g, &mut seen_p) {
                None => {},
                Some(Ok(())) => { return Ok(flags); },
                Some(Err(m)) => { return Err(m); },
            }
        }
    }
}

/// A `y` command read from `p` on (the `y` already consumed): its two
/// strings and where the input continues; or an error message and where
/// the input stands.
pub open spec fn translit_parts(s: Seq<u8>, p: int) -> Result<(Seq<char>, Seq<char>, int), (Seq<char>, int)> {
    match byte_at(s, p) {
        None => Err(("unterminated `y' command"@, p)),
        Some(d) => match tr(s, d, p + 1, false) {
            None => Err(("unterminated `y' command"@, s.len() as int)),
            Some(a) => match tr(s, d, a.1, false) {
                None => Err(("unterminated `y' command"@, s.len() as int)),
                Some(b) => if a.0.len() != b.0.len() {
                    Err(("strings for `y' command are different lengths"@, b.1))
                } else {
                    Ok((a.0, b.0, b.1))
                },
            },
        },
    }
}

/// The message for a back-reference to a group the regex lacks.
pub open spec fn bad_ref_message(n: nat) -> Seq<char> {
    "invalid reference \\"@ + crate::text::decimal(n) + " on `s' command's RHS"@
}

/// The flags `f`, with write file `w`, as a model.
pub open spec fn flags_model_of(f: SubstFlags, w: Option<Seq<char>>) -> FlagsModel {
    FlagsModel {
        global: f.global,
        nth: f.nth,
        print: f.print,
        write_file: w,
        case_insensitive: f.case_insensitive,
        multiline: f.multiline,
        execute: f.execute,
        print_before_exec: f.print_before_exec,
    }
}

/// The `s` command read from `p` on (the `s` already consumed), for a
/// command that starts at `cs`: the command and where the input continues,
/// or the error (message, position, character position). The regex is
/// compiled with `.` matching newlines; an empty regex means the last one
/// used; back-references beyond the regex's groups are refused outside
/// POSIX mode.
pub open spec fn substitute_result(s: Seq<u8>, p: int, cs: int, extended: bool, posix: bool, sandbox: bool) -> Result<(CommandModel, int), (Seq<char>, int, int)> {
    match substitute_parts(s, p, posix, sandbox) {
        Err(e) => Err((e.0, e.1, e.1 - cs)),
        Ok(x) => {
            let ere = substitute_ere(x.0, x.2, extended);
            let compiled = compiled_pattern(ere, posix);
            if x.0.len() > 0 && sed_compile_error(compiled) is Some {
                Err((sed_compile_error(compiled).unwrap(), x.4, x.4 - cs))
            } else if !posix && x.0.len() > 0 && first_bad_ref(x.1, 0, groups_from(ere, 0, false)) is Some {
                Err((bad_ref_message(first_bad_ref(x.1, 0, groups_from(ere, 0, false)).unwrap()), x.4, x.4 - cs))
            } else {
                Ok((
                    CommandModel::Substitute {
                        pattern: if x.0.len() == 0 { None } else { Some(compiled) },
                        replacement: x.1,
                        flags: flags_model_of(x.2, x.3),
                    },
                    x.4,
                ))
            }
        },
    }
}

/// The `y` command read from `p` on, for a command that starts at `cs`.
pub open spec fn translit_result(s: Seq<u8>, p: int, cs: int) -> Result<(CommandModel, int), (Seq<char>, int, int)> {
    match translit_parts(s, p) {
        Ok(x) => Ok((CommandModel::Transliterate(x.0, x.1), x.2)),
        Err(e) => Err((e.0, e.1, e.1 - cs)),
    }
}

/// The ERE for an `s` pattern: the prefix for the `I` and `M` flags, then
/// the pattern, converted from a BRE unless `extended`.
fn substitute_ere_exec(pattern: &Vec<char>, case_insensitive: bool, multiline: bool, extended: bool) -> (e: Vec<char>)
    ensures
        e@ == case_prefix(case_insensitive, multiline) + if extended { pattern@ } else { bre_from(pattern@, 0) },
{
    let text = string_from_chars(pattern.as_slice());
    let base = if extended {
        text
    } else {
        bre_to_ere(text.as_str())
    };
    let mut re_pattern: Vec<char> = Vec::new();
    if case_insensitive && multiline {
        push_str(&mut re_pattern, "(?im)");
    } else if case_insensitive {
        push_str(&mut re_pattern, "(?i)");
    } else if multiline {
        push_str(&mut re_pattern, "(?m)");
    }
    push_str(&mut re_pattern, base.as_str());
    re_pattern
}

impl<'a> Parser<'a> {
    /// The error for a replacement that refers to a group that the ERE
    /// `ere` does not have.
    fn check_references(&self, replacement: &Vec<char>, ere: &Vec<char>) -> (r: Result<(), String>)
        requires
            self.wf(),
        ensures
            match first_bad_ref(replacement@, 0, groups_from(ere@, 0, false)) {
                None => r is Ok,
                Some(n) => r matches Err(m) && m@ == self.err_spec(bad_ref_message(n)),
            },
    {
        let text = string_from_chars(ere.as_slice());
        let num_groups = count_groups(text.as_str());
        if let Some(n) = first_bad_ref_exec(replacement, num_groups) {
            let mut msg: Vec<char> = Vec::new();
            push_str(&mut msg, "invalid reference \\");
            push_decimal(n, &mut msg);
            push_str(&mut msg, " on `s' command's RHS");
            assert(msg@ =~= bad_ref_message(n as nat));
            return Err(self.err_chars(&msg));
        }
        Ok(())
    }
}

fn first_bad_ref_exec(r: &Vec<char>, groups: usize) -> (b: Option<usize>)
    ensures
        match first_bad_ref(r@, 0, groups as nat) {
            None => b is None,
            Some(k) => b matches Some(n) && n as nat == k,
        },
{
    let mut i: usize = 0;
    while i < r.len()
        invariant
            i <= r.len() + 1,
            first_bad_ref(r@, i as int, groups as nat) == first_bad_ref(r@, 0, groups as nat),
        decreases r.len() + 1 - i,
    {
        if r[i] == '\\' && i + 1 < r.len() {
            let c = r[i + 1];
            if '1' <= c && c <= '9' {
                let n = (c as u32 - 48) as usize;
                if n > groups {
                    return Some(n);
                }
            }
            i += 2;
        } else {
            i += 1;
        }
    }
    assert(first_bad_ref(r@, i as int, groups as nat) is None);
    None
}

impl<'a> Parser<'a> {
    pub(super) fn parse_transliterate(&mut self) -> (r: Result<Command, String>)
        requires
            old(self).wf(),
        ensures
            final(self).keeps(old(self)),
            match translit_result(old(self).input@, old(self).pos as int, old(self).cmd_start as int) {
                Ok(x) => r matches Ok(c) && command_model(c) == x.0 && final(self).pos == x.1,
                Err(e) => r matches Err(m) && final(self).reports(m@, e),
            },
    {
        let delim = match self.advance() {
            Some(d) => d,
            None => { return Err(self.err("unterminated `y' command")); },
        };
        let src = match self.parse_translit_chars(delim) {
            Ok(v) => v,
            Err(e) => { return Err(e); },
        };
        let dst = match self.parse_translit_chars(delim) {
            Ok(v) => v,
            Err(e) => { return Err(e); },
        };
        if src.len() != dst.len() {
            return Err(self.err("strings for `y' command are different lengths"));
        }
        Ok(Command::Transliterate(src, dst))
    }

    /// Reads the regex, replacement and flags of an `s` command.
    fn substitute_pieces(&mut self) -> (r: Result<(Vec<char>, Vec<char>, SubstFlags), String>)
        requires
            old(self).wf(),
        ensures
            final(self).keeps(old(self)),
            match substitute_parts(old(self).input@, old(self).pos as int, old(self).posix, old(self).sandbox) {
                Ok(x) => r matches Ok(v) && v.0@ == x.0 && v.1@ == x.1 && same_bits(v.2, x.2)
                    && final(self).pos == x.4 && match x.3 {
                        None => v.2.write_file is None,
                        Some(n) => v.2.write_file matches Some(w) && w@ == n,
                    },
                Err(e) => r matches Err(m) && m@ == final(self).err_spec(e.0) && final(self).pos == e.1,
            },
    {
        let delim = match self.advance() {
            Some(d) => d,
            None => { return Err(self.err("unterminated `s' command")); },
        };
        if delim == 92 || delim == 10 {
            return Err(self.err("delimiter character is not a single-byte character"));
        }
        let pattern = match self.parse_regex_delimited_ctx(delim, "unterminated `s' command") {
            Ok(v) => v,
            Err(e) => { return Err(e); },
        };
        let replacement = match self.parse_replacement(delim) {
            Ok(v) => v,
            Err(e) => { return Err(e); },
        };
        let flags = match self.parse_sub_flags() {
            Ok(f) => f,
            Err(e) => { return Err(e); },
        };
        Ok((pattern, replacement, flags))
    }

    #[verifier::rlimit(80)]
    pub(super) fn parse_substitute(&mut self) -> (r: Result<Command, String>)
        requires
            old(self).wf(),
        ensures
            final(self).keeps(old(self)),
            match substitute_result(old(self).input@, old(self).pos as int, old(self).cmd_start as int, old(self).extended, old(self).posix, old(self).sandbox) {
                Ok(x) => r matches Ok(c) && command_model(c) == x.0 && final(self).pos == x.1,
                Err(e) => r matches Err(m) && final(self).reports(m@, e),
            },
    {
        let (pattern_str, replacement, flags) = match self.substitute_pieces() {
            Ok(v) => v,
            Err(e) => { return Err(e); },
        };
        let re_pattern = substitute_ere_exec(&pattern_str, flags.case_insensitive, flags.multiline, self.extended);
        assert(re_pattern@ =~= substitute_ere(pattern_str@, flags, self.extended));
        proof {
            match substitute_parts(old(self).input@, old(self).pos as int, old(self).posix, old(self).sandbox) {
                Ok(x) => {
                    assert(substitute_ere(x.0, x.2, self.extended) == substitute_ere(pattern_str@, flags, self.extended));
                },
                Err(_) => {},
            }
        }
        let re = if pattern_str.len() == 0 {
            None
        } else {
            match self.compile_ere(&re_pattern) {
                Ok(re) => Some(re),
                Err(e) => { return Err(e); },
            }
        };
        if !self.posix && pattern_str.len() > 0 {
            match self.check_references(&replacement, &re_pattern) {
                Ok(()) => {},
                Err(e) => { return Err(e); },
            }
        }
        Ok(Command::Substitute { pattern: re, replacement: string_from_chars(replacement.as_slice()), flags })
    }
}

} // verus!
