use vstd::prelude::*;
use super::Parser;
use crate::scan::{byte_at, lemma_literal, literal};
use crate::util::{ctrl_char, ctrl_char_spec};
use crate::text::{byte_as_char, byte_as_char_exec, chars_of, push_str};

verus! {

/// `a` in front of the result `r`, if there is one.
pub open spec fn prepend(a: Seq<char>, r: Option<(Seq<char>, int)>) -> Option<(Seq<char>, int)> {
    match r {
        Some(x) => Some((a + x.0, x.1)),
        None => None,
    }
}

/// The rest of a `[:name:]` (`[.x.]`, `[=x=]`) inside a bracket, from `p`
/// on, up to and including its closing `kind` and `]`; `None` when the
/// script ends first.
pub open spec fn rx_class_name(s: Seq<u8>, kind: u8, p: int) -> Option<(Seq<char>, int)>
    decreases s.len() - p,
{
    if p < 0 || p >= s.len() {
        None
    } else if s[p] == kind && byte_at(s, p + 1) == Some(93u8) {
        Some((seq![kind as char, ']'], p + 2))
    } else {
        let l = literal(s, s[p], p + 1);
        if p < l.1 <= s.len() {
            prepend(l.0, rx_class_name(s, kind, l.1))
        } else {
            None
        }
    }
}

/// The regex between delimiters, from `p` on: its text (escapes kept, an
/// escaped delimiter made plain, bracket expressions copied whole) and where
/// the input continues after the closing delimiter; `None` when the script
/// ends first.
pub open spec fn rx(s: Seq<u8>, d: u8, p: int, escaped: bool, in_bracket: bool) -> Option<(Seq<char>, int)>
    decreases s.len() - p,
{
    if p < 0 || p >= s.len() {
        None
    } else {
        let ch = s[p];
        let p1 = p + 1;
        if escaped {
            let l = literal(s, ch, p1);
            let out = if ch == d { l.0 } else { seq!['\\'] + l.0 };
            if p < l.1 <= s.len() {
                prepend(out, rx(s, d, l.1, false, in_bracket))
            } else {
                None
            }
        } else if ch == 92 {
            rx(s, d, p1, true, in_bracket)
        } else if ch == 91 && !in_bracket {
            let neg = byte_at(s, p1) == Some(94u8);
            let q1 = if neg { p1 + 1 } else { p1 };
            let o1: Seq<char> = if neg { seq!['[', '^'] } else { seq!['['] };
            let close = byte_at(s, q1) == Some(93u8);
            let q2 = if close { q1 + 1 } else { q1 };
            let o2 = if close { o1 + seq![']'] } else { o1 };
            prepend(o2, rx(s, d, q2, false, true))
        } else if ch == 91 && in_bracket {
            match byte_at(s, p1) {
                Some(k) if k == 58 || k == 46 || k == 61 => match rx_class_name(s, k, p1 + 1) {
                    Some(c) => if p < c.1 <= s.len() {
                        prepend(seq!['[', k as char] + c.0, rx(s, d, c.1, false, true))
                    } else {
                        None
                    },
                    None => None,
                },
                _ => prepend(seq!['['], rx(s, d, p1, false, true)),
            }
        } else if ch == 93 && in_bracket {
            prepend(seq![']'], rx(s, d, p1, false, false))
        } else if ch == d && !in_bracket {
            Some((Seq::empty(), p1))
        } else {
            let l = literal(s, ch, p1);
            if p < l.1 <= s.len() {
                prepend(l.0, rx(s, d, l.1, false, in_bracket))
            } else {
                None
            }
        }
    }
}

pub proof fn lemma_rx_class_name(s: Seq<u8>, kind: u8, p: int)
    requires
        0 <= p,
    ensures
        rx_class_name(s, kind, p) matches Some(r) ==> p < r.1 <= s.len(),
    decreases s.len() - p,
{
    if 0 <= p < s.len() && !(s[p] == kind && byte_at(s, p + 1) == Some(93u8)) {
        lemma_literal(s, s[p], p + 1);
        let l = literal(s, s[p], p + 1);
        if p < l.1 <= s.len() {
            lemma_rx_class_name(s, kind, l.1);
        }
    }
}

pub proof fn lemma_rx(s: Seq<u8>, d: u8, p: int, e: bool, b: bool)
    requires
        0 <= p,
    ensures
        rx(s, d, p, e, b) matches Some(r) ==> p < r.1 <= s.len(),
    decreases s.len() - p,
{
    if 0 <= p < s.len() {
        let ch = s[p];
        let p1 = p + 1;
        lemma_literal(s, ch, p1);
        if e {
            let l = literal(s, ch, p1);
            if p < l.1 <= s.len() {
                lemma_rx(s, d, l.1, false, b);
            }
        } else if ch == 92 {
            lemma_rx(s, d, p1, true, b);
        } else if ch == 91 && !b {
            let neg = byte_at(s, p1) == Some(94u8);
            let q1 = if neg { p1 + 1 } else { p1 };
            let close = byte_at(s, q1) == Some(93u8);
            let q2 = if close { q1 + 1 } else { q1 };
            lemma_rx(s, d, q2, false, true);
        } else if ch == 91 && b {
            match byte_at(s, p1) {
                Some(k) => {
                    if k == 58 || k == 46 || k == 61 {
                        lemma_rx_class_name(s, k, p1 + 1);
                        match rx_class_name(s, k, p1 + 1) {
                            Some(c) => {
                                if p < c.1 <= s.len() {
                                    lemma_rx(s, d, c.1, false, true);
                                }
                            },
                            None => {},
                        }
                    } else {
                        lemma_rx(s, d, p1, false, true);
                    }
                },
                None => {
                    lemma_rx(s, d, p1, false, true);
                },
            }
        } else if ch == 93 && b {
            lemma_rx(s, d, p1, false, false);
        } else if ch == d && !b {
        } else {
            let l = literal(s, ch, p1);
            if p < l.1 <= s.len() {
                lemma_rx(s, d, l.1, false, b);
            }
        }
    }
}

impl<'a> Parser<'a> {
    pub(super) fn parse_regex_delimited(&mut self, delim: u8) -> (r: Result<Vec<char>, String>)
        requires
            old(self).wf(),
        ensures
            final(self).keeps(old(self)),
            rx(old(self).input@, delim, old(self).pos as int, false, false) is Some <==> r is Ok,
            r matches Ok(v) ==> rx(old(self).input@, delim, old(self).pos as int, false, false)
                == Some((v@, final(self).pos as int)),
            r matches Err(e) ==> final(self).pos == final(self).input@.len()
                && e@ == final(self).err_spec("unterminated address regex"@),
    {
        self.parse_regex_delimited_ctx(delim, "unterminated address regex")
    }

    /// Scans the rest of a `[:name:]` inside a bracket (after its `[` and
    /// `kind`); `false` when the script ends first.
    fn scan_class_name(&mut self, kind: u8, pattern: &mut Vec<char>) -> (ok: bool)
        requires
            old(self).wf(),
        ensures
            final(self).keeps(old(self)),
            ok == rx_class_name(old(self).input@, kind, old(self).pos as int) is Some,
            ok ==> prepend(old(pattern)@, rx_class_name(old(self).input@, kind, old(self).pos as int))
                == Some((final(pattern)@, final(self).pos as int)),
            !ok ==> final(self).pos == final(self).input@.len(),
    {
        let ghost s = self.input@;
        proof { lemma_rx_class_name(s, kind, self.pos as int); }
        loop
            invariant
                self.keeps(old(self)),
                s == self.input@,
                prepend(pattern@, rx_class_name(s, kind, self.pos as int)) == prepend(
                    old(pattern)@,
                    rx_class_name(s, kind, old(self).pos as int),
                ),
            decreases s.len() - self.pos,
        {
            let ghost p = self.pos as int;
            let ghost before = pattern@;
            let c = match self.advance() {
                Some(c) => c,
                None => { return false; },
            };
            if c == kind && self.peek() == Some(93u8) {
                pattern.push(c as char);
                pattern.push(']');
                self.advance();
                assert(pattern@ =~= before + seq![kind as char, ']']);
                assert(prepend(pattern@, Some((Seq::<char>::empty(), self.pos as int))) == prepend(before, rx_class_name(s, kind, p))) by {
                    assert(pattern@ + Seq::<char>::empty() =~= pattern@);
                }
                return true;
            }
            proof { lemma_literal(s, c, self.pos as int); }
            self.push_literal(c, pattern);
            proof {
                let l = literal(s, c, p + 1);
                match rx_class_name(s, kind, self.pos as int) {
                    Some(x) => { assert(before + (l.0 + x.0) =~= pattern@ + x.0); },
                    None => {},
                }
            }
        }
    }

    /// After a `[` that opens a bracket: copies an optional `^` and an
    /// optional leading `]`.
    fn open_bracket(&mut self, delim: u8, pattern: &mut Vec<char>)
        requires
            old(self).wf(),
            old(self).pos >= 1,
            old(self).input@[old(self).pos - 1] == 91,
        ensures
            final(self).keeps(old(self)),
            prepend(final(pattern)@, rx(final(self).input@, delim, final(self).pos as int, false, true))
                == prepend(old(pattern)@, rx(old(self).input@, delim, old(self).pos - 1, false, false)),
            old(self).pos <= final(self).pos,
    {
        let ghost s = self.input@;
        let ghost before = pattern@;
        pattern.push('[');
        if self.peek() == Some(94u8) {
            pattern.push('^');
            self.advance();
        }
        if self.peek() == Some(93u8) {
            pattern.push(']');
            self.advance();
        }
        proof {
            match rx(s, delim, self.pos as int, false, true) {
                Some(x) => { assert(before + (pattern@.subrange(before.len() as int, pattern@.len() as int) + x.0) =~= pattern@ + x.0); },
                None => {},
            }
        }
    }

    /// After a `[` inside a bracket: a `[:name:]` (`[.x.]`, `[=x=]`) is
    /// copied whole, any other `[` is literal. `false` when the script ends
    /// inside a class name.
    fn bracket_bracket(&mut self, delim: u8, pattern: &mut Vec<char>) -> (ok: bool)
        requires
            old(self).wf(),
            old(self).pos >= 1,
            old(self).input@[old(self).pos - 1] == 91,
        ensures
            final(self).keeps(old(self)),
            ok ==> prepend(final(pattern)@, rx(final(self).input@, delim, final(self).pos as int, false, true))
                == prepend(old(pattern)@, rx(old(self).input@, delim, old(self).pos - 1, false, true)),
            ok ==> old(self).pos <= final(self).pos,
            !ok ==> rx(old(self).input@, delim, old(self).pos - 1, false, true) is None
                && final(self).pos == final(self).input@.len(),
    {
        let ghost s = self.input@;
        let ghost p = self.pos - 1;
        let ghost before = pattern@;
        let next = self.peek();
        if next == Some(58u8) || next == Some(46u8) || next == Some(61u8) {
            let kind = match self.advance() {
                Some(k) => k,
                None => 0,
            };
            pattern.push('[');
            pattern.push(kind as char);
            let ghost mid = pattern@;
            proof { lemma_rx_class_name(s, kind, p + 2); }
            if !self.scan_class_name(kind, pattern) {
                return false;
            }
            proof {
                let c = rx_class_name(s, kind, p + 2).unwrap();
                assert(pattern@ =~= mid + c.0);
                match rx(s, delim, self.pos as int, false, true) {
                    Some(x) => { assert(before + ((seq!['[', kind as char] + c.0) + x.0) =~= pattern@ + x.0); },
                    None => {},
                }
            }
        } else {
            pattern.push('[');
            proof {
                match rx(s, delim, self.pos as int, false, true) {
                    Some(x) => { assert(before + (seq!['['] + x.0) =~= pattern@ + x.0); },
                    None => {},
                }
            }
        }
        true
    }

    #[verifier::rlimit(100)]
    pub(super) fn parse_regex_delimited_ctx(&mut self, delim: u8, eof_msg: &str) -> (r: Result<Vec<char>, String>)
        requires
            old(self).wf(),
        ensures
            final(self).keeps(old(self)),
            rx(old(self).input@, delim, old(self).pos as int, false, false) is Some <==> r is Ok,
            r matches Ok(v) ==> rx(old(self).input@, delim, old(self).pos as int, false, false)
                == Some((v@, final(self).pos as int)),
            r matches Err(e) ==> final(self).pos == final(self).input@.len() && e@ == final(self).err_spec(eof_msg@),
    {
        let ghost s = self.input@;
        let mut pattern: Vec<char> = Vec::new();
        let mut escaped = false;
        let mut in_bracket = false;
        proof { lemma_rx(s, delim, self.pos as int, false, false); }
        loop
            invariant
                self.keeps(old(self)),
                s == self.input@,
                prepend(pattern@, rx(s, delim, self.pos as int, escaped, in_bracket)) == rx(
                    s,
                    delim,
                    old(self).pos as int,
                    false,
                    false,
                ),
            decreases s.len() - self.pos,
        {
            let ghost p = self.pos as int;
            let ghost before = pattern@;
            let ghost was_escaped = escaped;
            let ghost was_in = in_bracket;
            proof { lemma_rx(s, delim, p, escaped, in_bracket); }
            let ch = match self.advance() {
                Some(ch) => ch,
                None => {
                    return Err(self.err(eof_msg));
                },
            };
            proof { lemma_literal(s, ch, self.pos as int); }
            if escaped {
                if ch != delim {
                    pattern.push('\\');
                }
                self.push_literal(ch, &mut pattern);
                escaped = false;
                proof {
                    let l = literal(s, ch, p + 1);
                    let out = if ch == delim { l.0 } else { seq!['\\'] + l.0 };
                    assert(pattern@ =~= before + out);
                    match rx(s, delim, self.pos as int, false, was_in) {
                        Some(x) => { assert(before + (out + x.0) =~= pattern@ + x.0); },
                        None => {},
                    }
                }
            } else if ch == 92 {
                escaped = true;
            } else if ch == 91 && !in_bracket {
                in_bracket = true;
                self.open_bracket(delim, &mut pattern);
            } else if ch == 91 && in_bracket {
                if !self.bracket_bracket(delim, &mut pattern) {
                    return Err(self.err(eof_msg));
                }
            } else if ch == 93 && in_bracket {
                in_bracket = false;
                pattern.push(']');
                proof {
                    match rx(s, delim, self.pos as int, false, false) {
                        Some(x) => { assert(before + (seq![']'] + x.0) =~= pattern@ + x.0); },
                        None => {},
                    }
                }
            } else if ch == delim && !in_bracket {
                assert(pattern@ + Seq::<char>::empty() =~= pattern@);
                return Ok(pattern);
            } else {
                self.push_literal(ch, &mut pattern);
                proof {
                    let l = literal(s, ch, p + 1);
                    match rx(s, delim, self.pos as int, false, was_in) {
                        Some(x) => { assert(before + (l.0 + x.0) =~= pattern@ + x.0); },
                        None => {},
                    }
                }
            }
        }
    }
}

/// The value of `b` as a digit in `base` (8, 10 or 16).
pub open spec fn digit_of(b: u8, base: nat) -> Option<nat> {
    if base == 16 {
        if 48 <= b && b <= 57 {
            Some((b - 48) as nat)
        } else if 97 <= b && b <= 102 {
            Some((b - 87) as nat)
        } else if 65 <= b && b <= 70 {
            Some((b - 55) as nat)
        } else {
            None
        }
    } else if 48 <= b && b < 48 + base {
        Some((b - 48) as nat)
    } else {
        None
    }
}

/// How many digits (at most `max`) in `base` follow from `p`.
pub open spec fn digit_run(s: Seq<u8>, p: int, base: nat, max: int) -> int
    decreases max,
{
    if max <= 0 || p < 0 || p >= s.len() || digit_of(s[p], base) is None {
        0
    } else {
        1 + digit_run(s, p + 1, base, max - 1)
    }
}

/// The number written by the `k` digits from `p`.
pub open spec fn run_value(s: Seq<u8>, p: int, k: int, base: nat) -> nat
    decreases k,
{
    if k <= 0 {
        0
    } else {
        run_value(s, p, k - 1, base) * base + digit_of(s[p + k - 1], base).unwrap()
    }
}

/// The character for byte value `v` (taken modulo 256): an ASCII
/// character, or the raw byte (see `byte_as_char`).
pub open spec fn byte_char(v: nat) -> char {
    byte_as_char((v % 256) as u8)
}

proof fn lemma_digit_run(s: Seq<u8>, p: int, base: nat, max: int)
    requires
        0 <= p <= s.len(),
        0 <= max,
    ensures
        0 <= digit_run(s, p, base, max) <= max,
        p + digit_run(s, p, base, max) <= s.len(),
        forall|i: int| p <= i < p + digit_run(s, p, base, max) ==> digit_of(#[trigger] s[i], base) is Some,
    decreases max,
{
    if max > 0 && p < s.len() && digit_of(s[p], base) is Some {
        lemma_digit_run(s, p + 1, base, max - 1);
    }
}

proof fn lemma_run_value_bound(s: Seq<u8>, p: int, k: int, base: nat)
    requires
        0 <= k <= 3,
        base == 8 || base == 10 || base == 16,
        forall|i: int| p <= i < p + k ==> digit_of(#[trigger] s[i], base) is Some,
    ensures
        run_value(s, p, k, base) < if k == 0 { 1 } else if k == 1 { base } else if k == 2 { base * base } else { base * base * base },
    decreases k,
{
    if k > 0 {
        lemma_run_value_bound(s, p, k - 1, base);
        let v = run_value(s, p, k - 1, base);
        let d = digit_of(s[p + k - 1], base).unwrap();
        assert(d < base);
        if k == 1 {
            assert(v == 0);
        } else if k == 2 {
            assert(v * base + d < base * base) by (nonlinear_arith)
                requires
                    v < base,
                    d < base,
            ;
        } else {
            assert(v * base + d < base * base * base) by (nonlinear_arith)
                requires
                    v < base * base,
                    d < base,
            ;
        }
    }
}

/// `\d`, `\o`, `\x` in a replacement: the byte the digits after the
/// letter give, or the letter itself when no digit follows.
pub open spec fn numeric_escape(s: Seq<u8>, p: int, base: nat, max: int, letter: char) -> (Seq<char>, int) {
    let k = digit_run(s, p, base, max);
    if k > 0 {
        (seq![byte_char(run_value(s, p, k, base))], p + k)
    } else {
        (seq![letter], p)
    }
}

/// The bytes after which `\c\X` is refused as a recursive escape.
pub open spec fn recursive_escape_letter(b: u8) -> bool {
    b == 97 || b == 98 || b == 99 || b == 100 || b == 102 || b == 110 || b == 111 || b == 114
        || b == 116 || b == 120 || b == 118
}

/// Where the input stands after skipping up to and including the next
/// delimiter (or at the end).
pub open spec fn skip_past(s: Seq<u8>, p: int, d: u8) -> int
    decreases s.len() - p,
{
    if p < 0 || p >= s.len() {
        p
    } else if s[p] == d {
        p + 1
    } else {
        skip_past(s, p + 1, d)
    }
}

/// What the escape `\ch` of a replacement (the input going on at `p`)
/// becomes, and where the input continues; `Err(q)` for a `\c` followed by
/// another escape, refused with the input at `q`.
pub open spec fn repl_escape(s: Seq<u8>, d: u8, ch: u8, p: int) -> Result<(Seq<char>, int), int> {
    if ch == 110 {
        Ok((seq!['\n'], p))
    } else if ch == 97 {
        Ok((seq![7 as char], p))
    } else if ch == 114 {
        Ok((seq!['\r'], p))
    } else if ch == 116 {
        Ok((seq!['\t'], p))
    } else if ch == 102 {
        Ok((seq![12 as char], p))
    } else if ch == 118 {
        Ok((seq![11 as char], p))
    } else if ch == 98 {
        Ok((seq![8 as char], p))
    } else if ch == 99 {
        match byte_at(s, p) {
            None => Ok((seq!['\\'], p)),
            Some(next) => if next == d {
                Ok((seq!['\\'], p))
            } else if next == 92 {
                match byte_at(s, p + 1) {
                    None => Ok((seq!['\\'], p)),
                    Some(n2) => if n2 == 92 || n2 == d {
                        Ok((seq![ctrl_char_spec(92) as char], p + 2))
                    } else if recursive_escape_letter(n2) {
                        Err(skip_past(s, p + 1, d))
                    } else {
                        Ok((seq![ctrl_char_spec(92) as char], p + 1))
                    },
                }
            } else {
                Ok((seq![ctrl_char_spec(next) as char], p + 1))
            },
        }
    } else if ch == 100 {
        Ok(numeric_escape(s, p, 10, 3, 'd'))
    } else if ch == 111 {
        Ok(numeric_escape(s, p, 8, 3, 'o'))
    } else if ch == 120 {
        Ok(numeric_escape(s, p, 16, 2, 'x'))
    } else {
        let l = literal(s, ch, p);
        let keep: Seq<char> = if ch != d || ch == 38 || ch == 92 { seq!['\\'] } else { Seq::empty() };
        Ok((keep + l.0, l.1))
    }
}

/// `a` in front of a replacement result.
pub open spec fn prepend_r(a: Seq<char>, r: Result<(Seq<char>, int), (bool, int)>) -> Result<(Seq<char>, int), (bool, int)> {
    match r {
        Ok(x) => Ok((a + x.0, x.1)),
        Err(e) => Err(e),
    }
}

/// The replacement of an `s` command from `p`: its text (escapes that the
/// substitution itself interprets kept as written) and where the input
/// continues after the closing delimiter. `Err((false, q))`: the command
/// is unterminated, the script ending first or an unescaped newline coming
/// first (not consumed), reported with the input at `q`; `Err((true, q))`:
/// a recursive `\c` escape, reported with the input at `q`.
pub open spec fn repl(s: Seq<u8>, d: u8, p: int, escaped: bool) -> Result<(Seq<char>, int), (bool, int)>
    decreases s.len() - p,
{
    if p < 0 || p >= s.len() {
        Err((false, s.len() as int))
    } else if s[p] == 10 {
        if escaped {
            prepend_r(seq!['\n'], repl(s, d, p + 1, false))
        } else {
            Err((false, p))
        }
    } else if escaped {
        match repl_escape(s, d, s[p], p + 1) {
            Ok(x) => if p < x.1 <= s.len() {
                prepend_r(x.0, repl(s, d, x.1, false))
            } else {
                Err((false, s.len() as int))
            },
            Err(q) => Err((true, q)),
        }
    } else if s[p] == 92 {
        repl(s, d, p + 1, true)
    } else if s[p] == d {
        Ok((Seq::empty(), p + 1))
    } else {
        let l = literal(s, s[p], p + 1);
        if p < l.1 <= s.len() {
            prepend_r(l.0, repl(s, d, l.1, false))
        } else {
            Err((false, s.len() as int))
        }
    }
}

proof fn lemma_skip_past(s: Seq<u8>, p: int, d: u8)
    requires
        0 <= p <= s.len(),
    ensures
        p <= skip_past(s, p, d) <= s.len(),
    decreases s.len() - p,
{
    if p < s.len() && s[p] != d {
        lemma_skip_past(s, p + 1, d);
    }
}

proof fn lemma_repl_escape(s: Seq<u8>, d: u8, ch: u8, p: int)
    requires
        0 <= p <= s.len(),
    ensures
        repl_escape(s, d, ch, p) matches Ok(x) ==> p <= x.1 <= s.len(),
        repl_escape(s, d, ch, p) matches Err(q) ==> p <= q <= s.len(),
{
    lemma_literal(s, ch, p);
    lemma_digit_run(s, p, 10, 3);
    lemma_digit_run(s, p, 8, 3);
    lemma_digit_run(s, p, 16, 2);
    if p + 1 <= s.len() {
        lemma_skip_past(s, p + 1, d);
    }
}

proof fn lemma_repl(s: Seq<u8>, d: u8, p: int, e: bool)
    requires
        0 <= p,
    ensures
        repl(s, d, p, e) matches Ok(x) ==> p <= x.1 <= s.len(),
        repl(s, d, p, e) matches Err(q) ==> (p <= s.len() ==> p <= q.1 <= s.len()),
    decreases s.len() - p,
{
    if 0 <= p < s.len() {
        lemma_repl_escape(s, d, s[p], p + 1);
        lemma_literal(s, s[p], p + 1);
        if s[p] == 10 {
            if e {
                lemma_repl(s, d, p + 1, false);
            }
        } else if e {
            match repl_escape(s, d, s[p], p + 1) {
                Ok(x) => if p < x.1 <= s.len() {
                    lemma_repl(s, d, x.1, false);
                },
                Err(q) => {},
            }
        } else if s[p] == 92 {
            lemma_repl(s, d, p + 1, true);
        } else if s[p] == d {
        } else {
            let l = literal(s, s[p], p + 1);
            if p < l.1 <= s.len() {
                lemma_repl(s, d, l.1, false);
            }
        }
    }
}

/// The value of `d` as a digit in `base`.
fn digit_value(d: u8, base: u32) -> (v: Option<u32>)
    requires
        base == 8 || base == 10 || base == 16,
    ensures
        v matches Some(x) ==> digit_of(d, base as nat) == Some(x as nat),
        v is None ==> digit_of(d, base as nat) is None,
{
    if 48 <= d && d <= 57 && (d as u32) < 48 + base {
        Some((d - 48) as u32)
    } else if base == 16 && 97 <= d && d <= 102 {
        Some((d - 87) as u32)
    } else if base == 16 && 65 <= d && d <= 70 {
        Some((d - 55) as u32)
    } else {
        None
    }
}

impl<'a> Parser<'a> {
    /// Reads up to `max` digits in `base` and gives their value and count.
    fn read_digits(&mut self, base: u32, max: usize) -> (r: (u32, usize))
        requires
            old(self).wf(),
            base == 8 || base == 10 || base == 16,
            max <= 3,
        ensures
            final(self).keeps(old(self)),
            r.1 == digit_run(old(self).input@, old(self).pos as int, base as nat, max as int),
            r.0 == run_value(old(self).input@, old(self).pos as int, r.1 as int, base as nat),
            final(self).pos == old(self).pos + r.1,
    {
        let ghost s = self.input@;
        let ghost p0 = self.pos as int;
        proof {
            lemma_digit_run(s, p0, base as nat, max as int);
            lemma_run_value_bound(s, p0, digit_run(s, p0, base as nat, max as int), base as nat);
        }
        let mut n: u32 = 0;
        let mut count: usize = 0;
        loop
            invariant
                self.keeps(old(self)),
                s == self.input@,
                p0 == old(self).pos,
                base == 8 || base == 10 || base == 16,
                max <= 3,
                count <= max,
                self.pos == p0 + count,
                digit_run(s, p0, base as nat, max as int) == count + digit_run(s, self.pos as int, base as nat, max - count),
                n == run_value(s, p0, count as int, base as nat),
                forall|i: int| p0 <= i < p0 + digit_run(s, p0, base as nat, max as int) ==> digit_of(#[trigger] s[i], base as nat) is Some,
                digit_run(s, p0, base as nat, max as int) <= 3,
            ensures
                digit_run(s, self.pos as int, base as nat, max - count) == 0,
            decreases max - count,
        {
            if count >= max || self.pos >= self.input.len() {
                break;
            }
            let v = match digit_value(self.input[self.pos], base) {
                Some(v) => v,
                None => { break; },
            };
            assert(digit_of(s[self.pos as int], base as nat) is Some);
            assert(digit_run(s, self.pos as int, base as nat, max - count) == 1 + digit_run(s, self.pos + 1, base as nat, max - count - 1));
            proof { lemma_digit_run(s, self.pos + 1, base as nat, max - count - 1); }
            assert(count + 1 <= digit_run(s, p0, base as nat, max as int));
            proof {
                lemma_run_value_bound(s, p0, count + 1, base as nat);
            }
            n = n * base + v;
            count += 1;
            self.pos += 1;
        }
        (n, count)
    }

    /// Handles the escape `\ch` of a replacement (`ch` already consumed);
    /// `false` for a refused recursive `\c` escape.
    fn replacement_escape(&mut self, ch: u8, delim: u8, result: &mut Vec<char>) -> (ok: bool)
        requires
            old(self).wf(),
        ensures
            final(self).keeps(old(self)),
            match repl_escape(old(self).input@, delim, ch, old(self).pos as int) {
                Ok(x) => ok && final(result)@ == old(result)@ + x.0 && final(self).pos == x.1,
                Err(q) => !ok && final(self).pos == q,
            },
    {
        let ghost s = self.input@;
        let ghost p = self.pos as int;
        if ch == 110 {
            result.push('\n');
        } else if ch == 97 {
            result.push(7u8 as char);
        } else if ch == 114 {
            result.push('\r');
        } else if ch == 116 {
            result.push('\t');
        } else if ch == 102 {
            result.push(12u8 as char);
        } else if ch == 118 {
            result.push(11u8 as char);
        } else if ch == 98 {
            result.push(8u8 as char);
        } else if ch == 99 {
            match self.peek() {
                None => result.push('\\'),
                Some(next) => {
                    if next == delim {
                        result.push('\\');
                    } else if next == 92 {
                        let saved = self.pos;
                        self.advance();
                        match self.peek() {
                            Some(next2) => {
                                if next2 == 92 || next2 == delim {
                                    self.advance();
                                    result.push(ctrl_char(92) as char);
                                } else if next2 == 97 || next2 == 98 || next2 == 99 || next2 == 100
                                    || next2 == 102 || next2 == 110 || next2 == 111 || next2 == 114
                                    || next2 == 116 || next2 == 120 || next2 == 118 {
                                    proof { lemma_skip_past(s, self.pos as int, delim); }
                                    while self.pos < self.input.len() && self.input[self.pos] != delim
                                        invariant
                                            self.keeps(old(self)),
                                            s == self.input@,
                                            skip_past(s, self.pos as int, delim) == skip_past(s, p + 1, delim),
                                        decreases s.len() - self.pos,
                                    {
                                        self.pos += 1;
                                    }
                                    if self.pos < self.input.len() {
                                        self.pos += 1;
                                    }
                                    return false;
                                } else {
                                    result.push(ctrl_char(92) as char);
                                }
                            },
                            None => {
                                self.pos = saved;
                                result.push('\\');
                            },
                        }
                    } else {
                        self.advance();
                        result.push(ctrl_char(next) as char);
                    }
                },
            }
        } else if ch == 100 || ch == 111 || ch == 120 {
            let (base, max, letter): (u32, usize, char) = if ch == 100 {
                (10, 3, 'd')
            } else if ch == 111 {
                (8, 3, 'o')
            } else {
                (16, 2, 'x')
            };
            let (n, count) = self.read_digits(base, max);
            if count > 0 {
                result.push(byte_as_char_exec((n % 256) as u8));
            } else {
                result.push(letter);
            }
        } else {
            if ch != delim || ch == 38 || ch == 92 {
                result.push('\\');
            }
            self.push_literal(ch, result);
        }
        proof {
            match repl_escape(s, delim, ch, p) {
                Ok(x) => { assert(result@ =~= old(result)@ + x.0); },
                Err(q) => {},
            }
        }
        true
    }

    #[verifier::rlimit(60)]
    pub(super) fn parse_replacement(&mut self, delim: u8) -> (r: Result<Vec<char>, String>)
        requires
            old(self).wf(),
        ensures
            final(self).keeps(old(self)),
            match repl(old(self).input@, delim, old(self).pos as int, false) {
                Ok(x) => r matches Ok(v) && v@ == x.0 && final(self).pos == x.1,
                Err((false, q)) => r matches Err(e) && final(self).pos == q
                    && e@ == final(self).err_spec("unterminated `s' command"@),
                Err((true, q)) => r matches Err(e) && final(self).pos == q
                    && e@ == final(self).err_spec("recursive escaping after \\c not allowed"@),
            },
    {
        let ghost s = self.input@;
        let mut result: Vec<char> = Vec::new();
        let mut escaped = false;
        proof { lemma_repl(s, delim, self.pos as int, false); }
        loop
            invariant
                self.keeps(old(self)),
                s == self.input@,
                prepend_r(result@, repl(s, delim, self.pos as int, escaped)) == repl(s, delim, old(self).pos as int, false),
            decreases s.len() - self.pos,
        {
            let ghost p = self.pos as int;
            let ghost before = result@;
            let ghost was_escaped = escaped;
            proof {
                lemma_repl(s, delim, p, escaped);
                if p < s.len() {
                    lemma_repl_escape(s, delim, s[p], p + 1);
                    lemma_literal(s, s[p], p + 1);
                }
            }
            match self.peek() {
                None => {
                    return Err(self.err("unterminated `s' command"));
                },
                Some(10u8) => {
                    if escaped {
                        self.advance();
                        result.push('\n');
                        escaped = false;
                        proof {
                            match repl(s, delim, self.pos as int, false) {
                                Ok(x) => { assert(before + (seq!['\n'] + x.0) =~= result@ + x.0); },
                                Err(_) => {},
                            }
                        }
                    } else {
                        return Err(self.err("unterminated `s' command"));
                    }
                },
                Some(ch) => {
                    self.advance();
                    if escaped {
                        if !self.replacement_escape(ch, delim, &mut result) {
                            return Err(self.err("recursive escaping after \\c not allowed"));
                        }
                        escaped = false;
                        proof {
                            match repl_escape(s, delim, ch, p + 1) {
                                Ok(x) => {
                                    match repl(s, delim, self.pos as int, false) {
                                        Ok(y) => { assert(before + (x.0 + y.0) =~= result@ + y.0); },
                                        Err(_) => {},
                                    }
                                },
                                Err(_) => {},
                            }
                        }
                    } else if ch == 92 {
                        escaped = true;
                    } else if ch == delim {
                        assert(result@ + Seq::<char>::empty() =~= result@);
                        return Ok(result);
                    } else {
                        self.push_literal(ch, &mut result);
                        proof {
                            let l = literal(s, ch, p + 1);
                            match repl(s, delim, self.pos as int, false) {
                                Ok(y) => { assert(before + (l.0 + y.0) =~= result@ + y.0); },
                                Err(_) => {},
                            }
                        }
                    }
                },
            }
        }
    }
}

/// What the escape `\ch` inside a `y` command's string (the input going
/// on at `p`) stands for, and where the input continues.
pub open spec fn tr_escape(s: Seq<u8>, d: u8, ch: u8, p: int) -> (Seq<char>, int) {
    if ch == 110 || ch == 10 {
        (seq!['\n'], p)
    } else if ch == 97 {
        (seq![7 as char], p)
    } else if ch == 98 {
        (seq![8 as char], p)
    } else if ch == 102 {
        (seq![12 as char], p)
    } else if ch == 114 {
        (seq!['\r'], p)
    } else if ch == 116 {
        (seq!['\t'], p)
    } else if ch == 118 {
        (seq![11 as char], p)
    } else if ch == 99 {
        match byte_at(s, p) {
            None => (Seq::empty(), p),
            Some(next) => if next == d {
                (Seq::empty(), p)
            } else if next == 92 {
                let q = if byte_at(s, p + 1) == Some(92u8) || byte_at(s, p + 1) == Some(d) {
                    p + 2
                } else {
                    p + 1
                };
                (seq![ctrl_char_spec(92) as char], q)
            } else {
                (seq![ctrl_char_spec(next) as char], p + 1)
            },
        }
    } else if ch == 100 {
        let k = digit_run(s, p, 10, 3);
        (seq![byte_char(run_value(s, p, k, 10))], p + k)
    } else if ch == 111 {
        let k = digit_run(s, p, 8, 3);
        (seq![byte_char(run_value(s, p, k, 8))], p + k)
    } else if ch == 120 {
        let k = digit_run(s, p, 16, 2);
        (seq![byte_char(run_value(s, p, k, 16))], p + k)
    } else if ch == d {
        (seq![ch as char], p)
    } else {
        let l = literal(s, ch, p);
        (seq!['\\'] + l.0, l.1)
    }
}

/// One string of a `y` command from `p`: its characters (a multi-byte
/// UTF-8 character read as one) and where the input continues after the
/// closing delimiter; `None` when the script ends first.
pub open spec fn tr(s: Seq<u8>, d: u8, p: int, escaped: bool) -> Option<(Seq<char>, int)>
    decreases s.len() - p,
{
    if p < 0 || p >= s.len() {
        None
    } else if escaped {
        let e = tr_escape(s, d, s[p], p + 1);
        if p < e.1 <= s.len() {
            prepend(e.0, tr(s, d, e.1, false))
        } else {
            None
        }
    } else if s[p] == 92 {
        tr(s, d, p + 1, true)
    } else if s[p] == d {
        Some((Seq::empty(), p + 1))
    } else {
        let l = literal(s, s[p], p + 1);
        if p < l.1 <= s.len() {
            prepend(l.0, tr(s, d, l.1, false))
        } else {
            None
        }
    }
}

proof fn lemma_tr_escape(s: Seq<u8>, d: u8, ch: u8, p: int)
    requires
        0 <= p <= s.len(),
    ensures
        p <= tr_escape(s, d, ch, p).1 <= s.len(),
{
    lemma_literal(s, ch, p);
    lemma_digit_run(s, p, 10, 3);
    lemma_digit_run(s, p, 8, 3);
    lemma_digit_run(s, p, 16, 2);
}

proof fn lemma_tr(s: Seq<u8>, d: u8, p: int, e: bool)
    requires
        0 <= p,
    ensures
        tr(s, d, p, e) matches Some(x) ==> p < x.1 <= s.len(),
    decreases s.len() - p,
{
    if 0 <= p < s.len() {
        lemma_tr_escape(s, d, s[p], p + 1);
        if e {
            let x = tr_escape(s, d, s[p], p + 1);
            if p < x.1 <= s.len() {
                lemma_tr(s, d, x.1, false);
            }
        } else if s[p] == 92 {
            lemma_tr(s, d, p + 1, true);
        } else if s[p] != d {
            lemma_literal(s, s[p], p + 1);
            let l = literal(s, s[p], p + 1);
            if p < l.1 <= s.len() {
                lemma_tr(s, d, l.1, false);
            }
        }
    }
}

impl<'a> Parser<'a> {
    /// Handles the escape `\ch` in a `y` string (`ch` already consumed).
    fn translit_escape(&mut self, ch: u8, delim: u8, chars: &mut Vec<char>)
        requires
            old(self).wf(),
        ensures
            final(self).keeps(old(self)),
            final(chars)@ == old(chars)@ + tr_escape(old(self).input@, delim, ch, old(self).pos as int).0,
            final(self).pos == tr_escape(old(self).input@, delim, ch, old(self).pos as int).1,
    {
        if ch == 110 || ch == 10 {
            chars.push('\n');
        } else if ch == 97 {
            chars.push(7u8 as char);
        } else if ch == 98 {
            chars.push(8u8 as char);
        } else if ch == 102 {
            chars.push(12u8 as char);
        } else if ch == 114 {
            chars.push('\r');
        } else if ch == 116 {
            chars.push('\t');
        } else if ch == 118 {
            chars.push(11u8 as char);
        } else if ch == 99 {
            if let Some(next) = self.peek() {
                if next == delim {
                } else if next == 92 {
                    self.advance();
                    if let Some(next2) = self.peek() {
                        if next2 == 92 || next2 == delim {
                            self.advance();
                        }
                    }
                    chars.push(ctrl_char(92) as char);
                } else {
                    self.advance();
                    chars.push(ctrl_char(next) as char);
                }
            }
            proof {
                assert(chars@ =~= old(chars)@ + tr_escape(self.input@, delim, ch, old(self).pos as int).0);
            }
        } else if ch == 100 || ch == 111 || ch == 120 {
            let (base, max): (u32, usize) = if ch == 100 {
                (10, 3)
            } else if ch == 111 {
                (8, 3)
            } else {
                (16, 2)
            };
            let (n, _count) = self.read_digits(base, max);
            chars.push(byte_as_char_exec((n % 256) as u8));
        } else if ch == delim {
            chars.push(ch as char);
        } else {
            chars.push('\\');
            self.push_literal(ch, chars);
        }
        proof {
            assert(chars@ =~= old(chars)@ + tr_escape(self.input@, delim, ch, old(self).pos as int).0);
        }
    }

    pub(super) fn parse_translit_chars(&mut self, delim: u8) -> (r: Result<Vec<char>, String>)
        requires
            old(self).wf(),
        ensures
            final(self).keeps(old(self)),
            tr(old(self).input@, delim, old(self).pos as int, false) is Some <==> r is Ok,
            r matches Ok(v) ==> tr(old(self).input@, delim, old(self).pos as int, false)
                == Some((v@, final(self).pos as int)),
            r matches Err(e) ==> final(self).pos == final(self).input@.len()
                && e@ == final(self).err_spec("unterminated `y' command"@),
    {
        let ghost s = self.input@;
        let mut chars: Vec<char> = Vec::new();
        let mut escaped = false;
        proof { lemma_tr(s, delim, self.pos as int, false); }
        loop
            invariant
                self.keeps(old(self)),
                s == self.input@,
                prepend(chars@, tr(s, delim, self.pos as int, escaped)) == tr(s, delim, old(self).pos as int, false),
            decreases s.len() - self.pos,
        {
            let ghost p = self.pos as int;
            let ghost before = chars@;
            proof {
                lemma_tr(s, delim, p, escaped);
                if p < s.len() {
                    lemma_tr_escape(s, delim, s[p], p + 1);
                }
            }
            let ch = match self.advance() {
                Some(ch) => ch,
                None => {
                    return Err(self.err("unterminated `y' command"));
                },
            };
            if escaped {
                self.translit_escape(ch, delim, &mut chars);
                escaped = false;
                proof {
                    let x = tr_escape(s, delim, ch, p + 1);
                    match tr(s, delim, self.pos as int, false) {
                        Some(y) => { assert(before + (x.0 + y.0) =~= chars@ + y.0); },
                        None => {},
                    }
                }
            } else if ch == 92 {
                escaped = true;
            } else if ch == delim {
                assert(chars@ + Seq::<char>::empty() =~= chars@);
                return Ok(chars);
            } else {
                proof { lemma_literal(s, ch, p + 1); }
                self.push_literal(ch, &mut chars);
                proof {
                    let l = literal(s, ch, p + 1);
                    match tr(s, delim, self.pos as int, false) {
                        Some(y) => { assert(before + (l.0 + y.0) =~= chars@ + y.0); },
                        None => {},
                    }
                }
            }
        }
    }
}

} // verus!
