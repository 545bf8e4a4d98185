use vstd::prelude::*;
use crate::text::{chars_of, string_from_chars};

verus! {

// ---------------------------------------------------------------------------
// POSIX bracket expressions
// ---------------------------------------------------------------------------

/// The body of a bracket expression starting at `j`, as the regex crate
/// wants it: escape pairs are copied, a `[` that does not open a `[:class:]`
/// becomes `\[`, anything else is copied. Scanning stops at the first
/// unescaped `]` or at the end; the second component is where it stopped.
pub open spec fn fix_class_body(c: Seq<char>, posix: bool, j: int) -> (Seq<char>, int)
    decreases c.len() - j,
{
    if j < 0 || j >= c.len() || c[j] == ']' {
        (Seq::empty(), j)
    } else if c[j] == '\\' && j + 1 < c.len() {
        if posix && c[j + 1] != 'n' && c[j + 1] != 't' {
            // A literal backslash; the next character is scanned on its own.
            let r = fix_class_body(c, posix, j + 1);
            (seq!['\\', '\\'] + r.0, r.1)
        } else {
            let r = fix_class_body(c, posix, j + 2);
            (seq![c[j], c[j + 1]] + r.0, r.1)
        }
    } else if c[j] == '[' && !(j + 1 < c.len() && c[j + 1] == ':') {
        let r = fix_class_body(c, posix, j + 1);
        (seq!['\\', '['] + r.0, r.1)
    } else {
        let r = fix_class_body(c, posix, j + 1);
        (seq![c[j]] + r.0, r.1)
    }
}

/// Where a bracket expression opened at `i` starts its body: after the `[`,
/// an optional `^`, and an optional leading `]` (which POSIX reads as a
/// literal member of the class).
pub open spec fn class_start(c: Seq<char>, i: int) -> int {
    let j = if i + 1 < c.len() && c[i + 1] == '^' { i + 2 } else { i + 1 };
    if j < c.len() && c[j] == ']' { j + 1 } else { j }
}

/// The leading `]` of the class opened at `i` is present.
pub open spec fn has_leading_close(c: Seq<char>, i: int) -> bool {
    let j = if i + 1 < c.len() && c[i + 1] == '^' { i + 2 } else { i + 1 };
    j < c.len() && c[j] == ']'
}

/// The output for the bracket expression opened at `i`, and the index
/// after it. A leading literal `]` is moved to the end of the class as
/// `\]`; where the class is not negated and its content starts with `^`,
/// the `\]` stays first, so that the `^` does not become a negation.
pub open spec fn fix_class(c: Seq<char>, posix: bool, i: int) -> (Seq<char>, int) {
    let neg = i + 1 < c.len() && c[i + 1] == '^';
    let body = fix_class_body(c, posix, class_start(c, i));
    let open: Seq<char> = if neg { seq!['[', '^'] } else { seq!['['] };
    let front = has_leading_close(c, i) && !neg && body.0.len() > 0 && body.0[0] == '^';
    let lead_front: Seq<char> = if front { seq!['\\', ']'] } else { Seq::empty() };
    let lead_back: Seq<char> = if has_leading_close(c, i) && !front { seq!['\\', ']'] } else { Seq::empty() };
    let close: Seq<char> = if body.1 < c.len() { seq![']'] } else { Seq::empty() };
    let next = if body.1 < c.len() { body.1 + 1 } else { body.1 };
    (open + lead_front + body.0 + lead_back + close, next)
}

/// The rewriting of `c[i..]` that `fix_posix_char_class` performs.
pub open spec fn fix_from(c: Seq<char>, posix: bool, i: int) -> Seq<char>
    decreases c.len() - i,
{
    if i < 0 || i >= c.len() {
        Seq::empty()
    } else if c[i] == '[' {
        let r = fix_class(c, posix, i);
        if i < r.1 <= c.len() {
            r.0 + fix_from(c, posix, r.1)
        } else {
            r.0
        }
    } else if c[i] == '\\' && i + 1 < c.len() {
        seq![c[i], c[i + 1]] + fix_from(c, posix, i + 2)
    } else {
        seq![c[i]] + fix_from(c, posix, i + 1)
    }
}

proof fn lemma_fix_class_body_bounds(c: Seq<char>, posix: bool, j: int)
    requires
        0 <= j,
    ensures
        j <= fix_class_body(c, posix, j).1,
        j <= c.len() ==> fix_class_body(c, posix, j).1 <= c.len(),
        fix_class_body(c, posix, j).1 < c.len() ==> c[fix_class_body(c, posix, j).1] == ']',
    decreases c.len() - j,
{
    if j >= c.len() || c[j] == ']' {
    } else if c[j] == '\\' && j + 1 < c.len() {
        if posix && c[j + 1] != 'n' && c[j + 1] != 't' {
            lemma_fix_class_body_bounds(c, posix, j + 1);
        } else {
            lemma_fix_class_body_bounds(c, posix, j + 2);
        }
    } else {
        lemma_fix_class_body_bounds(c, posix, j + 1);
    }
}

/// Scans one bracket body; `out` gains `fix_class_body(c, posix, j).0`.
fn fix_class_body_exec(c: &Vec<char>, posix: bool, j: usize, out: &mut Vec<char>) -> (k: usize)
    requires
        j <= c.len(),
    ensures
        k as int == fix_class_body(c@, posix, j as int).1,
        final(out)@ == old(out)@ + fix_class_body(c@, posix, j as int).0,
{
    let mut i = j;
    let ghost start = old(out)@;
    proof { lemma_fix_class_body_bounds(c@, posix, j as int); }
    while i < c.len() && c[i] != ']'
        invariant
            j <= i <= c.len(),
            fix_class_body(c@, posix, i as int).1 == fix_class_body(c@, posix, j as int).1,
            out@ + fix_class_body(c@, posix, i as int).0 == start + fix_class_body(c@, posix, j as int).0,
        decreases c.len() - i,
    {
        let ghost before = out@;
        let ghost old_i = i as int;
        if c[i] == '\\' && i + 1 < c.len() {
            if posix && c[i + 1] != 'n' && c[i + 1] != 't' {
                out.push('\\');
                out.push('\\');
                i += 1;
            } else {
                out.push(c[i]);
                out.push(c[i + 1]);
                i += 2;
            }
        } else if c[i] == '[' && !(i + 1 < c.len() && c[i + 1] == ':') {
            out.push('\\');
            out.push('[');
            i += 1;
        } else {
            out.push(c[i]);
            i += 1;
        }
        assert(out@ + fix_class_body(c@, posix, i as int).0 =~= before + fix_class_body(c@, posix, old_i).0);
    }
    assert(out@ =~= out@ + fix_class_body(c@, posix, i as int).0);
    i
}

/// Rewrites the bracket expression opened at `i`; `out` gains
/// `fix_class(c, posix, i).0` and the index after it is returned.
#[verifier::rlimit(40)]
fn fix_class_exec(chars: &Vec<char>, posix: bool, i0: usize, result: &mut Vec<char>) -> (k: usize)
    requires
        i0 < chars.len(),
        chars@[i0 as int] == '[',
    ensures
        k as int == fix_class(chars@, posix, i0 as int).1,
        i0 < k <= chars.len(),
        final(result)@ == old(result)@ + fix_class(chars@, posix, i0 as int).0,
{
    let ghost c = chars@;
    let ghost before = result@;
    let mut i = i0;
    result.push('[');
    i += 1;
    if i < chars.len() && chars[i] == '^' {
        result.push('^');
        i += 1;
    }
    let neg = i0 + 1 < chars.len() && chars[i0 + 1] == '^';
    let mut lead_close = false;
    if i < chars.len() && chars[i] == ']' {
        lead_close = true;
        i += 1;
    }
    assert(i as int == class_start(c, i0 as int));
    assert(lead_close == has_leading_close(c, i0 as int));
    let mut body: Vec<char> = Vec::new();
    let k = fix_class_body_exec(chars, posix, i, &mut body);
    assert(body@ =~= fix_class_body(c, posix, i as int).0);
    proof { lemma_fix_class_body_bounds(c, posix, i as int); }
    let front = lead_close && !neg && body.len() > 0 && body[0] == '^';
    if front {
        result.push('\\');
        result.push(']');
    }
    result.append(&mut body);
    if lead_close && !front {
        result.push('\\');
        result.push(']');
    }
    i = k;
    if i < chars.len() {
        result.push(']');
        i += 1;
    }
    assert(result@ =~= before + fix_class(c, posix, i0 as int).0);
    i
}

fn fix_posix_char_class_impl(pattern: &str, posix: bool) -> (s: String)
    ensures
        s@ == fix_from(pattern@, posix, 0),
{
    let chars = chars_of(pattern);
    let ghost c = chars@;
    let mut result: Vec<char> = Vec::new();
    let mut i: usize = 0;
    while i < chars.len()
        invariant
            c == chars@,
            i <= chars.len(),
            result@ + fix_from(c, posix, i as int) == fix_from(c, posix, 0),
        decreases chars.len() - i,
    {
        let ghost before = result@;
        if chars[i] == '[' {
            i = fix_class_exec(&chars, posix, i, &mut result);
        } else if chars[i] == '\\' && i + 1 < chars.len() {
            result.push(chars[i]);
            result.push(chars[i + 1]);
            i += 2;
        } else {
            result.push(chars[i]);
            i += 1;
        }
        assert(result@ + fix_from(c, posix, i as int) =~= before + (result@.subrange(before.len() as int, result@.len() as int) + fix_from(c, posix, i as int)));
    }
    assert(result@ =~= result@ + fix_from(c, posix, i as int));
    string_from_chars(result.as_slice())
}

/// Fix POSIX character class patterns that Rust's regex crate can't handle.
/// In POSIX, `[]...]` means a class containing `]` — the `]` right after `[` or `[^`
/// is a literal. Rust regex doesn't support this, so we transform it.
pub fn fix_posix_char_class(pattern: &str) -> (s: String)
    ensures
        s@ == fix_from(pattern@, false, 0),
{
    fix_posix_char_class_impl(pattern, false)
}

/// The `--posix` variant of `fix_posix_char_class`: inside a bracket
/// expression a backslash is a literal character (only `\n` and `\t` keep
/// their meaning as newline and tab).
pub fn fix_posix_char_class_posix(pattern: &str) -> (s: String)
    ensures
        s@ == fix_from(pattern@, true, 0),
{
    fix_posix_char_class_impl(pattern, true)
}

// ---------------------------------------------------------------------------
// BRE to ERE
// ---------------------------------------------------------------------------

/// A POSIX class name inside a bracket, after its `[:`: copied up to and
/// including the closing `:]` (or to the end of the pattern).
pub open spec fn bre_class_name(c: Seq<char>, j: int) -> (Seq<char>, int)
    decreases c.len() - j,
{
    if j < 0 || j >= c.len() {
        (Seq::empty(), j)
    } else if c[j] == ':' && j + 1 < c.len() && c[j + 1] == ']' {
        (seq![':', ']'], j + 2)
    } else {
        let r = bre_class_name(c, j + 1);
        (seq![c[j]] + r.0, r.1)
    }
}

/// A character that the regex crate reads as an escape inside a bracket.
pub open spec fn class_escape_known(ch: char) -> bool {
    ch == 'd' || ch == 'D' || ch == 's' || ch == 'S' || ch == 'w' || ch == 'W' || ch == 't'
        || ch == 'n' || ch == 'r' || ch == 'f' || ch == 'v' || ch == 'p' || ch == '0'
        || ch == '\\' || ch == ']'
}

/// The body of a bracket expression in a BRE, from `j` up to its closing
/// `]` (not included): class names are copied, escapes the regex crate
/// knows are kept, any other backslash is made a literal one.
pub open spec fn bre_class_body(c: Seq<char>, j: int) -> (Seq<char>, int)
    decreases c.len() - j, 0int,
{
    if j < 0 || j >= c.len() || c[j] == ']' {
        (Seq::empty(), j)
    } else if c[j] == '[' && j + 1 < c.len() && c[j + 1] == ':' {
        let n = bre_class_name(c, j + 2);
        if j < n.1 <= c.len() {
            let r = bre_class_body(c, n.1);
            (seq!['[', ':'] + n.0 + r.0, r.1)
        } else {
            (seq!['[', ':'] + n.0, n.1)
        }
    } else if c[j] == '\\' && j + 1 < c.len() {
        let r = bre_class_body(c, j + 2);
        if class_escape_known(c[j + 1]) {
            (seq!['\\', c[j + 1]] + r.0, r.1)
        } else {
            (seq!['\\', '\\', c[j + 1]] + r.0, r.1)
        }
    } else if c[j] == '\\' {
        let r = bre_class_body(c, j + 1);
        (seq!['\\', '\\'] + r.0, r.1)
    } else {
        let r = bre_class_body(c, j + 1);
        (seq![c[j]] + r.0, r.1)
    }
}

/// A whole bracket expression opened at `i`, and the index after it.
pub open spec fn bre_class(c: Seq<char>, i: int) -> (Seq<char>, int) {
    let neg = i + 1 < c.len() && c[i + 1] == '^';
    let open: Seq<char> = if neg { seq!['[', '^'] } else { seq!['['] };
    let lead: Seq<char> = if has_leading_close(c, i) { seq![']'] } else { Seq::empty() };
    let body = bre_class_body(c, class_start(c, i));
    let close: Seq<char> = if body.1 < c.len() { seq![']'] } else { Seq::empty() };
    let next = if body.1 < c.len() { body.1 + 1 } else { body.1 };
    (open + lead + body.0 + close, next)
}

/// What `\ch` outside a bracket becomes in ERE syntax.
pub open spec fn bre_escape(ch: char) -> Seq<char> {
    if ch == '(' || ch == ')' || ch == '{' || ch == '}' || ch == '|' || ch == '+' || ch == '?' {
        seq![ch]
    } else if ch == 'n' {
        seq!['\n']
    } else if ch == 't' {
        seq!['\t']
    } else {
        seq!['\\', ch]
    }
}

/// Characters that are special in an ERE but literal in a BRE.
pub open spec fn ere_only_special(ch: char) -> bool {
    ch == '(' || ch == ')' || ch == '{' || ch == '}' || ch == '|' || ch == '+' || ch == '?'
}

/// What the character at `i` outside a bracket and not escaped becomes:
/// ERE-only metacharacters are escaped, and `^` (`$`) is an anchor only as
/// the first (last) character of the pattern, a literal elsewhere.
pub open spec fn bre_plain(c: Seq<char>, i: int) -> Seq<char> {
    if ere_only_special(c[i]) {
        seq!['\\', c[i]]
    } else if c[i] == '^' && i > 0 {
        seq!['\\', '^']
    } else if c[i] == '$' && i + 1 < c.len() {
        seq!['\\', '$']
    } else {
        seq![c[i]]
    }
}

/// The ERE that `bre_to_ere` produces for `c[i..]`.
pub open spec fn bre_from(c: Seq<char>, i: int) -> Seq<char>
    decreases c.len() - i,
{
    if i < 0 || i >= c.len() {
        Seq::empty()
    } else if c[i] == '[' {
        let r = bre_class(c, i);
        if i < r.1 <= c.len() {
            r.0 + bre_from(c, r.1)
        } else {
            r.0
        }
    } else if c[i] == '\\' && i + 1 < c.len() {
        bre_escape(c[i + 1]) + bre_from(c, i + 2)
    } else {
        bre_plain(c, i) + bre_from(c, i + 1)
    }
}

proof fn lemma_bre_class_name_bounds(c: Seq<char>, j: int)
    requires
        0 <= j <= c.len(),
    ensures
        j <= bre_class_name(c, j).1 <= c.len(),
        j < c.len() ==> j < bre_class_name(c, j).1,
    decreases c.len() - j,
{
    if j < c.len() && !(c[j] == ':' && j + 1 < c.len() && c[j + 1] == ']') {
        lemma_bre_class_name_bounds(c, j + 1);
    }
}

proof fn lemma_bre_class_body_bounds(c: Seq<char>, j: int)
    requires
        0 <= j <= c.len(),
    ensures
        j <= bre_class_body(c, j).1 <= c.len(),
        bre_class_body(c, j).1 < c.len() ==> c[bre_class_body(c, j).1] == ']',
    decreases c.len() - j,
{
    if j >= c.len() || c[j] == ']' {
    } else if c[j] == '[' && j + 1 < c.len() && c[j + 1] == ':' {
        lemma_bre_class_name_bounds(c, j + 2);
        let n = bre_class_name(c, j + 2);
        if j < n.1 <= c.len() {
            lemma_bre_class_body_bounds(c, n.1);
        }
        if n.1 == c.len() {
        } else {
            // the name scan ended on `:]`, so it moved past j + 2
            assert(n.1 > j);
        }
    } else if c[j] == '\\' && j + 1 < c.len() {
        lemma_bre_class_body_bounds(c, j + 2);
    } else {
        lemma_bre_class_body_bounds(c, j + 1);
    }
}

fn bre_class_name_exec(c: &Vec<char>, j: usize, out: &mut Vec<char>) -> (k: usize)
    requires
        j <= c.len(),
    ensures
        k as int == bre_class_name(c@, j as int).1,
        final(out)@ == old(out)@ + bre_class_name(c@, j as int).0,
{
    let ghost start = old(out)@;
    let mut i = j;
    proof { lemma_bre_class_name_bounds(c@, j as int); }
    while i < c.len() && !(c[i] == ':' && i + 1 < c.len() && c[i + 1] == ']')
        invariant
            j <= i <= c.len(),
            bre_class_name(c@, i as int).1 == bre_class_name(c@, j as int).1,
            out@ + bre_class_name(c@, i as int).0 == start + bre_class_name(c@, j as int).0,
        decreases c.len() - i,
    {
        let ghost before = out@;
        let ghost old_i = i as int;
        out.push(c[i]);
        i += 1;
        assert(out@ + bre_class_name(c@, i as int).0 =~= before + bre_class_name(c@, old_i).0);
    }
    if i < c.len() {
        let ghost before = out@;
        out.push(':');
        out.push(']');
        assert(out@ =~= before + bre_class_name(c@, i as int).0);
        i + 2
    } else {
        assert(out@ =~= out@ + bre_class_name(c@, i as int).0);
        i
    }
}

fn bre_class_body_exec(c: &Vec<char>, j: usize, out: &mut Vec<char>) -> (k: usize)
    requires
        j <= c.len(),
    ensures
        k as int == bre_class_body(c@, j as int).1,
        final(out)@ == old(out)@ + bre_class_body(c@, j as int).0,
{
    let ghost start = old(out)@;
    let mut i = j;
    proof { lemma_bre_class_body_bounds(c@, j as int); }
    while i < c.len() && c[i] != ']'
        invariant
            j <= i <= c.len(),
            bre_class_body(c@, i as int).1 == bre_class_body(c@, j as int).1,
            out@ + bre_class_body(c@, i as int).0 == start + bre_class_body(c@, j as int).0,
        decreases c.len() - i,
    {
        let ghost before = out@;
        let ghost old_i = i as int;
        if c[i] == '[' && i + 1 < c.len() && c[i + 1] == ':' {
            out.push('[');
            out.push(':');
            proof { lemma_bre_class_name_bounds(c@, i + 2); }
            let k = bre_class_name_exec(c, i + 2, out);
            i = k;
        } else if c[i] == '\\' && i + 1 < c.len() {
            let next = c[i + 1];
            if next == 'd' || next == 'D' || next == 's' || next == 'S' || next == 'w'
                || next == 'W' || next == 't' || next == 'n' || next == 'r' || next == 'f'
                || next == 'v' || next == 'p' || next == '0' || next == '\\' || next == ']' {
                out.push('\\');
                out.push(next);
            } else {
                out.push('\\');
                out.push('\\');
                out.push(next);
            }
            i += 2;
        } else if c[i] == '\\' {
            out.push('\\');
            out.push('\\');
            i += 1;
        } else {
            out.push(c[i]);
            i += 1;
        }
        assert(out@ + bre_class_body(c@, i as int).0 =~= before + bre_class_body(c@, old_i).0);
    }
    assert(out@ =~= out@ + bre_class_body(c@, i as int).0);
    i
}

#[verifier::rlimit(40)]
fn bre_class_exec(chars: &Vec<char>, i0: usize, result: &mut Vec<char>) -> (k: usize)
    requires
        i0 < chars.len(),
        chars@[i0 as int] == '[',
    ensures
        k as int == bre_class(chars@, i0 as int).1,
        i0 < k <= chars.len(),
        final(result)@ == old(result)@ + bre_class(chars@, i0 as int).0,
{
    let ghost c = chars@;
    let ghost before = result@;
    let mut i = i0;
    result.push('[');
    i += 1;
    if i < chars.len() && chars[i] == '^' {
        result.push('^');
        i += 1;
    }
    if i < chars.len() && chars[i] == ']' {
        result.push(']');
        i += 1;
    }
    assert(i as int == class_start(c, i0 as int));
    let k = bre_class_body_exec(chars, i, result);
    proof { lemma_bre_class_body_bounds(c, i as int); }
    i = k;
    if i < chars.len() {
        result.push(']');
        i += 1;
    }
    assert(result@ =~= before + bre_class(c, i0 as int).0);
    i
}

/// Translates a POSIX basic regular expression into the extended syntax
/// the regex crate reads.
pub fn bre_to_ere(bre: &str) -> (s: String)
    ensures
        s@ == bre_from(bre@, 0),
{
    let chars = chars_of(bre);
    let ghost c = chars@;
    let mut result: Vec<char> = Vec::new();
    let mut i: usize = 0;
    while i < chars.len()
        invariant
            c == chars@,
            i <= chars.len(),
            result@ + bre_from(c, i as int) == bre_from(c, 0),
        decreases chars.len() - i,
    {
        let ghost before = result@;
        let ghost old_i = i as int;
        let ch = chars[i];
        if ch == '[' {
            i = bre_class_exec(&chars, i, &mut result);
        } else if ch == '\\' && i + 1 < chars.len() {
            let next = chars[i + 1];
            if next == '(' || next == ')' || next == '{' || next == '}' || next == '|'
                || next == '+' || next == '?' {
                result.push(next);
            } else if next == 'n' {
                result.push('\n');
            } else if next == 't' {
                result.push('\t');
            } else {
                result.push('\\');
                result.push(next);
            }
            i += 2;
        } else {
            if ch == '(' || ch == ')' || ch == '{' || ch == '}' || ch == '|' || ch == '+'
                || ch == '?' {
                result.push('\\');
                result.push(ch);
            } else if ch == '^' && i > 0 {
                result.push('\\');
                result.push('^');
            } else if ch == '$' && i + 1 < chars.len() {
                result.push('\\');
                result.push('$');
            } else {
                result.push(ch);
            }
            i += 1;
        }
        assert(result@ + bre_from(c, i as int) =~= before + bre_from(c, old_i));
    }
    assert(result@ =~= result@ + bre_from(c, i as int));
    string_from_chars(result.as_slice())
}

} // verus!
