use vstd::prelude::*;
use vstd::string::StringSliceAdditionalSpecFns;
use vstd::utf8::{decode_utf8, encode_utf8, valid_utf8};
use crate::sed_regex::{span_end, span_start};
use crate::text::{byte_as_char_exec, chars_of, decimal, push_decimal, raw_byte_of, raw_char, string_from_chars, utf8_decode};
use crate::util::{escape_string_tokens, escape_token};

verus! {

/// The bytes that stand for the character `c` in the output: the byte
/// itself for a raw byte (one from a numeric escape or from a script that
/// is not UTF-8, see `raw_char`), the UTF-8 encoding of any other
/// character.
pub open spec fn char_bytes(c: char) -> Seq<u8> {
    match raw_byte_of(c) {
        Some(b) => seq![b],
        None => encode_utf8(seq![c]),
    }
}

/// The bytes that stand for the text `t` in the output.
pub open spec fn text_bytes(t: Seq<char>) -> Seq<u8>
    decreases t.len(),
{
    if t.len() == 0 {
        Seq::empty()
    } else {
        text_bytes(t.drop_last()) + char_bytes(t.last())
    }
}

/// Appends the bytes of `c` to `out`.
pub fn push_char_bytes(out: &mut Vec<u8>, c: char)
    ensures
        final(out)@ == old(out)@ + char_bytes(c),
{
    let v = c as u32;
    if v >= 0x10FF00 {
        out.push((v - 0x10FF00) as u8);
    } else {
        let mut one: Vec<char> = Vec::new();
        one.push(c);
        let s = string_from_chars(one.as_slice());
        let b = s.as_str().as_bytes();
        assert(one@ =~= seq![c]);
        let mut i: usize = 0;
        let ghost start = out@;
        while i < b.len()
            invariant
                i <= b.len(),
                b@ == encode_utf8(seq![c]),
                out@ == start + b@.take(i as int),
                start == old(out)@,
            decreases b.len() - i,
        {
            out.push(b[i]);
            i += 1;
            assert(b@.take(i as int) =~= b@.take(i - 1).push(b@[i - 1]));
        }
        assert(b@.take(b.len() as int) =~= b@);
    }
}

/// The bytes of the text `t`.
pub fn text_to_bytes(t: &str) -> (b: Vec<u8>)
    ensures
        b@ == text_bytes(t@),
{
    let chars = chars_of(t);
    let mut out: Vec<u8> = Vec::new();
    let mut i: usize = 0;
    while i < chars.len()
        invariant
            i <= chars.len(),
            chars@ == t@,
            out@ == text_bytes(chars@.take(i as int)),
        decreases chars.len() - i,
    {
        assert(chars@.take(i + 1).drop_last() =~= chars@.take(i as int));
        push_char_bytes(&mut out, chars[i]);
        i += 1;
    }
    assert(chars@.take(chars.len() as int) =~= chars@);
    out
}

/// `t` followed by a newline unless it already ends with one.
pub open spec fn with_newline(t: Seq<u8>) -> Seq<u8> {
    if t.len() > 0 && t.last() == 10 {
        t
    } else {
        t.push(10)
    }
}

pub fn push_with_newline(out: &mut Vec<u8>, t: &Vec<u8>)
    ensures
        final(out)@ == old(out)@ + with_newline(t@),
{
    let mut c = t.clone();
    let ends = c.len() > 0 && c[c.len() - 1] == 10;
    out.append(&mut c);
    if !ends {
        out.push(10);
    }
    assert(final(out)@ =~= old(out)@ + with_newline(t@));
}

/// The index of the first newline of `s`, or its length.
pub open spec fn newline_index(s: Seq<u8>, i: int) -> int
    decreases s.len() - i,
{
    if i < 0 || i >= s.len() || s[i] == 10 {
        i
    } else {
        newline_index(s, i + 1)
    }
}

proof fn lemma_newline_index(s: Seq<u8>, i: int)
    requires
        0 <= i <= s.len(),
    ensures
        i <= newline_index(s, i) <= s.len(),
        newline_index(s, i) < s.len() ==> s[newline_index(s, i)] == 10,
    decreases s.len() - i,
{
    if i < s.len() && s[i] != 10 {
        lemma_newline_index(s, i + 1);
    }
}

/// Where the first newline of `s` stands (or its length).
pub fn first_newline(s: &Vec<u8>) -> (k: usize)
    ensures
        k == newline_index(s@, 0),
        k <= s.len(),
        k < s.len() ==> s@[k as int] == 10,
{
    proof { lemma_newline_index(s@, 0); }
    let mut i: usize = 0;
    while i < s.len() && s[i] != 10
        invariant
            i <= s.len(),
            newline_index(s@, i as int) == newline_index(s@, 0),
        decreases s.len() - i,
    {
        i += 1;
    }
    i
}

/// The bytes `s[lo..hi]`.
pub fn slice_of(s: &Vec<u8>, lo: usize, hi: usize) -> (r: Vec<u8>)
    requires
        lo <= hi <= s.len(),
    ensures
        r@ == s@.subrange(lo as int, hi as int),
{
    let mut r: Vec<u8> = Vec::new();
    let mut i = lo;
    while i < hi
        invariant
            lo <= i <= hi <= s.len(),
            r@ == s@.subrange(lo as int, i as int),
        decreases hi - i,
    {
        r.push(s[i]);
        i += 1;
        assert(r@ =~= s@.subrange(lo as int, i as int));
    }
    r
}

/// Appends `s[lo..hi]` to `out`.
pub fn push_slice(out: &mut Vec<u8>, s: &Vec<u8>, lo: usize, hi: usize)
    requires
        lo <= hi <= s.len(),
    ensures
        final(out)@ == old(out)@ + s@.subrange(lo as int, hi as int),
{
    let mut piece = slice_of(s, lo, hi);
    out.append(&mut piece);
}

// ---------------------------------------------------------------------
// Case conversion in replacements
// ---------------------------------------------------------------------

/// ASCII upper case of a byte.
pub open spec fn to_upper(b: u8) -> u8 {
    if 97 <= b && b <= 122 { (b - 32) as u8 } else { b }
}

/// ASCII lower case of a byte.
pub open spec fn to_lower(b: u8) -> u8 {
    if 65 <= b && b <= 90 { (b + 32) as u8 } else { b }
}

/// What `char::to_uppercase` yields for `c` (Unicode case mapping).
pub uninterp spec fn unicode_upper(c: char) -> Seq<char>;

/// What `char::to_lowercase` yields for `c` (Unicode case mapping).
pub uninterp spec fn unicode_lower(c: char) -> Seq<char>;

/// `char::to_uppercase`, its characters collected.
#[verifier::external_body]
fn char_to_upper(c: char) -> (r: Vec<char>)
    ensures
        r@ == unicode_upper(c),
{
    c.to_uppercase().collect()
}

/// `char::to_lowercase`, its characters collected.
#[verifier::external_body]
fn char_to_lower(c: char) -> (r: Vec<char>)
    ensures
        r@ == unicode_lower(c),
{
    c.to_lowercase().collect()
}

/// The case modes `mode` (`U`, `L` or none) and `next` (`u`, `l` or
/// none, which takes precedence) ask for upper case.
pub open spec fn wants_upper(mode: u8, next: u8) -> bool {
    next == 117 || (next != 108 && mode == 85)
}

/// The case modes ask for lower case.
pub open spec fn wants_lower(mode: u8, next: u8) -> bool {
    !wants_upper(mode, next) && (next == 108 || mode == 76)
}

/// A character `c` read from the bytes `orig` (as `unit_at` reads them)
/// under the case modes: a character read from UTF-8 takes its Unicode
/// case mapping, written in UTF-8; an ASCII letter its ASCII case; a byte
/// that is not UTF-8 stays as it is.
pub open spec fn case_unit(c: char, orig: Seq<u8>, mode: u8, next: u8) -> Seq<u8> {
    if wants_upper(mode, next) {
        if orig.len() > 1 { encode_utf8(unicode_upper(c)) } else if orig[0] < 0x80 { seq![to_upper(orig[0])] } else { orig }
    } else if wants_lower(mode, next) {
        if orig.len() > 1 { encode_utf8(unicode_lower(c)) } else if orig[0] < 0x80 { seq![to_lower(orig[0])] } else { orig }
    } else {
        orig
    }
}

/// The bytes `s` from `i` on, inserted under the case modes, character by
/// character; the one-character mode applies to the first character only.
pub open spec fn cased_from(s: Seq<u8>, i: int, mode: u8, next: u8) -> Seq<u8>
    decreases s.len() - i,
{
    if i < 0 || i >= s.len() {
        Seq::empty()
    } else {
        let u = unit_at(s, i);
        let n = if i + u.1 <= s.len() { u.1 } else { 1 };
        case_unit(u.0, s.subrange(i, i + n), mode, next) + cased_from(s, i + n, mode, 0)
    }
}

/// The bytes `s` inserted under the case modes.
pub open spec fn cased(s: Seq<u8>, mode: u8, next: u8) -> Seq<u8> {
    cased_from(s, 0, mode, next)
}

/// With no case mode in force, text is inserted as it is.
pub proof fn lemma_cased_plain(s: Seq<u8>)
    ensures
        cased(s, 0, 0) == s,
{
    lemma_cased_plain_from(s, 0);
    assert(s.subrange(0, s.len() as int) =~= s);
}

proof fn lemma_cased_plain_from(s: Seq<u8>, i: int)
    requires
        0 <= i <= s.len(),
    ensures
        cased_from(s, i, 0, 0) == s.subrange(i, s.len() as int),
    decreases s.len() - i,
{
    if i < s.len() {
        lemma_unit_at(s, i);
        let n = unit_at(s, i).1;
        lemma_cased_plain_from(s, i + n);
        assert(s.subrange(i, i + n) + s.subrange(i + n, s.len() as int) =~= s.subrange(i, s.len() as int));
    } else {
        assert(s.subrange(i, s.len() as int) =~= Seq::<u8>::empty());
    }
}

/// The one-character mode left after inserting `s`.
pub open spec fn next_after(s: Seq<u8>, next: u8) -> u8 {
    if s.len() == 0 { next } else { 0 }
}

/// Appends the UTF-8 encoding of the characters `v` to `out`.
fn push_utf8_chars(out: &mut Vec<u8>, v: &Vec<char>)
    ensures
        final(out)@ == old(out)@ + encode_utf8(v@),
{
    let s = string_from_chars(v.as_slice());
    let b = s.as_str().as_bytes();
    let mut i: usize = 0;
    let ghost start = out@;
    while i < b.len()
        invariant
            i <= b.len(),
            b@ == encode_utf8(v@),
            out@ == start + b@.take(i as int),
            start == old(out)@,
        decreases b.len() - i,
    {
        out.push(b[i]);
        i += 1;
        assert(b@.take(i as int) =~= b@.take(i - 1).push(b@[i - 1]));
    }
    assert(b@.take(b.len() as int) =~= b@);
}

/// Appends `s[lo..hi]` under the case modes; returns the one-character
/// mode left.
fn push_cased(out: &mut Vec<u8>, s: &Vec<u8>, lo: usize, hi: usize, mode: u8, next: u8) -> (n: u8)
    requires
        lo <= hi <= s.len(),
    ensures
        final(out)@ == old(out)@ + cased(s@.subrange(lo as int, hi as int), mode, next),
        n == next_after(s@.subrange(lo as int, hi as int), next),
{
    let p = slice_of(s, lo, hi);
    let mut i: usize = 0;
    let mut nx = next;
    let ghost start = out@;
    while i < p.len()
        invariant
            i <= p.len(),
            p@ == s@.subrange(lo as int, hi as int),
            start == old(out)@,
            out@ + cased_from(p@, i as int, mode, nx) == start + cased(p@, mode, next),
            nx == if i == 0 { next } else { 0 },
        decreases p.len() - i,
    {
        proof { lemma_unit_at(p@, i as int); }
        let ghost before = out@;
        let (c, n) = read_unit(&p, i);
        let up = nx == 117 || (nx != 108 && mode == 85);
        let low = !up && (nx == 108 || mode == 76);
        if up {
            if n > 1 {
                let v = char_to_upper(c);
                push_utf8_chars(out, &v);
            } else if p[i] < 0x80 {
                let b = p[i];
                out.push(if 97 <= b && b <= 122 { b - 32 } else { b });
            } else {
                out.push(p[i]);
            }
        } else if low {
            if n > 1 {
                let v = char_to_lower(c);
                push_utf8_chars(out, &v);
            } else if p[i] < 0x80 {
                let b = p[i];
                out.push(if 65 <= b && b <= 90 { b + 32 } else { b });
            } else {
                out.push(p[i]);
            }
        } else {
            push_slice(out, &p, i, i + n);
        }
        let ghost piece = case_unit(c, p@.subrange(i as int, i + n), mode, nx);
        proof {
            if n == 1 {
                assert(p@.subrange(i as int, i + n) =~= seq![p@[i as int]]);
            }
        }
        assert(out@ == before + piece);
        assert(cased_from(p@, i as int, mode, nx) == piece + cased_from(p@, i + n, mode, 0));
        assert(before + (piece + cased_from(p@, i + n, mode, 0)) =~= out@ + cased_from(p@, i + n, mode, 0));
        i += n;
        nx = 0;
    }
    assert(out@ =~= start + cased(p@, mode, next));
    if p.len() == 0 { next } else { 0 }
}

// ---------------------------------------------------------------------
// Replacement text
// ---------------------------------------------------------------------

/// The text of group `g` of a match, empty where the group did not take
/// part (or does not exist).
pub open spec fn group_text(text: Seq<u8>, m: Seq<Option<(usize, usize)>>, g: int) -> Seq<u8> {
    if 0 <= g < m.len() && m[g] is Some {
        text.subrange(span_start(m[g]), span_end(m[g]))
    } else {
        Seq::empty()
    }
}

/// The spans of `m` lie inside a text of length `len`.
pub open spec fn spans_inside(m: Seq<Option<(usize, usize)>>, len: nat) -> bool {
    forall|g: int| 0 <= g < m.len() && (#[trigger] m[g]) is Some ==> span_start(m[g]) <= span_end(m[g]) && span_end(m[g]) <= len
}

/// The bytes that the replacement `r` produces from position `i` on, for
/// the match `m` in `text`, with case modes `mode` and `next` in force.
/// `&` and `\0` insert the whole match, `\1`..`\9` a group, `\n` a newline;
/// `\U`, `\L`, `\u`, `\l`, `\E` set the case modes; any other escaped
/// character stands for itself.
pub open spec fn repl_from(r: Seq<char>, m: Seq<Option<(usize, usize)>>, text: Seq<u8>, i: int, mode: u8, next: u8) -> Seq<u8>
    decreases r.len() - i,
{
    if i < 0 || i >= r.len() {
        Seq::empty()
    } else if r[i] == '&' {
        let g = group_text(text, m, 0);
        cased(g, mode, next) + repl_from(r, m, text, i + 1, mode, next_after(g, next))
    } else if r[i] == '\\' && i + 1 < r.len() {
        let d = r[i + 1];
        if '0' <= d && d <= '9' {
            let g = group_text(text, m, d as int - 48);
            cased(g, mode, next) + repl_from(r, m, text, i + 2, mode, next_after(g, next))
        } else if d == 'n' {
            seq![10u8] + repl_from(r, m, text, i + 2, mode, next)
        } else if d == 'U' {
            repl_from(r, m, text, i + 2, 85, 0)
        } else if d == 'L' {
            repl_from(r, m, text, i + 2, 76, 0)
        } else if d == 'u' {
            repl_from(r, m, text, i + 2, mode, 117)
        } else if d == 'l' {
            repl_from(r, m, text, i + 2, mode, 108)
        } else if d == 'E' {
            repl_from(r, m, text, i + 2, 0, 0)
        } else {
            let g = char_bytes(d);
            cased(g, mode, next) + repl_from(r, m, text, i + 2, mode, next_after(g, next))
        }
    } else {
        let g = char_bytes(r[i]);
        cased(g, mode, next) + repl_from(r, m, text, i + 1, mode, next_after(g, next))
    }
}

/// The bytes that the replacement `r` produces for the match `m` in `text`.
pub open spec fn replacement(r: Seq<char>, m: Seq<Option<(usize, usize)>>, text: Seq<u8>) -> Seq<u8> {
    repl_from(r, m, text, 0, 0, 0)
}

/// Appends the text of group `g` of `m` under the case modes.
fn push_group(out: &mut Vec<u8>, text: &Vec<u8>, m: &Vec<Option<(usize, usize)>>, g: usize, mode: u8, next: u8) -> (n: u8)
    requires
        spans_inside(m@, text@.len()),
    ensures
        final(out)@ == old(out)@ + cased(group_text(text@, m@, g as int), mode, next),
        n == next_after(group_text(text@, m@, g as int), next),
{
    if g < m.len() {
        match m[g] {
            Some((s, e)) => {
                assert(m@[g as int] is Some);
                push_cased(out, text, s, e, mode, next)
            },
            None => {
                assert(cased(Seq::<u8>::empty(), mode, next) =~= Seq::<u8>::empty());
                assert(out@ =~= old(out)@ + Seq::<u8>::empty());
                next
            },
        }
    } else {
        assert(cased(Seq::<u8>::empty(), mode, next) =~= Seq::<u8>::empty());
        assert(out@ =~= old(out)@ + Seq::<u8>::empty());
        next
    }
}

/// Appends the bytes of `c` under the case modes.
fn push_char_cased(out: &mut Vec<u8>, c: char, mode: u8, next: u8) -> (n: u8)
    ensures
        final(out)@ == old(out)@ + cased(char_bytes(c), mode, next),
        n == next_after(char_bytes(c), next),
{
    let mut b: Vec<u8> = Vec::new();
    push_char_bytes(&mut b, c);
    assert(b@ =~= char_bytes(c));
    let n = push_cased(out, &b, 0, b.len(), mode, next);
    assert(b@.subrange(0, b@.len() as int) =~= b@);
    n
}

/// Build the replacement string, handling \U, \L, \u, \l, \E case conversion
pub fn build_replacement(text: &Vec<u8>, m: &Vec<Option<(usize, usize)>>, replacement_text: &Vec<char>) -> (out: Vec<u8>)
    requires
        spans_inside(m@, text@.len()),
    ensures
        out@ == replacement(replacement_text@, m@, text@),
{
    let r = replacement_text;
    let mut out: Vec<u8> = Vec::new();
    let mut i: usize = 0;
    let mut mode: u8 = 0;
    let mut next: u8 = 0;
    while i < r.len()
        invariant
            i <= r.len() + 1,
            spans_inside(m@, text@.len()),
            out@ + repl_from(r@, m@, text@, i as int, mode, next) == replacement(r@, m@, text@),
        decreases r.len() + 1 - i,
    {
        let ghost before = out@;
        let c = r[i];
        if c == '&' {
            next = push_group(&mut out, text, m, 0, mode, next);
            i += 1;
        } else if c == '\\' && i + 1 < r.len() {
            let d = r[i + 1];
            if '0' <= d && d <= '9' {
                let g = (d as u32 - 48) as usize;
                next = push_group(&mut out, text, m, g, mode, next);
            } else if d == 'n' {
                out.push(10);
            } else if d == 'U' {
                mode = 85;
                next = 0;
            } else if d == 'L' {
                mode = 76;
                next = 0;
            } else if d == 'u' {
                next = 117;
            } else if d == 'l' {
                next = 108;
            } else if d == 'E' {
                mode = 0;
                next = 0;
            } else {
                next = push_char_cased(&mut out, d, mode, next);
            }
            i += 2;
        } else {
            next = push_char_cased(&mut out, c, mode, next);
            i += 1;
        }
        assert(out@ + repl_from(r@, m@, text@, i as int, mode, next) =~= replacement(r@, m@, text@));
    }
    assert(out@ + repl_from(r@, m@, text@, i as int, mode, next) == out@ + Seq::<u8>::empty());
    assert(out@ =~= out@ + Seq::<u8>::empty());
    out
}

// ---------------------------------------------------------------------
// Substitution
// ---------------------------------------------------------------------

/// Where match `k` starts and ends.
pub open spec fn match_start(caps: Seq<Seq<Option<(usize, usize)>>>, k: int) -> int {
    span_start(caps[k][0])
}

pub open spec fn match_end(caps: Seq<Seq<Option<(usize, usize)>>>, k: int) -> int {
    span_end(caps[k][0])
}

/// The matches `caps` of a regex on a text of length `len` are well
/// formed: each has its whole match, its spans lie inside the text, and
/// the matches come in order without overlapping.
pub open spec fn matches_ordered(caps: Seq<Seq<Option<(usize, usize)>>>, len: nat) -> bool {
    &&& forall|k: int| 0 <= k < caps.len() ==> (#[trigger] caps[k]).len() >= 1 && caps[k][0] is Some
    &&& forall|k: int| 0 <= k < caps.len() ==> spans_inside(#[trigger] caps[k], len)
    &&& forall|k: int| 0 <= k && k + 1 < caps.len() ==> match_end(caps, k) <= #[trigger] match_start(caps, k + 1)
}

/// `text` from `pos` on with the matches from `k` on replaced.
pub open spec fn replace_from(text: Seq<u8>, caps: Seq<Seq<Option<(usize, usize)>>>, r: Seq<char>, k: int, pos: int) -> Seq<u8>
    decreases caps.len() - k,
{
    if k < 0 || k >= caps.len() {
        text.subrange(pos, text.len() as int)
    } else {
        text.subrange(pos, match_start(caps, k)) + replacement(r, caps[k], text)
            + replace_from(text, caps, r, k + 1, match_end(caps, k))
    }
}

/// `text` with match `k` replaced.
pub open spec fn replace_one(text: Seq<u8>, caps: Seq<Seq<Option<(usize, usize)>>>, r: Seq<char>, k: int) -> Seq<u8> {
    text.subrange(0, match_start(caps, k)) + replacement(r, caps[k], text)
        + text.subrange(match_end(caps, k), text.len() as int)
}

/// What an `s` command makes of `text`, given the matches `caps` of its
/// regex: with `g` every match is replaced; with a number `n` the n-th
/// match is replaced; otherwise the first. Any replaced match counts as a
/// substitution, even one that leaves the text as it was. `None`: no
/// substitution.
pub open spec fn substitution(
    text: Seq<u8>,
    caps: Seq<Seq<Option<(usize, usize)>>>,
    r: Seq<char>,
    global: bool,
    nth: Option<usize>,
) -> Option<Seq<u8>> {
    if global {
        if caps.len() > 0 { Some(replace_from(text, caps, r, 0, 0)) } else { None }
    } else {
        match nth {
            Some(n) => if 1 <= n && n <= caps.len() { Some(replace_one(text, caps, r, n - 1)) } else { None },
            None => if caps.len() > 0 { Some(replace_one(text, caps, r, 0)) } else { None },
        }
    }
}

/// Replaces the matches `caps` in `text` as the `s` flags say.
pub fn substitute_matches(
    text: &Vec<u8>,
    caps: &Vec<Vec<Option<(usize, usize)>>>,
    r: &Vec<char>,
    global: bool,
    nth: Option<usize>,
) -> (res: Option<Vec<u8>>)
    requires
        matches_ordered(caps.deep_view(), text@.len()),
    ensures
        match substitution(text@, caps.deep_view(), r@, global, nth) {
            Some(t) => res matches Some(v) && v@ == t,
            None => res is None,
        },
{
    let ghost cs = caps.deep_view();
    if global {
        let mut out: Vec<u8> = Vec::new();
        let mut k: usize = 0;
        let mut pos: usize = 0;
        while k < caps.len()
            invariant
                k <= caps.len(),
                cs == caps.deep_view(),
                matches_ordered(cs, text@.len()),
                pos <= text.len(),
                k < caps.len() ==> pos <= match_start(cs, k as int),
                out@ + replace_from(text@, cs, r@, k as int, pos as int) == replace_from(text@, cs, r@, 0, 0),
            decreases caps.len() - k,
        {
            let m = &caps[k];
            assert(m@ == cs[k as int]);
            assert(cs[k as int].len() >= 1 && cs[k as int][0] is Some);
            assert(spans_inside(cs[k as int], text@.len()));
            let (s, e) = match m[0] {
                Some(sp) => sp,
                None => (0, 0),
            };
            assert(s as int == match_start(cs, k as int) && e as int == match_end(cs, k as int));
            push_slice(&mut out, text, pos, s);
            let mut piece = build_replacement(text, m, r);
            out.append(&mut piece);
            pos = e;
            k += 1;
            assert(out@ + replace_from(text@, cs, r@, k as int, pos as int) =~= replace_from(text@, cs, r@, 0, 0));
        }
        push_slice(&mut out, text, pos, text.len());
        assert(out@ =~= replace_from(text@, cs, r@, 0, 0));
        if caps.len() == 0 {
            None
        } else {
            Some(out)
        }
    } else {
        let k: usize = match nth {
            Some(n) => {
                if n < 1 || n > caps.len() {
                    return None;
                }
                n - 1
            },
            None => {
                if caps.len() == 0 {
                    return None;
                }
                0
            },
        };
        let m = &caps[k];
        assert(m@ == cs[k as int]);
        assert(cs[k as int].len() >= 1 && cs[k as int][0] is Some);
        assert(spans_inside(cs[k as int], text@.len()));
        let (s, e) = match m[0] {
            Some(sp) => sp,
            None => (0, 0),
        };
        let mut out: Vec<u8> = Vec::new();
        push_slice(&mut out, text, 0, s);
        let mut piece = build_replacement(text, m, r);
        out.append(&mut piece);
        push_slice(&mut out, text, e, text.len());
        assert(out@ =~= replace_one(text@, cs, r@, k as int));
        Some(out)
    }
}

// ---------------------------------------------------------------------
// Transliteration
// ---------------------------------------------------------------------

/// The index of the first `c` in `src` at or after `i`, or its length.
pub open spec fn index_in(src: Seq<char>, c: char, i: int) -> int
    decreases src.len() - i,
{
    if i < 0 || i >= src.len() || src[i] == c {
        i
    } else {
        index_in(src, c, i + 1)
    }
}

/// The one character that the `n` bytes of `s` at `i` encode in UTF-8, if
/// they encode exactly one.
pub open spec fn one_char_at(s: Seq<u8>, i: int, n: int) -> Option<char> {
    if 0 <= i && i + n <= s.len() {
        let sub = s.subrange(i, i + n);
        if valid_utf8(sub) && decode_utf8(sub).len() == 1 {
            Some(decode_utf8(sub)[0])
        } else {
            None
        }
    } else {
        None
    }
}

/// The character at byte `i` of `s` as `y` reads it, and how many bytes
/// it takes: an ASCII byte; the shortest well-formed UTF-8 sequence of
/// two to four bytes there; otherwise the single byte, as a raw byte.
pub open spec fn unit_at(s: Seq<u8>, i: int) -> (char, int) {
    if s[i] < 0x80 {
        (s[i] as char, 1)
    } else {
        match one_char_at(s, i, 2) {
            Some(c) => (c, 2),
            None => match one_char_at(s, i, 3) {
                Some(c) => (c, 3),
                None => match one_char_at(s, i, 4) {
                    Some(c) => (c, 4),
                    None => (raw_char(s[i]), 1),
                },
            },
        }
    }
}

/// What `y` makes of the character `c` read from the bytes `orig`: the
/// character at the same place in `dst` when `c` occurs in `src`, written
/// as `char_bytes` writes it; the bytes as they were otherwise.
pub open spec fn translit_unit(c: char, orig: Seq<u8>, src: Seq<char>, dst: Seq<char>) -> Seq<u8> {
    let k = index_in(src, c, 0);
    if k < src.len() && k < dst.len() {
        char_bytes(dst[k])
    } else {
        orig
    }
}

/// What `y` makes of `s` from byte `i` on, character by character.
pub open spec fn translit_from(s: Seq<u8>, i: int, src: Seq<char>, dst: Seq<char>) -> Seq<u8>
    decreases s.len() - i,
{
    if i < 0 || i >= s.len() {
        Seq::empty()
    } else {
        let u = unit_at(s, i);
        let n = if i + u.1 <= s.len() { u.1 } else { 1 };
        translit_unit(u.0, s.subrange(i, i + n), src, dst) + translit_from(s, i + n, src, dst)
    }
}

/// What `y` makes of `s`.
pub open spec fn translit(s: Seq<u8>, src: Seq<char>, dst: Seq<char>) -> Seq<u8> {
    translit_from(s, 0, src, dst)
}

proof fn lemma_unit_at(s: Seq<u8>, i: int)
    requires
        0 <= i < s.len(),
    ensures
        1 <= unit_at(s, i).1 <= 4,
        i + unit_at(s, i).1 <= s.len(),
{
}

/// The character that bytes `i .. i + n` of `s` encode, if exactly one.
fn one_char(s: &Vec<u8>, i: usize, n: usize) -> (r: Option<char>)
    requires
        i < s.len(),
        n <= 4,
    ensures
        r == one_char_at(s@, i as int, n as int),
{
    if n > s.len() - i {
        return None;
    }
    let sub = slice_of(s, i, i + n);
    match utf8_decode(sub.as_slice()) {
        Some(v) => if v.len() == 1 {
            Some(v[0])
        } else {
            None
        },
        None => None,
    }
}

/// The character at byte `i` of `s` as `y` reads it, and its length.
fn read_unit(s: &Vec<u8>, i: usize) -> (r: (char, usize))
    requires
        i < s.len(),
    ensures
        (r.0, r.1 as int) == unit_at(s@, i as int),
{
    let b = s[i];
    if b < 0x80 {
        return (b as char, 1);
    }
    match one_char(s, i, 2) {
        Some(c) => (c, 2),
        None => match one_char(s, i, 3) {
            Some(c) => (c, 3),
            None => match one_char(s, i, 4) {
                Some(c) => (c, 4),
                None => (byte_as_char_exec(b), 1),
            },
        },
    }
}

/// `y/src/dst/` on `s`.
pub fn transliterate(s: &Vec<u8>, src: &Vec<char>, dst: &Vec<char>) -> (r: Vec<u8>)
    ensures
        r@ == translit(s@, src@, dst@),
{
    let mut out: Vec<u8> = Vec::new();
    let mut i: usize = 0;
    while i < s.len()
        invariant
            i <= s.len(),
            out@ + translit_from(s@, i as int, src@, dst@) == translit_from(s@, 0, src@, dst@),
        decreases s.len() - i,
    {
        proof { lemma_unit_at(s@, i as int); }
        let ghost before = out@;
        let (c, n) = read_unit(s, i);
        let mut k: usize = 0;
        while k < src.len() && src[k] != c
            invariant
                k <= src.len(),
                index_in(src@, c, k as int) == index_in(src@, c, 0),
            decreases src.len() - k,
        {
            k += 1;
        }
        if k < src.len() && k < dst.len() {
            push_char_bytes(&mut out, dst[k]);
        } else {
            push_slice(&mut out, s, i, i + n);
        }
        let ghost piece = translit_unit(c, s@.subrange(i as int, i + n), src@, dst@);
        assert(out@ == before + piece);
        assert(translit_from(s@, i as int, src@, dst@) == piece + translit_from(s@, i + n, src@, dst@));
        assert(before + (piece + translit_from(s@, i + n, src@, dst@)) =~= out@ + translit_from(s@, i + n, src@, dst@));
        i += n;
    }
    out
}

// ---------------------------------------------------------------------
// `l` and `=`
// ---------------------------------------------------------------------

/// The ASCII bytes of the characters `t`.
pub open spec fn ascii_bytes(t: Seq<char>) -> Seq<u8> {
    Seq::new(t.len(), |i: int| t[i] as u32 as u8)
}

/// The `l` rendering of `s` from byte `k` on, with `cur` bytes already on
/// the current output line and lines of at most `limit` bytes before the
/// `\` that continues them (`limit` 0: no wrapping). An escape is never
/// split across lines.
pub open spec fn listed_from(s: Seq<u8>, k: int, cur: int, limit: int) -> Seq<u8>
    decreases s.len() - k,
{
    if k < 0 || k >= s.len() {
        seq![36u8]
    } else {
        let t = ascii_bytes(escape_token(s[k]));
        if limit > 0 && cur > 0 && cur + t.len() > limit {
            seq![92u8, 10u8] + t + listed_from(s, k + 1, t.len() as int, limit)
        } else {
            t + listed_from(s, k + 1, if limit > 0 { cur + t.len() } else { 0 }, limit)
        }
    }
}

/// The wrap limit of `l` for a line width `width`: lines hold `width - 1`
/// bytes before the continuing `\`; a width of 0 or 1 means no wrapping.
pub open spec fn wrap_limit(width: usize) -> int {
    if width <= 1 { 0 } else { width - 1 }
}

/// What `l` prints for `s` with line width `width`, before the line
/// delimiter.
pub open spec fn listed(s: Seq<u8>, width: usize) -> Seq<u8> {
    listed_from(s, 0, 0, wrap_limit(width))
}

/// The `l` rendering of `s`.
pub fn list_bytes(s: &Vec<u8>, width: usize) -> (r: Vec<u8>)
    ensures
        r@ == listed(s@, width),
{
    let tokens = escape_string_tokens(s.as_slice());
    let limit: usize = if width <= 1 { 0 } else { width - 1 };
    let mut out: Vec<u8> = Vec::new();
    let mut k: usize = 0;
    let mut cur: usize = 0;
    while k < tokens.len()
        invariant
            k <= tokens.len() == s@.len(),
            forall|j: int| 0 <= j < tokens.len() ==> (#[trigger] tokens@[j])@ == escape_token(s@[j]),
            limit as int == wrap_limit(width),
            limit == 0 ==> cur == 0,
            limit > 0 ==> cur <= limit || cur <= 4,
            out@ + listed_from(s@, k as int, cur as int, limit as int) == listed(s@, width),
        decreases tokens.len() - k,
    {
        let t = chars_of(tokens[k].as_str());
        let ghost tb = ascii_bytes(escape_token(s@[k as int]));
        proof { lemma_token_len(s@[k as int]); }
        let ghost before = out@;
        let ghost cur0 = cur as int;
        let wrap = limit > 0 && cur > 0 && (cur > limit || t.len() > limit - cur);
        assert(wrap == (limit > 0 && cur0 > 0 && cur0 + tb.len() > limit));
        if wrap {
            out.push(92);
            out.push(10);
            cur = 0;
        }
        let ghost mid = out@;
        let mut j: usize = 0;
        while j < t.len()
            invariant
                j <= t.len() <= 4,
                t@ == escape_token(s@[k as int]),
                tb == ascii_bytes(t@),
                out@ == mid + tb.take(j as int),
            decreases t.len() - j,
        {
            out.push(t[j] as u32 as u8);
            j += 1;
            assert(tb.take(j as int) =~= tb.take(j - 1).push(tb[j - 1]));
        }
        assert(tb.take(t.len() as int) =~= tb);
        if limit > 0 {
            cur = cur + t.len();
        }
        k += 1;
        assert(out@ + listed_from(s@, k as int, cur as int, limit as int) =~= before + listed_from(s@, k - 1, cur0, limit as int));
    }
    out.push(36);
    assert(out@ =~= listed(s@, width));
    out
}

proof fn lemma_token_len(b: u8)
    ensures
        1 <= escape_token(b).len() <= 4,
{
}

/// The decimal digits of `n` as bytes.
pub fn decimal_bytes(n: usize) -> (r: Vec<u8>)
    ensures
        r@ == ascii_bytes(decimal(n as nat)),
{
    let mut d: Vec<char> = Vec::new();
    push_decimal(n, &mut d);
    assert(d@ =~= decimal(n as nat));
    let mut out: Vec<u8> = Vec::new();
    let mut i: usize = 0;
    while i < d.len()
        invariant
            i <= d.len(),
            out@ == ascii_bytes(d@).take(i as int),
        decreases d.len() - i,
    {
        out.push(d[i] as u32 as u8);
        i += 1;
        assert(out@ =~= ascii_bytes(d@).take(i as int));
    }
    assert(ascii_bytes(d@).take(d.len() as int) =~= ascii_bytes(d@));
    out
}

} // verus!
