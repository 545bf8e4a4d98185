use vstd::prelude::*;
use crate::text::byte_as_char;

verus! {

/// The byte at `i`, if there is one.
pub open spec fn byte_at(s: Seq<u8>, i: int) -> Option<u8> {
    if 0 <= i < s.len() {
        Some(s[i])
    } else {
        None
    }
}

/// Space or tab.
pub open spec fn is_blank(b: u8) -> bool {
    b == 32 || b == 9
}

/// Space, tab, newline or `;`: what separates commands.
pub open spec fn is_separator(b: u8) -> bool {
    b == 32 || b == 9 || b == 10 || b == 59
}

pub open spec fn is_digit(b: u8) -> bool {
    48 <= b && b <= 57
}

/// The end of the run of blanks that starts at `i`.
pub open spec fn blank_end(s: Seq<u8>, i: int) -> int
    decreases s.len() - i,
{
    if 0 <= i < s.len() && is_blank(s[i]) {
        blank_end(s, i + 1)
    } else {
        i
    }
}

/// The end of the run of separators that starts at `i`.
pub open spec fn separator_end(s: Seq<u8>, i: int) -> int
    decreases s.len() - i,
{
    if 0 <= i < s.len() && is_separator(s[i]) {
        separator_end(s, i + 1)
    } else {
        i
    }
}

/// The end of the run of decimal digits that starts at `i`.
pub open spec fn digit_end(s: Seq<u8>, i: int) -> int
    decreases s.len() - i,
{
    if 0 <= i < s.len() && is_digit(s[i]) {
        digit_end(s, i + 1)
    } else {
        i
    }
}

/// The number written by the decimal digits `s[i..j]`.
pub open spec fn digits_value(s: Seq<u8>, i: int, j: int) -> nat
    decreases j - i,
{
    if j <= i {
        0
    } else {
        digits_value(s, i, j - 1) * 10 + (s[j - 1] - 48) as nat
    }
}

/// `v`, or `usize::MAX` when `v` does not fit.
pub open spec fn saturate(v: nat) -> usize {
    if v > usize::MAX {
        usize::MAX
    } else {
        v as usize
    }
}

pub proof fn lemma_blank_end(s: Seq<u8>, i: int)
    requires
        0 <= i <= s.len(),
    ensures
        i <= blank_end(s, i) <= s.len(),
        blank_end(s, i) < s.len() ==> !is_blank(s[blank_end(s, i)]),
    decreases s.len() - i,
{
    if i < s.len() && is_blank(s[i]) {
        lemma_blank_end(s, i + 1);
    }
}

pub proof fn lemma_separator_end(s: Seq<u8>, i: int)
    requires
        0 <= i <= s.len(),
    ensures
        i <= separator_end(s, i) <= s.len(),
        separator_end(s, i) < s.len() ==> !is_separator(s[separator_end(s, i)]),
    decreases s.len() - i,
{
    if i < s.len() && is_separator(s[i]) {
        lemma_separator_end(s, i + 1);
    }
}

pub proof fn lemma_digit_end(s: Seq<u8>, i: int)
    requires
        0 <= i <= s.len(),
    ensures
        i <= digit_end(s, i) <= s.len(),
        digit_end(s, i) < s.len() ==> !is_digit(s[digit_end(s, i)]),
        forall|k: int| i <= k < digit_end(s, i) ==> is_digit(#[trigger] s[k]),
    decreases s.len() - i,
{
    if i < s.len() && is_digit(s[i]) {
        lemma_digit_end(s, i + 1);
    }
}

/// The width of the UTF-8 sequence that a leading byte announces (1 for a
/// byte that is not a multi-byte leader).
pub open spec fn lead_width(ch: u8) -> int {
    if ch & 0xE0u8 == 0xC0u8 {
        2
    } else if ch & 0xF0u8 == 0xE0u8 {
        3
    } else if ch & 0xF8u8 == 0xF0u8 {
        4
    } else {
        1
    }
}

pub open spec fn is_continuation(b: u8) -> bool {
    b & 0xC0u8 == 0x80u8
}

/// How many continuation bytes (at most `k`) follow from `p`.
pub open spec fn continuation_run(s: Seq<u8>, p: int, k: int) -> int
    decreases k,
{
    if k <= 0 || p < 0 || p >= s.len() || !is_continuation(s[p]) {
        0
    } else {
        1 + continuation_run(s, p + 1, k - 1)
    }
}

pub proof fn lemma_continuation_run(s: Seq<u8>, p: int, k: int)
    requires
        0 <= p <= s.len(),
    ensures
        0 <= continuation_run(s, p, k),
        k >= 0 ==> continuation_run(s, p, k) <= k,
        p + continuation_run(s, p, k) <= s.len(),
    decreases k,
{
    if k > 0 && p < s.len() && is_continuation(s[p]) {
        lemma_continuation_run(s, p + 1, k - 1);
    }
}

/// What a literal byte `ch` of the script (already consumed, the input
/// continuing at `p`) contributes to a pattern or text, and where the input
/// continues: an ASCII byte is itself; a UTF-8 leader takes its
/// continuation bytes and gives the decoded character when the sequence is
/// well formed, and otherwise the byte is read as a raw byte.
pub open spec fn literal(s: Seq<u8>, ch: u8, p: int) -> (Seq<char>, int) {
    if ch < 0x80 {
        (seq![ch as char], p)
    } else {
        let k = continuation_run(s, p, lead_width(ch) - 1);
        let buf = seq![ch] + s.subrange(p, p + k);
        if vstd::utf8::valid_utf8(buf) {
            (vstd::utf8::decode_utf8(buf).take(1), p + k)
        } else {
            (seq![byte_as_char(ch)], p + k)
        }
    }
}

pub proof fn lemma_literal(s: Seq<u8>, ch: u8, p: int)
    requires
        0 <= p <= s.len(),
    ensures
        p <= literal(s, ch, p).1 <= s.len(),
{
    lemma_continuation_run(s, p, lead_width(ch) - 1);
}

} // verus!
