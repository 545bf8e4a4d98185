use vstd::prelude::*;
use crate::text::string_from_chars;

verus! {

/// `b` is an ASCII lowercase letter.
pub open spec fn is_lower(b: u8) -> bool {
    97 <= b && b <= 122
}

/// The control character written `\cX` in a sed script: letters are
/// uppercased first (so `\ca` and `\cA` agree), then bit 6 is flipped.
pub open spec fn ctrl_char_spec(b: u8) -> u8 {
    if is_lower(b) {
        ((b - 32) as u8) ^ 0x40u8
    } else {
        b ^ 0x40u8
    }
}

/// Convert a byte to its control character equivalent.
/// For ASCII letters, uppercases first so \ca == \cA.
/// For other chars, XOR with 0x40.
pub fn ctrl_char(b: u8) -> (c: u8)
    ensures
        c == ctrl_char_spec(b),
{
    if 97 <= b && b <= 122 {
        (b - 32) ^ 0x40
    } else {
        b ^ 0x40
    }
}

/// The character of the octal digit `d` (`0 <= d < 8`).
pub open spec fn digit_char(d: int) -> char {
    (d + 48) as char
}

/// `\ooo`: a backslash and the three octal digits of `b`.
pub open spec fn octal_escape(b: u8) -> Seq<char> {
    seq!['\\', digit_char(b as int / 64), digit_char((b as int / 8) % 8), digit_char(b as int % 8)]
}

/// How the `l` command shows one byte: C escapes for backslash and the
/// usual control characters, the byte itself when it is printable ASCII,
/// and a three-digit octal escape otherwise.
pub open spec fn escape_token(b: u8) -> Seq<char> {
    if b == 92 {
        seq!['\\', '\\']
    } else if b == 7 {
        seq!['\\', 'a']
    } else if b == 8 {
        seq!['\\', 'b']
    } else if b == 12 {
        seq!['\\', 'f']
    } else if b == 10 {
        seq!['\\', 'n']
    } else if b == 13 {
        seq!['\\', 'r']
    } else if b == 9 {
        seq!['\\', 't']
    } else if b == 11 {
        seq!['\\', 'v']
    } else if 32 <= b && b <= 126 {
        seq![b as char]
    } else {
        octal_escape(b)
    }
}

/// The escaped text of a whole byte string: its tokens, one after another.
pub open spec fn escape_all(data: Seq<u8>) -> Seq<char>
    decreases data.len(),
{
    if data.len() == 0 {
        Seq::empty()
    } else {
        escape_all(data.drop_last()) + escape_token(data.last())
    }
}

fn escape_token_chars(b: u8) -> (v: Vec<char>)
    ensures
        v@ == escape_token(b),
{
    if b == 92 {
        vec!['\\', '\\']
    } else if b == 7 {
        vec!['\\', 'a']
    } else if b == 8 {
        vec!['\\', 'b']
    } else if b == 12 {
        vec!['\\', 'f']
    } else if b == 10 {
        vec!['\\', 'n']
    } else if b == 13 {
        vec!['\\', 'r']
    } else if b == 9 {
        vec!['\\', 't']
    } else if b == 11 {
        vec!['\\', 'v']
    } else if 32 <= b && b <= 126 {
        vec![b as char]
    } else {
        let v = vec!['\\', (b / 64 + 48) as char, ((b / 8) % 8 + 48) as char, (b % 8 + 48) as char];
        assert(v@ =~= octal_escape(b));
        v
    }
}

pub fn escape_string_bytes(data: &[u8]) -> (s: String)
    ensures
        s@ == escape_all(data@),
{
    let tokens = escape_string_tokens(data);
    let mut result = String::new();
    let mut i: usize = 0;
    while i < tokens.len()
        invariant
            tokens.len() == data@.len(),
            i <= tokens.len(),
            forall|k: int| 0 <= k < tokens.len() ==> (#[trigger] tokens@[k])@ == escape_token(data@[k]),
            result@ == escape_all(data@.take(i as int)),
        decreases tokens.len() - i,
    {
        result.append(tokens[i].as_str());
        assert(data@.take(i + 1).drop_last() =~= data@.take(i as int));
        i += 1;
    }
    assert(data@.take(i as int) =~= data@);
    result
}

/// Escape bytes for `l` command output, producing atomic tokens.
/// Each token is either a single visible char or a full escape sequence
/// (e.g. `\035`) that must not be split across line wraps.
pub fn escape_string_tokens(data: &[u8]) -> (tokens: Vec<String>)
    ensures
        tokens.len() == data@.len(),
        forall|k: int| 0 <= k < tokens.len() ==> (#[trigger] tokens@[k])@ == escape_token(data@[k]),
{
    let mut result: Vec<String> = Vec::with_capacity(data.len());
    let mut i: usize = 0;
    while i < data.len()
        invariant
            i <= data.len(),
            result.len() == i,
            forall|k: int| 0 <= k < i ==> (#[trigger] result@[k])@ == escape_token(data@[k]),
        decreases data.len() - i,
    {
        let t = escape_token_chars(data[i]);
        result.push(string_from_chars(t.as_slice()));
        i += 1;
    }
    result
}

} // verus!
