use vstd::prelude::*;

verus! {

/// Builds a `String` whose characters are those of `chars`.
#[verifier::external_body]
pub(crate) fn string_from_chars(chars: &[char]) -> (s: String)
    ensures
        s@ == chars@,
{
    chars.iter().collect()
}

/// The characters of `s`, in order.
pub fn chars_of(s: &str) -> (v: Vec<char>)
    ensures
        v@ == s@,
{
    broadcast use vstd::string::axiom_spec_iter;
    let mut v: Vec<char> = Vec::new();
    for c in it: s.chars()
        invariant
            v@ == it.seq().take(it.index()),
            it.seq() == s@,
    {
        v.push(c);
    }
    assert(v@ =~= s@);
    v
}

/// The code point that stands for the raw byte `b` in script text (a byte
/// from a numeric escape or from a script that is not UTF-8): one of the
/// last 256 code points, U+10FF00 to U+10FFFF, a private-use block. So a
/// raw byte stays apart from the character of the same value, and is
/// written back as that one byte.
pub open spec fn raw_char(b: u8) -> char {
    (0x10FF00u32 + b as u32) as char
}

/// The raw byte that `c` stands for, if it stands for one.
pub open spec fn raw_byte_of(c: char) -> Option<u8> {
    if c as u32 >= 0x10FF00 {
        Some((c as u32 - 0x10FF00) as u8)
    } else {
        None
    }
}

/// One byte of script text as a character: an ASCII byte is its
/// character; any other byte is the raw byte.
pub open spec fn byte_as_char(b: u8) -> char {
    if b < 0x80 { b as char } else { raw_char(b) }
}

/// `char::from_u32`: `Some` of the character with code `v` exactly when
/// `v` is a Unicode scalar value (at most U+10FFFF and not a surrogate).
#[verifier::external_body]
fn char_from_u32(v: u32) -> (r: Option<char>)
    ensures
        v <= 0x10FFFF && !(0xD800 <= v && v <= 0xDFFF) ==> r == Some(v as char),
        !(v <= 0x10FFFF && !(0xD800 <= v && v <= 0xDFFF)) ==> r is None,
{
    char::from_u32(v)
}

/// One byte of script text as a character (see `byte_as_char`).
pub fn byte_as_char_exec(b: u8) -> (c: char)
    ensures
        c == byte_as_char(b),
{
    if b < 0x80 {
        b as char
    } else {
        match char_from_u32(0x10FF00u32 + b as u32) {
            Some(c) => c,
            None => b as char,
        }
    }
}

/// Raw byte and character do not mix: a raw byte's character gives the
/// byte back, and an ASCII character is no raw byte.
pub proof fn lemma_raw_char(b: u8)
    ensures
        raw_byte_of(raw_char(b)) == Some(b),
        b < 0x80 ==> raw_byte_of(b as char) is None,
        raw_char(b) as u32 == 0x10FF00 + b as u32,
{
}

} // verus!

verus! {

/// The decimal digits of `n`.
pub open spec fn decimal(n: nat) -> Seq<char>
    decreases n,
{
    if n < 10 {
        seq![((n + 48) as int) as char]
    } else {
        decimal(n / 10) + seq![((n % 10 + 48) as int) as char]
    }
}

/// Appends the decimal digits of `n` to `out`.
pub fn push_decimal(n: usize, out: &mut Vec<char>)
    ensures
        final(out)@ == old(out)@ + decimal(n as nat),
    decreases n,
{
    if n >= 10 {
        push_decimal(n / 10, out);
    }
    out.push(((n % 10) as u8 + 48) as char);
}

/// Appends the characters of `s` to `out`.
pub fn push_str(out: &mut Vec<char>, s: &str)
    ensures
        final(out)@ == old(out)@ + s@,
{
    let mut v = chars_of(s);
    out.append(&mut v);
}

/// A byte string read one character per byte (see `byte_as_char`).
pub open spec fn raw_chars(b: Seq<u8>) -> Seq<char> {
    Seq::new(b.len(), |i: int| byte_as_char(b[i]))
}

/// The characters of script bytes: the UTF-8 decoding where they are
/// valid UTF-8, one character per byte otherwise (see `byte_as_char`).
pub open spec fn script_chars(b: Seq<u8>) -> Seq<char> {
    if vstd::utf8::valid_utf8(b) {
        vstd::utf8::decode_utf8(b)
    } else {
        raw_chars(b)
    }
}

/// The characters of script bytes (see `script_chars`).
pub fn decode_script_bytes(bytes: &[u8]) -> (v: Vec<char>)
    ensures
        v@ == script_chars(bytes@),
{
    match utf8_decode(bytes) {
        Some(chars) => chars,
        None => {
            let mut v: Vec<char> = Vec::new();
            let mut i: usize = 0;
            while i < bytes.len()
                invariant
                    i <= bytes.len(),
                    v@ == raw_chars(bytes@.take(i as int)),
                decreases bytes.len() - i,
            {
                v.push(byte_as_char_exec(bytes[i]));
                i += 1;
                assert(v@ =~= raw_chars(bytes@.take(i as int)));
            }
            assert(bytes@.take(bytes.len() as int) =~= bytes@);
            v
        },
    }
}

/// The characters that `str::trim` removes: those with the Unicode
/// `White_Space` property.
pub open spec fn is_trim_space(c: char) -> bool {
    let u = c as u32;
    (9 <= u && u <= 13) || u == 32 || u == 0x85 || u == 0xA0 || u == 0x1680 || (0x2000 <= u && u <= 0x200A)
        || u == 0x2028 || u == 0x2029 || u == 0x202F || u == 0x205F || u == 0x3000
}

/// Index of the first character of `s` that is not trimmed.
pub open spec fn trim_start_index(s: Seq<char>, i: int) -> int
    decreases s.len() - i,
{
    if 0 <= i < s.len() && is_trim_space(s[i]) {
        trim_start_index(s, i + 1)
    } else {
        i
    }
}

/// Index just after the last character of `s[lo..j]` that is not trimmed.
pub open spec fn trim_end_index(s: Seq<char>, lo: int, j: int) -> int
    decreases j - lo,
{
    if lo < j && is_trim_space(s[j - 1]) {
        trim_end_index(s, lo, j - 1)
    } else {
        j
    }
}

/// `s` without leading and trailing white space.
pub open spec fn trimmed(s: Seq<char>) -> Seq<char> {
    let lo = trim_start_index(s, 0);
    s.subrange(lo, trim_end_index(s, lo, s.len() as int))
}

proof fn lemma_trim_start_bounds(s: Seq<char>, i: int)
    requires
        0 <= i <= s.len(),
    ensures
        i <= trim_start_index(s, i) <= s.len(),
    decreases s.len() - i,
{
    if i < s.len() && is_trim_space(s[i]) {
        lemma_trim_start_bounds(s, i + 1);
    }
}

proof fn lemma_trim_end_bounds(s: Seq<char>, lo: int, j: int)
    requires
        lo <= j,
    ensures
        lo <= trim_end_index(s, lo, j) <= j,
    decreases j - lo,
{
    if lo < j && is_trim_space(s[j - 1]) {
        lemma_trim_end_bounds(s, lo, j - 1);
    }
}

fn is_trim_space_exec(c: char) -> (b: bool)
    ensures
        b == is_trim_space(c),
{
    let u = c as u32;
    (9 <= u && u <= 13) || u == 32 || u == 0x85 || u == 0xA0 || u == 0x1680 || (0x2000 <= u && u <= 0x200A)
        || u == 0x2028 || u == 0x2029 || u == 0x202F || u == 0x205F || u == 0x3000
}

/// `s` without leading and trailing white space.
pub fn trim_chars(s: &Vec<char>) -> (t: Vec<char>)
    ensures
        t@ == trimmed(s@),
{
    let mut lo: usize = 0;
    while lo < s.len() && is_trim_space_exec(s[lo])
        invariant
            lo <= s.len(),
            trim_start_index(s@, lo as int) == trim_start_index(s@, 0),
        decreases s.len() - lo,
    {
        lo += 1;
    }
    let mut hi: usize = s.len();
    proof { lemma_trim_end_bounds(s@, lo as int, s.len() as int); }
    while lo < hi && is_trim_space_exec(s[hi - 1])
        invariant
            lo <= hi <= s.len(),
            trim_end_index(s@, lo as int, hi as int) == trim_end_index(s@, lo as int, s.len() as int),
        decreases hi - lo,
    {
        hi -= 1;
    }
    let mut t: Vec<char> = Vec::new();
    let mut k = lo;
    while k < hi
        invariant
            lo <= k <= hi <= s.len(),
            t@ == s@.subrange(lo as int, k as int),
        decreases hi - k,
    {
        t.push(s[k]);
        k += 1;
        assert(t@ =~= s@.subrange(lo as int, k as int));
    }
    t
}

/// `std::str::from_utf8`: the documentation promises `Ok` exactly for
/// well-formed UTF-8, and then a `str` whose characters are the ones the
/// bytes encode.
#[verifier::external_body]
fn str_from_utf8(bytes: &[u8]) -> (r: Option<&str>)
    ensures
        r is Some <==> vstd::utf8::valid_utf8(bytes@),
        r matches Some(s) ==> s@ == vstd::utf8::decode_utf8(bytes@),
{
    std::str::from_utf8(bytes).ok()
}

/// The characters that `bytes` encode in UTF-8, or `None` where they are
/// not valid UTF-8.
pub fn utf8_decode(bytes: &[u8]) -> (r: Option<Vec<char>>)
    ensures
        r is Some <==> vstd::utf8::valid_utf8(bytes@),
        r matches Some(v) ==> v@ == vstd::utf8::decode_utf8(bytes@),
{
    match str_from_utf8(bytes) {
        Some(s) => Some(chars_of(s)),
        None => None,
    }
}

} // verus!
