use vstd::prelude::*;
use super::Parser;
use crate::scan::{blank_end, byte_at, digit_end, digits_value, is_digit, lemma_blank_end, lemma_literal, literal, saturate};
use crate::text::{decode_script_bytes, script_chars, string_from_chars, trim_chars, trimmed};

verus! {

/// A byte that ends a label.
pub open spec fn ends_label(b: u8) -> bool {
    b == 10 || b == 59 || b == 125 || b == 32 || b == 9 || b == 35
}

/// Where the label that starts at `p` ends.
pub open spec fn label_end(s: Seq<u8>, p: int) -> int
    decreases s.len() - p,
{
    if 0 <= p < s.len() && !ends_label(s[p]) {
        label_end(s, p + 1)
    } else {
        p
    }
}

/// Where the file name that starts at `p` ends (at a newline or `;`).
pub open spec fn filename_end(s: Seq<u8>, p: int) -> int
    decreases s.len() - p,
{
    if 0 <= p < s.len() && s[p] != 10 && s[p] != 59 {
        filename_end(s, p + 1)
    } else {
        p
    }
}

/// One line of `a`/`i`/`c` text from `p`: its characters, where the input
/// continues, and whether it ended with a backslash-newline (so that the
/// text goes on on the next line). `\n` stands for a newline, any other
/// escape is kept as written; a multi-byte UTF-8 character is one
/// character.
pub open spec fn text_line(s: Seq<u8>, p: int) -> (Seq<char>, int, bool)
    decreases s.len() - p,
{
    if p < 0 || p >= s.len() {
        (Seq::empty(), p, false)
    } else if s[p] == 10 {
        (Seq::empty(), p + 1, false)
    } else if s[p] == 92 {
        if p + 1 >= s.len() {
            (Seq::empty(), p + 1, false)
        } else if s[p + 1] == 110 {
            let r = text_line(s, p + 2);
            (seq!['\n'] + r.0, r.1, r.2)
        } else if s[p + 1] == 10 {
            (Seq::empty(), p + 2, true)
        } else {
            let l = literal(s, s[p + 1], p + 2);
            if p + 2 <= l.1 <= s.len() {
                let r = text_line(s, l.1);
                (seq!['\\'] + l.0 + r.0, r.1, r.2)
            } else {
                (Seq::empty(), p + 2, false)
            }
        }
    } else {
        let l = literal(s, s[p], p + 1);
        if p + 1 <= l.1 <= s.len() {
            let r = text_line(s, l.1);
            (l.0 + r.0, r.1, r.2)
        } else {
            (Seq::empty(), p + 1, false)
        }
    }
}

/// The text argument of `a`, `i`, `c` (and `e`) from `p`, with the lines
/// read so far `acc`: lines are joined by newlines and continue while a
/// line ends with a backslash.
pub open spec fn text_from(s: Seq<u8>, p: int, acc: Seq<char>) -> (Seq<char>, int)
    decreases s.len() - p,
{
    let r = text_line(s, p);
    let joined = (if acc.len() > 0 { acc + seq!['\n'] } else { acc }) + r.0;
    if r.2 && p < r.1 <= s.len() {
        text_from(s, r.1, joined)
    } else {
        (joined, r.1)
    }
}

pub proof fn lemma_label_end(s: Seq<u8>, p: int)
    requires
        0 <= p <= s.len(),
    ensures
        p <= label_end(s, p) <= s.len(),
        label_end(s, p) < s.len() ==> ends_label(s[label_end(s, p)]),
    decreases s.len() - p,
{
    if p < s.len() && !ends_label(s[p]) {
        lemma_label_end(s, p + 1);
    }
}

pub proof fn lemma_filename_end(s: Seq<u8>, p: int)
    requires
        0 <= p <= s.len(),
    ensures
        p <= filename_end(s, p) <= s.len(),
    decreases s.len() - p,
{
    if p < s.len() && s[p] != 10 && s[p] != 59 {
        lemma_filename_end(s, p + 1);
    }
}

pub proof fn lemma_text_line(s: Seq<u8>, p: int)
    requires
        0 <= p <= s.len(),
    ensures
        p <= text_line(s, p).1 <= s.len(),
        text_line(s, p).2 ==> p < text_line(s, p).1,
        p < s.len() ==> p < text_line(s, p).1,
    decreases s.len() - p,
{
    if p < s.len() && s[p] != 10 {
        if s[p] == 92 {
            if p + 1 < s.len() && s[p + 1] != 10 {
                lemma_text_line(s, p + 2);
                if s[p + 1] != 110 {
                    lemma_literal(s, s[p + 1], p + 2);
                    lemma_text_line(s, literal(s, s[p + 1], p + 2).1);
                }
            }
        } else {
            lemma_literal(s, s[p], p + 1);
            lemma_text_line(s, literal(s, s[p], p + 1).1);
        }
    }
}

pub proof fn lemma_text_from(s: Seq<u8>, p: int, acc: Seq<char>)
    requires
        0 <= p <= s.len(),
    ensures
        p <= text_from(s, p, acc).1 <= s.len(),
    decreases s.len() - p,
{
    lemma_text_line(s, p);
    let r = text_line(s, p);
    let joined = (if acc.len() > 0 { acc + seq!['\n'] } else { acc }) + r.0;
    if r.2 && p < r.1 <= s.len() {
        lemma_text_from(s, r.1, joined);
    }
}

impl<'a> Parser<'a> {
    pub(super) fn parse_label(&mut self) -> (label: String)
        requires
            old(self).wf(),
        ensures
            final(self).keeps(old(self)),
            final(self).pos == label_end(old(self).input@, old(self).pos as int),
            label@ == script_chars(old(self).input@.subrange(old(self).pos as int, final(self).pos as int)),
    {
        let ghost p0 = self.pos as int;
        let ghost s = self.input@;
        proof { lemma_label_end(s, p0); }
        let mut raw: Vec<u8> = Vec::new();
        while self.pos < self.input.len() && !(self.input[self.pos] == 10 || self.input[self.pos] == 59
            || self.input[self.pos] == 125 || self.input[self.pos] == 32 || self.input[self.pos] == 9
            || self.input[self.pos] == 35)
            invariant
                self.keeps(old(self)),
                s == self.input@,
                p0 == old(self).pos,
                p0 <= self.pos,
                label_end(s, self.pos as int) == label_end(s, p0),
                raw@ == s.subrange(p0, self.pos as int),
            decreases s.len() - self.pos,
        {
            raw.push(self.input[self.pos]);
            self.pos += 1;
            assert(raw@ =~= s.subrange(p0, self.pos as int));
        }
        let label = decode_script_bytes(raw.as_slice());
        string_from_chars(label.as_slice())
    }

    pub(super) fn try_parse_label(&mut self) -> (label: Option<String>)
        requires
            old(self).wf(),
        ensures
            final(self).keeps(old(self)),
            final(self).pos == label_end(old(self).input@, old(self).pos as int),
            label is None ==> final(self).pos == old(self).pos,
            label matches Some(l) ==> final(self).pos > old(self).pos && l@ == script_chars(
                old(self).input@.subrange(old(self).pos as int, final(self).pos as int),
            ),
    {
        let start = self.pos;
        proof { lemma_label_end(self.input@, self.pos as int); }
        let label = self.parse_label();
        if self.pos == start {
            None
        } else {
            Some(label)
        }
    }

    pub(super) fn parse_filename(&mut self) -> (name: Vec<char>)
        requires
            old(self).wf(),
        ensures
            final(self).keeps(old(self)),
            final(self).pos == filename_end(old(self).input@, old(self).pos as int),
            name@ == trimmed(script_chars(old(self).input@.subrange(old(self).pos as int, final(self).pos as int))),
    {
        let ghost p0 = self.pos as int;
        let ghost s = self.input@;
        proof { lemma_filename_end(s, p0); }
        let mut raw: Vec<u8> = Vec::new();
        while self.pos < self.input.len() && self.input[self.pos] != 10 && self.input[self.pos] != 59
            invariant
                self.keeps(old(self)),
                s == self.input@,
                p0 == old(self).pos,
                p0 <= self.pos,
                filename_end(s, self.pos as int) == filename_end(s, p0),
                raw@ == s.subrange(p0, self.pos as int),
            decreases s.len() - self.pos,
        {
            raw.push(self.input[self.pos]);
            self.pos += 1;
            assert(raw@ =~= s.subrange(p0, self.pos as int));
        }
        let name = decode_script_bytes(raw.as_slice());
        trim_chars(&name)
    }

    pub(super) fn try_parse_exit_code(&mut self) -> (code: Option<i32>)
        requires
            old(self).wf(),
        ensures
            final(self).keeps(old(self)),
            final(self).pos == digit_end(old(self).input@, old(self).pos as int),
            match byte_at(old(self).input@, old(self).pos as int) {
                Some(b) if is_digit(b) => code == Some(saturate(
                    digits_value(old(self).input@, old(self).pos as int, final(self).pos as int),
                ) as i32),
                _ => code is None,
            },
    {
        if let Some(ch) = self.peek() {
            if 48 <= ch && ch <= 57 {
                let n = match self.parse_number() {
                    Ok(n) => n,
                    Err(_) => { return None; },
                };
                return Some(n as i32);
            }
        }
        None
    }

    pub(super) fn skip_optional_backslash_newline(&mut self)
        requires
            old(self).wf(),
        ensures
            final(self).keeps(old(self)),
            ({
                let s = old(self).input@;
                let p = old(self).pos as int;
                final(self).pos == if byte_at(s, p) == Some(92u8) {
                    if byte_at(s, p + 1) == Some(10u8) { p + 2 } else { p + 1 }
                } else if byte_at(s, p) == Some(32u8) || byte_at(s, p) == Some(9u8) {
                    blank_end(s, p)
                } else {
                    p
                }
            }),
    {
        if self.peek() == Some(92u8) {
            self.advance();
            if self.peek() == Some(10u8) {
                self.advance();
            }
        } else if self.peek() == Some(32u8) || self.peek() == Some(9u8) {
            self.skip_whitespace();
        }
    }

    pub(super) fn parse_text_arg(&mut self) -> (text: Vec<char>)
        requires
            old(self).wf(),
        ensures
            final(self).keeps(old(self)),
            (text@, final(self).pos as int) == text_from(old(self).input@, old(self).pos as int, Seq::empty()),
    {
        let ghost s = self.input@;
        let mut text: Vec<char> = Vec::new();
        proof { lemma_text_from(s, self.pos as int, Seq::empty()); }
        loop
            invariant
                self.keeps(old(self)),
                s == self.input@,
                text_from(s, self.pos as int, text@) == text_from(s, old(self).pos as int, Seq::empty()),
            decreases s.len() - self.pos,
        {
            let ghost p_line = self.pos as int;
            proof { lemma_text_line(s, p_line); }
            let ghost acc = text@;
            let (line, ends_with_backslash) = self.read_text_line();
            if text.len() > 0 {
                text.push('\n');
            }
            let mut l = line;
            text.append(&mut l);
            assert(text@ =~= (if acc.len() > 0 { acc + seq!['\n'] } else { acc }) + text_line(s, p_line).0);
            if !ends_with_backslash {
                return text;
            }
        }
    }

    /// Reads one line of text (see `text_line`).
    fn read_text_line(&mut self) -> (r: (Vec<char>, bool))
        requires
            old(self).wf(),
        ensures
            final(self).keeps(old(self)),
            (r.0@, final(self).pos as int, r.1) == text_line(old(self).input@, old(self).pos as int),
    {
        let ghost s = self.input@;
        let mut line: Vec<char> = Vec::new();
        proof { lemma_text_line(s, self.pos as int); }
        loop
            invariant
                self.keeps(old(self)),
                s == self.input@,
                ({
                    let r = text_line(s, self.pos as int);
                    let r0 = text_line(s, old(self).pos as int);
                    line@ + r.0 == r0.0 && r.1 == r0.1 && r.2 == r0.2
                }),
            decreases s.len() - self.pos,
        {
            let ghost before = line@;
            let ghost p = self.pos as int;
            match self.peek() {
                None => {
                    assert(line@ =~= line@ + text_line(s, p).0);
                    return (line, false);
                },
                Some(10u8) => {
                    self.advance();
                    assert(line@ =~= line@ + text_line(s, p).0);
                    return (line, false);
                },
                Some(92u8) => {
                    self.advance();
                    match self.peek() {
                        Some(110u8) => {
                            self.advance();
                            line.push('\n');
                        },
                        Some(10u8) => {
                            self.advance();
                            assert(line@ =~= line@ + text_line(s, p).0);
                            return (line, true);
                        },
                        None => {
                            assert(line@ =~= line@ + text_line(s, p).0);
                            return (line, false);
                        },
                        Some(ch) => {
                            line.push('\\');
                            self.advance();
                            proof { lemma_literal(s, ch, self.pos as int); }
                            self.push_literal(ch, &mut line);
                        },
                    }
                },
                Some(ch) => {
                    self.advance();
                    proof { lemma_literal(s, ch, self.pos as int); }
                    self.push_literal(ch, &mut line);
                },
            }
            assert(line@ + text_line(s, self.pos as int).0 =~= before + text_line(s, p).0);
        }
    }
}

} // verus!
