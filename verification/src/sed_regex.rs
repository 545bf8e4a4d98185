use vstd::prelude::*;
use crate::text::chars_of;

verus! {

#[verifier::external_type_specification]
#[verifier::external_body]
pub struct ExBytesRegex(regex::bytes::Regex);

#[verifier::external_type_specification]
#[verifier::external_body]
pub struct ExFancyRegex(fancy_regex::Regex);

/// What `regex::bytes::Regex::new` does with a pattern: `None` when it
/// compiles, otherwise the text of the error it reports.
pub uninterp spec fn regex_compile_error(pattern: Seq<char>) -> Option<Seq<char>>;

/// What `regex::bytes::Regex::is_match` answers for the regex compiled from
/// `pattern` on `text`.
pub uninterp spec fn regex_is_match(pattern: Seq<char>, text: Seq<u8>) -> bool;

/// What `regex::bytes::Regex::captures_iter` yields for the regex compiled
/// from `pattern` on `text`: for each successive match, the byte span of
/// every capture group (group 0 being the whole match), `None` for a group
/// that did not take part.
pub uninterp spec fn regex_captures(pattern: Seq<char>, text: Seq<u8>) -> Seq<Seq<Option<(usize, usize)>>>;

/// What building a `fancy_regex::Regex` from `pattern` (bytes input,
/// Unicode classes) does: `None` when it compiles, otherwise the text of
/// the error.
pub uninterp spec fn fancy_compile_error(pattern: Seq<char>) -> Option<Seq<char>>;

/// Whether `fancy_regex::Regex::is_match` answers `Ok(true)` for the regex
/// built from `pattern` on `text`.
pub uninterp spec fn fancy_is_match(pattern: Seq<char>, text: Seq<u8>) -> bool;

/// The spans of the captures that `fancy_regex::Regex::captures_iter`
/// yields for the regex built from `pattern` on `text`, up to the first
/// error it reports, if any.
pub uninterp spec fn fancy_captures(pattern: Seq<char>, text: Seq<u8>) -> Seq<Seq<Option<(usize, usize)>>>;

/// A pattern that the `regex` crate compiles is matched by it; one that it
/// refuses (one with a backreference) is matched by `fancy_regex`.
pub open spec fn by_regex_crate(pattern: Seq<char>) -> bool {
    regex_compile_error(pattern) is None
}

/// Whether `p` holds a backreference `\1` to `\9` from position `i` on
/// (an escaped character is skipped as a whole).
pub open spec fn backref_from(p: Seq<char>, i: int) -> bool
    decreases p.len() - i,
{
    if i < 0 || i + 1 >= p.len() {
        false
    } else if p[i] == '\\' {
        ('1' <= p[i + 1] && p[i + 1] <= '9') || backref_from(p, i + 2)
    } else {
        backref_from(p, i + 1)
    }
}

/// The error of compiling `pattern`: `None` where the `regex` crate takes
/// it, or where it holds a backreference and `fancy_regex` takes it;
/// otherwise the error that the `regex` crate reports.
pub open spec fn sed_compile_error(pattern: Seq<char>) -> Option<Seq<char>> {
    if by_regex_crate(pattern) || (backref_from(pattern, 0) && fancy_compile_error(pattern) is None) {
        None
    } else {
        regex_compile_error(pattern)
    }
}

/// Whether `pattern` holds a backreference.
fn has_backreference(pattern: &str) -> (b: bool)
    ensures
        b == backref_from(pattern@, 0),
{
    let c = chars_of(pattern);
    let mut i: usize = 0;
    while i < c.len() && i + 1 < c.len()
        invariant
            i <= c.len(),
            c@ == pattern@,
            backref_from(pattern@, i as int) == backref_from(pattern@, 0),
        decreases c.len() - i,
    {
        if c[i] == '\\' {
            if '1' <= c[i + 1] && c[i + 1] <= '9' {
                return true;
            }
            i += 2;
        } else {
            i += 1;
        }
    }
    false
}

/// Whether the compiled `pattern` matches somewhere in `text`.
pub open spec fn sed_is_match(pattern: Seq<char>, text: Seq<u8>) -> bool {
    if by_regex_crate(pattern) {
        regex_is_match(pattern, text)
    } else {
        fancy_is_match(pattern, text)
    }
}

/// The successive matches of the compiled `pattern` in `text`, each as the
/// spans of its groups.
pub open spec fn sed_captures(pattern: Seq<char>, text: Seq<u8>) -> Seq<Seq<Option<(usize, usize)>>> {
    if by_regex_crate(pattern) {
        regex_captures(pattern, text)
    } else {
        fancy_captures(pattern, text)
    }
}

/// Where a group's span starts (0 for a group that did not take part).
pub open spec fn span_start(g: Option<(usize, usize)>) -> int {
    match g {
        Some(sp) => sp.0 as int,
        None => 0,
    }
}

/// Where a group's span ends (0 for a group that did not take part).
pub open spec fn span_end(g: Option<(usize, usize)>) -> int {
    match g {
        Some(sp) => sp.1 as int,
        None => 0,
    }
}

/// The spans that a capture iterator reports are well formed: every match
/// has a group 0, every span lies inside the text, and the matches come in
/// order without overlapping.
pub open spec fn captures_well_formed(caps: Seq<Seq<Option<(usize, usize)>>>, text_len: nat) -> bool {
    &&& forall|k: int| 0 <= k < caps.len() ==> (#[trigger] caps[k]).len() >= 1 && caps[k][0] is Some
    &&& forall|k: int, g: int| 0 <= k < caps.len() && 0 <= g < caps[k].len() && (#[trigger] caps[k][g]) is Some
        ==> span_start(caps[k][g]) <= span_end(caps[k][g]) && span_end(caps[k][g]) <= text_len
    &&& forall|k: int| 0 <= k && k + 1 < caps.len() ==> span_end((#[trigger] caps[k])[0]) <= span_start(caps[k + 1][0])
}

/// `regex::bytes::Regex::new`: the contract claims that the outcome is a
/// function of the pattern alone, and that an error is reported by its
/// display text.
#[verifier::external_body]
fn compile_bytes_regex(pattern: &str) -> (r: Result<regex::bytes::Regex, String>)
    ensures
        match r {
            Ok(_) => regex_compile_error(pattern@) is None,
            Err(m) => regex_compile_error(pattern@) == Some(m@),
        },
{
    regex::bytes::Regex::new(pattern).map_err(|e| e.to_string())
}

/// `fancy_regex::RegexBuilder::build` for `pattern` with
/// `BytesMode::UnicodeBytes` (any bytes as input, Unicode classes, as the
/// `regex` crate's byte regexes have them): the contract claims that the
/// outcome is a function of the pattern alone.
#[verifier::external_body]
fn compile_fancy_regex(pattern: &str) -> (r: Result<fancy_regex::Regex, String>)
    ensures
        match r {
            Ok(_) => fancy_compile_error(pattern@) is None,
            Err(m) => fancy_compile_error(pattern@) == Some(m@),
        },
{
    fancy_regex::RegexBuilder::new(pattern).bytes_mode(fancy_regex::BytesMode::UnicodeBytes).build().map_err(|e| e.to_string())
}

/// `Clone` of `regex::bytes::Regex`; nothing is claimed of the copy here,
/// `PlainRegex::clone` keeps the pattern beside it.
#[verifier::external_body]
fn clone_bytes_regex(re: &regex::bytes::Regex) -> regex::bytes::Regex {
    re.clone()
}

/// `Clone` of `fancy_regex::Regex`; nothing is claimed of the copy here,
/// `FancyRegex::clone` keeps the pattern beside it.
#[verifier::external_body]
fn clone_fancy_regex(re: &fancy_regex::Regex) -> fancy_regex::Regex {
    re.clone()
}

/// A pattern compiled by the `regex` crate, with the pattern beside it.
/// Only `SedRegex::new` makes one, so the compiled form belongs to
/// `self@`.
#[derive(Debug)]
struct PlainRegex {
    re: regex::bytes::Regex,
    pattern: String,
}

impl View for PlainRegex {
    type V = Seq<char>;

    closed spec fn view(&self) -> Seq<char> {
        self.pattern@
    }
}

impl Clone for PlainRegex {
    fn clone(&self) -> (r: Self)
        ensures
            r@ == self@,
    {
        PlainRegex { re: clone_bytes_regex(&self.re), pattern: self.pattern.clone() }
    }
}

impl PlainRegex {
    /// `regex::bytes::Regex::is_match` on the compiled pattern.
    #[verifier::external_body]
    fn is_match(&self, text: &[u8]) -> (b: bool)
        ensures
            b == regex_is_match(self@, text@),
    {
        self.re.is_match(text)
    }

    /// `regex::bytes::Regex::captures_iter` on the compiled pattern, each
    /// match given as the spans of its groups.
    #[verifier::external_body]
    fn captures_all(&self, text: &[u8]) -> (caps: Vec<Vec<Option<(usize, usize)>>>)
        ensures
            caps.deep_view() == regex_captures(self@, text@),
            captures_well_formed(caps.deep_view(), text@.len()),
    {
        self.re.captures_iter(text).map(|c| c.iter().map(|g| g.map(|m| (m.start(), m.end()))).collect()).collect()
    }
}

/// A pattern compiled by `fancy_regex`, with the pattern beside it. Only
/// `SedRegex::new` makes one, so the compiled form belongs to `self@`.
#[derive(Debug)]
struct FancyRegex {
    re: fancy_regex::Regex,
    pattern: String,
}

impl View for FancyRegex {
    type V = Seq<char>;

    closed spec fn view(&self) -> Seq<char> {
        self.pattern@
    }
}

impl Clone for FancyRegex {
    fn clone(&self) -> (r: Self)
        ensures
            r@ == self@,
    {
        FancyRegex { re: clone_fancy_regex(&self.re), pattern: self.pattern.clone() }
    }
}

impl FancyRegex {
    /// `fancy_regex::Regex::is_match` on the compiled pattern; an error
    /// (the backtracking limit reached) counts as no match.
    #[verifier::external_body]
    fn is_match(&self, text: &[u8]) -> (b: bool)
        ensures
            b == fancy_is_match(self@, text@),
    {
        self.re.is_match(text).unwrap_or(false)
    }

    /// `fancy_regex::Regex::captures_iter` on the compiled pattern, each
    /// match given as the spans of its groups; the matches end at the first
    /// error.
    #[verifier::external_body]
    fn captures_all(&self, text: &[u8]) -> (caps: Vec<Vec<Option<(usize, usize)>>>)
        ensures
            caps.deep_view() == fancy_captures(self@, text@),
            captures_well_formed(caps.deep_view(), text@.len()),
    {
        self.re.captures_iter(text).map_while(|c| c.ok()).map(|c| c.iter().map(|g| g.map(|m| (m.start(), m.end()))).collect()).collect()
    }
}

/// How a pattern was compiled.
#[derive(Debug)]
enum Compiled {
    Plain(PlainRegex),
    Fancy(FancyRegex),
}

/// A compiled regular expression together with the pattern it was compiled
/// from: by the `regex` crate where it takes the pattern, otherwise by
/// `fancy_regex` (which takes backreferences).
#[derive(Debug)]
pub struct SedRegex {
    compiled: Compiled,
}

impl View for SedRegex {
    type V = Seq<char>;

    closed spec fn view(&self) -> Seq<char> {
        match self.compiled {
            Compiled::Plain(p) => p@,
            Compiled::Fancy(f) => f@,
        }
    }
}

impl SedRegex {
    /// The engine that compiled the pattern is the one `by_regex_crate`
    /// names.
    #[verifier::type_invariant]
    closed spec fn compiled_by_rule(&self) -> bool {
        (self.compiled is Plain) == by_regex_crate(self@)
    }
}

impl Clone for SedRegex {
    fn clone(&self) -> (r: Self)
        ensures
            r@ == self@,
    {
        proof { use_type_invariant(self); }
        match &self.compiled {
            Compiled::Plain(p) => SedRegex { compiled: Compiled::Plain(p.clone()) },
            Compiled::Fancy(f) => SedRegex { compiled: Compiled::Fancy(f.clone()) },
        }
    }
}

impl SedRegex {
    /// Compiles `pattern`: with the `regex` crate, or where it refuses a
    /// pattern that holds a backreference, with `fancy_regex`; otherwise
    /// the error is the one the `regex` crate reports.
    pub fn new(pattern: &str) -> (r: Result<SedRegex, String>)
        ensures
            match r {
                Ok(re) => re@ == pattern@ && sed_compile_error(pattern@) is None,
                Err(m) => sed_compile_error(pattern@) == Some(m@),
            },
    {
        match compile_bytes_regex(pattern) {
            Ok(re) => Ok(SedRegex { compiled: Compiled::Plain(PlainRegex { re, pattern: pattern.to_owned() }) }),
            Err(m) => if has_backreference(pattern) {
                match compile_fancy_regex(pattern) {
                    Ok(re) => Ok(SedRegex { compiled: Compiled::Fancy(FancyRegex { re, pattern: pattern.to_owned() }) }),
                    Err(_) => Err(m),
                }
            } else {
                Err(m)
            },
        }
    }

    /// The pattern this regex was compiled from.
    pub fn as_str(&self) -> (s: &str)
        ensures
            s@ == self@,
    {
        match &self.compiled {
            Compiled::Plain(p) => p.pattern.as_str(),
            Compiled::Fancy(f) => f.pattern.as_str(),
        }
    }

    /// Whether the regex matches somewhere in `text`.
    pub(crate) fn is_match(&self, text: &[u8]) -> (b: bool)
        ensures
            b == sed_is_match(self@, text@),
    {
        proof { use_type_invariant(self); }
        match &self.compiled {
            Compiled::Plain(p) => p.is_match(text),
            Compiled::Fancy(f) => f.is_match(text),
        }
    }

    /// The successive matches of the regex in `text`, each as the spans of
    /// its groups.
    pub(crate) fn captures_all(&self, text: &[u8]) -> (caps: Vec<Vec<Option<(usize, usize)>>>)
        ensures
            caps.deep_view() == sed_captures(self@, text@),
            captures_well_formed(caps.deep_view(), text@.len()),
    {
        proof { use_type_invariant(self); }
        match &self.compiled {
            Compiled::Plain(p) => p.captures_all(text),
            Compiled::Fancy(f) => f.captures_all(text),
        }
    }
}

} // verus!
