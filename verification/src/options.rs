use vstd::prelude::*;
use crate::text::{chars_of, decimal, push_decimal, push_str, string_from_chars};
use crate::types::{Options, ScriptEntry, ScriptSource};

verus! {

/// Where a script came from, with a file name as characters.
pub enum SourceView {
    Expression(usize),
    File(Seq<char>),
}

pub open spec fn source_view(s: ScriptSource) -> SourceView {
    match s {
        ScriptSource::Expression(n) => SourceView::Expression(n),
        ScriptSource::File(f) => SourceView::File(f@),
    }
}

/// The options, with text as characters.
#[verifier::ext_equal]
pub struct OptionsView {
    pub in_place: Option<Seq<char>>,
    pub quiet: bool,
    pub extended: bool,
    pub scripts: Seq<(SourceView, Seq<char>)>,
    pub files: Seq<Seq<char>>,
    pub posix: bool,
    pub unbuffered: bool,
    pub null_data: bool,
    pub separate: bool,
    pub sandbox: bool,
    pub follow_symlinks: bool,
    pub line_length: usize,
}

pub open spec fn options_view(o: Options) -> OptionsView {
    OptionsView {
        in_place: match o.in_place {
            Some(s) => Some(s@),
            None => None,
        },
        quiet: o.quiet,
        extended: o.extended,
        scripts: o.scripts@.map_values(|e: ScriptEntry| (source_view(e.source), e.content@)),
        files: o.files@.map_values(|f: String| f@),
        posix: o.posix,
        unbuffered: o.unbuffered,
        null_data: o.null_data,
        separate: o.separate,
        sandbox: o.sandbox,
        follow_symlinks: o.follow_symlinks,
        line_length: o.line_length,
    }
}

/// The options before any argument is read.
pub open spec fn default_options() -> OptionsView {
    OptionsView {
        in_place: None,
        quiet: false,
        extended: false,
        scripts: Seq::empty(),
        files: Seq::empty(),
        posix: false,
        unbuffered: false,
        null_data: false,
        separate: false,
        sandbox: false,
        follow_symlinks: false,
        line_length: 70,
    }
}

/// Where the reading of the arguments stands: the options so far, how
/// many `-e` expressions were seen, and whether `--` was seen.
#[verifier::ext_equal]
pub struct ArgsView {
    pub opts: OptionsView,
    pub expr_count: int,
    pub dashdash: bool,
    /// An `-l` set the width.
    pub width_given: bool,
}

/// What comes of reading an argument.
pub enum ArgStep {
    /// Go on with the argument at this index.
    Next(usize),
    /// Read this script file (`-`: standard input), hand its text to
    /// `add_script_file`, then go on with the argument at this index.
    ReadScript(String, usize),
    /// `--version`: print the version and exit with 0.
    Version,
    /// `--help`: print the full usage and exit with 0.
    Help,
    /// Report this error (after `sed: `) and exit with 2.
    Fail(String),
}

pub enum ArgStepView {
    Next(int),
    ReadScript(Seq<char>, int),
    Version,
    Help,
    Fail(Seq<char>),
}

pub open spec fn arg_step_view(s: ArgStep) -> ArgStepView {
    match s {
        ArgStep::Next(i) => ArgStepView::Next(i as int),
        ArgStep::ReadScript(f, i) => ArgStepView::ReadScript(f@, i as int),
        ArgStep::Version => ArgStepView::Version,
        ArgStep::Help => ArgStepView::Help,
        ArgStep::Fail(m) => ArgStepView::Fail(m@),
    }
}

/// `s` starts with `p`.
pub open spec fn has_prefix(s: Seq<char>, p: Seq<char>) -> bool {
    s.len() >= p.len() && s.subrange(0, p.len() as int) == p
}

/// The value of the decimal digits `t[i..j]`.
pub open spec fn digits_of(t: Seq<char>, i: int, j: int) -> nat
    decreases j - i,
{
    if j <= i {
        0
    } else {
        digits_of(t, i, j - 1) * 10 + (t[j - 1] as u32 - 48) as nat
    }
}

/// `str::parse::<usize>` on `t`: an optional `+`, then one or more
/// decimal digits whose value fits.
pub open spec fn parse_usize(t: Seq<char>) -> Option<usize> {
    let start: int = if t.len() > 0 && t[0] == '+' { 1 } else { 0 };
    if start >= t.len() {
        None
    } else if exists|k: int| start <= k < t.len() && !('0' <= #[trigger] t[k] && t[k] <= '9') {
        None
    } else if digits_of(t, start, t.len() as int) > usize::MAX {
        None
    } else {
        Some(digits_of(t, start, t.len() as int) as usize)
    }
}

/// A line width given as `t`: its value, or 70 if it is not a number.
pub open spec fn width_of(t: Seq<char>) -> usize {
    match parse_usize(t) {
        Some(n) => n,
        None => 70,
    }
}

/// The number of the next `-e` expression (kept at `usize::MAX` past it).
pub open spec fn next_count(n: int) -> int {
    if n < usize::MAX { n + 1 } else { n }
}

pub open spec fn with_script(a: ArgsView, t: Seq<char>) -> ArgsView {
    ArgsView {
        opts: OptionsView { scripts: a.opts.scripts.push((SourceView::Expression(next_count(a.expr_count) as usize), t)), ..a.opts },
        expr_count: next_count(a.expr_count),
        ..a
    }
}

pub open spec fn with_opts(a: ArgsView, o: OptionsView) -> ArgsView {
    ArgsView { opts: o, ..a }
}

/// `a` after an `-l` that sets the width to `w`.
pub open spec fn with_width(a: ArgsView, w: usize) -> ArgsView {
    ArgsView { opts: OptionsView { line_length: w, ..a.opts }, width_given: true, ..a }
}

/// The options after a letter of a group of short options that sets a
/// flag (`None`: the letter is not such a flag).
pub open spec fn flag_letter(o: OptionsView, c: char) -> Option<OptionsView> {
    if c == 'n' {
        Some(OptionsView { quiet: true, ..o })
    } else if c == 'E' || c == 'r' {
        Some(OptionsView { extended: true, ..o })
    } else if c == 'u' {
        Some(OptionsView { unbuffered: true, ..o })
    } else if c == 'z' {
        Some(OptionsView { null_data: true, ..o })
    } else if c == 's' {
        Some(OptionsView { separate: true, ..o })
    } else {
        None
    }
}

/// A letter that ends a group of short options, at `j` in `chars` (the
/// group of the argument at `i`): `e`, `f`, `i`, `l` take the rest of the
/// group (or, for `e`, `f`, `l`, the next argument) as their value; any
/// other letter is not an option.
pub open spec fn value_letter(a: ArgsView, args: Seq<Seq<char>>, i: int, chars: Seq<char>, j: int) -> (ArgsView, ArgStepView) {
    let c = chars[j];
    let rest = chars.subrange(j + 1, chars.len() as int);
    if c == 'e' {
        if rest.len() > 0 {
            (with_script(a, rest), ArgStepView::Next(i + 1))
        } else if i + 1 < args.len() {
            (with_script(a, args[i + 1]), ArgStepView::Next(i + 2))
        } else {
            (ArgsView { expr_count: next_count(a.expr_count), ..a }, ArgStepView::Next(args.len() as int))
        }
    } else if c == 'f' {
        if rest.len() > 0 {
            (a, ArgStepView::ReadScript(rest, i + 1))
        } else if i + 1 < args.len() {
            if args[i + 1].len() > 0 {
                (a, ArgStepView::ReadScript(args[i + 1], i + 2))
            } else {
                (a, ArgStepView::Next(i + 2))
            }
        } else {
            (a, ArgStepView::Next(args.len() as int))
        }
    } else if c == 'i' {
        (with_opts(a, OptionsView { in_place: Some(rest), ..a.opts }), ArgStepView::Next(i + 1))
    } else if c == 'l' {
        if rest.len() > 0 {
            (with_width(a, width_of(rest)), ArgStepView::Next(i + 1))
        } else if i + 1 < args.len() {
            (with_width(a, width_of(args[i + 1])), ArgStepView::Next(i + 2))
        } else {
            (with_width(a, 70), ArgStepView::Next(args.len() as int))
        }
    } else {
        (a, ArgStepView::Fail("invalid option -- '"@ + seq![c] + "'"@))
    }
}

/// The letters of a group of short options `chars` from `j` on, in the
/// argument at `i`: flags set their options until a letter that ends the
/// group.
pub open spec fn letters_from(a: ArgsView, args: Seq<Seq<char>>, i: int, chars: Seq<char>, j: int) -> (ArgsView, ArgStepView)
    decreases chars.len() - j,
{
    if j < 0 || j >= chars.len() {
        (a, ArgStepView::Next(i + 1))
    } else {
        match flag_letter(a.opts, chars[j]) {
            Some(o) => letters_from(with_opts(a, o), args, i, chars, j + 1),
            None => value_letter(a, args, i, chars, j),
        }
    }
}

/// Reading the argument at `i` (`i < args.len()`).
pub open spec fn arg_spec(a: ArgsView, args: Seq<Seq<char>>, i: int) -> (ArgsView, ArgStepView) {
    let s = args[i];
    let o = a.opts;
    if a.dashdash {
        (with_opts(a, OptionsView { files: o.files.push(s), ..o }), ArgStepView::Next(i + 1))
    } else if s == "--"@ {
        (ArgsView { dashdash: true, ..a }, ArgStepView::Next(i + 1))
    } else if s == "--version"@ {
        (a, ArgStepView::Version)
    } else if s == "--help"@ {
        (a, ArgStepView::Help)
    } else if s == "-n"@ || s == "--quiet"@ || s == "--silent"@ {
        (with_opts(a, OptionsView { quiet: true, ..o }), ArgStepView::Next(i + 1))
    } else if s == "-E"@ || s == "-r"@ || s == "--regexp-extended"@ {
        (with_opts(a, OptionsView { extended: true, ..o }), ArgStepView::Next(i + 1))
    } else if s == "-e"@ {
        if i + 1 < args.len() {
            (with_script(a, args[i + 1]), ArgStepView::Next(i + 2))
        } else {
            (a, ArgStepView::Next(args.len() as int))
        }
    } else if s == "-f"@ {
        if i + 1 < args.len() {
            (a, ArgStepView::ReadScript(args[i + 1], i + 2))
        } else {
            (a, ArgStepView::Next(args.len() as int))
        }
    } else if s == "-i"@ {
        (with_opts(a, OptionsView { in_place: Some(Seq::empty()), ..o }), ArgStepView::Next(i + 1))
    } else if s == "-s"@ || s == "--separate"@ {
        (with_opts(a, OptionsView { separate: true, ..o }), ArgStepView::Next(i + 1))
    } else if s == "-u"@ || s == "--unbuffered"@ {
        (with_opts(a, OptionsView { unbuffered: true, ..o }), ArgStepView::Next(i + 1))
    } else if s == "-z"@ || s == "--null-data"@ {
        (with_opts(a, OptionsView { null_data: true, ..o }), ArgStepView::Next(i + 1))
    } else if s == "--posix"@ {
        (with_opts(a, OptionsView { posix: true, ..o }), ArgStepView::Next(i + 1))
    } else if s == "--sandbox"@ {
        (with_opts(a, OptionsView { sandbox: true, ..o }), ArgStepView::Next(i + 1))
    } else if s == "--follow-symlinks"@ {
        (with_opts(a, OptionsView { follow_symlinks: true, ..o }), ArgStepView::Next(i + 1))
    } else if s == "-l"@ {
        if i + 1 < args.len() {
            (with_width(a, width_of(args[i + 1])), ArgStepView::Next(i + 2))
        } else {
            (a, ArgStepView::Next(args.len() as int))
        }
    } else if has_prefix(s, "-i"@) {
        (with_opts(a, OptionsView { in_place: Some(s.subrange(2, s.len() as int)), ..o }), ArgStepView::Next(i + 1))
    } else if has_prefix(s, "-e"@) {
        (with_script(a, s.subrange(2, s.len() as int)), ArgStepView::Next(i + 1))
    } else if has_prefix(s, "-f"@) {
        (a, ArgStepView::ReadScript(s.subrange(2, s.len() as int), i + 1))
    } else if has_prefix(s, "-"@) && !has_prefix(s, "--"@) && s.len() > 1 {
        letters_from(a, args, i, s.subrange(1, s.len() as int), 0)
    } else if has_prefix(s, "-"@) && s.len() > 2 {
        (a, ArgStepView::Fail("unrecognized option '"@ + s + "'"@))
    } else if o.scripts.len() == 0 {
        (with_script(a, s), ArgStepView::Next(i + 1))
    } else {
        (with_opts(a, OptionsView { files: o.files.push(s), ..o }), ArgStepView::Next(i + 1))
    }
}

/// `a` and `b` hold the same characters.
fn same_text(a: &Vec<char>, b: &str) -> (r: bool)
    ensures
        r == (a@ == b@),
{
    let bc = chars_of(b);
    if a.len() != bc.len() {
        return false;
    }
    let mut k: usize = 0;
    while k < a.len()
        invariant
            k <= a.len() == bc.len(),
            bc@ == b@,
            forall|m: int| 0 <= m < k ==> a@[m] == bc@[m],
        decreases a.len() - k,
    {
        if a[k] != bc[k] {
            return false;
        }
        k += 1;
    }
    assert(a@ =~= bc@);
    true
}

/// `a` starts with the characters of `p`.
fn starts_with_text(a: &Vec<char>, p: &str) -> (r: bool)
    ensures
        r == has_prefix(a@, p@),
{
    let pc = chars_of(p);
    if a.len() < pc.len() {
        return false;
    }
    let mut k: usize = 0;
    while k < pc.len()
        invariant
            k <= pc.len() <= a.len(),
            pc@ == p@,
            forall|m: int| 0 <= m < k ==> a@[m] == pc@[m],
        decreases pc.len() - k,
    {
        if a[k] != pc[k] {
            assert(a@.subrange(0, pc@.len() as int)[k as int] != pc@[k as int]);
            return false;
        }
        k += 1;
    }
    assert(a@.subrange(0, pc@.len() as int) =~= pc@);
    true
}

/// The characters `t[lo..]` as a string.
fn tail_text(t: &Vec<char>, lo: usize) -> (s: String)
    requires
        lo <= t.len(),
    ensures
        s@ == t@.subrange(lo as int, t.len() as int),
{
    let mut v: Vec<char> = Vec::new();
    let mut k = lo;
    while k < t.len()
        invariant
            lo <= k <= t.len(),
            v@ == t@.subrange(lo as int, k as int),
        decreases t.len() - k,
    {
        v.push(t[k]);
        k += 1;
        assert(v@ =~= t@.subrange(lo as int, k as int));
    }
    string_from_chars(v.as_slice())
}

proof fn lemma_digits_grow(t: Seq<char>, i: int, j: int, k: int)
    requires
        i <= j <= k,
        forall|m: int| j <= m < k ==> '0' <= #[trigger] t[m] && t[m] <= '9',
    ensures
        digits_of(t, i, j) <= digits_of(t, i, k),
    decreases k - j,
{
    if j < k {
        lemma_digits_grow(t, i, j, k - 1);
    }
}

/// `str::parse::<usize>` on `t`, or 70.
fn width_exec(t: &Vec<char>) -> (n: usize)
    ensures
        n == width_of(t@),
{
    match parse_usize_exec(t) {
        Some(n) => n,
        None => 70,
    }
}

/// Sets the flag that the letter `c` of a group of short options stands
/// for; `false` if it stands for none.
fn set_flag(o: &mut Options, c: char) -> (b: bool)
    ensures
        b == flag_letter(options_view(*old(o)), c) is Some,
        b ==> options_view(*final(o)) == flag_letter(options_view(*old(o)), c)->0,
        !b ==> *final(o) == *old(o),
{
    if c == 'n' {
        o.quiet = true;
    } else if c == 'E' || c == 'r' {
        o.extended = true;
    } else if c == 'u' {
        o.unbuffered = true;
    } else if c == 'z' {
        o.null_data = true;
    } else if c == 's' {
        o.separate = true;
    } else {
        return false;
    }
    assert(options_view(*o) =~= flag_letter(options_view(*old(o)), c)->0);
    true
}

/// Reads the command-line arguments one at a time.
pub struct ArgParser {
    opts: Options,
    expr_count: usize,
    saw_dashdash: bool,
    width_given: bool,
}

impl View for ArgParser {
    type V = ArgsView;

    closed spec fn view(&self) -> ArgsView {
        ArgsView { opts: options_view(self.opts), expr_count: self.expr_count as int, dashdash: self.saw_dashdash, width_given: self.width_given }
    }
}

impl ArgParser {
    pub fn new() -> (p: ArgParser)
        ensures
            p@ == (ArgsView { opts: default_options(), expr_count: 0, dashdash: false, width_given: false }),
    {
        let p = ArgParser {
            opts: Options {
                in_place: None,
                quiet: false,
                extended: false,
                scripts: Vec::new(),
                files: Vec::new(),
                posix: false,
                unbuffered: false,
                null_data: false,
                separate: false,
                sandbox: false,
                follow_symlinks: false,
                line_length: 70,
            },
            expr_count: 0,
            saw_dashdash: false,
            width_given: false,
        };
        assert(p@.opts.scripts =~= Seq::<(SourceView, Seq<char>)>::empty());
        assert(p@.opts.files =~= Seq::<Seq<char>>::empty());
        p
    }

    fn push_expression(&mut self, text: String)
        ensures
            final(self)@ == with_script(old(self)@, text@),
    {
        self.expr_count = self.expr_count.saturating_add(1);
        let ghost before = self.opts.scripts@;
        self.opts.scripts.push(ScriptEntry { source: ScriptSource::Expression(self.expr_count), content: text });
        assert(self@.opts.scripts =~= old(self)@.opts.scripts.push((SourceView::Expression(self.expr_count), text@)));
        assert(self@ =~= with_script(old(self)@, text@));
    }

    fn push_file(&mut self, name: String)
        ensures
            final(self)@ == with_opts(old(self)@, OptionsView { files: old(self)@.opts.files.push(name@), ..old(self)@.opts }),
    {
        self.opts.files.push(name);
        assert(self@.opts.files =~= old(self)@.opts.files.push(name@));
    }

    /// A script read from the file `name`.
    pub fn add_script_file(&mut self, name: String, content: String)
        ensures
            final(self)@ == with_opts(old(self)@, OptionsView {
                scripts: old(self)@.opts.scripts.push((SourceView::File(name@), content@)),
                ..old(self)@.opts
            }),
    {
        let ghost n = name@;
        let ghost c = content@;
        self.opts.scripts.push(ScriptEntry { source: ScriptSource::File(name), content });
        assert(self@.opts.scripts =~= old(self)@.opts.scripts.push((SourceView::File(n), c)));
    }

    /// A letter that ends a group of short options: `e`, `f`, `i`, `l`
    /// with their values, or one that is not an option (see
    /// `letters_from`).
    #[verifier::rlimit(90)]
    fn last_letter(&mut self, args: &Vec<String>, i: usize, chars: &Vec<char>, j: usize) -> (r: ArgStep)
        requires
            i < args.len(),
            j < chars.len(),
        ensures
            (final(self)@, arg_step_view(r)) == value_letter(old(self)@, args@.map_values(|s: String| s@), i as int, chars@, j as int),
    {
        let ghost av = args@.map_values(|s: String| s@);
        let c = chars[j];
        if c == 'e' {
            if j + 1 < chars.len() {
                let rest = tail_text(chars, j + 1);
                self.push_expression(rest);
                ArgStep::Next(i + 1)
            } else if i + 1 < args.len() {
                assert(av[i + 1] == args@[i + 1]@);
                self.push_expression(args[i + 1].clone());
                ArgStep::Next(i + 2)
            } else {
                self.expr_count = self.expr_count.saturating_add(1);
                assert(self@ =~= (ArgsView { expr_count: next_count(old(self)@.expr_count), ..old(self)@ }));
                ArgStep::Next(args.len())
            }
        } else if c == 'f' {
            if j + 1 < chars.len() {
                ArgStep::ReadScript(tail_text(chars, j + 1), i + 1)
            } else if i + 1 < args.len() {
                assert(av[i + 1] == args@[i + 1]@);
                let f = args[i + 1].clone();
                let fc = chars_of(f.as_str());
                assert(fc@.len() == av[i + 1].len());
                if fc.len() > 0 {
                    ArgStep::ReadScript(f, i + 2)
                } else {
                    ArgStep::Next(i + 2)
                }
            } else {
                ArgStep::Next(args.len())
            }
        } else if c == 'i' {
            self.opts.in_place = Some(tail_text(chars, j + 1));
            assert(self@ =~= with_opts(old(self)@, OptionsView {
                in_place: Some(chars@.subrange(j + 1, chars@.len() as int)),
                ..old(self)@.opts
            }));
            ArgStep::Next(i + 1)
        } else if c == 'l' {
            if j + 1 < chars.len() {
                let mut rest: Vec<char> = Vec::new();
                let mut k = j + 1;
                while k < chars.len()
                    invariant
                        j + 1 <= k <= chars.len(),
                        rest@ == chars@.subrange(j + 1, k as int),
                    decreases chars.len() - k,
                {
                    rest.push(chars[k]);
                    k += 1;
                    assert(rest@ =~= chars@.subrange(j + 1, k as int));
                }
                self.opts.line_length = width_exec(&rest);
                self.width_given = true;
                assert(self@ =~= with_width(old(self)@, width_of(chars@.subrange(j + 1, chars@.len() as int))));
                ArgStep::Next(i + 1)
            } else if i + 1 < args.len() {
                assert(av[i + 1] == args@[i + 1]@);
                let t = chars_of(args[i + 1].as_str());
                self.opts.line_length = width_exec(&t);
                self.width_given = true;
                assert(self@ =~= with_width(old(self)@, width_of(av[i + 1])));
                ArgStep::Next(i + 2)
            } else {
                self.opts.line_length = 70;
                self.width_given = true;
                assert(self@ =~= with_width(old(self)@, 70));
                ArgStep::Next(args.len())
            }
        } else {
            let mut msg: Vec<char> = Vec::new();
            push_str(&mut msg, "invalid option -- '");
            msg.push(c);
            push_str(&mut msg, "'");
            assert(msg@ =~= "invalid option -- '"@ + seq![c] + "'"@);
            ArgStep::Fail(string_from_chars(msg.as_slice()))
        }
    }

    /// The letters of a group of short options (see `letters_from`).
    fn letters(&mut self, args: &Vec<String>, i: usize, chars: &Vec<char>) -> (r: ArgStep)
        requires
            i < args.len(),
        ensures
            (final(self)@, arg_step_view(r)) == letters_from(old(self)@, args@.map_values(|s: String| s@), i as int, chars@, 0),
    {
        let ghost av = args@.map_values(|s: String| s@);
        let ghost a0 = self@;
        let mut j: usize = 0;
        while j < chars.len()
            invariant
                j <= chars.len(),
                i < args.len(),
                av == args@.map_values(|s: String| s@),
                letters_from(self@, av, i as int, chars@, j as int) == letters_from(a0, av, i as int, chars@, 0),
                a0 == old(self)@,
            decreases chars.len() - j,
        {
            let ghost before = self@;
            if !set_flag(&mut self.opts, chars[j]) {
                return self.last_letter(args, i, chars, j);
            }
            assert(self@ =~= with_opts(before, flag_letter(before.opts, chars@[j as int])->0));
            j += 1;
        }
        ArgStep::Next(i + 1)
    }

    /// Reads the argument at `i` (see `arg_spec`).
    #[verifier::rlimit(60)]
    pub fn parse_arg(&mut self, args: &Vec<String>, i: usize) -> (r: ArgStep)
        requires
            i < args.len(),
        ensures
            (final(self)@, arg_step_view(r)) == arg_spec(old(self)@, args@.map_values(|s: String| s@), i as int),
    {
        let ghost av = args@.map_values(|s: String| s@);
        assert(av[i as int] == args@[i as int]@);
        let s = chars_of(args[i].as_str());
        if self.saw_dashdash {
            self.push_file(args[i].clone());
            return ArgStep::Next(i + 1);
        }
        if same_text(&s, "--") {
            self.saw_dashdash = true;
            return ArgStep::Next(i + 1);
        }
        if same_text(&s, "--version") {
            return ArgStep::Version;
        }
        if same_text(&s, "--help") {
            return ArgStep::Help;
        }
        if same_text(&s, "-n") || same_text(&s, "--quiet") || same_text(&s, "--silent") {
            self.opts.quiet = true;
            return ArgStep::Next(i + 1);
        }
        if same_text(&s, "-E") || same_text(&s, "-r") || same_text(&s, "--regexp-extended") {
            self.opts.extended = true;
            return ArgStep::Next(i + 1);
        }
        if same_text(&s, "-e") {
            if i + 1 < args.len() {
                assert(av[i + 1] == args@[i + 1]@);
                self.push_expression(args[i + 1].clone());
                return ArgStep::Next(i + 2);
            }
            return ArgStep::Next(args.len());
        }
        if same_text(&s, "-f") {
            if i + 1 < args.len() {
                assert(av[i + 1] == args@[i + 1]@);
                return ArgStep::ReadScript(args[i + 1].clone(), i + 2);
            }
            return ArgStep::Next(args.len());
        }
        self.parse_other_arg(args, i, &s)
    }

    /// The rest of `parse_arg`: the options after `-f` in `arg_spec`.
    #[verifier::rlimit(60)]
    fn parse_other_arg(&mut self, args: &Vec<String>, i: usize, s: &Vec<char>) -> (r: ArgStep)
        requires
            i < args.len(),
            s@ == args@[i as int]@,
            !old(self).saw_dashdash,
            s@ != "--"@ && s@ != "--version"@ && s@ != "--help"@ && s@ != "-n"@ && s@ != "--quiet"@
                && s@ != "--silent"@ && s@ != "-E"@ && s@ != "-r"@ && s@ != "--regexp-extended"@ && s@ != "-e"@
                && s@ != "-f"@,
        ensures
            (final(self)@, arg_step_view(r)) == arg_spec(old(self)@, args@.map_values(|s: String| s@), i as int),
    {
        let ghost av = args@.map_values(|s: String| s@);
        assert(av[i as int] == args@[i as int]@);
        proof {
            reveal_strlit("-i");
            reveal_strlit("-e");
            reveal_strlit("-f");
            reveal_strlit("-");
            reveal_strlit("--");
        }
        if same_text(s, "-i") {
            self.opts.in_place = Some(String::new());
            return ArgStep::Next(i + 1);
        }
        if same_text(s, "-s") || same_text(s, "--separate") {
            self.opts.separate = true;
            return ArgStep::Next(i + 1);
        }
        if same_text(s, "-u") || same_text(s, "--unbuffered") {
            self.opts.unbuffered = true;
            return ArgStep::Next(i + 1);
        }
        if same_text(s, "-z") || same_text(s, "--null-data") {
            self.opts.null_data = true;
            return ArgStep::Next(i + 1);
        }
        if same_text(s, "--posix") {
            self.opts.posix = true;
            return ArgStep::Next(i + 1);
        }
        if same_text(s, "--sandbox") {
            self.opts.sandbox = true;
            return ArgStep::Next(i + 1);
        }
        if same_text(s, "--follow-symlinks") {
            self.opts.follow_symlinks = true;
            return ArgStep::Next(i + 1);
        }
        if same_text(s, "-l") {
            if i + 1 < args.len() {
                assert(av[i + 1] == args@[i + 1]@);
                let t = chars_of(args[i + 1].as_str());
                self.opts.line_length = width_exec(&t);
                self.width_given = true;
                return ArgStep::Next(i + 2);
            }
            return ArgStep::Next(args.len());
        }
        if starts_with_text(s, "-i") {
            self.opts.in_place = Some(tail_text(s, 2));
            return ArgStep::Next(i + 1);
        }
        if starts_with_text(s, "-e") {
            self.push_expression(tail_text(s, 2));
            return ArgStep::Next(i + 1);
        }
        if starts_with_text(s, "-f") {
            return ArgStep::ReadScript(tail_text(s, 2), i + 1);
        }
        if starts_with_text(s, "-") && !starts_with_text(s, "--") && s.len() > 1 {
            let mut letters: Vec<char> = Vec::new();
            let mut k: usize = 1;
            while k < s.len()
                invariant
                    1 <= k <= s.len(),
                    letters@ == s@.subrange(1, k as int),
                decreases s.len() - k,
            {
                letters.push(s[k]);
                k += 1;
                assert(letters@ =~= s@.subrange(1, k as int));
            }
            return self.letters(args, i, &letters);
        }
        if starts_with_text(s, "-") && s.len() > 2 {
            let mut msg: Vec<char> = Vec::new();
            push_str(&mut msg, "unrecognized option '");
            let mut a = s.clone();
            msg.append(&mut a);
            push_str(&mut msg, "'");
            return ArgStep::Fail(string_from_chars(msg.as_slice()));
        }
        if self.opts.scripts.len() == 0 {
            self.push_expression(args[i].clone());
        } else {
            self.push_file(args[i].clone());
        }
        ArgStep::Next(i + 1)
    }

    /// The options read, once the arguments are done; `None` when no
    /// script was given (the caller prints the usage and exits with 1).
    /// `cols` is the `COLS` environment variable: where no `-l` was
    /// given and the width is 70, a number above 1 in it sets the width
    /// to one less; an explicit `-l` is never overridden.
    pub fn finish(self, cols: Option<String>) -> (r: Option<Options>)
        ensures
            match r {
                None => self@.opts.scripts.len() == 0,
                Some(o) => self@.opts.scripts.len() > 0 && options_view(o) == (OptionsView {
                    line_length: if self@.width_given {
                        self@.opts.line_length
                    } else {
                        cols_width(self@.opts.line_length, match cols {
                            Some(c) => Some(c@),
                            None => None,
                        })
                    },
                    ..self@.opts
                }),
            },
    {
        let mut opts = self.opts;
        if opts.scripts.len() == 0 {
            return None;
        }
        if !self.width_given && opts.line_length == 70 {
            if let Some(c) = cols {
                let t = chars_of(c.as_str());
                let n = parse_usize_exec(&t);
                if let Some(n) = n {
                    if n > 1 {
                        opts.line_length = n - 1;
                    }
                }
            }
        }
        Some(opts)
    }
}

/// The width of `l` given the width `w` from the options and the `COLS`
/// variable `cols`.
pub open spec fn cols_width(w: usize, cols: Option<Seq<char>>) -> usize {
    if w == 70 {
        match cols {
            Some(c) => match parse_usize(c) {
                Some(n) => if n > 1 { (n - 1) as usize } else { w },
                None => w,
            },
            None => w,
        }
    } else {
        w
    }
}

/// `str::parse::<usize>` on `t`.
fn parse_usize_exec(t: &Vec<char>) -> (r: Option<usize>)
    ensures
        r == parse_usize(t@),
{
    let start: usize = if t.len() > 0 && t[0] == '+' { 1 } else { 0 };
    if start >= t.len() {
        return None;
    }
    let mut v: usize = 0;
    let mut k = start;
    while k < t.len()
        invariant
            start <= k <= t.len(),
            start == (if t@.len() > 0 && t@[0] == '+' { 1int } else { 0int }),
            start < t.len(),
            forall|m: int| start <= m < k ==> '0' <= #[trigger] t@[m] && t@[m] <= '9',
            v == digits_of(t@, start as int, k as int),
        decreases t.len() - k,
    {
        let c = t[k];
        if !('0' <= c && c <= '9') {
            assert(!('0' <= t@[k as int] && t@[k as int] <= '9'));
            return None;
        }
        let d = (c as u32 - 48) as usize;
        assert(digits_of(t@, start as int, k + 1) == digits_of(t@, start as int, k as int) * 10 + d);
        if v > (usize::MAX - d) / 10 {
            assert(v * 10 + d > usize::MAX) by (nonlinear_arith)
                requires
                    v > (usize::MAX - d) / 10,
                    d <= 9,
            ;
            let mut m = k + 1;
            while m < t.len()
                invariant
                    k + 1 <= m <= t.len(),
                    forall|q: int| start <= q < m ==> '0' <= #[trigger] t@[q] && t@[q] <= '9',
                decreases t.len() - m,
            {
                if !('0' <= t[m] && t[m] <= '9') {
                    assert(!('0' <= t@[m as int] && t@[m as int] <= '9'));
                    return None;
                }
                m += 1;
            }
            proof { lemma_digits_grow(t@, start as int, k + 1, t@.len() as int); }
            return None;
        }
        assert(v * 10 + d <= usize::MAX) by (nonlinear_arith)
            requires
                v <= (usize::MAX - d) / 10,
                d <= 9,
        ;
        v = v * 10 + d;
        k += 1;
    }
    Some(v)
}

} // verus!
