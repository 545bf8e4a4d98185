use vstd::prelude::*;
use vstd::string::StringSliceAdditionalSpecFns;
use vstd::utf8::encode_utf8;
use crate::options::{source_view, OptionsView, options_view, SourceView};
use crate::parser::{error_text, script_parses, starts_with_hash_n, ParseCfg, ParseError, Parsed, Parser};
use crate::text::{chars_of, decimal, decode_script_bytes, script_chars, push_decimal, push_str, string_from_chars, utf8_decode};
use crate::types::{layout, lemma_layout_concat, Entry, Options, ScriptEntry, ScriptSource, SedCommand};

verus! {

/// The text of a script file's bytes: UTF-8 where they are valid UTF-8,
/// one character per byte otherwise (an ASCII character, or the raw byte,
/// see `raw_char`).
pub open spec fn script_text(bytes: Seq<u8>) -> Seq<char> {
    script_chars(bytes)
}

/// Decode bytes as UTF-8 if valid, else one character per byte, each byte
/// that is not ASCII kept as a raw byte. This keeps non-UTF-8 bytes in sed
/// scripts addressable as single chars, and the output writes each raw
/// byte back as itself.
pub fn bytes_to_string_latin1(bytes: &[u8]) -> (s: String)
    ensures
        s@ == script_text(bytes@),
{
    let v = decode_script_bytes(bytes);
    string_from_chars(v.as_slice())
}

/// The decimal text of `n`, with a minus sign when it is negative.
pub open spec fn signed_decimal(n: int) -> Seq<char> {
    if n < 0 {
        seq!['-'] + decimal((-n) as nat)
    } else {
        decimal(n as nat)
    }
}

/// The suffix that Rust puts after the text of an operating-system error.
pub open spec fn os_error_suffix(code: i32) -> Seq<char> {
    " (os error "@ + signed_decimal(code as int) + ")"@
}

/// The text of an I/O error as GNU sed prints it: `msg` without the
/// ` (os error N)` that ends it when `code` is its operating-system code.
pub open spec fn io_error_text(msg: Seq<char>, code: Option<i32>) -> Seq<char> {
    match code {
        Some(c) => {
            let suf = os_error_suffix(c);
            if msg.len() >= suf.len() && msg.subrange(msg.len() - suf.len(), msg.len() as int) == suf {
                msg.subrange(0, msg.len() - suf.len())
            } else {
                msg
            }
        },
        None => msg,
    }
}

/// Format an IO error like GNU sed (strip Rust's "(os error N)" suffix):
/// `msg` is the error's text, `code` its operating-system code.
pub fn fmt_io_err(msg: &str, code: Option<i32>) -> (s: String)
    ensures
        s@ == io_error_text(msg@, code),
{
    let m = chars_of(msg);
    match code {
        None => string_from_chars(m.as_slice()),
        Some(c) => {
            let mut suf: Vec<char> = Vec::new();
            push_str(&mut suf, " (os error ");
            if c < 0 {
                suf.push('-');
                let n: usize = (-(c as i64)) as usize;
                push_decimal(n, &mut suf);
            } else {
                push_decimal(c as usize, &mut suf);
            }
            push_str(&mut suf, ")");
            assert(suf@ =~= os_error_suffix(c));
            if m.len() >= suf.len() {
                let start = m.len() - suf.len();
                let mut k: usize = 0;
                let mut same = true;
                while k < suf.len()
                    invariant
                        k <= suf.len(),
                        start + suf.len() == m.len(),
                        same == (forall|q: int| 0 <= q < k ==> m@[start + q] == suf@[q]),
                    decreases suf.len() - k,
                {
                    if m[start + k] != suf[k] {
                        same = false;
                    }
                    k += 1;
                }
                if same {
                    assert(m@.subrange(start as int, m@.len() as int) =~= suf@);
                    let mut head: Vec<char> = Vec::new();
                    let mut q: usize = 0;
                    while q < start
                        invariant
                            q <= start <= m.len(),
                            head@ == m@.subrange(0, q as int),
                        decreases start - q,
                    {
                        head.push(m[q]);
                        q += 1;
                        assert(head@ =~= m@.subrange(0, q as int));
                    }
                    return string_from_chars(head.as_slice());
                } else {
                    assert(m@.subrange(start as int, m@.len() as int) != suf@) by {
                        let q = choose|q: int| 0 <= q < suf.len() && m@[start + q] != #[trigger] suf@[q];
                        assert(m@.subrange(start as int, m@.len() as int)[q] != suf@[q]);
                    }
                }
            }
            string_from_chars(m.as_slice())
        },
    }
}

/// The usage text (`full`: with the line for bug reports).
pub open spec fn usage(full: bool) -> Seq<char> {
    "Usage: sed [OPTION]... {script} [input-file]...\n"@
        + "  -n, --quiet, --silent    suppress automatic printing\n"@
        + "  -e script                add commands\n"@
        + "  -f file                  add commands from file\n"@
        + "  -i[SUFFIX]               edit files in place\n"@
        + "  -E, -r, --regexp-extended use extended regexes\n"@
        + "  -s, --separate           treat files as separate\n"@
        + "  -u, --unbuffered         unbuffered I/O\n"@
        + "  -z, --null-data          NUL-separated lines\n"@
        + "  --posix                  disable extensions\n"@
        + "  --version                print version\n"@
        + "\n"@
        + if full { "E-mail bug reports to: bug-sed@gnu.org\n"@ } else { Seq::empty() }
}

/// The usage text that `--help` prints (`full`) or that goes to standard
/// error when no script is given.
pub fn usage_text(full: bool) -> (s: String)
    ensures
        s@ == usage(full),
{
    let mut v: Vec<char> = Vec::new();
    push_str(&mut v, "Usage: sed [OPTION]... {script} [input-file]...\n");
    push_str(&mut v, "  -n, --quiet, --silent    suppress automatic printing\n");
    push_str(&mut v, "  -e script                add commands\n");
    push_str(&mut v, "  -f file                  add commands from file\n");
    push_str(&mut v, "  -i[SUFFIX]               edit files in place\n");
    push_str(&mut v, "  -E, -r, --regexp-extended use extended regexes\n");
    push_str(&mut v, "  -s, --separate           treat files as separate\n");
    push_str(&mut v, "  -u, --unbuffered         unbuffered I/O\n");
    push_str(&mut v, "  -z, --null-data          NUL-separated lines\n");
    push_str(&mut v, "  --posix                  disable extensions\n");
    push_str(&mut v, "  --version                print version\n");
    push_str(&mut v, "\n");
    if full {
        push_str(&mut v, "E-mail bug reports to: bug-sed@gnu.org\n");
    }
    assert(v@ =~= usage(full));
    string_from_chars(v.as_slice())
}

/// `suffix` with every `*` replaced by `file`.
pub open spec fn starred(suffix: Seq<char>, file: Seq<char>) -> Seq<char>
    decreases suffix.len(),
{
    if suffix.len() == 0 {
        Seq::empty()
    } else {
        starred(suffix.drop_last(), file) + if suffix.last() == '*' { file } else { seq![suffix.last()] }
    }
}

/// The name of the backup of `file` for the in-place suffix `suffix`: the
/// suffix with each `*` replaced by the file name when it holds a `*`, the
/// file name followed by the suffix otherwise.
pub open spec fn backup_of(suffix: Seq<char>, file: Seq<char>) -> Seq<char> {
    if suffix.contains('*') {
        starred(suffix, file)
    } else {
        file + suffix
    }
}

/// The backup file name for in-place editing of `file` with `suffix`.
pub fn backup_name(suffix: &str, file: &str) -> (s: String)
    ensures
        s@ == backup_of(suffix@, file@),
{
    let sc = chars_of(suffix);
    let fc = chars_of(file);
    let mut star = false;
    let mut out: Vec<char> = Vec::new();
    let mut i: usize = 0;
    while i < sc.len()
        invariant
            i <= sc.len(),
            sc@ == suffix@,
            fc@ == file@,
            out@ == starred(sc@.take(i as int), fc@),
            star == sc@.take(i as int).contains('*'),
        decreases sc.len() - i,
    {
        assert(sc@.take(i + 1).drop_last() =~= sc@.take(i as int));
        assert(sc@.take(i + 1).last() == sc@[i as int]);
        if sc[i] == '*' {
            star = true;
            let mut f = fc.clone();
            out.append(&mut f);
            assert(sc@.take(i + 1).contains('*')) by {
                assert(sc@.take(i + 1)[i as int] == '*');
            }
        } else {
            out.push(sc[i]);
            assert(sc@.take(i + 1).contains('*') == sc@.take(i as int).contains('*')) by {
                if sc@.take(i + 1).contains('*') {
                    let k = choose|k: int| 0 <= k < i + 1 && #[trigger] sc@.take(i + 1)[k] == '*';
                    assert(sc@.take(i as int)[k] == '*');
                }
                if sc@.take(i as int).contains('*') {
                    let k = choose|k: int| 0 <= k < i && #[trigger] sc@.take(i as int)[k] == '*';
                    assert(sc@.take(i + 1)[k] == '*');
                }
            }
        }
        i += 1;
        assert(out@ =~= starred(sc@.take(i as int), fc@));
    }
    assert(sc@.take(sc.len() as int) =~= sc@);
    if star {
        string_from_chars(out.as_slice())
    } else {
        let mut v = fc.clone();
        let mut s2 = sc.clone();
        v.append(&mut s2);
        string_from_chars(v.as_slice())
    }
}

/// The scripts' texts one after the other, a newline between two.
pub open spec fn joined(scripts: Seq<(SourceView, Seq<char>)>) -> Seq<char>
    decreases scripts.len(),
{
    if scripts.len() == 0 {
        Seq::empty()
    } else if scripts.len() == 1 {
        scripts[0].1
    } else {
        joined(scripts.drop_last()) + seq!['\n'] + scripts.last().1
    }
}

/// The scripts joined with newlines (GNU mode reads them as one).
fn join_scripts(scripts: &Vec<ScriptEntry>) -> (s: String)
    ensures
        s@ == joined(scripts@.map_values(|e: ScriptEntry| (source_view(e.source), e.content@))),
{
    let ghost sv = scripts@.map_values(|e: ScriptEntry| (source_view(e.source), e.content@));
    let mut v: Vec<char> = Vec::new();
    let mut i: usize = 0;
    while i < scripts.len()
        invariant
            i <= scripts.len(),
            sv == scripts@.map_values(|e: ScriptEntry| (source_view(e.source), e.content@)),
            v@ == joined(sv.take(i as int)),
        decreases scripts.len() - i,
    {
        assert(sv.take(i + 1).drop_last() =~= sv.take(i as int));
        if i > 0 {
            v.push('\n');
        }
        let mut c = chars_of(scripts[i].content.as_str());
        v.append(&mut c);
        i += 1;
        assert(v@ =~= joined(sv.take(i as int)));
    }
    assert(sv.take(scripts.len() as int) =~= sv);
    string_from_chars(v.as_slice())
}

/// Whether the first script line of `t` is `#n`.
pub open spec fn hash_n_first(t: Seq<char>) -> bool {
    starts_with_hash_n(vstd::utf8::encode_utf8(t), 0)
}

/// A script's text as the parser reads it.
pub open spec fn script_bytes(t: Seq<char>) -> Seq<u8> {
    encode_utf8(t)
}

/// The settings a script of `opts` is read under.
pub open spec fn script_cfg(opts: Options, posix: bool, last: bool) -> ParseCfg {
    ParseCfg { extended: opts.extended, posix, sandbox: opts.sandbox, last }
}

/// Script `t`, read from its start to its end, gives the commands laid out
/// as `v`.
pub open spec fn script_gives(t: Seq<u8>, cfg: ParseCfg, v: Seq<Entry>) -> bool {
    exists|cs: int| #[trigger] script_parses(t, 0, cfg, 0, Parsed::Done(v, t.len() as int, cs))
}

/// Reading script `t` (from `source`) stops at an error whose text is `m`.
pub open spec fn script_fails(t: Seq<u8>, cfg: ParseCfg, source: ScriptSource, m: Seq<char>) -> bool {
    exists|e: ParseError, cs: int| #[trigger] script_parses(t, 0, cfg, 0, Parsed::Error(e, cs))
        && m == error_text(source, t, cs, e.2 as nat, e.0)
}

/// Where the joined scripts are said to come from: the first script.
pub open spec fn first_source(opts: Options) -> ScriptSource {
    if opts.scripts.len() > 0 {
        opts.scripts@[0].source
    } else {
        ScriptSource::Expression(1)
    }
}

/// Under `--posix`, the scripts before `parts.len()` were each read on
/// their own and gave `parts`.
pub open spec fn posix_parts(opts: Options, parts: Seq<Seq<Entry>>) -> bool {
    &&& parts.len() <= opts.scripts.len()
    &&& forall|i: int| #![trigger parts[i]] 0 <= i < parts.len() ==> posix_part(opts, i, parts[i])
}

/// Under `--posix`, script `i` read on its own gives `part`.
pub open spec fn posix_part(opts: Options, i: int, part: Seq<Entry>) -> bool {
    let t = script_bytes(opts.scripts@[i].content@);
    &&& t.len() < usize::MAX
    &&& script_gives(t, script_cfg(opts, true, i == opts.scripts.len() - 1), part)
}

/// Under `--posix`, reading script `i` stops with error text `m`.
pub open spec fn posix_stops(opts: Options, i: int, m: Seq<char>) -> bool {
    let t = script_bytes(opts.scripts@[i].content@);
    if t.len() >= usize::MAX {
        m == "script too long"@
    } else {
        script_fails(t, script_cfg(opts, true, i == opts.scripts.len() - 1), opts.scripts@[i].source, m)
    }
}

/// Under `--posix`, every script read on its own, and the commands laid
/// out one after the other as `v`.
pub open spec fn posix_gives(opts: Options, v: Seq<Entry>) -> bool {
    exists|parts: Seq<Seq<Entry>>| #[trigger] posix_parts(opts, parts) && parts.len() == opts.scripts.len()
        && v == parts.flatten()
}

/// Under `--posix`, the scripts before some script were read and reading
/// that one stops with error text `m`.
pub open spec fn posix_fails(opts: Options, m: Seq<char>) -> bool {
    exists|i: int, parts: Seq<Seq<Entry>>| #![trigger posix_parts(opts, parts), posix_stops(opts, i, m)]
        0 <= i < opts.scripts.len() && parts.len() == i && posix_parts(opts, parts) && posix_stops(opts, i, m)
}

/// One more script read under `--posix`.
pub proof fn lemma_posix_step(opts: Options, parts: Seq<Seq<Entry>>, v: Seq<Entry>, cs: int)
    requires
        posix_parts(opts, parts),
        parts.len() < opts.scripts.len(),
        script_bytes(opts.scripts@[parts.len() as int].content@).len() < usize::MAX,
        script_parses(script_bytes(opts.scripts@[parts.len() as int].content@), 0,
            script_cfg(opts, true, parts.len() == opts.scripts.len() - 1), 0,
            Parsed::Done(v, script_bytes(opts.scripts@[parts.len() as int].content@).len() as int, cs)),
    ensures
        posix_parts(opts, parts.push(v)),
{
    let np = parts.push(v);
    let ti = script_bytes(opts.scripts@[parts.len() as int].content@);
    let cfg = script_cfg(opts, true, parts.len() == opts.scripts.len() - 1);
    assert(script_gives(ti, cfg, v));
    assert(posix_part(opts, parts.len() as int, v));
    assert forall|i: int| #![trigger np[i]] 0 <= i < np.len() implies posix_part(opts, i, np[i]) by {
        if i < parts.len() {
            assert(np[i] == parts[i]);
        } else {
            assert(np[i] == v);
        }
    }
}

/// A copy of a script's source.
fn copy_source(s: &ScriptSource) -> (c: ScriptSource)
    ensures
        c == *s,
{
    match s {
        ScriptSource::Expression(n) => ScriptSource::Expression(*n),
        ScriptSource::File(f) => ScriptSource::File(f.clone()),
    }
}

/// Parses the scripts of `opts`: under `--posix` each on its own (an
/// `a`, `i`, `c` may not run on into the next), otherwise all of them
/// joined with newlines and reported as the first. Returns the commands
/// and whether the first script starts with `#n`; the error is the text
/// that follows `sed: `.
#[verifier::rlimit(80)]
pub fn parse_scripts(opts: &Options) -> (r: Result<(Vec<SedCommand>, bool), String>)
    ensures
        r matches Ok((_, h)) ==> h == if options_view(*opts).scripts.len() == 0 {
            false
        } else if opts.posix {
            hash_n_first(options_view(*opts).scripts[0].1)
        } else {
            hash_n_first(joined(options_view(*opts).scripts))
        },
        !opts.posix ==> ({
            let t = script_bytes(joined(options_view(*opts).scripts));
            let cfg = script_cfg(*opts, false, true);
            match r {
                Ok((v, _)) => t.len() < usize::MAX && script_gives(t, cfg, layout(v@)),
                Err(m) => if t.len() >= usize::MAX {
                    m@ == "script too long"@
                } else {
                    script_fails(t, cfg, first_source(*opts), m@)
                },
            }
        }),
        opts.posix ==> match r {
            Ok((v, _)) => posix_gives(*opts, layout(v@)),
            Err(m) => posix_fails(*opts, m@),
        },
{
    let mut commands: Vec<SedCommand> = Vec::new();
    let mut hash_n_quiet = false;
    if opts.posix {
        let n = opts.scripts.len();
        let mut idx: usize = 0;
        let ghost mut parts: Seq<Seq<Entry>> = Seq::empty();
        proof {
            assert(layout(commands@) =~= parts.flatten());
        }
        while idx < n
            invariant
                idx <= n == opts.scripts.len(),
                opts.posix,
                idx > 0 ==> hash_n_quiet == hash_n_first(options_view(*opts).scripts[0].1),
                idx == 0 ==> !hash_n_quiet,
                parts.len() == idx,
                posix_parts(*opts, parts),
                layout(commands@) == parts.flatten(),
            decreases n - idx,
        {
            let script = &opts.scripts[idx];
            let bytes = script.content.as_str().as_bytes();
            if bytes.len() >= usize::MAX {
                let m = string_from_chars(chars_of("script too long").as_slice());
                proof {
                    assert(posix_stops(*opts, idx as int, m@));
                    assert(posix_parts(*opts, parts));
                    assert(posix_fails(*opts, m@));
                }
                return Err(m);
            }
            let mut parser = Parser::new(script.content.as_str(), opts.extended, copy_source(&script.source));
            parser.set_sandbox(opts.sandbox);
            parser.set_posix(true);
            parser.set_last_script(idx == n - 1);
            let ghost start = parser;
            match parser.parse_all(idx == 0) {
                Ok(mut cmds) => {
                    if idx == 0 && parser.saw_hash_n() {
                        hash_n_quiet = true;
                    }
                    assert(idx == 0 ==> hash_n_quiet == hash_n_first(options_view(*opts).scripts[0].1));
                    proof {
                        let t = script_bytes(opts.scripts@[idx as int].content@);
                        assert(start.parse_cfg() == script_cfg(*opts, true, idx == opts.scripts.len() - 1));
                        assert(script_parses(t, 0, script_cfg(*opts, true, idx == opts.scripts.len() - 1), 0,
                            Parsed::Done(layout(cmds@), t.len() as int, parser.command_start())));
                        lemma_layout_concat(commands@, cmds@);
                        parts.lemma_flatten_push(layout(cmds@));
                        let np = parts.push(layout(cmds@));
                        lemma_posix_step(*opts, parts, layout(cmds@), parser.command_start());
                        parts = np;
                    }
                    commands.append(&mut cmds);
                },
                Err(e) => {
                    proof {
                        let t = script_bytes(opts.scripts@[idx as int].content@);
                        assert(start.parse_cfg() == script_cfg(*opts, true, idx == opts.scripts.len() - 1));
                        assert(script_fails(t, script_cfg(*opts, true, idx == opts.scripts.len() - 1), opts.scripts@[idx as int].source, e@));
                        assert(posix_stops(*opts, idx as int, e@));
                        assert(posix_parts(*opts, parts));
                        assert(posix_fails(*opts, e@));
                    }
                    return Err(e);
                },
            }
            idx += 1;
        }
    } else {
        let combined = join_scripts(&opts.scripts);
        let source = if opts.scripts.len() > 0 {
            copy_source(&opts.scripts[0].source)
        } else {
            ScriptSource::Expression(1)
        };
        let bytes = combined.as_str().as_bytes();
        if bytes.len() >= usize::MAX {
            return Err(string_from_chars(chars_of("script too long").as_slice()));
        }
        let mut parser = Parser::new(combined.as_str(), opts.extended, source);
        parser.set_sandbox(opts.sandbox);
        parser.set_posix(false);
        parser.set_last_script(true);
        let ghost start = parser;
        match parser.parse_all(true) {
            Ok(mut cmds) => {
                if parser.saw_hash_n() {
                    hash_n_quiet = true;
                }
                proof {
                    let t = script_bytes(joined(options_view(*opts).scripts));
                    assert(start.parse_cfg() == script_cfg(*opts, false, true));
                    assert(script_parses(t, 0, script_cfg(*opts, false, true), 0,
                        Parsed::Done(layout(cmds@), t.len() as int, parser.command_start())));
                    assert(commands@ + cmds@ =~= cmds@);
                }
                commands.append(&mut cmds);
            },
            Err(e) => {
                proof {
                    assert(start.parse_cfg() == script_cfg(*opts, false, true));
                }
                return Err(e);
            },
        }
    }
    Ok((commands, hash_n_quiet))
}

} // verus!
