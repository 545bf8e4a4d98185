use vstd::prelude::*;
use crate::engine::{
    at_last_line, branch_target, flat, layout, lemma_flat_layout, buffer_spec, char_bytes, end_cycle_spec, flow_spec, group_text, index_in, label_from,
    newline_index, range_select, repl_from, replace_from, replacement, single, start_spec, step_spec, substitution,
    text_bytes, translit, translit_from, with_output, with_ps_output, InstrModel, Phase, RangeState, RequestView,
    State,
};
use crate::labels::first_missing;
use crate::options::{arg_spec, with_opts, ArgStepView, ArgsView, OptionsView};
use crate::sed_regex::sed_is_match;
use crate::types::{AddressModel, CommandModel, RangeModel, SedCommand};
use crate::util::{ctrl_char_spec, escape_all, escape_token};
use crate::parser::{repl_escape, text_from, text_line, tr_escape};
use crate::regex_util::{bre_from, bre_plain, ere_only_special};

verus! {

/// `\cX` does not depend on the case of the letter `X`: a lower-case
/// letter gives the control character of its upper-case form.
pub proof fn law_ctrl_char_ignores_case(b: u8)
    requires
        97 <= b <= 122,
    ensures
        ctrl_char_spec(b) == ctrl_char_spec((b - 32) as u8),
{
}

/// Escaping for `l` works byte by byte: the escape of two texts one after
/// the other is the escape of the first followed by that of the second.
pub proof fn law_escape_concatenates(a: Seq<u8>, b: Seq<u8>)
    ensures
        escape_all(a + b) == escape_all(a) + escape_all(b),
    decreases b.len(),
{
    if b.len() == 0 {
        assert(a + b =~= a);
        assert(escape_all(a) + escape_all(b) =~= escape_all(a));
    } else {
        assert((a + b).drop_last() =~= a + b.drop_last());
        assert((a + b).last() == b.last());
        law_escape_concatenates(a, b.drop_last());
        assert(escape_all(a + b) =~= escape_all(a) + escape_all(b));
    }
}

/// What `l` prints for a byte string is printable ASCII only.
pub proof fn law_escape_printable(data: Seq<u8>)
    ensures
        forall|i: int| 0 <= i < escape_all(data).len() ==> 0x20 <= #[trigger] escape_all(data)[i] as u32 <= 0x7e,
    decreases data.len(),
{
    if data.len() > 0 {
        law_escape_printable(data.drop_last());
        lemma_token_printable(data.last());
        let a = escape_all(data.drop_last());
        let t = escape_token(data.last());
        assert forall|i: int| 0 <= i < escape_all(data).len() implies 0x20 <= #[trigger] escape_all(data)[i] as u32 <= 0x7e by {
            if i < a.len() {
                assert(escape_all(data)[i] == a[i]);
            } else {
                assert(escape_all(data)[i] == t[i - a.len()]);
            }
        }
    }
}

proof fn lemma_token_printable(b: u8)
    ensures
        escape_token(b).len() >= 1,
        forall|i: int| 0 <= i < escape_token(b).len() ==> 0x20 <= #[trigger] escape_token(b)[i] as u32 <= 0x7e,
{
    assert(b as int / 64 <= 3);
    assert((b as int / 8) % 8 < 8);
    assert(b as int % 8 < 8);
}

/// Escaping a byte and then a byte string is the byte's escape followed by
/// the string's.
proof fn lemma_escape_front(b: u8, rest: Seq<u8>)
    ensures
        escape_all(seq![b] + rest) == escape_token(b) + escape_all(rest),
    decreases rest.len(),
{
    if rest.len() == 0 {
        assert(seq![b] + rest =~= seq![b]);
        assert(seq![b].drop_last() =~= Seq::<u8>::empty());
        assert(seq![b].last() == b);
        assert(escape_all(Seq::<u8>::empty()) =~= Seq::<char>::empty());
        assert(escape_all(seq![b]) == escape_all(seq![b].drop_last()) + escape_token(b));
        assert(escape_all(seq![b]) =~= Seq::<char>::empty() + escape_token(b));
        assert(escape_token(b) + escape_all(rest) =~= escape_token(b));
    } else {
        assert((seq![b] + rest).drop_last() =~= seq![b] + rest.drop_last());
        assert((seq![b] + rest).last() == rest.last());
        lemma_escape_front(b, rest.drop_last());
        assert(escape_all(seq![b] + rest) =~= escape_token(b) + escape_all(rest));
    }
}

/// The escapes of two bytes that start the same text are the same: no
/// escape is a proper prefix of another, and each byte has its own.
proof fn lemma_token_prefix(x: u8, y: u8, a: Seq<char>, b: Seq<char>)
    requires
        escape_token(x) + a == escape_token(y) + b,
    ensures
        x == y,
        a == b,
{
    let tx = escape_token(x);
    let ty = escape_token(y);
    let s = tx + a;
    lemma_token_printable(x);
    lemma_token_printable(y);
    assert(s[0] == tx[0] && s[0] == ty[0]);
    if tx.len() >= 2 && ty.len() >= 2 {
        assert(s[1] == tx[1] && s[1] == ty[1]);
        if tx.len() == 4 && ty.len() == 4 {
            assert(s[2] == tx[2] && s[2] == ty[2]);
            assert(s[3] == tx[3] && s[3] == ty[3]);
            assert(x as int == 64 * (x as int / 64) + 8 * ((x as int / 8) % 8) + x as int % 8);
            assert(y as int == 64 * (y as int / 64) + 8 * ((y as int / 8) % 8) + y as int % 8);
        }
    }
    assert(x == y);
    assert(a =~= s.subrange(tx.len() as int, s.len() as int));
    assert(b =~= s.subrange(ty.len() as int, s.len() as int));
}

/// What `l` prints tells the bytes apart: two byte strings with the same
/// escaped text are the same.
pub proof fn law_escape_injective(a: Seq<u8>, b: Seq<u8>)
    requires
        escape_all(a) == escape_all(b),
    ensures
        a == b,
    decreases a.len(),
{
    if a.len() == 0 && b.len() == 0 {
        assert(a =~= b);
    } else if a.len() == 0 || b.len() == 0 {
        let c = if a.len() == 0 { b } else { a };
        lemma_escape_front(c[0], c.drop_first());
        assert(seq![c[0]] + c.drop_first() =~= c);
        lemma_token_printable(c[0]);
        assert(escape_all(a).len() == 0 || escape_all(b).len() == 0);
        assert(false);
    } else {
        lemma_escape_front(a[0], a.drop_first());
        lemma_escape_front(b[0], b.drop_first());
        assert(seq![a[0]] + a.drop_first() =~= a);
        assert(seq![b[0]] + b.drop_first() =~= b);
        lemma_token_prefix(a[0], b[0], escape_all(a.drop_first()), escape_all(b.drop_first()));
        law_escape_injective(a.drop_first(), b.drop_first());
        assert(a =~= seq![a[0]] + a.drop_first());
    }
}

/// `x` twice puts the pattern and hold spaces back as they were.
pub proof fn law_exchange_twice(s: State)
    ensures
        buffer_spec(buffer_spec(s, CommandModel::Exchange), CommandModel::Exchange).ps == s.ps,
        buffer_spec(buffer_spec(s, CommandModel::Exchange), CommandModel::Exchange).hold == s.hold,
{
}

/// `h` then `g` leaves the pattern space as it was, and the hold space
/// holds a copy of it.
pub proof fn law_hold_then_get(s: State)
    ensures
        buffer_spec(buffer_spec(s, CommandModel::HoldReplace), CommandModel::GetReplace).ps == s.ps,
        buffer_spec(buffer_spec(s, CommandModel::HoldReplace), CommandModel::GetReplace).hold == s.ps,
{
}

/// `y` on ASCII text with an ASCII target keeps the length of the pattern
/// space.
pub proof fn law_translit_keeps_length(s: Seq<u8>, src: Seq<char>, dst: Seq<char>)
    requires
        forall|k: int| 0 <= k < s.len() ==> #[trigger] s[k] < 0x80,
        forall|k: int| 0 <= k < dst.len() ==> (#[trigger] dst[k]) as u32 <= 0x7f,
    ensures
        translit(s, src, dst).len() == s.len(),
{
    lemma_translit_ascii(s, 0, src, dst);
}

proof fn lemma_translit_ascii(s: Seq<u8>, i: int, src: Seq<char>, dst: Seq<char>)
    requires
        0 <= i <= s.len(),
        forall|k: int| 0 <= k < s.len() ==> #[trigger] s[k] < 0x80,
        forall|k: int| 0 <= k < dst.len() ==> (#[trigger] dst[k]) as u32 <= 0x7f,
    ensures
        translit_from(s, i, src, dst).len() == s.len() - i,
    decreases s.len() - i,
{
    if i < s.len() {
        assert(s[i] < 0x80);
        lemma_translit_ascii(s, i + 1, src, dst);
        let k = index_in(src, s[i] as char, 0);
        lemma_index_in(src, s[i] as char, 0);
        if k < src.len() && k < dst.len() {
            let d = dst[k];
            assert(d as u32 <= 0x7f);
            assert(seq![d].drop_first() =~= Seq::<char>::empty());
            assert(vstd::utf8::encode_utf8(seq![d]) == vstd::utf8::encode_scalar(d as u32) + vstd::utf8::encode_utf8(Seq::<char>::empty()));
            assert(vstd::utf8::encode_utf8(seq![d]).len() == 1);
            assert(char_bytes(d).len() == 1);
        }
    }
}

proof fn lemma_index_in(src: Seq<char>, c: char, i: int)
    requires
        0 <= i,
    ensures
        i <= index_in(src, c, i),
        index_in(src, c, i) <= src.len() || index_in(src, c, i) == i,
    decreases src.len() - i,
{
    if i < src.len() && src[i] != c {
        lemma_index_in(src, c, i + 1);
    }
}

/// A regex that does not match makes no substitution.
pub proof fn law_no_match_no_substitution(text: Seq<u8>, r: Seq<char>, global: bool, nth: Option<usize>)
    ensures
        substitution(text, Seq::empty(), r, global, nth) is None,
{
    assert(replace_from(text, Seq::empty(), r, 0, 0) =~= text);
}

/// A replacement without `&` and without backslashes stands for itself.
pub proof fn law_literal_replacement(r: Seq<char>, m: Seq<Option<(usize, usize)>>, text: Seq<u8>)
    requires
        forall|k: int| 0 <= k < r.len() ==> #[trigger] r[k] != '&' && r[k] != '\\',
    ensures
        replacement(r, m, text) == text_bytes(r),
{
    lemma_literal_from(r, m, text, 0);
    assert(r.skip(0) =~= r);
}

proof fn lemma_text_bytes_prepend(c: char, t: Seq<char>)
    ensures
        text_bytes(seq![c] + t) == char_bytes(c) + text_bytes(t),
    decreases t.len(),
{
    if t.len() == 0 {
        assert(seq![c] + t =~= seq![c]);
        assert(seq![c].drop_last() =~= Seq::<char>::empty());
        assert(text_bytes(Seq::<char>::empty()) =~= Seq::<u8>::empty());
        assert(text_bytes(seq![c]) =~= Seq::<u8>::empty() + char_bytes(c));
        assert(char_bytes(c) + text_bytes(t) =~= char_bytes(c));
        assert(Seq::<u8>::empty() + char_bytes(c) =~= char_bytes(c));
    } else {
        assert((seq![c] + t).drop_last() =~= seq![c] + t.drop_last());
        assert((seq![c] + t).last() == t.last());
        lemma_text_bytes_prepend(c, t.drop_last());
        assert(text_bytes(seq![c] + t) =~= char_bytes(c) + text_bytes(t));
    }
}

proof fn lemma_literal_from(r: Seq<char>, m: Seq<Option<(usize, usize)>>, text: Seq<u8>, i: int)
    requires
        0 <= i <= r.len(),
        forall|k: int| 0 <= k < r.len() ==> #[trigger] r[k] != '&' && r[k] != '\\',
    ensures
        repl_from(r, m, text, i, 0, 0) == text_bytes(r.skip(i)),
    decreases r.len() - i,
{
    if i < r.len() {
        lemma_literal_from(r, m, text, i + 1);
        let g = char_bytes(r[i]);
        crate::engine::lemma_cased_plain(g);
        assert(r.skip(i) =~= seq![r[i]] + r.skip(i + 1));
        lemma_text_bytes_prepend(r[i], r.skip(i + 1));
        if g.len() > 0 {
            assert(crate::engine::next_after(g, 0) == 0);
        }
    } else {
        assert(r.skip(i) =~= Seq::<char>::empty());
    }
}

/// `&` alone inserts the whole match.
pub proof fn law_ampersand_is_the_match(m: Seq<Option<(usize, usize)>>, text: Seq<u8>)
    ensures
        replacement(seq!['&'], m, text) == group_text(text, m, 0),
{
    let g = group_text(text, m, 0);
    crate::engine::lemma_cased_plain(g);
    assert(repl_from(seq!['&'], m, text, 1, 0, crate::engine::next_after(g, 0)) =~= Seq::<u8>::empty());
    assert(replacement(seq!['&'], m, text) =~= g);
}

/// `n` and `N` write out what `a`, `r` and `R` queued before they read the
/// next line, and read exactly one line.
pub proof fn law_next_flushes_queue(prog: Seq<InstrModel>, s: State, ins: InstrModel)
    requires
        ins.command is Next || ins.command is NextAppend,
        !at_last_line(s),
    ensures
        flow_spec(prog, s, ins).append.len() == 0,
        flow_spec(prog, s, ins).next_line == s.next_line + 1,
{
}

/// `D` on a pattern space that holds a newline deletes its first line and
/// starts the script again without reading input, with automatic printing
/// back on.
pub proof fn law_delete_first_line_restarts(prog: Seq<InstrModel>, s: State, ins: InstrModel)
    requires
        ins.command is DeleteFirstLine,
        newline_index(s.ps, 0) < s.ps.len(),
    ensures
        flow_spec(prog, s, ins).pc == 0,
        !flow_spec(prog, s, ins).suppress,
        flow_spec(prog, s, ins).next_line == s.next_line,
        flow_spec(prog, s, ins).phase == s.phase,
        flow_spec(prog, s, ins).ps == s.ps.subrange(newline_index(s.ps, 0) + 1, s.ps.len() as int),
{
}

/// A branch to a label that exists lands on that label, wherever it
/// stands, inside a block too: the first instruction that defines it.
pub proof fn law_branch_lands_on_label(prog: Seq<InstrModel>, l: Seq<char>, i: int)
    requires
        0 <= i < prog.len(),
        prog[i].command == CommandModel::Label(l),
    ensures
        0 <= branch_target(prog, Some(l)) <= i,
        prog[branch_target(prog, Some(l))].command == CommandModel::Label(l),
        forall|j: int| 0 <= j < branch_target(prog, Some(l)) ==> prog[j].command != CommandModel::Label(l),
{
    lemma_label_search(prog, l, 0, i);
}

proof fn lemma_label_search(prog: Seq<InstrModel>, l: Seq<char>, k: int, i: int)
    requires
        0 <= k <= i < prog.len(),
        prog[i].command == CommandModel::Label(l),
    ensures
        k <= label_from(prog, l, k) <= i,
        prog[label_from(prog, l, k)].command == CommandModel::Label(l),
        forall|j: int| k <= j < label_from(prog, l, k) ==> prog[j].command != CommandModel::Label(l),
    decreases i - k,
{
    if prog[k].command != CommandModel::Label(l) {
        lemma_label_search(prog, l, k + 1, i);
    }
}

/// A range whose end line has gone by (a branch skipped it) closes on the
/// next line it sees, without selecting it.
pub proof fn law_range_closes_past_its_end(
    a: AddressModel,
    n: usize,
    start: usize,
    line: int,
    last: bool,
    ps: Seq<u8>,
    lr: Option<Seq<char>>,
)
    requires
        line > n,
    ensures
        range_select(a, AddressModel::Line(n), RangeState::Active(start), line, last, ps, lr) == (false, RangeState::Idle, lr),
{
}

/// A range `a,N` whose end line `N` is not after the line where `a`
/// matches selects that line only.
pub proof fn law_range_end_before_start(
    a: AddressModel,
    n: usize,
    line: int,
    last: bool,
    ps: Seq<u8>,
    lr: Option<Seq<char>>,
)
    requires
        single(a, line, last, ps, lr).0,
        n <= line,
        !(a == AddressModel::Line(0) && line == 1),
    ensures
        range_select(a, AddressModel::Line(n), RangeState::Idle, line, last, ps, lr) == (true, RangeState::Idle, single(a, line, last, ps, lr).1),
{
}

/// `0,/re/` is open from the start, so it ends on line 1 when the regex
/// matches there.
pub proof fn law_zero_range_ends_on_first_line(p: Seq<char>, last: bool, ps: Seq<u8>, lr: Option<Seq<char>>)
    requires
        sed_is_match(p, ps),
    ensures
        range_select(AddressModel::Line(0), AddressModel::Regex(p), RangeState::Idle, 1, last, ps, lr) == (true, RangeState::Idle, Some(p)),
{
}

/// `c` in the middle of its range prints nothing and ends the cycle
/// without printing the pattern space.
pub proof fn law_change_waits_for_range_end(prog: Seq<InstrModel>, s: State, ins: InstrModel, t: Seq<char>)
    requires
        ins.command == CommandModel::Change(t),
        ins.range is Range,
        !ins.negated,
        s.ranges[s.pc] is Active,
    ensures
        flow_spec(prog, s, ins).out == s.out,
        flow_spec(prog, s, ins).suppress,
        flow_spec(prog, s, ins).phase == Phase::EndOfCycle,
{
}

/// The last line of input without its delimiter is printed without one;
/// whatever is printed after it gets the delimiter first.
pub proof fn law_missing_newline_comes_back(s: State, b: Seq<u8>)
    requires
        !s.chomped,
        !s.missing,
    ensures
        with_ps_output(s).out == s.out + s.ps,
        with_ps_output(s).missing,
        with_output(with_ps_output(s), b).out == (s.out + s.ps).push(s.delim) + b,
{
}

/// Once done, the engine stays done and keeps reporting its exit code.
pub proof fn law_done_is_final(prog: Seq<InstrModel>, s: State, reply: Option<Seq<u8>>)
    requires
        s.phase == Phase::Done,
    ensures
        step_spec(prog, s, reply) == (s, RequestView::Finished(s.exit_code)),
{
}

/// A cycle starts by reading exactly the next line of input, with the
/// substitution flag, the queue and the suppression cleared.
pub proof fn law_cycle_reads_one_line(s: State)
    requires
        s.phase == Phase::Start,
        !at_last_line(s),
    ensures
        start_spec(s).0.next_line == s.next_line + 1,
        start_spec(s).0.ps == s.lines[s.next_line].0,
        !start_spec(s).0.sub,
        start_spec(s).0.append.len() == 0,
        !start_spec(s).0.suppress,
        start_spec(s).0.pc == 0,
        start_spec(s).1 == RequestView::Proceed,
{
}

/// With `-n` the end of a cycle prints nothing of the pattern space: the
/// cycle hands out exactly what its commands printed.
pub proof fn law_quiet_prints_only_what_was_asked(s: State)
    requires
        s.quiet,
        s.append.len() == 0,
    ensures
        end_cycle_spec(s).1 == RequestView::Output(s.pre + s.out),
{
}

/// After `--` every argument is an input file.
pub proof fn law_after_double_dash_all_files(a: ArgsView, args: Seq<Seq<char>>, i: int)
    requires
        a.dashdash,
        0 <= i < args.len(),
    ensures
        arg_spec(a, args, i) == (with_opts(a, OptionsView { files: a.opts.files.push(args[i]), ..a.opts }), ArgStepView::Next(i + 1)),
{
}

/// The label check finds nothing exactly when every label jumped to is
/// defined.
pub proof fn law_labels_all_defined(wanted: Seq<Seq<char>>, known: Seq<Seq<char>>)
    ensures
        first_missing(wanted, known) is None <==> forall|k: int| 0 <= k < wanted.len() ==> known.contains(#[trigger] wanted[k]),
    decreases wanted.len(),
{
    if wanted.len() > 0 {
        law_labels_all_defined(wanted.drop_first(), known);
        if first_missing(wanted, known) is None {
            assert forall|k: int| 0 <= k < wanted.len() implies known.contains(#[trigger] wanted[k]) by {
                if k > 0 {
                    assert(wanted[k] == wanted.drop_first()[k - 1]);
                }
            }
        }
        if forall|k: int| 0 <= k < wanted.len() ==> known.contains(#[trigger] wanted[k]) {
            assert(known.contains(wanted[0]));
            assert forall|k: int| 0 <= k < wanted.drop_first().len() implies known.contains(#[trigger] wanted.drop_first()[k]) by {
                assert(wanted.drop_first()[k] == wanted[k + 1]);
            }
        }
    }
}

/// The program an engine runs is the parsed script as the parser lays it
/// out: its commands in order, each block followed by its contents, and a
/// block whose address does not select the line goes on just past its
/// contents.
pub proof fn law_program_is_parsed_script(cmds: Seq<SedCommand>)
    ensures
        flat(cmds, 0).len() == layout(cmds).len(),
        forall|k: int| 0 <= k < layout(cmds).len() ==> #[trigger] flat(cmds, 0)[k] == (InstrModel {
            range: layout(cmds)[k].0,
            negated: layout(cmds)[k].1,
            command: layout(cmds)[k].2,
            skip: k + 1 + layout(cmds)[k].3,
        }),
{
    lemma_flat_layout(cmds, 0);
}

/// What `n` steps of the engine with the script `prog` write, from state
/// `s`, with no reply to any request.
pub open spec fn run_out(prog: Seq<InstrModel>, s: State, n: nat) -> Seq<u8>
    decreases n,
{
    if n == 0 {
        Seq::empty()
    } else {
        let (s2, r) = step_spec(prog, s, None);
        (match r {
            RequestView::Output(b) => b,
            _ => Seq::empty(),
        }) + run_out(prog, s2, (n - 1) as nat)
    }
}

/// The input lines from `k` on written back: each line's text, with its
/// delimiter where it had one; a line without one gets it before the next
/// line (`missing`: the line before `k` lacked it).
pub open spec fn echo_from(lines: Seq<(Seq<u8>, int, bool)>, k: int, missing: bool, delim: u8) -> Seq<u8>
    decreases lines.len() - k,
{
    if k < 0 || k >= lines.len() {
        Seq::empty()
    } else {
        (if missing { seq![delim] } else { Seq::empty() }) + lines[k].0
            + (if lines[k].2 { seq![delim] } else { Seq::empty() })
            + echo_from(lines, k + 1, !lines[k].2, delim)
    }
}

/// A state between cycles with nothing queued or written yet.
pub open spec fn between_cycles(s: State) -> bool {
    &&& s.phase == Phase::Start
    &&& s.out.len() == 0
    &&& s.pre.len() == 0
    &&& s.append.len() == 0
    &&& !s.quitting
    &&& 0 <= s.next_line <= s.lines.len()
}

/// The empty script writes its input back as it was, line by line, and
/// then the engine is done; with `-n` it writes nothing at all.
pub proof fn law_empty_script_echoes(s: State)
    requires
        between_cycles(s),
    ensures
        run_out(Seq::empty(), s, (3 * (s.lines.len() - s.next_line) + 1) as nat)
            == if s.quiet { Seq::<u8>::empty() } else { echo_from(s.lines, s.next_line, s.missing, s.delim) },
    decreases s.lines.len() - s.next_line,
{
    let prog = Seq::<InstrModel>::empty();
    if s.next_line >= s.lines.len() {
        let (s2, r) = step_spec(prog, s, None);
        assert(r == RequestView::Finished(s.exit_code));
        assert(run_out(prog, s2, 0) =~= Seq::<u8>::empty());
        assert(run_out(prog, s, 1) =~= Seq::<u8>::empty());
    } else {
        let m = (s.lines.len() - s.next_line) as nat;
        let s1 = start_spec(s).0;
        let s2 = State { phase: Phase::EndOfCycle, ..s1 };
        let (s3, r3) = end_cycle_spec(s2);
        assert(step_spec(prog, s, None) == (s1, RequestView::Proceed));
        assert(step_spec(prog, s1, None) == (s2, RequestView::Proceed));
        assert(step_spec(prog, s2, None) == (s3, r3));
        law_empty_script_echoes(s3);
        let rest = run_out(prog, s3, (3 * (m - 1) + 1) as nat);
        assert((3 * m + 1) as nat - 1 == (3 * (m - 1) + 3) as nat);
        assert(run_out(prog, s2, (3 * (m - 1) + 2) as nat) == (match r3 { RequestView::Output(b) => b, _ => Seq::<u8>::empty() }) + rest);
        assert(run_out(prog, s1, (3 * (m - 1) + 3) as nat) == Seq::<u8>::empty() + run_out(prog, s2, (3 * (m - 1) + 2) as nat));
        assert(run_out(prog, s, (3 * m + 1) as nat) == Seq::<u8>::empty() + run_out(prog, s1, (3 * (m - 1) + 3) as nat));
        let l = s.lines[s.next_line];
        if s.quiet {
            assert(r3 == RequestView::Output(Seq::<u8>::empty()));
            assert(run_out(prog, s, (3 * m + 1) as nat) =~= Seq::<u8>::empty());
        } else {
            let expect = (if s.missing { seq![s.delim] } else { Seq::empty() }) + l.0 + (if l.2 { seq![s.delim] } else { Seq::empty() });
            assert(s2.ps == l.0 && s2.chomped == l.2 && s2.missing == s.missing && !s2.suppress && s2.delim == s.delim);
            let w = crate::engine::with_ps_output(s2);
            assert(w.out =~= expect);
            assert(r3 == RequestView::Output(Seq::<u8>::empty() + w.out));
            assert(Seq::<u8>::empty() + w.out =~= expect);
            assert(s3.missing == !l.2);
            assert(run_out(prog, s, (3 * m + 1) as nat) =~= echo_from(s.lines, s.next_line, s.missing, s.delim));
        }
    }
}

/// A BRE with nothing special to an ERE in it is its own ERE: no
/// backslash, bracket, brace, parenthesis, `|`, `+` or `?`, a `^` only at
/// the start and a `$` only at the end.
pub proof fn law_plain_bre_unchanged(c: Seq<char>)
    requires
        forall|k: int| 0 <= k < c.len() ==> !ere_only_special(#[trigger] c[k]) && c[k] != '\\' && c[k] != '[' && c[k] != ']',
        forall|k: int| 0 < k < c.len() ==> #[trigger] c[k] != '^',
        forall|k: int| 0 <= k < c.len() - 1 ==> #[trigger] c[k] != '$',
    ensures
        bre_from(c, 0) == c,
{
    lemma_plain_bre_from(c, 0);
    assert(c.subrange(0, c.len() as int) =~= c);
}

proof fn lemma_plain_bre_from(c: Seq<char>, i: int)
    requires
        0 <= i <= c.len(),
        forall|k: int| 0 <= k < c.len() ==> !ere_only_special(#[trigger] c[k]) && c[k] != '\\' && c[k] != '[' && c[k] != ']',
        forall|k: int| 0 < k < c.len() ==> #[trigger] c[k] != '^',
        forall|k: int| 0 <= k < c.len() - 1 ==> #[trigger] c[k] != '$',
    ensures
        bre_from(c, i) == c.subrange(i, c.len() as int),
    decreases c.len() - i,
{
    if i < c.len() {
        lemma_plain_bre_from(c, i + 1);
        assert(!ere_only_special(c[i]) && c[i] != '\\' && c[i] != '[');
        assert(bre_plain(c, i) == seq![c[i]]);
        assert(c.subrange(i, c.len() as int) =~= seq![c[i]] + c.subrange(i + 1, c.len() as int));
    } else {
        assert(c.subrange(i, c.len() as int) =~= Seq::<char>::empty());
    }
}

/// `n` writes the pattern space before it reads the next line unless `-n`
/// is in force: under `-n` it writes only what `a`, `r` and `R` queued.
/// Either way the next input line becomes the pattern space.
pub proof fn law_next_prints_unless_quiet(prog: Seq<InstrModel>, s: State, ins: InstrModel)
    requires
        ins.command is Next,
        !at_last_line(s),
    ensures
        ({
            let before = if s.missing { s.out.push(s.delim) } else { s.out };
            let after = flow_spec(prog, s, ins);
            &&& s.quiet ==> after.out == (if s.append.len() == 0 { s.out } else { before + s.append })
            &&& !s.quiet && s.chomped ==> after.out == before + s.ps.push(s.delim) + s.append
            &&& !s.quiet && !s.chomped ==> after.out == before + s.ps + (if s.append.len() == 0 {
                Seq::<u8>::empty()
            } else {
                seq![s.delim] + s.append
            })
            &&& after.ps == s.lines[s.next_line].0
            &&& after.pc == s.pc + 1
        }),
{
    let before = if s.missing { s.out.push(s.delim) } else { s.out };
    if !s.quiet {
        if s.chomped {
            assert(before + s.ps.push(s.delim) + Seq::<u8>::empty() =~= before + s.ps.push(s.delim));
            assert((before + s.ps).push(s.delim) =~= before + s.ps.push(s.delim));
        } else {
            assert(before + s.ps + Seq::<u8>::empty() =~= before + s.ps);
            assert((before + s.ps).push(s.delim) + s.append =~= before + s.ps + (seq![s.delim] + s.append));
        }
    }
}

/// A byte that `a`, `i` and `c` text keeps as it is: ASCII, neither a
/// newline nor a backslash.
pub open spec fn plain_text_byte(b: u8) -> bool {
    b < 0x80 && b != 10 && b != 92
}

/// The characters of ASCII bytes.
pub open spec fn ascii_chars(b: Seq<u8>) -> Seq<char> {
    Seq::new(b.len(), |i: int| b[i] as char)
}

proof fn lemma_text_line_plain(s: Seq<u8>, p: int, q: int)
    requires
        0 <= p <= q <= s.len(),
        forall|k: int| p <= k < q ==> plain_text_byte(#[trigger] s[k]),
    ensures
        text_line(s, p) == (ascii_chars(s.subrange(p, q)) + text_line(s, q).0, text_line(s, q).1, text_line(s, q).2),
    decreases q - p,
{
    if p < q {
        lemma_text_line_plain(s, p + 1, q);
        assert(plain_text_byte(s[p]));
        assert(ascii_chars(s.subrange(p, q)) =~= seq![s[p] as char] + ascii_chars(s.subrange(p + 1, q)));
        assert(seq![s[p] as char] + (ascii_chars(s.subrange(p + 1, q)) + text_line(s, q).0)
            =~= ascii_chars(s.subrange(p, q)) + text_line(s, q).0);
    } else {
        assert(ascii_chars(s.subrange(p, q)) + text_line(s, q).0 =~= text_line(s, q).0);
    }
}

/// Text of `a`, `i` or `c` that goes on after a backslash-newline keeps
/// the line break: `first\` then `second` is the text `first`, a newline,
/// `second`.
pub proof fn law_text_continuation_keeps_newline(head: Seq<u8>, l1: Seq<u8>, l2: Seq<u8>)
    requires
        l1.len() > 0,
        forall|k: int| 0 <= k < l1.len() ==> plain_text_byte(#[trigger] l1[k]),
        forall|k: int| 0 <= k < l2.len() ==> plain_text_byte(#[trigger] l2[k]),
    ensures
        ({
            let s = head + l1 + seq![92u8, 10u8] + l2;
            text_from(s, head.len() as int, Seq::empty()) == (ascii_chars(l1) + seq!['\n'] + ascii_chars(l2), s.len() as int)
        }),
{
    let s = head + l1 + seq![92u8, 10u8] + l2;
    let a = head.len() as int;
    let b = a + l1.len();
    let c = b + 2;
    assert forall|k: int| a <= k < b implies plain_text_byte(#[trigger] s[k]) by {
        assert(s[k] == l1[k - a]);
    }
    assert forall|k: int| c <= k < s.len() implies plain_text_byte(#[trigger] s[k]) by {
        assert(s[k] == l2[k - c]);
    }
    assert(s[b] == 92u8 && s[b + 1] == 10u8);
    lemma_text_line_plain(s, a, b);
    lemma_text_line_plain(s, c, s.len() as int);
    assert(s.subrange(a, b) =~= l1);
    assert(s.subrange(c, s.len() as int) =~= l2);
    assert(text_line(s, b) == (Seq::<char>::empty(), c, true));
    assert(text_line(s, s.len() as int) == (Seq::<char>::empty(), s.len() as int, false));
    assert(ascii_chars(l1) + Seq::<char>::empty() =~= ascii_chars(l1));
    assert(ascii_chars(l2) + Seq::<char>::empty() =~= ascii_chars(l2));
    assert(Seq::<char>::empty() + ascii_chars(l1) =~= ascii_chars(l1));
    assert(text_line(s, a) == (ascii_chars(l1), c, true));
    assert(text_line(s, c) == (ascii_chars(l2), s.len() as int, false));
    assert(text_from(s, c, ascii_chars(l1)) == (ascii_chars(l1) + seq!['\n'] + ascii_chars(l2), s.len() as int));
}

/// In `a`, `i` and `c` text, `\n` stands for a newline and any other
/// escaped ASCII character is kept with its backslash; a newline without
/// a backslash ends the text, and the script goes on after it.
pub proof fn law_text_escapes(head: Seq<u8>, l1: Seq<u8>, ch: u8, l2: Seq<u8>, rest: Seq<u8>)
    requires
        plain_text_byte(ch) || ch == 92,
        forall|k: int| 0 <= k < l1.len() ==> plain_text_byte(#[trigger] l1[k]),
        forall|k: int| 0 <= k < l2.len() ==> plain_text_byte(#[trigger] l2[k]),
    ensures
        ({
            let s = head + l1 + seq![92u8, ch] + l2 + seq![10u8] + rest;
            let shown: Seq<char> = if ch == 110 { seq!['\n'] } else { seq!['\\', ch as char] };
            text_from(s, head.len() as int, Seq::empty()) == (ascii_chars(l1) + shown + ascii_chars(l2), s.len() - rest.len())
        }),
{
    let s = head + l1 + seq![92u8, ch] + l2 + seq![10u8] + rest;
    let shown: Seq<char> = if ch == 110 { seq!['\n'] } else { seq!['\\', ch as char] };
    let a = head.len() as int;
    let b = a + l1.len();
    let c = b + 2;
    let e = c + l2.len();
    assert forall|k: int| a <= k < b implies plain_text_byte(#[trigger] s[k]) by {
        assert(s[k] == l1[k - a]);
    }
    assert forall|k: int| c <= k < e implies plain_text_byte(#[trigger] s[k]) by {
        assert(s[k] == l2[k - c]);
    }
    assert(s[b] == 92u8 && s[b + 1] == ch && s[e] == 10u8);
    lemma_text_line_plain(s, a, b);
    lemma_text_line_plain(s, c, e);
    assert(s.subrange(a, b) =~= l1);
    assert(s.subrange(c, e) =~= l2);
    assert(text_line(s, e) == (Seq::<char>::empty(), e + 1, false));
    assert(ascii_chars(l2) + Seq::<char>::empty() =~= ascii_chars(l2));
    assert(text_line(s, c) == (ascii_chars(l2), e + 1, false));
    if ch != 110 {
        assert(crate::scan::literal(s, ch, c) == (seq![ch as char], c));
        assert(seq!['\\'] + seq![ch as char] + ascii_chars(l2) =~= shown + ascii_chars(l2));
    }
    assert(text_line(s, b) == (shown + ascii_chars(l2), e + 1, false));
    assert(ascii_chars(l1) + (shown + ascii_chars(l2)) =~= ascii_chars(l1) + shown + ascii_chars(l2));
    assert(Seq::<char>::empty() + (ascii_chars(l1) + shown + ascii_chars(l2)) =~= ascii_chars(l1) + shown + ascii_chars(l2));
}

/// In a replacement, a backslash before any ASCII character other than a
/// digit or one of `n`, `U`, `L`, `u`, `l`, `E` gives that character
/// itself, whatever the match: `\&` is a literal ampersand (where a bare
/// `&` is the match) and `\\` a backslash.
pub proof fn law_escaped_char_is_literal(d: char, m: Seq<Option<(usize, usize)>>, text: Seq<u8>)
    requires
        (d as u32) < 0x80,
        (d as u32) < 48 || (d as u32) > 57,
        d != 'n' && d != 'U' && d != 'L' && d != 'u' && d != 'l' && d != 'E',
    ensures
        replacement(seq!['\\', d], m, text) == seq![d as u8],
        d == '&' ==> replacement(seq!['\\', d], m, text) == seq![38u8],
{
    let r = seq!['\\', d];
    assert(vstd::utf8::is_ascii_chars(seq![d]));
    vstd::utf8::is_ascii_chars_encode_utf8(seq![d]);
    assert(char_bytes(d) =~= seq![d as u8]);
    crate::engine::lemma_cased_plain(char_bytes(d));
    assert(repl_from(r, m, text, 2, 0, 0) =~= Seq::<u8>::empty());
    assert(replacement(r, m, text) =~= seq![d as u8] + Seq::<u8>::empty());
}

/// A character that a BRE and an ERE both read as itself: no ERE
/// operator, backslash, bracket or anchor.
pub open spec fn bre_literal_char(ch: char) -> bool {
    !ere_only_special(ch) && ch != '\\' && ch != '[' && ch != ']' && ch != '^' && ch != '$'
}

proof fn lemma_bre_literal_run(c: Seq<char>, i: int, j: int)
    requires
        0 <= i <= j <= c.len(),
        forall|k: int| i <= k < j ==> bre_literal_char(#[trigger] c[k]),
    ensures
        bre_from(c, i) == c.subrange(i, j) + bre_from(c, j),
    decreases j - i,
{
    if i < j {
        lemma_bre_literal_run(c, i + 1, j);
        assert(bre_literal_char(c[i]));
        assert(bre_plain(c, i) == seq![c[i]]);
        assert(seq![c[i]] + (c.subrange(i + 1, j) + bre_from(c, j)) =~= c.subrange(i, j) + bre_from(c, j));
    } else {
        assert(c.subrange(i, j) + bre_from(c, j) =~= bre_from(c, j));
    }
}

proof fn lemma_bre_literal_sides(x: Seq<char>, m: Seq<char>, y: Seq<char>)
    requires
        forall|k: int| 0 <= k < x.len() ==> bre_literal_char(#[trigger] x[k]),
        forall|k: int| 0 <= k < y.len() ==> bre_literal_char(#[trigger] y[k]),
    ensures
        bre_from(x + m + y, 0) == x + bre_from(x + m + y, x.len() as int),
        bre_from(x + m + y, (x.len() + m.len()) as int) == y,
{
    let c = x + m + y;
    let n = x.len() as int;
    let q = n + m.len();
    assert forall|k: int| 0 <= k < n implies bre_literal_char(#[trigger] c[k]) by {
        assert(c[k] == x[k]);
    }
    assert forall|k: int| q <= k < c.len() implies bre_literal_char(#[trigger] c[k]) by {
        assert(c[k] == y[k - q]);
    }
    lemma_bre_literal_run(c, 0, n);
    lemma_bre_literal_run(c, q, c.len() as int);
    assert(c.subrange(0, n) =~= x);
    assert(c.subrange(q, c.len() as int) =~= y);
    assert(bre_from(c, c.len() as int) =~= Seq::<char>::empty());
    assert(y + Seq::<char>::empty() =~= y);
}

/// In a BRE, `\(`, `\)`, `\{`, `\}`, `\|`, `\+` and `\?` are the
/// operators and the bare characters are literals: between plain text
/// the escaped one becomes the ERE operator (`a\|b` is the alternation
/// `a|b`) and the bare one is escaped.
pub proof fn law_bre_operators_are_escaped(x: Seq<char>, op: char, y: Seq<char>)
    requires
        ere_only_special(op),
        forall|k: int| 0 <= k < x.len() ==> bre_literal_char(#[trigger] x[k]),
        forall|k: int| 0 <= k < y.len() ==> bre_literal_char(#[trigger] y[k]),
    ensures
        bre_from(x + seq!['\\', op] + y, 0) == x + seq![op] + y,
        bre_from(x + seq![op] + y, 0) == x + seq!['\\', op] + y,
{
    let n = x.len() as int;
    let c = x + seq!['\\', op] + y;
    lemma_bre_literal_sides(x, seq!['\\', op], y);
    assert(c[n] == '\\' && c[n + 1] == op);
    assert(bre_from(c, 0) =~= x + (seq![op] + y));
    let e = x + seq![op] + y;
    lemma_bre_literal_sides(x, seq![op], y);
    assert(e[n] == op);
    assert(bre_plain(e, n) == seq!['\\', op]);
    assert(bre_from(e, 0) =~= x + (seq!['\\', op] + y));
}

/// In a BRE, `\n` and `\t` stand for a newline and a tab, and a
/// backreference `\1` to `\9` is kept as it is.
pub proof fn law_bre_escapes(x: Seq<char>, ch: char, y: Seq<char>)
    requires
        ch == 'n' || ch == 't' || ('1' <= ch && ch <= '9'),
        forall|k: int| 0 <= k < x.len() ==> bre_literal_char(#[trigger] x[k]),
        forall|k: int| 0 <= k < y.len() ==> bre_literal_char(#[trigger] y[k]),
    ensures
        bre_from(x + seq!['\\', ch] + y, 0) == x + (if ch == 'n' {
            seq!['\n']
        } else if ch == 't' {
            seq!['\t']
        } else {
            seq!['\\', ch]
        }) + y,
{
    let n = x.len() as int;
    let c = x + seq!['\\', ch] + y;
    lemma_bre_literal_sides(x, seq!['\\', ch], y);
    assert(c[n] == '\\' && c[n + 1] == ch);
    let shown: Seq<char> = if ch == 'n' { seq!['\n'] } else if ch == 't' { seq!['\t'] } else { seq!['\\', ch] };
    assert(crate::regex_util::bre_escape(ch) == shown);
    assert(bre_from(c, 0) =~= x + (shown + y));
}

/// In a BRE, `^` is an anchor only as the very first character of the
/// pattern and `$` only as the very last; elsewhere both are literal
/// characters, escaped in the ERE.
pub proof fn law_bre_anchors_only_at_ends(x: Seq<char>, y: Seq<char>)
    requires
        forall|k: int| 0 <= k < x.len() ==> bre_literal_char(#[trigger] x[k]),
        forall|k: int| 0 <= k < y.len() ==> bre_literal_char(#[trigger] y[k]),
    ensures
        bre_from(seq!['^'] + x + seq!['$'], 0) == seq!['^'] + x + seq!['$'],
        x.len() > 0 ==> bre_from(x + seq!['^'] + y, 0) == x + seq!['\\', '^'] + y,
        y.len() > 0 ==> bre_from(x + seq!['$'] + y, 0) == x + seq!['\\', '$'] + y,
{
    let n = x.len() as int;
    let a = seq!['^'] + x + seq!['$'];
    assert forall|k: int| 1 <= k < n + 1 implies bre_literal_char(#[trigger] a[k]) by {
        assert(a[k] == x[k - 1]);
    }
    lemma_bre_literal_run(a, 1, n + 1);
    assert(a.subrange(1, n + 1) =~= x);
    assert(a[0] == '^' && a[n + 1] == '$');
    assert(bre_plain(a, 0) == seq!['^']);
    assert(bre_from(a, n + 2) =~= Seq::<char>::empty());
    assert(bre_plain(a, n + 1) == seq!['$']);
    assert(bre_from(a, n + 1) =~= seq!['$']);
    assert(bre_from(a, 0) =~= a);
    if x.len() > 0 {
        let e = x + seq!['^'] + y;
        lemma_bre_literal_sides(x, seq!['^'], y);
        assert(e[n] == '^');
        assert(bre_plain(e, n) == seq!['\\', '^']);
        assert(bre_from(e, 0) =~= x + (seq!['\\', '^'] + y));
    }
    if y.len() > 0 {
        let e = x + seq!['$'] + y;
        lemma_bre_literal_sides(x, seq!['$'], y);
        assert(e[n] == '$');
        assert(bre_plain(e, n) == seq!['\\', '$']);
        assert(bre_from(e, 0) =~= x + (seq!['\\', '$'] + y));
    }
}

/// `l` shows the control characters that have a C escape (`\a`, `\b`,
/// `\t`, `\n`, `\v`, `\f`, `\r`) by that escape, and the escape reads back
/// as the same byte in a `y` string and in an `s` replacement; every other
/// control character is shown as three octal digits of its value.
pub proof fn law_list_escapes_read_back(b: u8, s: Seq<u8>, d: u8, p: int)
    requires
        b < 32 || b == 127,
    ensures
        (7 <= b <= 13) <==> escape_token(b).len() == 2,
        escape_token(b)[0] == '\\',
        escape_token(b).len() == 2 ==> tr_escape(s, d, escape_token(b)[1] as u8, p) == (seq![b as char], p),
        escape_token(b).len() == 2 ==> repl_escape(s, d, escape_token(b)[1] as u8, p) == Ok::<(Seq<char>, int), int>((seq![b as char], p)),
        escape_token(b).len() != 2 ==> ({
            let t = escape_token(b);
            &&& t.len() == 4
            &&& forall|k: int| 1 <= k < 4 ==> '0' <= #[trigger] t[k] <= '7'
            &&& 64 * (t[1] as int - 48) + 8 * (t[2] as int - 48) + (t[3] as int - 48) == b
        }),
{
    assert(b as int == 64 * (b as int / 64) + 8 * ((b as int / 8) % 8) + b as int % 8);
}

/// `l` shows a printable ASCII character as itself, except the backslash,
/// which it doubles.
pub proof fn law_list_printable_as_is(b: u8)
    requires
        32 <= b <= 126,
    ensures
        b != 92 ==> escape_token(b) == seq![b as char],
        b == 92 ==> escape_token(b) == seq!['\\', '\\'],
{
}

} // verus!
