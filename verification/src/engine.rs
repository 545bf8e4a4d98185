mod program;
mod edit;
mod address;

use vstd::prelude::*;
use crate::sed_regex::{captures_well_formed, sed_captures, span_end, span_start, SedRegex};
use crate::text::{chars_of, decimal, string_from_chars};
use crate::types::{
    command_model, flags_model, range_model, Address, AddressModel, AddressRange, Command, CommandModel, FlagsModel,
    RangeModel, SedCommand, SubstFlags,
};
pub use self::address::{
    address_matches, addr_matches_single, ends_where_it_starts, range_select, regex_view, selects, single,
    RangeState,
};
pub use self::edit::{
    ascii_bytes, build_replacement, cased, cased_from, lemma_cased_plain, char_bytes, decimal_bytes, first_newline, group_text, index_in,
    list_bytes, listed, listed_from, match_end, match_start, matches_ordered, newline_index, next_after,
    push_char_bytes, push_slice, push_with_newline, slice_of, repl_from, replace_from, replace_one, replacement, spans_inside,
    substitute_matches, substitution, text_bytes, text_to_bytes, to_lower, to_upper, translit, translit_from, translit_unit, unit_at,
    transliterate, with_newline, wrap_limit,
};
pub use crate::types::{count, layout};
pub use self::program::{
    commands_of, count_commands, find_label, flat, flatten_into, instr_model, label_from, lemma_flat,
    lemma_flat_layout, models, Instr, InstrModel,
};

verus! {

/// One line of input.
pub struct InputLine {
    pub text: Vec<u8>,
    /// The input file it came from, as an index into the engine's names.
    pub file: usize,
    /// The line ended with the line delimiter.
    pub terminated: bool,
}

/// Where the engine stands.
#[derive(Clone, Copy, PartialEq, Eq, Structural)]
pub enum Phase {
    /// A new cycle starts with the next line of input.
    Start,
    /// The instruction at `pc` (or the end of the script) comes next.
    Run,
    /// `r` at `pc` waits for the file's contents.
    ReadingFile,
    /// `R` at `pc` waits for the next line of the file.
    ReadingLine,
    /// `e command` at `pc` waits for the command's output.
    Executing,
    /// `e` at `pc` waits for the output of the pattern space run as a
    /// command.
    ExecutingPattern,
    /// `s///e` at `pc` waits for the output of the new pattern space run as
    /// a command.
    ExecutingSubstitution,
    /// The cycle is over: its output is handed out next.
    EndOfCycle,
    /// Nothing is left to do.
    Done,
}

/// What the engine asks of its caller after a step.
pub enum Request {
    /// Nothing: take the next step.
    Proceed,
    /// Write these bytes to standard output.
    Output(Vec<u8>),
    /// `r`: hand back the file's contents (`None` if it cannot be read).
    ReadFile(String),
    /// `R`: hand back the file's contents (`None` if it cannot be read);
    /// the engine queues its next line, keeping count per file.
    ReadLine(String),
    /// Append these bytes to the file.
    WriteFile(String, Vec<u8>),
    /// Run this command with `sh -c` and hand back what it wrote to its
    /// standard output (`None` if it could not be run).
    Execute(Vec<u8>),
    /// Report this message on standard error.
    Report(String),
    /// All input is processed: exit with this code.
    Finished(i32),
}

/// A request with its text as sequences.
pub enum RequestView {
    Proceed,
    Output(Seq<u8>),
    ReadFile(Seq<char>),
    ReadLine(Seq<char>),
    WriteFile(Seq<char>, Seq<u8>),
    Execute(Seq<u8>),
    Report(Seq<char>),
    Finished(i32),
}

pub open spec fn request_view(r: Request) -> RequestView {
    match r {
        Request::Proceed => RequestView::Proceed,
        Request::Output(b) => RequestView::Output(b@),
        Request::ReadFile(f) => RequestView::ReadFile(f@),
        Request::ReadLine(f) => RequestView::ReadLine(f@),
        Request::WriteFile(f, b) => RequestView::WriteFile(f@, b@),
        Request::Execute(b) => RequestView::Execute(b@),
        Request::Report(m) => RequestView::Report(m@),
        Request::Finished(c) => RequestView::Finished(c),
    }
}

pub open spec fn reply_view(r: Option<Vec<u8>>) -> Option<Seq<u8>> {
    match r {
        Some(b) => Some(b@),
        None => None,
    }
}

/// The state of the engine, apart from its script.
pub struct State {
    /// `-n` (or `#n`): no automatic printing.
    pub quiet: bool,
    /// `--posix`.
    pub posix: bool,
    /// The line delimiter: newline, or NUL under `-z`.
    pub delim: u8,
    /// The line width of `l`.
    pub width: usize,
    /// The names of the input files.
    pub names: Seq<Seq<char>>,
    /// The input lines: text, file and whether the delimiter ended it.
    pub lines: Seq<(Seq<u8>, int, bool)>,
    /// How many lines were read: the current line number.
    pub next_line: int,
    pub ps: Seq<u8>,
    pub hold: Seq<u8>,
    /// The current line ended with the delimiter.
    pub chomped: bool,
    /// The file of the current line.
    pub file: int,
    pub last_regex: Option<Seq<char>>,
    /// A substitution was made since the last input line or `t`.
    pub sub: bool,
    /// The state of each instruction's range.
    pub ranges: Seq<RangeState>,
    /// What `a`, `r` and `R` queued for the end of the cycle.
    pub append: Seq<u8>,
    /// What `0r` queued for before the first line.
    pub pre: Seq<u8>,
    /// The output of this cycle so far.
    pub out: Seq<u8>,
    /// The last line written lacked its delimiter (it was the last line
    /// of input and had none): it gets one before anything else is
    /// written.
    pub missing: bool,
    pub pc: int,
    pub phase: Phase,
    /// The engine stops after this cycle.
    pub quitting: bool,
    pub exit_code: i32,
    /// The pattern space is not printed at the end of this cycle.
    pub suppress: bool,
    /// How many lines `R` has read from each file, by name.
    pub read_pos: Seq<(Seq<char>, int)>,
}

// ---------------------------------------------------------------------
// The semantics, one step at a time
// ---------------------------------------------------------------------

/// `s` after writing `b`: the missing delimiter of the last line comes
/// first.
pub open spec fn with_output(s: State, b: Seq<u8>) -> State {
    State { out: (if s.missing { s.out.push(s.delim) } else { s.out }) + b, missing: false, ..s }
}

/// `s` after writing the pattern space, followed by the delimiter unless
/// the current line had none.
pub open spec fn with_ps_output(s: State) -> State {
    let w = with_output(s, s.ps);
    if s.chomped {
        State { out: w.out.push(s.delim), ..w }
    } else {
        State { missing: true, ..w }
    }
}

/// `s` after writing out what was queued for the end of the cycle.
pub open spec fn with_append_flushed(s: State) -> State {
    if s.append.len() == 0 {
        s
    } else {
        State { append: Seq::empty(), ..with_output(s, s.append) }
    }
}

/// There is no line left to read.
pub open spec fn at_last_line(s: State) -> bool {
    s.next_line >= s.lines.len()
}

/// `s` after reading the next line into the pattern space.
pub open spec fn with_next_line(s: State) -> State {
    let l = s.lines[s.next_line];
    State { ps: l.0, next_line: s.next_line + 1, chomped: l.2, file: l.1, ..s }
}

pub open spec fn advanced(s: State) -> State {
    State { pc: s.pc + 1, ..s }
}

pub open spec fn ended(s: State, suppress: bool) -> State {
    State { suppress: suppress, phase: Phase::EndOfCycle, ..s }
}

pub open spec fn exit_code_of(c: Option<i32>) -> i32 {
    match c {
        Some(n) => n,
        None => 0,
    }
}

/// Where a branch goes: its label, or the end of the script without one.
pub open spec fn branch_target(prog: Seq<InstrModel>, l: Option<Seq<char>>) -> int {
    match l {
        Some(t) => label_from(prog, t, 0),
        None => prog.len() as int,
    }
}

/// The name of the current input file.
pub open spec fn file_name(s: State) -> Seq<char> {
    if 0 <= s.file < s.names.len() {
        s.names[s.file]
    } else {
        "-"@
    }
}

/// The first line of the pattern space.
pub open spec fn first_line(ps: Seq<u8>) -> Seq<u8> {
    ps.subrange(0, newline_index(ps, 0))
}

/// The output of a command, without one final newline.
pub open spec fn strip_newline(o: Seq<u8>) -> Seq<u8> {
    if o.len() > 0 && o.last() == 10 {
        o.drop_last()
    } else {
        o
    }
}

/// The message for an `s` with an empty regex and no regex used before.
pub open spec fn no_previous_regex() -> Seq<char> {
    "-e expression #1, char 0: no previous regular expression"@
}

/// A new cycle: the next line is read, or the engine is done.
pub open spec fn start_spec(s: State) -> (State, RequestView) {
    if at_last_line(s) {
        (State { phase: Phase::Done, ..s }, RequestView::Finished(s.exit_code))
    } else {
        (
            State { sub: false, append: Seq::empty(), suppress: false, pc: 0, phase: Phase::Run, ..with_next_line(s) },
            RequestView::Proceed,
        )
    }
}

/// The end of a cycle: the pattern space is printed unless `-n` or the
/// cycle suppressed it, the queue is written, and the cycle's output
/// handed out.
pub open spec fn end_cycle_spec(s: State) -> (State, RequestView) {
    let s1 = if !s.quiet && !s.suppress { with_ps_output(s) } else { s };
    let s2 = with_append_flushed(s1);
    (
        State { out: Seq::empty(), pre: Seq::empty(), phase: if s.quitting { Phase::Done } else { Phase::Start }, ..s2 },
        RequestView::Output(s2.pre + s2.out),
    )
}

/// The `p` and `w` flags of an `s` that substituted.
pub open spec fn sub_tail(s: State, f: FlagsModel) -> (State, RequestView) {
    let s1 = if f.print && !f.print_before_exec { with_ps_output(s) } else { s };
    match f.write_file {
        Some(w) => (advanced(s1), RequestView::WriteFile(w, s1.ps.push(10))),
        None => (advanced(s1), RequestView::Proceed),
    }
}

/// `s/pattern/r/f` (the pattern `None`: the last regex).
pub open spec fn substitute_spec(s: State, pattern: Option<Seq<char>>, r: Seq<char>, f: FlagsModel) -> (State, RequestView) {
    let p = match pattern {
        Some(q) => Some(q),
        None => s.last_regex,
    };
    match p {
        None => (State { exit_code: 1, quitting: true, phase: Phase::EndOfCycle, ..s }, RequestView::Report(no_previous_regex())),
        Some(q) => {
            let s1 = State { last_regex: Some(q), ..s };
            match substitution(s.ps, sed_captures(q, s.ps), r, f.global, f.nth) {
                None => (advanced(s1), RequestView::Proceed),
                Some(t) => {
                    let s2 = State { ps: t, sub: true, ..s1 };
                    let s3 = if f.print && f.print_before_exec { with_ps_output(s2) } else { s2 };
                    if f.execute {
                        (State { phase: Phase::ExecutingSubstitution, ..s3 }, RequestView::Execute(s3.ps))
                    } else {
                        sub_tail(s3, f)
                    }
                },
            }
        },
    }
}

/// The commands that print.
pub open spec fn output_spec(s: State, c: CommandModel) -> State {
    match c {
        CommandModel::Print => advanced(with_ps_output(s)),
        CommandModel::PrintFirstLine => advanced(with_output(s, first_line(s.ps).push(s.delim))),
        CommandModel::PrintEscaped(w) => advanced(with_output(s, listed(s.ps, match w {
            Some(n) => n,
            None => s.width,
        }).push(s.delim))),
        CommandModel::PrintLineNum => advanced(with_output(s, ascii_bytes(decimal(s.next_line as nat)).push(s.delim))),
        CommandModel::Insert(t) => advanced(with_output(s, with_newline(text_bytes(t)))),
        CommandModel::Append(t) => advanced(State { append: s.append + with_newline(text_bytes(t)), ..s }),
        CommandModel::Filename => advanced(with_output(s, text_bytes(file_name(s)).push(s.delim))),
        _ => s,
    }
}

/// The commands that work on the pattern and hold spaces.
pub open spec fn buffer_spec(s: State, c: CommandModel) -> State {
    match c {
        CommandModel::HoldReplace => advanced(State { hold: s.ps, ..s }),
        CommandModel::HoldAppend => advanced(State { hold: s.hold.push(10) + s.ps, ..s }),
        CommandModel::GetReplace => advanced(State { ps: s.hold, ..s }),
        CommandModel::GetAppend => advanced(State { ps: s.ps.push(10) + s.hold, ..s }),
        CommandModel::Exchange => advanced(State { ps: s.hold, hold: s.ps, ..s }),
        CommandModel::Transliterate(a, b) => advanced(State { ps: translit(s.ps, a, b), ..s }),
        _ => s,
    }
}

/// The commands that change the flow: branches, ends of cycle, `n`, `N`.
pub open spec fn flow_spec(prog: Seq<InstrModel>, s: State, ins: InstrModel) -> State {
    match ins.command {
        CommandModel::Branch(l) => State { pc: branch_target(prog, l), ..s },
        CommandModel::BranchIfSub(l) => if s.sub {
            State { sub: false, pc: branch_target(prog, l), ..s }
        } else {
            advanced(s)
        },
        CommandModel::BranchIfNoSub(l) => if !s.sub {
            State { pc: branch_target(prog, l), ..s }
        } else {
            advanced(State { sub: false, ..s })
        },
        CommandModel::Delete => ended(s, true),
        CommandModel::DeleteFirstLine => {
            let k = newline_index(s.ps, 0);
            if k < s.ps.len() {
                State { ps: s.ps.subrange(k + 1, s.ps.len() as int), suppress: false, pc: 0, ..s }
            } else {
                ended(s, true)
            }
        },
        CommandModel::Quit(c) => State { exit_code: exit_code_of(c), quitting: true, phase: Phase::EndOfCycle, ..s },
        CommandModel::QuitNoprint(c) => State {
            exit_code: exit_code_of(c),
            quitting: true,
            suppress: true,
            phase: Phase::EndOfCycle,
            ..s
        },
        CommandModel::Change(t) => {
            let middle = ins.range is Range && !ins.negated && s.ranges[s.pc] is Active;
            ended(if middle { s } else { with_output(s, with_newline(text_bytes(t))) }, true)
        },
        CommandModel::Next => if at_last_line(s) {
            State { quitting: true, phase: Phase::EndOfCycle, ..s }
        } else {
            advanced(with_next_line(with_append_flushed(if s.quiet { s } else { with_ps_output(s) })))
        },
        CommandModel::NextAppend => if at_last_line(s) {
            State { quitting: true, suppress: s.suppress || s.posix, phase: Phase::EndOfCycle, ..s }
        } else {
            let f = with_append_flushed(s);
            let l = s.lines[s.next_line];
            advanced(State { ps: f.ps.push(10) + l.0, next_line: s.next_line + 1, chomped: l.2, file: l.1, ..f })
        },
        _ => s,
    }
}

/// The commands that ask for outside work.
pub open spec fn outside_spec(s: State, c: CommandModel) -> (State, RequestView) {
    match c {
        CommandModel::ReadFile(f) => (State { phase: Phase::ReadingFile, ..s }, RequestView::ReadFile(f)),
        CommandModel::ReadLine(f) => (State { phase: Phase::ReadingLine, ..s }, RequestView::ReadLine(f)),
        CommandModel::WriteFile(f) => (advanced(s), RequestView::WriteFile(f, s.ps.push(10))),
        CommandModel::WriteFirstLine(f) => (advanced(s), RequestView::WriteFile(f, first_line(s.ps).push(10))),
        CommandModel::Execute(Some(t)) => (State { phase: Phase::Executing, ..s }, RequestView::Execute(text_bytes(t))),
        CommandModel::Execute(None) => (State { phase: Phase::ExecutingPattern, ..s }, RequestView::Execute(s.ps)),
        _ => (s, RequestView::Proceed),
    }
}

/// The group a command belongs to.
pub open spec fn is_output_command(c: CommandModel) -> bool {
    c is Print || c is PrintFirstLine || c is PrintEscaped || c is PrintLineNum || c is Insert || c is Append
        || c is Filename
}

pub open spec fn is_buffer_command(c: CommandModel) -> bool {
    c is HoldReplace || c is HoldAppend || c is GetReplace || c is GetAppend || c is Exchange || c is Transliterate
}

pub open spec fn is_flow_command(c: CommandModel) -> bool {
    c is Branch || c is BranchIfSub || c is BranchIfNoSub || c is Delete || c is DeleteFirstLine || c is Quit
        || c is QuitNoprint || c is Change || c is Next || c is NextAppend
}

pub open spec fn is_outside_command(c: CommandModel) -> bool {
    c is ReadFile || c is ReadLine || c is WriteFile || c is WriteFirstLine || c is Execute
}

/// What a selected instruction does.
pub open spec fn command_spec(prog: Seq<InstrModel>, s: State, ins: InstrModel) -> (State, RequestView) {
    let c = ins.command;
    if is_output_command(c) {
        (output_spec(s, c), RequestView::Proceed)
    } else if is_buffer_command(c) {
        (buffer_spec(s, c), RequestView::Proceed)
    } else if is_flow_command(c) {
        (flow_spec(prog, s, ins), RequestView::Proceed)
    } else if is_outside_command(c) {
        outside_spec(s, c)
    } else {
        match c {
            CommandModel::Substitute { pattern, replacement, flags } => substitute_spec(s, pattern, replacement, flags),
            _ => (advanced(s), RequestView::Proceed),
        }
    }
}

/// The instruction at `pc`: its address is matched, and it runs if the
/// line is selected (a block is then entered); otherwise execution goes
/// on after it (after the block's contents for a block).
pub open spec fn run_spec(prog: Seq<InstrModel>, s: State) -> (State, RequestView) {
    let ins = prog[s.pc];
    let m = selects(ins.range, s.ranges[s.pc], s.next_line, at_last_line(s), s.ps, s.last_regex);
    let s1 = State { ranges: s.ranges.update(s.pc, m.1), last_regex: m.2, ..s };
    if m.0 == ins.negated {
        (State { pc: if ins.command is Block { ins.skip } else { s.pc + 1 }, ..s1 }, RequestView::Proceed)
    } else {
        command_spec(prog, s1, ins)
    }
}

/// What the reply to an outside request does.
pub open spec fn reply_spec(prog: Seq<InstrModel>, s: State, reply: Option<Seq<u8>>) -> (State, RequestView) {
    let s0 = State { phase: Phase::Run, ..s };
    match s.phase {
        Phase::ReadingFile => (advanced(match reply {
            Some(c) => if prog[s.pc].range == RangeModel::Single(AddressModel::Line(0)) {
                State { pre: s0.pre + with_newline(c), ..s0 }
            } else {
                State { append: s0.append + with_newline(c), ..s0 }
            },
            None => s0,
        }), RequestView::Proceed),
        Phase::ReadingLine => (advanced(match (reply, prog[s.pc].command) {
            (Some(c), CommandModel::ReadLine(f)) => {
                let k = read_pos_of(s.read_pos, f);
                match file_line(c, k) {
                    Some(l) => State { append: s0.append + with_newline(l), read_pos: with_read_pos(s.read_pos, f, k + 1), ..s0 },
                    None => s0,
                }
            },
            _ => s0,
        }), RequestView::Proceed),
        Phase::Executing => (advanced(match reply {
            Some(o) => if o.len() > 0 { with_output(s0, with_newline(o)) } else { s0 },
            None => s0,
        }), RequestView::Proceed),
        Phase::ExecutingPattern => (advanced(match reply {
            Some(o) => State { ps: strip_newline(o), ..s0 },
            None => s0,
        }), RequestView::Proceed),
        _ => {
            let s1 = match reply {
                Some(o) => State { ps: strip_newline(o), ..s0 },
                None => s0,
            };
            match prog[s.pc].command {
                CommandModel::Substitute { flags, .. } => sub_tail(s1, flags),
                _ => (advanced(s1), RequestView::Proceed),
            }
        },
    }
}

/// One step of the engine with the script `prog` from state `s`, given
/// the reply to the previous request: the next state and what the engine
/// asks for.
pub open spec fn step_spec(prog: Seq<InstrModel>, s: State, reply: Option<Seq<u8>>) -> (State, RequestView) {
    match s.phase {
        Phase::Start => start_spec(s),
        Phase::Run => if s.pc < prog.len() {
            run_spec(prog, s)
        } else {
            (State { phase: Phase::EndOfCycle, ..s }, RequestView::Proceed)
        },
        Phase::EndOfCycle => end_cycle_spec(s),
        Phase::Done => (s, RequestView::Finished(s.exit_code)),
        _ => reply_spec(prog, s, reply),
    }
}

/// The engine waits for the reply to an outside request.
pub open spec fn waiting(p: Phase) -> bool {
    p == Phase::ReadingFile || p == Phase::ReadingLine || p == Phase::Executing || p == Phase::ExecutingPattern
        || p == Phase::ExecutingSubstitution
}

/// Line `k` of the contents `c` of a file as `R` reads it: the lines split
/// at newlines, a carriage return before the newline removed; `None` past
/// the last line.
#[verifier::opaque]
pub open spec fn file_line(c: Seq<u8>, k: int) -> Option<Seq<u8>> {
    let ls = split_from(c, 10, 0, 0);
    if 0 <= k < ls.len() {
        let l = ls[k];
        Some(if l.2 && l.0.len() > 0 && l.0.last() == 13 { l.0.drop_last() } else { l.0 })
    } else {
        None
    }
}

/// The index of the first entry for file `f` at or after `i` in the list
/// of `R` positions (its length where there is none).
pub open spec fn pos_index(ps: Seq<(Seq<char>, int)>, f: Seq<char>, i: int) -> int
    decreases ps.len() - i,
{
    if i < 0 || i >= ps.len() || ps[i].0 == f {
        i
    } else {
        pos_index(ps, f, i + 1)
    }
}

/// How many lines `R` has read from file `f`.
#[verifier::opaque]
pub open spec fn read_pos_of(ps: Seq<(Seq<char>, int)>, f: Seq<char>) -> int {
    let k = pos_index(ps, f, 0);
    if k < ps.len() { ps[k].1 } else { 0 }
}

/// The list of `R` positions with that of file `f` set to `n`.
#[verifier::opaque]
pub open spec fn with_read_pos(ps: Seq<(Seq<char>, int)>, f: Seq<char>, n: int) -> Seq<(Seq<char>, int)> {
    let k = pos_index(ps, f, 0);
    if k < ps.len() { ps.update(k, (f, n)) } else { ps.push((f, n)) }
}

proof fn lemma_pos_index(ps: Seq<(Seq<char>, int)>, f: Seq<char>, i: int)
    requires
        0 <= i <= ps.len(),
    ensures
        i <= pos_index(ps, f, i) <= ps.len(),
    decreases ps.len() - i,
{
    if i < ps.len() && ps[i].0 != f {
        lemma_pos_index(ps, f, i + 1);
    }
}

/// The lines of `data` from position `i` on, split at `delim`, as lines
/// of input file `file`: each with whether the delimiter ended it.
pub open spec fn split_from(data: Seq<u8>, delim: u8, file: int, i: int) -> Seq<(Seq<u8>, int, bool)>
    decreases data.len() - i,
{
    if i < 0 || i >= data.len() {
        Seq::empty()
    } else {
        proof {
            lemma_delim_index(data, delim, i);
        }
        let j = delim_index(data, delim, i);
        if j < data.len() {
            seq![(data.subrange(i, j), file, true)] + split_from(data, delim, file, j + 1)
        } else {
            seq![(data.subrange(i, j), file, false)]
        }
    }
}

/// The index of the first `delim` at or after `i` (or the length).
pub open spec fn delim_index(data: Seq<u8>, delim: u8, i: int) -> int
    decreases data.len() - i,
{
    if i < 0 || i >= data.len() || data[i] == delim {
        i
    } else {
        delim_index(data, delim, i + 1)
    }
}

pub proof fn lemma_delim_index(data: Seq<u8>, delim: u8, i: int)
    requires
        0 <= i <= data.len(),
    ensures
        i <= delim_index(data, delim, i) <= data.len(),
        delim_index(data, delim, i) < data.len() ==> data[delim_index(data, delim, i)] == delim,
    decreases data.len() - i,
{
    if i < data.len() && data[i] != delim {
        lemma_delim_index(data, delim, i + 1);
    }
}

proof fn lemma_split_len(data: Seq<u8>, delim: u8, file: int, i: int)
    requires
        0 <= i,
    ensures
        split_from(data, delim, file, i).len() <= if i < data.len() { data.len() - i } else { 0 },
    decreases data.len() - i,
{
    if i < data.len() {
        lemma_delim_index(data, delim, i);
        if delim_index(data, delim, i) < data.len() {
            lemma_split_len(data, delim, file, delim_index(data, delim, i) + 1);
        }
    }
}

/// The lines of `data` split at `delim`, as lines of file `file`.
fn split_lines(data: &Vec<u8>, delim: u8, file: usize) -> (v: Vec<InputLine>)
    ensures
        v@.map_values(|l: InputLine| line_view(l)) == split_from(data@, delim, file as int, 0),
{
    let mut v: Vec<InputLine> = Vec::new();
    let mut i: usize = 0;
    while i < data.len()
        invariant
            i <= data.len(),
            v@.map_values(|l: InputLine| line_view(l)) + split_from(data@, delim, file as int, i as int)
                == split_from(data@, delim, file as int, 0),
        decreases data.len() - i,
    {
        proof { lemma_delim_index(data@, delim, i as int); }
        let start = i;
        while i < data.len() && data[i] != delim
            invariant
                start <= i <= data.len(),
                delim_index(data@, delim, i as int) == delim_index(data@, delim, start as int),
            decreases data.len() - i,
        {
            i += 1;
        }
        let mut text: Vec<u8> = Vec::new();
        let mut k = start;
        while k < i
            invariant
                start <= k <= i <= data.len(),
                text@ == data@.subrange(start as int, k as int),
            decreases i - k,
        {
            text.push(data[k]);
            k += 1;
            assert(text@ =~= data@.subrange(start as int, k as int));
        }
        let terminated = i < data.len();
        let ghost before = v@.map_values(|l: InputLine| line_view(l));
        let line = InputLine { text, file, terminated };
        v.push(line);
        assert(v@.map_values(|l: InputLine| line_view(l)) =~= before.push(line_view(line)));
        if i < data.len() {
            i += 1;
        }
        assert(v@.map_values(|l: InputLine| line_view(l)) + split_from(data@, delim, file as int, i as int)
            =~= split_from(data@, delim, file as int, 0)) by {
            assert(split_from(data@, delim, file as int, start as int) == seq![line_view(line)] + split_from(data@, delim, file as int, i as int));
        }
    }
    assert(v@.map_values(|l: InputLine| line_view(l)) =~= v@.map_values(|l: InputLine| line_view(l)) + split_from(data@, delim, file as int, i as int));
    v
}

// ---------------------------------------------------------------------
// The engine
// ---------------------------------------------------------------------

struct Machine {
    quiet: bool,
    posix: bool,
    delim: u8,
    width: usize,
    names: Vec<String>,
    lines: Vec<InputLine>,
    next_line: usize,
    ps: Vec<u8>,
    hold: Vec<u8>,
    chomped: bool,
    file: usize,
    last_regex: Option<SedRegex>,
    sub: bool,
    ranges: Vec<RangeState>,
    append: Vec<u8>,
    pre: Vec<u8>,
    out: Vec<u8>,
    missing: bool,
    pc: usize,
    phase: Phase,
    quitting: bool,
    exit_code: i32,
    suppress: bool,
    read_pos: Vec<(String, usize)>,
}

pub open spec fn pos_view(p: (String, usize)) -> (Seq<char>, int) {
    (p.0@, p.1 as int)
}

pub open spec fn line_view(l: InputLine) -> (Seq<u8>, int, bool) {
    (l.text@, l.file as int, l.terminated)
}

impl Machine {
    spec fn view(&self) -> State {
        State {
            quiet: self.quiet,
            posix: self.posix,
            delim: self.delim,
            width: self.width,
            names: self.names@.map_values(|n: String| n@),
            lines: self.lines@.map_values(|l: InputLine| line_view(l)),
            next_line: self.next_line as int,
            ps: self.ps@,
            hold: self.hold@,
            chomped: self.chomped,
            file: self.file as int,
            last_regex: regex_view(self.last_regex),
            sub: self.sub,
            ranges: self.ranges@,
            append: self.append@,
            pre: self.pre@,
            out: self.out@,
            missing: self.missing,
            pc: self.pc as int,
            phase: self.phase,
            quitting: self.quitting,
            exit_code: self.exit_code,
            suppress: self.suppress,
            read_pos: self.read_pos@.map_values(|p: (String, usize)| pos_view(p)),
        }
    }

    /// The machine's counters are in range for a script of `n`
    /// instructions; while it waits for a reply, `pc` is the instruction
    /// that asked.
    spec fn wf(&self, n: nat) -> bool {
        &&& self.ranges.len() == n
        &&& self.pc <= n
        &&& self.next_line <= self.lines.len() < usize::MAX
        &&& waiting(self.phase) ==> self.pc < n
    }

    fn write(&mut self, b: &Vec<u8>)
        ensures
            final(self).view() == with_output(old(self).view(), b@),
            final(self).wf_same(old(self)),
    {
        if self.missing {
            self.out.push(self.delim);
        }
        let mut c = b.clone();
        self.out.append(&mut c);
        self.missing = false;
        assert(self.view() =~= with_output(old(self).view(), b@));
    }

    /// The fields that `wf` speaks of are unchanged.
    spec fn wf_same(&self, other: &Self) -> bool {
        &&& self.ranges.len() == other.ranges.len()
        &&& self.pc == other.pc
        &&& self.next_line == other.next_line
        &&& self.lines.len() == other.lines.len()
    }

    fn write_pattern_space(&mut self)
        ensures
            final(self).view() == with_ps_output(old(self).view()),
            final(self).wf_same(old(self)),
    {
        let p = self.ps.clone();
        self.write(&p);
        if self.chomped {
            self.out.push(self.delim);
        } else {
            self.missing = true;
        }
        assert(self.view() =~= with_ps_output(old(self).view()));
    }

    fn flush_append(&mut self)
        ensures
            final(self).view() == with_append_flushed(old(self).view()),
            final(self).wf_same(old(self)),
    {
        if self.append.len() > 0 {
            let a = self.append.clone();
            self.write(&a);
            self.append = Vec::new();
            assert(self.view() =~= with_append_flushed(old(self).view()));
        }
    }

    fn read_next_line(&mut self)
        requires
            old(self).next_line < old(self).lines.len(),
        ensures
            final(self).view() == with_next_line(old(self).view()),
            final(self).ranges.len() == old(self).ranges.len(),
            final(self).pc == old(self).pc,
            final(self).next_line == old(self).next_line + 1,
            final(self).lines.len() == old(self).lines.len(),
    {
        let l = &self.lines[self.next_line];
        self.ps = l.text.clone();
        self.chomped = l.terminated;
        self.file = l.file;
        self.next_line = self.next_line + 1;
        assert(self.view() =~= with_next_line(old(self).view()));
    }

    fn start_cycle(&mut self) -> (r: Request)
        requires
            old(self).wf(old(self).ranges.len() as nat),
            old(self).phase == Phase::Start,
        ensures
            final(self).wf(old(self).ranges.len() as nat),
            (final(self).view(), request_view(r)) == start_spec(old(self).view()),
    {
        if self.next_line >= self.lines.len() {
            self.phase = Phase::Done;
            assert(self.view() =~= start_spec(old(self).view()).0);
            return Request::Finished(self.exit_code);
        }
        self.read_next_line();
        self.sub = false;
        self.append = Vec::new();
        self.suppress = false;
        self.pc = 0;
        self.phase = Phase::Run;
        assert(self.view() =~= start_spec(old(self).view()).0);
        Request::Proceed
    }

    fn end_cycle(&mut self) -> (r: Request)
        requires
            old(self).wf(old(self).ranges.len() as nat),
            old(self).phase == Phase::EndOfCycle,
        ensures
            final(self).wf(old(self).ranges.len() as nat),
            (final(self).view(), request_view(r)) == end_cycle_spec(old(self).view()),
    {
        if !self.quiet && !self.suppress {
            self.write_pattern_space();
        }
        self.flush_append();
        let mut bytes = self.pre.clone();
        let mut o = self.out.clone();
        bytes.append(&mut o);
        self.out = Vec::new();
        self.pre = Vec::new();
        self.phase = if self.quitting { Phase::Done } else { Phase::Start };
        assert(self.view() =~= end_cycle_spec(old(self).view()).0);
        Request::Output(bytes)
    }
}

/// The matches that `captures_all` reports are ordered as the
/// substitution needs them.
proof fn lemma_captures_ordered(caps: Seq<Seq<Option<(usize, usize)>>>, len: nat)
    requires
        captures_well_formed(caps, len),
    ensures
        matches_ordered(caps, len),
{
    assert forall|k: int| 0 <= k < caps.len() implies spans_inside(#[trigger] caps[k], len) by {
        assert forall|g: int| 0 <= g < caps[k].len() && (#[trigger] caps[k][g]) is Some implies
            span_start(caps[k][g]) <= span_end(caps[k][g]) && span_end(caps[k][g]) <= len by {
        }
    }
    assert forall|k: int| 0 <= k && k + 1 < caps.len() implies match_end(caps, k) <= #[trigger] match_start(caps, k + 1) by {
        assert(span_end(caps[k][0]) <= span_start(caps[k + 1][0]));
    }
}

/// The output of a command without one final newline.
fn strip_newline_exec(o: Vec<u8>) -> (r: Vec<u8>)
    ensures
        r@ == strip_newline(o@),
{
    let ghost o0 = o@;
    let mut o = o;
    if o.len() > 0 && o[o.len() - 1] == 10 {
        o.pop();
        assert(o@ =~= strip_newline(o0));
    }
    o
}

/// A `String` with the characters of `s`.
fn owned(s: &str) -> (r: String)
    ensures
        r@ == s@,
{
    let v = chars_of(s);
    string_from_chars(v.as_slice())
}

/// The flags of an `s` command, and nothing else about it, as its model.
fn flags_of(c: &Command) -> (f: &SubstFlags)
    requires
        command_model(*c) is Substitute,
    ensures
        command_model(*c) matches CommandModel::Substitute { flags, .. } && flags == flags_model(*f),
{
    match c {
        Command::Substitute { flags, .. } => flags,
        _ => { proof { assert(false); } unreached() },
    }
}

impl Machine {
    /// The commands that print (see `output_spec`).
    fn exec_output(&mut self, c: &Command)
        requires
            is_output_command(command_model(*c)),
            old(self).pc < old(self).ranges.len(),
        ensures
            final(self).view() == output_spec(old(self).view(), command_model(*c)),
            final(self).ranges.len() == old(self).ranges.len(),
            final(self).next_line == old(self).next_line,
            final(self).lines.len() == old(self).lines.len(),
            final(self).phase == old(self).phase,
            final(self).pc == old(self).pc + 1,
    {
        let ghost s0 = self.view();
        match c {
            Command::Print => {
                self.write_pattern_space();
            },
            Command::PrintFirstLine => {
                let k = first_newline(&self.ps);
                let mut b = slice_of(&self.ps, 0, k);
                b.push(self.delim);
                self.write(&b);
            },
            Command::PrintEscaped(w) => {
                let width = match w {
                    Some(n) => *n,
                    None => self.width,
                };
                let mut b = list_bytes(&self.ps, width);
                b.push(self.delim);
                self.write(&b);
            },
            Command::PrintLineNum => {
                let mut b = decimal_bytes(self.next_line);
                b.push(self.delim);
                self.write(&b);
            },
            Command::Insert(t) => {
                let b = text_to_bytes(t.as_str());
                let mut o: Vec<u8> = Vec::new();
                push_with_newline(&mut o, &b);
                assert(o@ =~= with_newline(text_bytes(t@)));
                self.write(&o);
            },
            Command::Append(t) => {
                let b = text_to_bytes(t.as_str());
                push_with_newline(&mut self.append, &b);
            },
            Command::Filename => {
                let mut b = if self.file < self.names.len() {
                    text_to_bytes(self.names[self.file].as_str())
                } else {
                    text_to_bytes("-")
                };
                b.push(self.delim);
                self.write(&b);
            },
            _ => {},
        }
        self.pc = self.pc + 1;
        assert(self.view() =~= output_spec(s0, command_model(*c)));
    }

    /// The commands on the pattern and hold spaces (see `buffer_spec`).
    fn exec_buffer(&mut self, c: &Command)
        requires
            is_buffer_command(command_model(*c)),
            old(self).pc < old(self).ranges.len(),
        ensures
            final(self).view() == buffer_spec(old(self).view(), command_model(*c)),
            final(self).ranges.len() == old(self).ranges.len(),
            final(self).next_line == old(self).next_line,
            final(self).lines.len() == old(self).lines.len(),
            final(self).phase == old(self).phase,
            final(self).pc == old(self).pc + 1,
    {
        let ghost s0 = self.view();
        match c {
            Command::HoldReplace => {
                self.hold = self.ps.clone();
            },
            Command::HoldAppend => {
                self.hold.push(10);
                let mut p = self.ps.clone();
                self.hold.append(&mut p);
            },
            Command::GetReplace => {
                self.ps = self.hold.clone();
            },
            Command::GetAppend => {
                self.ps.push(10);
                let mut h = self.hold.clone();
                self.ps.append(&mut h);
            },
            Command::Exchange => {
                std::mem::swap(&mut self.ps, &mut self.hold);
            },
            Command::Transliterate(a, b) => {
                self.ps = transliterate(&self.ps, a, b);
            },
            _ => {},
        }
        self.pc = self.pc + 1;
        assert(self.view() =~= buffer_spec(s0, command_model(*c)));
    }

    /// Where a branch to `l` goes.
    fn target(prog: &Vec<Instr>, l: &Option<String>) -> (t: usize)
        ensures
            t == branch_target(models(prog@), crate::types::opt_text(*l)),
            t <= prog.len(),
    {
        match l {
            Some(x) => {
                proof { lemma_label_from(models(prog@), x@, 0); }
                find_label(prog, x)
            },
            None => prog.len(),
        }
    }

    /// `b`, `t`, `T` (see `flow_spec`).
    fn exec_branch(&mut self, prog: &Vec<Instr>, pc: usize)
        requires
            pc < prog.len(),
            old(self).pc == pc,
            old(self).wf(prog.len() as nat),
            old(self).phase == Phase::Run,
            ({ let c = models(prog@)[pc as int].command; c is Branch || c is BranchIfSub || c is BranchIfNoSub }),
        ensures
            final(self).view() == flow_spec(models(prog@), old(self).view(), models(prog@)[pc as int]),
            final(self).wf(prog.len() as nat),
    {
        let ghost s0 = self.view();
        let ins = &prog[pc];
        assert(models(prog@)[pc as int] == instr_model(*ins));
        match &ins.command {
            Command::Branch(l) => {
                self.pc = Self::target(prog, l);
            },
            Command::BranchIfSub(l) => {
                if self.sub {
                    self.sub = false;
                    self.pc = Self::target(prog, l);
                } else {
                    self.pc = pc + 1;
                }
            },
            Command::BranchIfNoSub(l) => {
                if !self.sub {
                    self.pc = Self::target(prog, l);
                } else {
                    self.sub = false;
                    self.pc = pc + 1;
                }
            },
            _ => {},
        }
        assert(self.view() =~= flow_spec(models(prog@), s0, models(prog@)[pc as int]));
    }

    /// `d`, `D`, `q`, `Q`, `c` (see `flow_spec`).
    fn exec_end(&mut self, prog: &Vec<Instr>, pc: usize)
        requires
            pc < prog.len(),
            old(self).pc == pc,
            old(self).wf(prog.len() as nat),
            old(self).phase == Phase::Run,
            ({ let c = models(prog@)[pc as int].command; c is Delete || c is DeleteFirstLine || c is Quit || c is QuitNoprint || c is Change }),
        ensures
            final(self).view() == flow_spec(models(prog@), old(self).view(), models(prog@)[pc as int]),
            final(self).wf(prog.len() as nat),
    {
        let ghost s0 = self.view();
        let ins = &prog[pc];
        assert(models(prog@)[pc as int] == instr_model(*ins));
        match &ins.command {
            Command::Delete => {
                self.suppress = true;
                self.phase = Phase::EndOfCycle;
            },
            Command::DeleteFirstLine => {
                let k = first_newline(&self.ps);
                if k < self.ps.len() {
                    self.ps = slice_of(&self.ps, k + 1, self.ps.len());
                    self.suppress = false;
                    self.pc = 0;
                } else {
                    self.suppress = true;
                    self.phase = Phase::EndOfCycle;
                }
            },
            Command::Quit(code) => {
                self.exit_code = match code {
                    Some(n) => *n,
                    None => 0,
                };
                self.quitting = true;
                self.phase = Phase::EndOfCycle;
            },
            Command::QuitNoprint(code) => {
                self.exit_code = match code {
                    Some(n) => *n,
                    None => 0,
                };
                self.quitting = true;
                self.suppress = true;
                self.phase = Phase::EndOfCycle;
            },
            Command::Change(t) => {
                let is_range = match &ins.address {
                    AddressRange::Range(_, _) => true,
                    _ => false,
                };
                let active = match self.ranges[pc] {
                    RangeState::Active(_) => true,
                    RangeState::Idle => false,
                };
                if !(is_range && !ins.negated && active) {
                    let b = text_to_bytes(t.as_str());
                    let mut o: Vec<u8> = Vec::new();
                    push_with_newline(&mut o, &b);
                    assert(o@ =~= with_newline(text_bytes(t@)));
                    self.write(&o);
                }
                self.suppress = true;
                self.phase = Phase::EndOfCycle;
            },
            _ => {},
        }
        assert(self.view() =~= flow_spec(models(prog@), s0, models(prog@)[pc as int]));
    }

    /// `n`, `N` (see `flow_spec`).
    fn exec_read(&mut self, prog: &Vec<Instr>, pc: usize)
        requires
            pc < prog.len(),
            old(self).pc == pc,
            old(self).wf(prog.len() as nat),
            old(self).phase == Phase::Run,
            ({ let c = models(prog@)[pc as int].command; c is Next || c is NextAppend }),
        ensures
            final(self).view() == flow_spec(models(prog@), old(self).view(), models(prog@)[pc as int]),
            final(self).wf(prog.len() as nat),
    {
        let ghost s0 = self.view();
        let ins = &prog[pc];
        assert(models(prog@)[pc as int] == instr_model(*ins));
        match &ins.command {
            Command::Next => {
                if self.next_line >= self.lines.len() {
                    self.quitting = true;
                    self.phase = Phase::EndOfCycle;
                } else {
                    if !self.quiet {
                        self.write_pattern_space();
                    }
                    self.flush_append();
                    self.read_next_line();
                    self.pc = pc + 1;
                }
            },
            Command::NextAppend => {
                if self.next_line >= self.lines.len() {
                    self.quitting = true;
                    self.suppress = self.suppress || self.posix;
                    self.phase = Phase::EndOfCycle;
                } else {
                    self.flush_append();
                    let mut t = self.lines[self.next_line].text.clone();
                    let terminated = self.lines[self.next_line].terminated;
                    let file = self.lines[self.next_line].file;
                    self.ps.push(10);
                    self.ps.append(&mut t);
                    self.chomped = terminated;
                    self.file = file;
                    self.next_line = self.next_line + 1;
                    self.pc = pc + 1;
                }
            },
            _ => {},
        }
        assert(self.view() =~= flow_spec(models(prog@), s0, models(prog@)[pc as int]));
    }

    /// The commands that change the flow (see `flow_spec`).
    fn exec_flow(&mut self, prog: &Vec<Instr>, pc: usize)
        requires
            pc < prog.len(),
            old(self).pc == pc,
            old(self).wf(prog.len() as nat),
            old(self).phase == Phase::Run,
            is_flow_command(models(prog@)[pc as int].command),
        ensures
            final(self).view() == flow_spec(models(prog@), old(self).view(), models(prog@)[pc as int]),
            final(self).wf(prog.len() as nat),
    {
        assert(models(prog@)[pc as int] == instr_model(prog@[pc as int]));
        match &prog[pc].command {
            Command::Branch(_) | Command::BranchIfSub(_) | Command::BranchIfNoSub(_) => self.exec_branch(prog, pc),
            Command::Next | Command::NextAppend => self.exec_read(prog, pc),
            _ => self.exec_end(prog, pc),
        }
    }

    /// The commands that ask for outside work (see `outside_spec`).
    fn exec_outside(&mut self, c: &Command) -> (r: Request)
        requires
            is_outside_command(command_model(*c)),
            old(self).pc < old(self).ranges.len(),
            old(self).phase == Phase::Run,
        ensures
            (final(self).view(), request_view(r)) == outside_spec(old(self).view(), command_model(*c)),
            final(self).ranges.len() == old(self).ranges.len(),
            final(self).next_line == old(self).next_line,
            final(self).lines.len() == old(self).lines.len(),
            final(self).pc == old(self).pc || final(self).pc == old(self).pc + 1,
            waiting(final(self).phase) ==> final(self).pc == old(self).pc,
    {
        let ghost s0 = self.view();
        let r = match c {
            Command::ReadFile(f) => {
                self.phase = Phase::ReadingFile;
                Request::ReadFile(f.clone())
            },
            Command::ReadLine(f) => {
                self.phase = Phase::ReadingLine;
                Request::ReadLine(f.clone())
            },
            Command::WriteFile(f) => {
                let mut b = self.ps.clone();
                b.push(10);
                self.pc = self.pc + 1;
                Request::WriteFile(f.clone(), b)
            },
            Command::WriteFirstLine(f) => {
                let k = first_newline(&self.ps);
                let mut b = slice_of(&self.ps, 0, k);
                b.push(10);
                self.pc = self.pc + 1;
                Request::WriteFile(f.clone(), b)
            },
            Command::Execute(Some(t)) => {
                self.phase = Phase::Executing;
                Request::Execute(text_to_bytes(t.as_str()))
            },
            Command::Execute(None) => {
                self.phase = Phase::ExecutingPattern;
                Request::Execute(self.ps.clone())
            },
            _ => Request::Proceed,
        };
        assert(self.view() =~= outside_spec(s0, command_model(*c)).0);
        r
    }

    /// The `p` and `w` flags of an `s` that substituted.
    fn sub_tail(&mut self, flags: &SubstFlags) -> (r: Request)
        requires
            old(self).pc < old(self).ranges.len(),
        ensures
            (final(self).view(), request_view(r)) == sub_tail(old(self).view(), flags_model(*flags)),
            final(self).ranges.len() == old(self).ranges.len(),
            final(self).next_line == old(self).next_line,
            final(self).lines.len() == old(self).lines.len(),
            final(self).pc == old(self).pc + 1,
            final(self).phase == old(self).phase,
    {
        if flags.print && !flags.print_before_exec {
            self.write_pattern_space();
        }
        self.pc = self.pc + 1;
        match &flags.write_file {
            Some(w) => {
                let mut b = self.ps.clone();
                b.push(10);
                Request::WriteFile(w.clone(), b)
            },
            None => Request::Proceed,
        }
    }

    /// `s` (see `substitute_spec`).
    fn exec_substitute(&mut self, pattern: &Option<SedRegex>, replacement: &String, flags: &SubstFlags) -> (r: Request)
        requires
            old(self).pc < old(self).ranges.len(),
            old(self).phase == Phase::Run,
        ensures
            (final(self).view(), request_view(r)) == substitute_spec(
                old(self).view(),
                regex_view(*pattern),
                replacement@,
                flags_model(*flags),
            ),
            final(self).ranges.len() == old(self).ranges.len(),
            final(self).next_line == old(self).next_line,
            final(self).lines.len() == old(self).lines.len(),
            final(self).pc == old(self).pc || final(self).pc == old(self).pc + 1,
            waiting(final(self).phase) ==> final(self).pc == old(self).pc,
    {
        let ghost s0 = self.view();
        let re: SedRegex = match pattern {
            Some(re) => re.clone(),
            None => match &self.last_regex {
                Some(re) => re.clone(),
                None => {
                    self.exit_code = 1;
                    self.quitting = true;
                    self.phase = Phase::EndOfCycle;
                    assert(self.view() =~= substitute_spec(s0, regex_view(*pattern), replacement@, flags_model(*flags)).0);
                    return Request::Report(owned("-e expression #1, char 0: no previous regular expression"));
                },
            },
        };
        self.last_regex = Some(re.clone());
        let caps = re.captures_all(self.ps.as_slice());
        proof { lemma_captures_ordered(caps.deep_view(), self.ps@.len()); }
        let r = chars_of(replacement.as_str());
        match substitute_matches(&self.ps, &caps, &r, flags.global, flags.nth) {
            None => {
                self.pc = self.pc + 1;
                assert(self.view() =~= substitute_spec(s0, regex_view(*pattern), replacement@, flags_model(*flags)).0);
                Request::Proceed
            },
            Some(t) => {
                self.ps = t;
                self.sub = true;
                if flags.print && flags.print_before_exec {
                    self.write_pattern_space();
                }
                if flags.execute {
                    self.phase = Phase::ExecutingSubstitution;
                    assert(self.view() =~= substitute_spec(s0, regex_view(*pattern), replacement@, flags_model(*flags)).0);
                    return Request::Execute(self.ps.clone());
                }
                let ghost s3 = self.view();
                let r = self.sub_tail(flags);
                assert(sub_tail(s3, flags_model(*flags)) == substitute_spec(s0, regex_view(*pattern), replacement@, flags_model(*flags)));
                r
            },
        }
    }

    /// The instruction at `pc`, selected (see `command_spec`).
    fn execute(&mut self, prog: &Vec<Instr>, pc: usize) -> (r: Request)
        requires
            pc < prog.len(),
            old(self).pc == pc,
            old(self).wf(prog.len() as nat),
            old(self).phase == Phase::Run,
        ensures
            (final(self).view(), request_view(r)) == command_spec(models(prog@), old(self).view(), models(prog@)[pc as int]),
            final(self).wf(prog.len() as nat),
    {
        let ins = &prog[pc];
        let c = &ins.command;
        assert(models(prog@)[pc as int] == instr_model(*ins));
        let ghost cm = command_model(*c);
        if is_output(c) {
            self.exec_output(c);
            Request::Proceed
        } else if is_buffer(c) {
            self.exec_buffer(c);
            Request::Proceed
        } else if is_flow(c) {
            self.exec_flow(prog, pc);
            Request::Proceed
        } else if is_outside(c) {
            self.exec_outside(c)
        } else {
            match c {
                Command::Substitute { pattern, replacement, flags } => self.exec_substitute(pattern, replacement, flags),
                _ => {
                    self.pc = pc + 1;
                    Request::Proceed
                },
            }
        }
    }

    /// The instruction at `pc` (see `run_spec`).
    fn run(&mut self, prog: &Vec<Instr>) -> (r: Request)
        requires
            old(self).wf(prog.len() as nat),
            old(self).phase == Phase::Run,
            old(self).pc < prog.len(),
            forall|i: int| 0 <= i < prog.len() ==> i < (#[trigger] prog@[i]).skip <= prog.len(),
        ensures
            final(self).wf(prog.len() as nat),
            (final(self).view(), request_view(r)) == run_spec(models(prog@), old(self).view()),
    {
        let ghost s0 = self.view();
        let pc = self.pc;
        let ins = &prog[pc];
        assert(models(prog@)[pc as int] == instr_model(*ins));
        let last = self.next_line >= self.lines.len();
        let mut rs = self.ranges[pc];
        let sel = address_matches(&ins.address, &mut rs, self.next_line, last, &self.ps, &mut self.last_regex);
        self.ranges.set(pc, rs);
        if sel == ins.negated {
            let is_block = match &ins.command {
                Command::Block(_) => true,
                _ => false,
            };
            self.pc = if is_block { ins.skip } else { pc + 1 };
            assert(self.view() =~= run_spec(models(prog@), s0).0);
            return Request::Proceed;
        }
        let ghost s1 = self.view();
        assert(s1 =~= (State { ranges: s0.ranges.update(pc as int, rs), last_regex: regex_view(self.last_regex), ..s0 }));
        self.execute(prog, pc)
    }

    /// The reply to an outside request (see `reply_spec`).
    fn resume(&mut self, prog: &Vec<Instr>, reply: Option<Vec<u8>>) -> (r: Request)
        requires
            old(self).wf(prog.len() as nat),
            waiting(old(self).phase),
        ensures
            final(self).wf(prog.len() as nat),
            (final(self).view(), request_view(r)) == reply_spec(models(prog@), old(self).view(), reply_view(reply)),
    {
        let ghost s0 = self.view();
        let pc = self.pc;
        assert(models(prog@)[pc as int] == instr_model(prog@[pc as int]));
        let phase = self.phase;
        self.phase = Phase::Run;
        match phase {
            Phase::ReadingFile => {
                if let Some(c) = reply {
                    let zero = match &prog[pc].address {
                        AddressRange::Single(Address::Line(n)) => *n == 0,
                        _ => false,
                    };
                    if zero {
                        push_with_newline(&mut self.pre, &c);
                    } else {
                        push_with_newline(&mut self.append, &c);
                    }
                }
                self.pc = pc + 1;
                assert(self.view() =~= reply_spec(models(prog@), s0, reply_view(reply)).0);
                Request::Proceed
            },
            Phase::ReadingLine => {
                if let Some(c) = reply {
                    if let Command::ReadLine(f) = &prog[pc].command {
                        self.read_line_of(&c, f);
                    }
                }
                self.pc = pc + 1;
                assert(self.view() =~= reply_spec(models(prog@), s0, reply_view(reply)).0);
                Request::Proceed
            },
            Phase::Executing => {
                if let Some(o) = reply {
                    if o.len() > 0 {
                        let mut b: Vec<u8> = Vec::new();
                        push_with_newline(&mut b, &o);
                        assert(b@ =~= with_newline(o@));
                        self.write(&b);
                    }
                }
                self.pc = pc + 1;
                assert(self.view() =~= reply_spec(models(prog@), s0, reply_view(reply)).0);
                Request::Proceed
            },
            Phase::ExecutingPattern => {
                if let Some(o) = reply {
                    self.ps = strip_newline_exec(o);
                }
                self.pc = pc + 1;
                assert(self.view() =~= reply_spec(models(prog@), s0, reply_view(reply)).0);
                Request::Proceed
            },
            _ => {
                if let Some(o) = reply {
                    self.ps = strip_newline_exec(o);
                }
                let ghost s1 = self.view();
                match &prog[pc].command {
                    Command::Substitute { flags, .. } => self.sub_tail(flags),
                    _ => {
                        self.pc = pc + 1;
                        assert(self.view() =~= reply_spec(models(prog@), s0, reply_view(reply)).0);
                        Request::Proceed
                    },
                }
            },
        }
    }
}

/// Whether `c` is a command that prints (see `is_output_command`).
fn is_output(c: &Command) -> (b: bool)
    ensures
        b == is_output_command(command_model(*c)),
{
    match c {
        Command::Print | Command::PrintFirstLine | Command::PrintEscaped(_) | Command::PrintLineNum
        | Command::Insert(_) | Command::Append(_) | Command::Filename => true,
        _ => false,
    }
}

fn is_buffer(c: &Command) -> (b: bool)
    ensures
        b == is_buffer_command(command_model(*c)),
{
    match c {
        Command::HoldReplace | Command::HoldAppend | Command::GetReplace | Command::GetAppend | Command::Exchange
        | Command::Transliterate(_, _) => true,
        _ => false,
    }
}

fn is_flow(c: &Command) -> (b: bool)
    ensures
        b == is_flow_command(command_model(*c)),
{
    match c {
        Command::Branch(_) | Command::BranchIfSub(_) | Command::BranchIfNoSub(_) | Command::Delete
        | Command::DeleteFirstLine | Command::Quit(_) | Command::QuitNoprint(_) | Command::Change(_) | Command::Next
        | Command::NextAppend => true,
        _ => false,
    }
}

fn is_outside(c: &Command) -> (b: bool)
    ensures
        b == is_outside_command(command_model(*c)),
{
    match c {
        Command::ReadFile(_) | Command::ReadLine(_) | Command::WriteFile(_) | Command::WriteFirstLine(_)
        | Command::Execute(_) => true,
        _ => false,
    }
}

/// A label's index lies within the script (or is its end).
pub proof fn lemma_label_from(prog: Seq<InstrModel>, l: Seq<char>, i: int)
    requires
        0 <= i,
    ensures
        label_from(prog, l, i) <= prog.len(),
        i <= prog.len() ==> i <= label_from(prog, l, i),
    decreases prog.len() - i,
{
    if i < prog.len() && prog[i].command != CommandModel::Label(l) {
        lemma_label_from(prog, l, i + 1);
    }
}

/// The stream editor: a script and the state it runs in.
pub struct Engine {
    prog: Vec<Instr>,
    m: Machine,
}

impl View for Engine {
    type V = (Seq<InstrModel>, State);

    closed spec fn view(&self) -> (Seq<InstrModel>, State) {
        (models(self.prog@), self.m.view())
    }
}

impl Engine {
    /// The engine's script and counters are consistent: every block's
    /// `skip` lies past it and within the script, and the range states,
    /// the program counter and the line counter are in range.
    pub closed spec fn wf(&self) -> bool {
        &&& forall|i: int| 0 <= i < self.prog.len() ==> i < (#[trigger] self.prog@[i]).skip <= self.prog.len()
        &&& self.m.wf(self.prog.len() as nat)
    }

    /// An engine for the commands `commands`: `quiet` for `-n`, `posix`
    /// for `--posix`, `line_length` the width of `l`, `null_data` for `-z`.
    pub fn new(commands: Vec<SedCommand>, quiet: bool, posix: bool, sandbox: bool, line_length: usize, null_data: bool) -> (e: Engine)
        requires
            count(commands@) < usize::MAX,
        ensures
            e.wf(),
            e@.0 == flat(commands@, 0),
            e@.1 == (State {
                quiet,
                posix,
                delim: if null_data { 0u8 } else { 10u8 },
                width: line_length,
                names: Seq::empty(),
                lines: Seq::empty(),
                next_line: 0,
                ps: Seq::empty(),
                hold: Seq::empty(),
                chomped: true,
                file: 0,
                last_regex: None,
                sub: false,
                ranges: Seq::new(count(commands@), |i: int| RangeState::Idle),
                append: Seq::empty(),
                pre: Seq::empty(),
                out: Seq::empty(),
                missing: false,
                pc: 0,
                phase: Phase::Start,
                quitting: false,
                exit_code: 0,
                suppress: false,
                read_pos: Seq::empty(),
            }),
    {
        let ghost cmds = commands@;
        let mut prog: Vec<Instr> = Vec::new();
        proof { lemma_flat(cmds, 0); }
        flatten_into(&mut prog, commands);
        assert(models(prog@) =~= flat(cmds, 0));
        assert(models(prog@).len() == prog@.len());
        let n = prog.len();
        let mut ranges: Vec<RangeState> = Vec::new();
        let mut i: usize = 0;
        while i < n
            invariant
                i <= n,
                ranges@ == Seq::new(i as nat, |k: int| RangeState::Idle),
            decreases n - i,
        {
            ranges.push(RangeState::Idle);
            i += 1;
            assert(ranges@ =~= Seq::new(i as nat, |k: int| RangeState::Idle));
        }
        let _ = sandbox;
        let m = Machine {
            quiet,
            posix,
            delim: if null_data { 0u8 } else { 10u8 },
            width: line_length,
            names: Vec::new(),
            lines: Vec::new(),
            next_line: 0,
            ps: Vec::new(),
            hold: Vec::new(),
            chomped: true,
            file: 0,
            last_regex: None,
            sub: false,
            ranges,
            append: Vec::new(),
            pre: Vec::new(),
            out: Vec::new(),
            missing: false,
            pc: 0,
            phase: Phase::Start,
            quitting: false,
            exit_code: 0,
            suppress: false,
            read_pos: Vec::new(),
        };
        let e = Engine { prog, m };
        assert forall|i: int| 0 <= i < e.prog.len() implies i < (#[trigger] e.prog@[i]).skip <= e.prog.len() by {
            assert(models(e.prog@)[i] == flat(cmds, 0)[i]);
        }
        assert(e.m.view().names =~= Seq::<Seq<char>>::empty());
        assert(e.m.view().read_pos =~= Seq::<(Seq<char>, int)>::empty());
        assert(e.m.view().lines =~= Seq::<(Seq<u8>, int, bool)>::empty());
        e
    }

    /// One step: the engine takes the reply to its previous request (for
    /// `ReadFile`, `ReadLine` and `Execute`; `None` otherwise), goes on as
    /// `step_spec` says and asks for what it needs next.
    #[verifier::rlimit(60)]
    pub fn step(&mut self, reply: Option<Vec<u8>>) -> (r: Request)
        requires
            old(self).wf(),
        ensures
            final(self).wf(),
            final(self)@.0 == old(self)@.0,
            (final(self)@.1, request_view(r)) == step_spec(old(self)@.0, old(self)@.1, reply_view(reply)),
    {
        proof { assert(models(self.prog@).len() == self.prog@.len()); }
        match self.m.phase {
            Phase::Start => self.m.start_cycle(),
            Phase::Run => {
                if self.m.pc < self.prog.len() {
                    self.m.run(&self.prog)
                } else {
                    let ghost s0 = self.m.view();
                    self.m.phase = Phase::EndOfCycle;
                    assert(self.m.view() =~= (State { phase: Phase::EndOfCycle, ..s0 }));
                    Request::Proceed
                }
            },
            Phase::EndOfCycle => self.m.end_cycle(),
            Phase::Done => Request::Finished(self.m.exit_code),
            _ => self.m.resume(&self.prog, reply),
        }
    }

    /// How many input lines the engine holds.
    pub fn line_count(&self) -> (n: usize)
        ensures
            n == self@.1.lines.len(),
    {
        proof { assert(self.m.view().lines.len() == self.m.lines@.len()); }
        self.m.lines.len()
    }

    /// Adds the contents of an input file (`name`: `-` for standard input)
    /// to the lines to be read, split at the line delimiter.
    pub fn add_input(&mut self, name: String, data: &Vec<u8>)
        requires
            old(self).wf(),
            old(self)@.1.lines.len() + data@.len() < usize::MAX,
        ensures
            final(self).wf(),
            final(self)@ == (old(self)@.0, State {
                names: old(self)@.1.names.push(name@),
                lines: old(self)@.1.lines + split_from(data@, old(self)@.1.delim, old(self)@.1.names.len() as int, 0),
                ..old(self)@.1
            }),
    {
        let ghost s0 = self.m.view();
        let file = self.m.names.len();
        let mut added = split_lines(data, self.m.delim, file);
        proof {
            lemma_split_len(data@, self.m.delim, file as int, 0);
            assert(added@.map_values(|l: InputLine| line_view(l)).len() == added@.len());
        }
        let ghost before = self.m.lines@;
        self.m.lines.append(&mut added);
        self.m.names.push(name);
        assert(self.m.lines@.map_values(|l: InputLine| line_view(l)) =~= before.map_values(|l: InputLine| line_view(l))
            + split_from(data@, s0.delim, s0.names.len() as int, 0));
        assert(self.m.view().names =~= s0.names.push(name@));
        assert(self.m.view() =~= (State {
            names: s0.names.push(name@),
            lines: s0.lines + split_from(data@, s0.delim, s0.names.len() as int, 0),
            ..s0
        }));
    }
}

/// The index of the entry for file `f` in the list of `R` positions (its
/// length where there is none).
fn find_pos(v: &Vec<(String, usize)>, f: &String) -> (k: usize)
    ensures
        k == pos_index(v@.map_values(|p: (String, usize)| pos_view(p)), f@, 0),
{
    let ghost ps = v@.map_values(|p: (String, usize)| pos_view(p));
    let mut i: usize = 0;
    while i < v.len()
        invariant
            i <= v.len(),
            ps == v@.map_values(|p: (String, usize)| pos_view(p)),
            pos_index(ps, f@, i as int) == pos_index(ps, f@, 0),
        decreases v.len() - i,
    {
        assert(ps[i as int] == pos_view(v@[i as int]));
        if v[i].0 == *f {
            return i;
        }
        i += 1;
    }
    i
}

impl Machine {
    /// `R` with the contents `c` of file `f`: queues the file's next line,
    /// if it has one, and counts it as read.
    fn read_line_of(&mut self, c: &Vec<u8>, f: &String)
        ensures
            final(self)@ == (match file_line(c@, read_pos_of(old(self)@.read_pos, f@)) {
                Some(l) => State {
                    append: old(self)@.append + with_newline(l),
                    read_pos: with_read_pos(old(self)@.read_pos, f@, read_pos_of(old(self)@.read_pos, f@) + 1),
                    ..old(self)@
                },
                None => old(self)@,
            }),
            final(self).ranges@ == old(self).ranges@,
            final(self).pc == old(self).pc,
            final(self).next_line == old(self).next_line,
            final(self).lines@ == old(self).lines@,
            final(self).phase == old(self).phase,
    {
        let ghost ps = self.read_pos@.map_values(|p: (String, usize)| pos_view(p));
        proof {
            lemma_pos_index(ps, f@, 0);
            reveal(file_line);
            reveal(read_pos_of);
            reveal(with_read_pos);
        }
        let i = find_pos(&self.read_pos, f);
        let k: usize = if i < self.read_pos.len() { self.read_pos[i].1 } else { 0 };
        assert(k as int == read_pos_of(ps, f@));
        let ls = split_lines(c, 10, 0);
        proof { lemma_split_len(c@, 10, 0, 0); }
        let ghost lv = ls@.map_values(|l: InputLine| line_view(l));
        if k < ls.len() {
            assert(lv[k as int] == line_view(ls@[k as int]));
            let text = &ls[k].text;
            let line: Vec<u8> = if ls[k].terminated && text.len() > 0 && text[text.len() - 1] == 13 {
                let l = slice_of(text, 0, text.len() - 1);
                assert(text@.subrange(0, text@.len() - 1) =~= text@.drop_last());
                l
            } else {
                let l = slice_of(text, 0, text.len());
                assert(text@.subrange(0, text@.len() as int) =~= text@);
                l
            };
            push_with_newline(&mut self.append, &line);
            let entry = (f.clone(), k + 1);
            assert(pos_view(entry) == (f@, k + 1));
            if i < self.read_pos.len() {
                self.read_pos.set(i, entry);
            } else {
                self.read_pos.push(entry);
            }
            proof {
                assert(self.read_pos@.map_values(|p: (String, usize)| pos_view(p))
                    =~= with_read_pos(ps, f@, k + 1));
            }
        }
    }
}

} // verus!
