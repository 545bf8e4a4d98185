use vstd::prelude::*;
use crate::sed_regex::SedRegex;

verus! {

/// One address of a command.
#[derive(Debug, Clone)]
pub enum Address {
    /// A line number (`0` only as the start of a range, or for `0r`).
    Line(usize),
    /// `$`: the last line.
    Last,
    /// `/regex/`.
    Regex(SedRegex),
    /// `first~step`.
    Step(usize, usize),
    /// `+N`: N lines after the start of the range.
    Relative(usize),
    /// `~N`: up to the next line that is a multiple of N.
    Multiple(usize),
    /// `//`: the last regex used.
    LastRegex,
}

#[derive(Debug, Clone)]
pub enum AddressRange {
    /// No address: the command applies to every line.
    NoAddress,
    Single(Address),
    Range(Address, Address),
}

#[derive(Debug, Clone, Default)]
pub struct SubstFlags {
    pub global: bool,
    /// Replace the Nth occurrence.
    pub nth: Option<usize>,
    pub print: bool,
    pub write_file: Option<String>,
    pub case_insensitive: bool,
    /// `m`/`M` flag.
    pub multiline: bool,
    /// `e` flag: execute the result as a shell command.
    pub execute: bool,
    /// `p` came before `e` in the flags.
    pub print_before_exec: bool,
}

#[derive(Debug)]
pub enum Command {
    Substitute {
        /// `None` means reuse the last regex.
        pattern: Option<SedRegex>,
        replacement: String,
        flags: SubstFlags,
    },
    Delete,
    /// `D`
    DeleteFirstLine,
    Print,
    /// `P`
    PrintFirstLine,
    /// `l [width]`
    PrintEscaped(Option<usize>),
    /// `=`
    PrintLineNum,
    Quit(Option<i32>),
    /// `Q`
    QuitNoprint(Option<i32>),
    Append(String),
    Insert(String),
    Change(String),
    /// `y/src/dst/`
    Transliterate(Vec<char>, Vec<char>),
    /// `n`
    Next,
    /// `N`
    NextAppend,
    /// `h`
    HoldReplace,
    /// `H`
    HoldAppend,
    /// `g`
    GetReplace,
    /// `G`
    GetAppend,
    /// `x`
    Exchange,
    /// `b [label]`
    Branch(Option<String>),
    /// `t [label]`
    BranchIfSub(Option<String>),
    /// `T [label]`
    BranchIfNoSub(Option<String>),
    /// `:label`
    Label(String),
    /// `r file`
    ReadFile(String),
    /// `R file`
    ReadLine(String),
    /// `w file`
    WriteFile(String),
    /// `W file`
    WriteFirstLine(String),
    /// `e [command]`
    Execute(Option<String>),
    /// `F`
    Filename,
    Noop,
    Block(Vec<SedCommand>),
}

#[derive(Debug)]
pub struct SedCommand {
    pub address: AddressRange,
    pub negated: bool,
    pub command: Command,
}

#[derive(Debug, Clone, PartialEq, Eq)]
pub enum Flow {
    Continue,
    Restart,
    Branch(String),
    EndOfCycle,
    Quit,
    QuitNoprint,
}

/// Tracks where a script expression came from (for error messages)
#[derive(Debug, Clone)]
pub enum ScriptSource {
    /// `-e` expression #N (1-based)
    Expression(usize),
    /// `-f` filename
    File(String),
}

#[derive(Debug, Clone)]
pub struct ScriptEntry {
    pub source: ScriptSource,
    pub content: String,
}

#[derive(Debug, Clone)]
pub struct Options {
    /// `-i[SUFFIX]`
    pub in_place: Option<String>,
    /// `-n`
    pub quiet: bool,
    /// `-E` / `-r`
    pub extended: bool,
    pub scripts: Vec<ScriptEntry>,
    pub files: Vec<String>,
    /// `--posix`
    pub posix: bool,
    /// `-u`
    pub unbuffered: bool,
    /// `-z`
    pub null_data: bool,
    /// `-s`
    pub separate: bool,
    /// `--sandbox`
    pub sandbox: bool,
    /// `--follow-symlinks`
    pub follow_symlinks: bool,
    /// `-l N` (default line width for the `l` command)
    pub line_length: usize,
}

/// What an address is, with a regex taken as the pattern it was compiled
/// from.
pub enum AddressModel {
    Line(usize),
    Last,
    Regex(Seq<char>),
    Step(usize, usize),
    Relative(usize),
    Multiple(usize),
    LastRegex,
}

pub enum RangeModel {
    NoAddress,
    Single(AddressModel),
    Range(AddressModel, AddressModel),
}

/// The flags of an `s` command, with the write file as characters.
pub struct FlagsModel {
    pub global: bool,
    pub nth: Option<usize>,
    pub print: bool,
    pub write_file: Option<Seq<char>>,
    pub case_insensitive: bool,
    pub multiline: bool,
    pub execute: bool,
    pub print_before_exec: bool,
}

/// What a command is, with text as characters and regexes as their
/// patterns; a block is taken without its contents.
pub enum CommandModel {
    Substitute { pattern: Option<Seq<char>>, replacement: Seq<char>, flags: FlagsModel },
    Delete,
    DeleteFirstLine,
    Print,
    PrintFirstLine,
    PrintEscaped(Option<usize>),
    PrintLineNum,
    Quit(Option<i32>),
    QuitNoprint(Option<i32>),
    Append(Seq<char>),
    Insert(Seq<char>),
    Change(Seq<char>),
    Transliterate(Seq<char>, Seq<char>),
    Next,
    NextAppend,
    HoldReplace,
    HoldAppend,
    GetReplace,
    GetAppend,
    Exchange,
    Branch(Option<Seq<char>>),
    BranchIfSub(Option<Seq<char>>),
    BranchIfNoSub(Option<Seq<char>>),
    Label(Seq<char>),
    ReadFile(Seq<char>),
    ReadLine(Seq<char>),
    WriteFile(Seq<char>),
    WriteFirstLine(Seq<char>),
    Execute(Option<Seq<char>>),
    Filename,
    Noop,
    Block,
}

pub open spec fn opt_text(o: Option<String>) -> Option<Seq<char>> {
    match o {
        Some(t) => Some(t@),
        None => None,
    }
}

pub open spec fn address_model(a: Address) -> AddressModel {
    match a {
        Address::Line(n) => AddressModel::Line(n),
        Address::Last => AddressModel::Last,
        Address::Regex(r) => AddressModel::Regex(r@),
        Address::Step(f, st) => AddressModel::Step(f, st),
        Address::Relative(n) => AddressModel::Relative(n),
        Address::Multiple(n) => AddressModel::Multiple(n),
        Address::LastRegex => AddressModel::LastRegex,
    }
}

pub open spec fn range_model(r: AddressRange) -> RangeModel {
    match r {
        AddressRange::NoAddress => RangeModel::NoAddress,
        AddressRange::Single(a) => RangeModel::Single(address_model(a)),
        AddressRange::Range(a, b) => RangeModel::Range(address_model(a), address_model(b)),
    }
}

pub open spec fn flags_model(f: SubstFlags) -> FlagsModel {
    FlagsModel {
        global: f.global,
        nth: f.nth,
        print: f.print,
        write_file: opt_text(f.write_file),
        case_insensitive: f.case_insensitive,
        multiline: f.multiline,
        execute: f.execute,
        print_before_exec: f.print_before_exec,
    }
}

pub open spec fn command_model(c: Command) -> CommandModel {
    match c {
        Command::Substitute { pattern, replacement, flags } => CommandModel::Substitute {
            pattern: match pattern {
                Some(r) => Some(r@),
                None => None,
            },
            replacement: replacement@,
            flags: flags_model(flags),
        },
        Command::Delete => CommandModel::Delete,
        Command::DeleteFirstLine => CommandModel::DeleteFirstLine,
        Command::Print => CommandModel::Print,
        Command::PrintFirstLine => CommandModel::PrintFirstLine,
        Command::PrintEscaped(w) => CommandModel::PrintEscaped(w),
        Command::PrintLineNum => CommandModel::PrintLineNum,
        Command::Quit(c) => CommandModel::Quit(c),
        Command::QuitNoprint(c) => CommandModel::QuitNoprint(c),
        Command::Append(t) => CommandModel::Append(t@),
        Command::Insert(t) => CommandModel::Insert(t@),
        Command::Change(t) => CommandModel::Change(t@),
        Command::Transliterate(a, b) => CommandModel::Transliterate(a@, b@),
        Command::Next => CommandModel::Next,
        Command::NextAppend => CommandModel::NextAppend,
        Command::HoldReplace => CommandModel::HoldReplace,
        Command::HoldAppend => CommandModel::HoldAppend,
        Command::GetReplace => CommandModel::GetReplace,
        Command::GetAppend => CommandModel::GetAppend,
        Command::Exchange => CommandModel::Exchange,
        Command::Branch(l) => CommandModel::Branch(opt_text(l)),
        Command::BranchIfSub(l) => CommandModel::BranchIfSub(opt_text(l)),
        Command::BranchIfNoSub(l) => CommandModel::BranchIfNoSub(opt_text(l)),
        Command::Label(l) => CommandModel::Label(l@),
        Command::ReadFile(f) => CommandModel::ReadFile(f@),
        Command::ReadLine(f) => CommandModel::ReadLine(f@),
        Command::WriteFile(f) => CommandModel::WriteFile(f@),
        Command::WriteFirstLine(f) => CommandModel::WriteFirstLine(f@),
        Command::Execute(t) => CommandModel::Execute(opt_text(t)),
        Command::Filename => CommandModel::Filename,
        Command::Noop => CommandModel::Noop,
        Command::Block(_) => CommandModel::Block,
    }
}

/// How many instructions the commands `cmds` flatten to: one for each
/// command, and for a block also those of its contents.
pub open spec fn count(cmds: Seq<SedCommand>) -> nat
    decreases cmds,
{
    if cmds.len() == 0 {
        0
    } else {
        let inner: nat = match cmds[0].command {
            Command::Block(v) => {
                proof {
                    assert(decreases_to!(cmds => cmds[0]));
                }
                count(v@)
            },
            _ => 0,
        };
        1 + inner + count(cmds.drop_first())
    }
}

/// One command of a script as the parser lays it out: its address range,
/// negation, command (a block without its contents) and how many entries
/// of a block's contents follow it.
pub type Entry = (RangeModel, bool, CommandModel, nat);

/// The commands `cmds` laid out in order, each block followed by its
/// contents.
pub open spec fn layout(cmds: Seq<SedCommand>) -> Seq<Entry>
    decreases cmds,
{
    if cmds.len() == 0 {
        Seq::empty()
    } else {
        let c = cmds[0];
        match c.command {
            Command::Block(v) => {
                proof {
                    assert(decreases_to!(cmds => cmds[0]));
                }
                seq![(range_model(c.address), c.negated, CommandModel::Block, count(v@))] + layout(v@)
                    + layout(cmds.drop_first())
            },
            _ => seq![(range_model(c.address), c.negated, command_model(c.command), 0nat)] + layout(cmds.drop_first()),
        }
    }
}

/// The layout has one entry per instruction.
pub proof fn lemma_layout_len(cmds: Seq<SedCommand>)
    ensures
        layout(cmds).len() == count(cmds),
    decreases cmds,
{
    if cmds.len() > 0 {
        lemma_layout_len(cmds.drop_first());
        match cmds[0].command {
            Command::Block(v) => {
                assert(decreases_to!(cmds => cmds[0]));
                lemma_layout_len(v@);
            },
            _ => {},
        }
    }
}

/// The layout of a single command: its own entry, then (for a block) its
/// contents.
pub proof fn lemma_layout_single(c: SedCommand)
    ensures
        layout(seq![c]) == match c.command {
            Command::Block(v) => seq![(range_model(c.address), c.negated, CommandModel::Block, count(v@))] + layout(v@),
            _ => seq![(range_model(c.address), c.negated, command_model(c.command), 0nat)],
        },
{
    assert(seq![c].drop_first() =~= Seq::<SedCommand>::empty());
    assert(layout(Seq::<SedCommand>::empty()) =~= Seq::<Entry>::empty());
    match c.command {
        Command::Block(v) => {
            assert(seq![(range_model(c.address), c.negated, CommandModel::Block, count(v@))] + layout(v@) + Seq::<Entry>::empty()
                =~= seq![(range_model(c.address), c.negated, CommandModel::Block, count(v@))] + layout(v@));
        },
        _ => {
            assert(seq![(range_model(c.address), c.negated, command_model(c.command), 0nat)] + Seq::<Entry>::empty()
                =~= seq![(range_model(c.address), c.negated, command_model(c.command), 0nat)]);
        },
    }
}

/// Laying out commands one after the other is laying out each in turn.
pub proof fn lemma_layout_push(cmds: Seq<SedCommand>, c: SedCommand)
    ensures
        layout(cmds.push(c)) == layout(cmds) + layout(seq![c]),
    decreases cmds.len(),
{
    if cmds.len() == 0 {
        assert(cmds.push(c) =~= seq![c]);
        assert(layout(cmds) =~= Seq::<Entry>::empty());
        assert(layout(cmds) + layout(seq![c]) =~= layout(seq![c]));
    } else {
        assert(cmds.push(c).drop_first() =~= cmds.drop_first().push(c));
        assert(cmds.push(c)[0] == cmds[0]);
        lemma_layout_push(cmds.drop_first(), c);
        assert(layout(cmds.push(c)) =~= layout(cmds) + layout(seq![c]));
    }
}

/// Laying out two command lists one after the other.
pub proof fn lemma_layout_concat(a: Seq<SedCommand>, b: Seq<SedCommand>)
    ensures
        layout(a + b) == layout(a) + layout(b),
    decreases b.len(),
{
    if b.len() == 0 {
        assert(a + b =~= a);
        assert(layout(a) + layout(b) =~= layout(a));
    } else {
        let c = b.last();
        let b0 = b.drop_last();
        assert(a + b =~= (a + b0).push(c));
        assert(b =~= b0.push(c));
        lemma_layout_concat(a, b0);
        lemma_layout_push(a + b0, c);
        lemma_layout_push(b0, c);
        assert(layout(a) + layout(b0) + layout(seq![c]) =~= layout(a) + (layout(b0) + layout(seq![c])));
    }
}

} // verus!
