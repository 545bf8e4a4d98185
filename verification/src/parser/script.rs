use vstd::prelude::*;
use super::commands::{command_head, line_end, may_follow_command, simple_command, takes_no_argument, ParseError};
use crate::scan::{blank_end, byte_at, separator_end};
use crate::types::{CommandModel, Entry, RangeModel};

verus! {

/// The settings a script is parsed under.
pub struct ParseCfg {
    /// `-E`.
    pub extended: bool,
    /// `--posix`.
    pub posix: bool,
    /// `--sandbox`.
    pub sandbox: bool,
    /// The script is the last one given.
    pub last: bool,
}

/// What parsing from a position yields, given enough fuel (a bound on the
/// nesting of the recursion that nothing in the result depends on).
pub enum Parsed {
    /// More fuel is needed.
    OutOfFuel,
    /// An error, and where the command it was found in starts.
    Error(ParseError, int),
    /// The commands (as `layout` lays them out), where the input continues,
    /// and where the last command read starts.
    Done(Seq<Entry>, int, int),
}

/// `r` with the commands `first` before its own.
pub open spec fn prepend(first: Seq<Entry>, r: Parsed) -> Parsed {
    match r {
        Parsed::Done(rest, e, c) => Parsed::Done(first + rest, e, c),
        _ => r,
    }
}

pub proof fn lemma_prepend_empty(r: Parsed)
    ensures
        prepend(Seq::empty(), r) == r,
{
    match r {
        Parsed::Done(rest, e, c) => {
            assert(Seq::<Entry>::empty() + rest =~= rest);
        },
        _ => {},
    }
}

pub proof fn lemma_prepend_assoc(a: Seq<Entry>, b: Seq<Entry>, r: Parsed)
    ensures
        prepend(a, prepend(b, r)) == prepend(a + b, r),
{
    match r {
        Parsed::Done(rest, e, c) => {
            assert(a + (b + rest) =~= (a + b) + rest);
        },
        _ => {},
    }
}

/// The command at `p` (after the blanks there), inside `depth` blocks;
/// `cs` is where the last command read starts. A block's contents are
/// read by `commands_fuel`; a command that takes no argument must be
/// followed by a separator, a blank, `}` or `#`.
pub open spec fn command_fuel(s: Seq<u8>, p: int, c: ParseCfg, depth: nat, cs: int, fuel: nat) -> Parsed
    decreases fuel, 0int,
{
    let q = blank_end(s, p);
    match command_head(s, p, c.extended, c.posix, depth) {
        Err(e) => Parsed::Error(e, q),
        Ok(None) => Parsed::Done(Seq::empty(), q, cs),
        Ok(Some(h)) => if byte_at(s, h.2) == Some(123u8) {
            if fuel == 0 {
                Parsed::OutOfFuel
            } else {
                match commands_fuel(s, h.2 + 1, c, depth + 1, q, (fuel - 1) as nat) {
                    Parsed::Done(inner, e, c2) => if byte_at(s, e) is Some && !may_follow_command(s[e]) {
                        Parsed::Error(("extra characters after command"@, e, e - c2 + 1), c2)
                    } else {
                        Parsed::Done(seq![(h.0, h.1, CommandModel::Block, inner.len())] + inner, e, c2)
                    },
                    other => other,
                }
            }
        } else {
            match simple_command(s, h.2, q, c.extended, c.posix, c.sandbox, c.last, depth) {
                Err(e) => Parsed::Error(e, q),
                Ok(x) => if takes_no_argument(x.0) && byte_at(s, x.1) is Some && !may_follow_command(s[x.1]) {
                    Parsed::Error(("extra characters after command"@, x.1, x.1 - q + 1), q)
                } else {
                    Parsed::Done(seq![(h.0, h.1, x.0, 0nat)], x.1, q)
                },
            }
        },
    }
}

/// The contents of a block from `p` on, up to and including its `}`,
/// inside `depth` blocks.
pub open spec fn commands_fuel(s: Seq<u8>, p: int, c: ParseCfg, depth: nat, cs: int, fuel: nat) -> Parsed
    decreases fuel, 1int,
{
    if fuel == 0 {
        Parsed::OutOfFuel
    } else {
        let q = separator_end(s, p);
        if byte_at(s, q) == Some(125u8) {
            Parsed::Done(Seq::empty(), q + 1, cs)
        } else if q >= s.len() {
            Parsed::Error(("unmatched `{'"@, q, 0), cs)
        } else {
            match command_fuel(s, q, c, depth, cs, (fuel - 1) as nat) {
                Parsed::Done(first, e, c1) => prepend(first, commands_fuel(s, e, c, depth, c1, (fuel - 1) as nat)),
                other => other,
            }
        }
    }
}

/// A script from `p` on, at the top level: its commands up to the end of
/// the input, `#` comment lines skipped.
pub open spec fn script_fuel(s: Seq<u8>, p: int, c: ParseCfg, cs: int, fuel: nat) -> Parsed
    decreases fuel,
{
    if fuel == 0 {
        Parsed::OutOfFuel
    } else {
        let q = separator_end(s, p);
        if q >= s.len() {
            Parsed::Done(Seq::empty(), q, cs)
        } else if s[q] == 35 {
            script_fuel(s, line_end(s, q + 1), c, cs, (fuel - 1) as nat)
        } else {
            match command_fuel(s, q, c, 0, cs, (fuel - 1) as nat) {
                Parsed::Done(first, e, c1) => prepend(first, script_fuel(s, e, c, c1, (fuel - 1) as nat)),
                other => other,
            }
        }
    }
}

/// The command at `p` parses to `r` (with some fuel).
pub open spec fn command_parses(s: Seq<u8>, p: int, c: ParseCfg, depth: nat, cs: int, r: Parsed) -> bool {
    exists|f: nat| #[trigger] command_fuel(s, p, c, depth, cs, f) == r
}

/// A block's contents from `p` parse to `r`.
pub open spec fn commands_parse(s: Seq<u8>, p: int, c: ParseCfg, depth: nat, cs: int, r: Parsed) -> bool {
    exists|f: nat| #[trigger] commands_fuel(s, p, c, depth, cs, f) == r
}

/// The script from `p` parses to `r`.
pub open spec fn script_parses(s: Seq<u8>, p: int, c: ParseCfg, cs: int, r: Parsed) -> bool {
    exists|f: nat| #[trigger] script_fuel(s, p, c, cs, f) == r
}

/// More fuel does not change a result that was reached.
pub proof fn lemma_command_mono(s: Seq<u8>, p: int, c: ParseCfg, depth: nat, cs: int, f1: nat, f2: nat)
    requires
        f1 <= f2,
        !(command_fuel(s, p, c, depth, cs, f1) is OutOfFuel),
    ensures
        command_fuel(s, p, c, depth, cs, f2) == command_fuel(s, p, c, depth, cs, f1),
    decreases f1, 0int,
{
    match command_head(s, p, c.extended, c.posix, depth) {
        Ok(Some(h)) => if byte_at(s, h.2) == Some(123u8) {
            lemma_commands_mono(s, h.2 + 1, c, depth + 1, blank_end(s, p), (f1 - 1) as nat, (f2 - 1) as nat);
        },
        _ => {},
    }
}

pub proof fn lemma_commands_mono(s: Seq<u8>, p: int, c: ParseCfg, depth: nat, cs: int, f1: nat, f2: nat)
    requires
        f1 <= f2,
        !(commands_fuel(s, p, c, depth, cs, f1) is OutOfFuel),
    ensures
        commands_fuel(s, p, c, depth, cs, f2) == commands_fuel(s, p, c, depth, cs, f1),
    decreases f1, 1int,
{
    let q = separator_end(s, p);
    if byte_at(s, q) != Some(125u8) && q < s.len() {
        lemma_command_mono(s, q, c, depth, cs, (f1 - 1) as nat, (f2 - 1) as nat);
        match command_fuel(s, q, c, depth, cs, (f1 - 1) as nat) {
            Parsed::Done(first, e, c1) => {
                lemma_commands_mono(s, e, c, depth, c1, (f1 - 1) as nat, (f2 - 1) as nat);
            },
            _ => {},
        }
    }
}

pub proof fn lemma_script_mono(s: Seq<u8>, p: int, c: ParseCfg, cs: int, f1: nat, f2: nat)
    requires
        f1 <= f2,
        !(script_fuel(s, p, c, cs, f1) is OutOfFuel),
    ensures
        script_fuel(s, p, c, cs, f2) == script_fuel(s, p, c, cs, f1),
    decreases f1,
{
    let q = separator_end(s, p);
    if q < s.len() {
        if s[q] == 35 {
            lemma_script_mono(s, line_end(s, q + 1), c, cs, (f1 - 1) as nat, (f2 - 1) as nat);
        } else {
            lemma_command_mono(s, q, c, 0, cs, (f1 - 1) as nat, (f2 - 1) as nat);
            match command_fuel(s, q, c, 0, cs, (f1 - 1) as nat) {
                Parsed::Done(first, e, c1) => {
                    lemma_script_mono(s, e, c, c1, (f1 - 1) as nat, (f2 - 1) as nat);
                },
                _ => {},
            }
        }
    }
}

/// What the commands of a block parsed so far (`done`, through `k`
/// commands, once the fuel is at least `bound`) and the rest from `pos`
/// make up together: the parse of the whole block from `p0`.
pub open spec fn block_so_far(
    s: Seq<u8>,
    p0: int,
    c: ParseCfg,
    d: nat,
    cs0: int,
    k: nat,
    bound: nat,
    done: Seq<Entry>,
    pos: int,
    cs: int,
) -> bool {
    forall|f: nat| f >= bound ==> #[trigger] commands_fuel(s, p0, c, d, cs0, f + k) == prepend(done, commands_fuel(s, pos, c, d, cs, f))
}

pub proof fn lemma_block_start(s: Seq<u8>, p0: int, c: ParseCfg, d: nat, cs0: int)
    ensures
        block_so_far(s, p0, c, d, cs0, 0, 0, Seq::empty(), p0, cs0),
{
    assert forall|f: nat| f >= 0 implies #[trigger] commands_fuel(s, p0, c, d, cs0, f + 0)
        == prepend(Seq::empty(), commands_fuel(s, p0, c, d, cs0, f)) by {
        lemma_prepend_empty(commands_fuel(s, p0, c, d, cs0, f));
    }
}

/// One more command of the block read.
pub proof fn lemma_block_step(
    s: Seq<u8>, p0: int, c: ParseCfg, d: nat, cs0: int, k: nat, bound: nat, done: Seq<Entry>, pos: int, cs: int,
    f0: nat, more: Seq<Entry>, pos2: int, cs2: int,
)
    requires
        block_so_far(s, p0, c, d, cs0, k, bound, done, pos, cs),
        separator_end(s, pos) < s.len(),
        byte_at(s, separator_end(s, pos)) != Some(125u8),
        command_fuel(s, separator_end(s, pos), c, d, cs, f0) == Parsed::Done(more, pos2, cs2),
    ensures
        block_so_far(s, p0, c, d, cs0, k + 1, if bound > f0 { bound } else { f0 }, done + more, pos2, cs2),
{
    let nb: nat = if bound > f0 { bound } else { f0 };
    assert forall|f: nat| f >= nb implies #[trigger] commands_fuel(s, p0, c, d, cs0, f + (k + 1))
        == prepend(done + more, commands_fuel(s, pos2, c, d, cs2, f)) by {
        lemma_command_mono(s, separator_end(s, pos), c, d, cs, f0, f);
        let rest = commands_fuel(s, pos2, c, d, cs2, f);
        assert(commands_fuel(s, pos, c, d, cs, f + 1) == prepend(more, rest));
        assert(commands_fuel(s, p0, c, d, cs0, (f + 1) + k) == prepend(done, commands_fuel(s, pos, c, d, cs, f + 1)));
        lemma_prepend_assoc(done, more, rest);
        assert(f + (k + 1) == (f + 1) + k);
    }
}

/// The block ends at the `}` after `pos`.
pub proof fn lemma_block_close(s: Seq<u8>, p0: int, c: ParseCfg, d: nat, cs0: int, k: nat, bound: nat, done: Seq<Entry>, pos: int, cs: int)
    requires
        block_so_far(s, p0, c, d, cs0, k, bound, done, pos, cs),
        byte_at(s, separator_end(s, pos)) == Some(125u8),
    ensures
        commands_parse(s, p0, c, d, cs0, Parsed::Done(done, separator_end(s, pos) + 1, cs)),
{
    let f = bound + 1;
    assert(commands_fuel(s, pos, c, d, cs, f) == Parsed::Done(Seq::<Entry>::empty(), separator_end(s, pos) + 1, cs));
    assert(commands_fuel(s, p0, c, d, cs0, f + k) == prepend(done, commands_fuel(s, pos, c, d, cs, f)));
    assert(done + Seq::<Entry>::empty() =~= done);
    assert(commands_fuel(s, p0, c, d, cs0, f + k) == Parsed::Done(done, separator_end(s, pos) + 1, cs));
}

/// The input ends inside the block.
pub proof fn lemma_block_unmatched(s: Seq<u8>, p0: int, c: ParseCfg, d: nat, cs0: int, k: nat, bound: nat, done: Seq<Entry>, pos: int, cs: int)
    requires
        block_so_far(s, p0, c, d, cs0, k, bound, done, pos, cs),
        byte_at(s, separator_end(s, pos)) != Some(125u8),
        separator_end(s, pos) >= s.len(),
    ensures
        commands_parse(s, p0, c, d, cs0, Parsed::Error(("unmatched `{'"@, separator_end(s, pos), 0int), cs)),
{
    let f = bound + 1;
    let e = ("unmatched `{'"@, separator_end(s, pos), 0int);
    assert(commands_fuel(s, pos, c, d, cs, f) == Parsed::Error(e, cs));
    assert(commands_fuel(s, p0, c, d, cs0, f + k) == prepend(done, commands_fuel(s, pos, c, d, cs, f)));
}

/// A command of the block fails.
pub proof fn lemma_block_error(
    s: Seq<u8>, p0: int, c: ParseCfg, d: nat, cs0: int, k: nat, bound: nat, done: Seq<Entry>, pos: int, cs: int,
    f0: nat, e: ParseError, cse: int,
)
    requires
        block_so_far(s, p0, c, d, cs0, k, bound, done, pos, cs),
        separator_end(s, pos) < s.len(),
        byte_at(s, separator_end(s, pos)) != Some(125u8),
        command_fuel(s, separator_end(s, pos), c, d, cs, f0) == Parsed::Error(e, cse),
    ensures
        commands_parse(s, p0, c, d, cs0, Parsed::Error(e, cse)),
{
    let big: nat = if bound > f0 { bound } else { f0 };
    let f: nat = big + 1;
    lemma_command_mono(s, separator_end(s, pos), c, d, cs, f0, big);
    assert(commands_fuel(s, pos, c, d, cs, f) == Parsed::Error(e, cse));
    assert(commands_fuel(s, p0, c, d, cs0, f + k) == prepend(done, commands_fuel(s, pos, c, d, cs, f)));
}

/// What the top-level commands parsed so far (`done`, through `k` steps,
/// once the fuel is at least `bound`) and the rest of the script from
/// `pos` make up together: the parse of the whole script from `p0`.
pub open spec fn script_so_far(s: Seq<u8>, p0: int, c: ParseCfg, cs0: int, k: nat, bound: nat, done: Seq<Entry>, pos: int, cs: int) -> bool {
    forall|f: nat| f >= bound ==> #[trigger] script_fuel(s, p0, c, cs0, f + k) == prepend(done, script_fuel(s, pos, c, cs, f))
}

pub proof fn lemma_script_start(s: Seq<u8>, p0: int, c: ParseCfg, cs0: int)
    ensures
        script_so_far(s, p0, c, cs0, 0, 0, Seq::empty(), p0, cs0),
{
    assert forall|f: nat| f >= 0 implies #[trigger] script_fuel(s, p0, c, cs0, f + 0)
        == prepend(Seq::empty(), script_fuel(s, p0, c, cs0, f)) by {
        lemma_prepend_empty(script_fuel(s, p0, c, cs0, f));
    }
}

/// A top-level command read.
pub proof fn lemma_script_step(
    s: Seq<u8>, p0: int, c: ParseCfg, cs0: int, k: nat, bound: nat, done: Seq<Entry>, pos: int, cs: int,
    f0: nat, more: Seq<Entry>, pos2: int, cs2: int,
)
    requires
        script_so_far(s, p0, c, cs0, k, bound, done, pos, cs),
        separator_end(s, pos) < s.len(),
        s[separator_end(s, pos)] != 35,
        command_fuel(s, separator_end(s, pos), c, 0, cs, f0) == Parsed::Done(more, pos2, cs2),
    ensures
        script_so_far(s, p0, c, cs0, k + 1, if bound > f0 { bound } else { f0 }, done + more, pos2, cs2),
{
    let nb: nat = if bound > f0 { bound } else { f0 };
    assert forall|f: nat| f >= nb implies #[trigger] script_fuel(s, p0, c, cs0, f + (k + 1))
        == prepend(done + more, script_fuel(s, pos2, c, cs2, f)) by {
        lemma_command_mono(s, separator_end(s, pos), c, 0, cs, f0, f);
        let rest = script_fuel(s, pos2, c, cs2, f);
        assert(script_fuel(s, pos, c, cs, f + 1) == prepend(more, rest));
        assert(script_fuel(s, p0, c, cs0, (f + 1) + k) == prepend(done, script_fuel(s, pos, c, cs, f + 1)));
        lemma_prepend_assoc(done, more, rest);
        assert(f + (k + 1) == (f + 1) + k);
    }
}

/// A `#` comment line skipped at the top level.
pub proof fn lemma_script_comment(s: Seq<u8>, p0: int, c: ParseCfg, cs0: int, k: nat, bound: nat, done: Seq<Entry>, pos: int, cs: int)
    requires
        script_so_far(s, p0, c, cs0, k, bound, done, pos, cs),
        separator_end(s, pos) < s.len(),
        s[separator_end(s, pos)] == 35,
    ensures
        script_so_far(s, p0, c, cs0, k + 1, bound, done, line_end(s, separator_end(s, pos) + 1), cs),
{
    assert forall|f: nat| f >= bound implies #[trigger] script_fuel(s, p0, c, cs0, f + (k + 1))
        == prepend(done, script_fuel(s, line_end(s, separator_end(s, pos) + 1), c, cs, f)) by {
        assert(script_fuel(s, pos, c, cs, f + 1) == script_fuel(s, line_end(s, separator_end(s, pos) + 1), c, cs, f));
        assert(script_fuel(s, p0, c, cs0, (f + 1) + k) == prepend(done, script_fuel(s, pos, c, cs, f + 1)));
        assert(f + (k + 1) == (f + 1) + k);
    }
}

/// The script ends after `pos`.
pub proof fn lemma_script_end(s: Seq<u8>, p0: int, c: ParseCfg, cs0: int, k: nat, bound: nat, done: Seq<Entry>, pos: int, cs: int)
    requires
        script_so_far(s, p0, c, cs0, k, bound, done, pos, cs),
        separator_end(s, pos) >= s.len(),
    ensures
        script_parses(s, p0, c, cs0, Parsed::Done(done, separator_end(s, pos), cs)),
{
    let f = bound + 1;
    assert(script_fuel(s, pos, c, cs, f) == Parsed::Done(Seq::<Entry>::empty(), separator_end(s, pos), cs));
    assert(script_fuel(s, p0, c, cs0, f + k) == prepend(done, script_fuel(s, pos, c, cs, f)));
    assert(done + Seq::<Entry>::empty() =~= done);
    assert(script_fuel(s, p0, c, cs0, f + k) == Parsed::Done(done, separator_end(s, pos), cs));
}

/// A top-level command fails.
pub proof fn lemma_script_error(
    s: Seq<u8>, p0: int, c: ParseCfg, cs0: int, k: nat, bound: nat, done: Seq<Entry>, pos: int, cs: int,
    f0: nat, e: ParseError, cse: int,
)
    requires
        script_so_far(s, p0, c, cs0, k, bound, done, pos, cs),
        separator_end(s, pos) < s.len(),
        s[separator_end(s, pos)] != 35,
        command_fuel(s, separator_end(s, pos), c, 0, cs, f0) == Parsed::Error(e, cse),
    ensures
        script_parses(s, p0, c, cs0, Parsed::Error(e, cse)),
{
    let big: nat = if bound > f0 { bound } else { f0 };
    let f: nat = big + 1;
    lemma_command_mono(s, separator_end(s, pos), c, 0, cs, f0, big);
    assert(script_fuel(s, pos, c, cs, f) == Parsed::Error(e, cse));
    assert(script_fuel(s, p0, c, cs0, f + k) == prepend(done, script_fuel(s, pos, c, cs, f)));
}

/// Nothing but blanks is left where a command would start.
pub proof fn lemma_command_none(s: Seq<u8>, p: int, c: ParseCfg, depth: nat, cs: int)
    requires
        command_head(s, p, c.extended, c.posix, depth) == Ok::<Option<(RangeModel, bool, int)>, ParseError>(None),
    ensures
        command_parses(s, p, c, depth, cs, Parsed::Done(Seq::empty(), blank_end(s, p), cs)),
{
    assert(command_fuel(s, p, c, depth, cs, 0) == Parsed::Done(Seq::<Entry>::empty(), blank_end(s, p), cs));
}

/// The head of a command is wrong.
pub proof fn lemma_command_head_error(s: Seq<u8>, p: int, c: ParseCfg, depth: nat, cs: int, e: ParseError)
    requires
        command_head(s, p, c.extended, c.posix, depth) == Err::<Option<(RangeModel, bool, int)>, ParseError>(e),
    ensures
        command_parses(s, p, c, depth, cs, Parsed::Error(e, blank_end(s, p))),
{
    assert(command_fuel(s, p, c, depth, cs, 0) == Parsed::Error(e, blank_end(s, p)));
}

/// A command other than a block, whose head is `h` and whose own part
/// reads as `x`.
pub proof fn lemma_command_simple(s: Seq<u8>, p: int, c: ParseCfg, depth: nat, cs: int, h: (RangeModel, bool, int), x: (CommandModel, int))
    requires
        command_head(s, p, c.extended, c.posix, depth) == Ok::<Option<(RangeModel, bool, int)>, ParseError>(Some(h)),
        byte_at(s, h.2) != Some(123u8),
        simple_command(s, h.2, blank_end(s, p), c.extended, c.posix, c.sandbox, c.last, depth)
            == Ok::<(CommandModel, int), ParseError>(x),
    ensures
        command_parses(s, p, c, depth, cs, if takes_no_argument(x.0) && byte_at(s, x.1) is Some && !may_follow_command(s[x.1]) {
            Parsed::Error(("extra characters after command"@, x.1, x.1 - blank_end(s, p) + 1), blank_end(s, p))
        } else {
            Parsed::Done(seq![(h.0, h.1, x.0, 0nat)], x.1, blank_end(s, p))
        }),
{
    assert(command_fuel(s, p, c, depth, cs, 0) == if takes_no_argument(x.0) && byte_at(s, x.1) is Some && !may_follow_command(s[x.1]) {
        Parsed::Error(("extra characters after command"@, x.1, x.1 - blank_end(s, p) + 1), blank_end(s, p))
    } else {
        Parsed::Done(seq![(h.0, h.1, x.0, 0nat)], x.1, blank_end(s, p))
    });
}

/// A command other than a block whose own part is wrong.
pub proof fn lemma_command_simple_error(s: Seq<u8>, p: int, c: ParseCfg, depth: nat, cs: int, h: (RangeModel, bool, int), e: ParseError)
    requires
        command_head(s, p, c.extended, c.posix, depth) == Ok::<Option<(RangeModel, bool, int)>, ParseError>(Some(h)),
        byte_at(s, h.2) != Some(123u8),
        simple_command(s, h.2, blank_end(s, p), c.extended, c.posix, c.sandbox, c.last, depth)
            == Err::<(CommandModel, int), ParseError>(e),
    ensures
        command_parses(s, p, c, depth, cs, Parsed::Error(e, blank_end(s, p))),
{
    assert(command_fuel(s, p, c, depth, cs, 0) == Parsed::Error(e, blank_end(s, p)));
}

/// A block whose contents parse to `inner`, ending at `e`.
pub proof fn lemma_command_block_done(s: Seq<u8>, p: int, c: ParseCfg, depth: nat, cs: int, h: (RangeModel, bool, int),
    inner: Seq<Entry>, e: int, c2: int)
    requires
        command_head(s, p, c.extended, c.posix, depth) == Ok::<Option<(RangeModel, bool, int)>, ParseError>(Some(h)),
        byte_at(s, h.2) == Some(123u8),
        commands_parse(s, h.2 + 1, c, depth + 1, blank_end(s, p), Parsed::Done(inner, e, c2)),
    ensures
        command_parses(s, p, c, depth, cs, if byte_at(s, e) is Some && !may_follow_command(s[e]) {
            Parsed::Error(("extra characters after command"@, e, e - c2 + 1), c2)
        } else {
            Parsed::Done(seq![(h.0, h.1, CommandModel::Block, inner.len())] + inner, e, c2)
        }),
{
    let f0 = choose|f: nat| #[trigger] commands_fuel(s, h.2 + 1, c, depth + 1, blank_end(s, p), f) == Parsed::Done(inner, e, c2);
    assert(command_fuel(s, p, c, depth, cs, f0 + 1) == if byte_at(s, e) is Some && !may_follow_command(s[e]) {
        Parsed::Error(("extra characters after command"@, e, e - c2 + 1), c2)
    } else {
        Parsed::Done(seq![(h.0, h.1, CommandModel::Block, inner.len())] + inner, e, c2)
    });
}

/// A block whose contents fail.
pub proof fn lemma_command_block_error(s: Seq<u8>, p: int, c: ParseCfg, depth: nat, cs: int, h: (RangeModel, bool, int),
    err: ParseError, ce: int)
    requires
        command_head(s, p, c.extended, c.posix, depth) == Ok::<Option<(RangeModel, bool, int)>, ParseError>(Some(h)),
        byte_at(s, h.2) == Some(123u8),
        commands_parse(s, h.2 + 1, c, depth + 1, blank_end(s, p), Parsed::Error(err, ce)),
    ensures
        command_parses(s, p, c, depth, cs, Parsed::Error(err, ce)),
{
    let f0 = choose|f: nat| #[trigger] commands_fuel(s, h.2 + 1, c, depth + 1, blank_end(s, p), f) == Parsed::Error(err, ce);
    assert(command_fuel(s, p, c, depth, cs, f0 + 1) == Parsed::Error(err, ce));
}

/// Two results of the same parse that were both reached are the same: the
/// parse is deterministic.
pub proof fn lemma_script_unique(s: Seq<u8>, p: int, c: ParseCfg, cs: int, r1: Parsed, r2: Parsed)
    requires
        script_parses(s, p, c, cs, r1),
        script_parses(s, p, c, cs, r2),
        !(r1 is OutOfFuel),
        !(r2 is OutOfFuel),
    ensures
        r1 == r2,
{
    let f1 = choose|f: nat| #[trigger] script_fuel(s, p, c, cs, f) == r1;
    let f2 = choose|f: nat| #[trigger] script_fuel(s, p, c, cs, f) == r2;
    if f1 <= f2 {
        lemma_script_mono(s, p, c, cs, f1, f2);
    } else {
        lemma_script_mono(s, p, c, cs, f2, f1);
    }
}

} // verus!
