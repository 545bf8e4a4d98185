use vstd::prelude::*;
use crate::types::{command_model, count, layout, lemma_layout_len, range_model, AddressRange, Command, CommandModel, RangeModel, SedCommand};

verus! {

/// One instruction of a flattened script.
pub struct Instr {
    pub address: AddressRange,
    pub negated: bool,
    /// The command; a block stands here as `Command::Block` without its
    /// contents, which follow it as instructions of their own.
    pub command: Command,
    /// Where execution goes when the instruction is a block whose address
    /// does not select the line: just past the block's contents.
    pub skip: usize,
}

/// What an instruction is, with its regexes as patterns.
pub struct InstrModel {
    pub range: RangeModel,
    pub negated: bool,
    pub command: CommandModel,
    pub skip: int,
}

pub open spec fn instr_model(i: Instr) -> InstrModel {
    InstrModel { range: range_model(i.address), negated: i.negated, command: command_model(i.command), skip: i.skip as int }
}

/// The models of the instructions `p`.
pub open spec fn models(p: Seq<Instr>) -> Seq<InstrModel> {
    p.map_values(|i: Instr| instr_model(i))
}

/// The instructions that the commands `cmds` flatten to when the first of
/// them stands at index `base`: each command in order, a block followed by
/// its contents.
pub open spec fn flat(cmds: Seq<SedCommand>, base: int) -> Seq<InstrModel>
    decreases cmds,
{
    if cmds.len() == 0 {
        Seq::empty()
    } else {
        let c = cmds[0];
        match c.command {
            Command::Block(v) => {
                proof {
                    assert(decreases_to!(cmds => cmds[0]));
                }
                seq![InstrModel { range: range_model(c.address), negated: c.negated, command: CommandModel::Block, skip: base + 1 + count(v@) }]
                    + flat(v@, base + 1) + flat(cmds.drop_first(), base + 1 + count(v@))
            },
            _ => seq![InstrModel { range: range_model(c.address), negated: c.negated, command: command_model(c.command), skip: base + 1 }]
                + flat(cmds.drop_first(), base + 1),
        }
    }
}

/// The commands of `cmds` in the order of the flattened script.
pub open spec fn commands_of(cmds: Seq<SedCommand>) -> Seq<CommandModel>
    decreases cmds,
{
    if cmds.len() == 0 {
        Seq::empty()
    } else {
        match cmds[0].command {
            Command::Block(v) => {
                proof {
                    assert(decreases_to!(cmds => cmds[0]));
                }
                seq![CommandModel::Block] + commands_of(v@) + commands_of(cmds.drop_first())
            },
            _ => seq![command_model(cmds[0].command)] + commands_of(cmds.drop_first()),
        }
    }
}

/// A flattened script has one instruction per command, its commands are
/// those of `commands_of`, and a block's `skip` lies past its own index
/// and within the script.
pub proof fn lemma_flat(cmds: Seq<SedCommand>, base: int)
    ensures
        flat(cmds, base).len() == count(cmds),
        commands_of(cmds).len() == count(cmds),
        forall|k: int| 0 <= k < count(cmds) ==> (#[trigger] flat(cmds, base)[k]).command == commands_of(cmds)[k],
        forall|k: int| 0 <= k < count(cmds) ==> base + k < (#[trigger] flat(cmds, base)[k]).skip <= base + count(cmds),
    decreases cmds,
{
    if cmds.len() > 0 {
        let c = cmds[0];
        lemma_flat(cmds.drop_first(), base + 1 + match c.command {
            Command::Block(v) => count(v@),
            _ => 0,
        });
        match c.command {
            Command::Block(v) => {
                assert(decreases_to!(cmds => cmds[0]));
                lemma_flat(v@, base + 1);
                let f = flat(cmds, base);
                let h = seq![InstrModel { range: range_model(c.address), negated: c.negated, command: CommandModel::Block, skip: base + 1 + count(v@) }];
                let fi = flat(v@, base + 1);
                let fr = flat(cmds.drop_first(), base + 1 + count(v@));
                assert(f == h + fi + fr);
                let ci = commands_of(v@);
                let cr = commands_of(cmds.drop_first());
                assert(commands_of(cmds) == seq![CommandModel::Block] + ci + cr);
                assert forall|k: int| 0 <= k < count(cmds) implies (#[trigger] f[k]).command == commands_of(cmds)[k]
                    && base + k < f[k].skip <= base + count(cmds) by {
                    if k == 0 {
                    } else if k < 1 + count(v@) {
                        assert(f[k] == fi[k - 1]);
                        assert(commands_of(cmds)[k] == ci[k - 1]);
                    } else {
                        assert(f[k] == fr[k - 1 - count(v@)]);
                        assert(commands_of(cmds)[k] == cr[k - 1 - count(v@)]);
                    }
                }
            },
            _ => {
                let f = flat(cmds, base);
                let fr = flat(cmds.drop_first(), base + 1);
                let cr = commands_of(cmds.drop_first());
                assert forall|k: int| 0 <= k < count(cmds) implies (#[trigger] f[k]).command == commands_of(cmds)[k]
                    && base + k < f[k].skip <= base + count(cmds) by {
                    if k > 0 {
                        assert(f[k] == fr[k - 1]);
                        assert(commands_of(cmds)[k] == cr[k - 1]);
                    }
                }
            },
        }
    }
}

/// The flattened script is the layout of the commands: instruction `k`
/// is entry `k`, and it skips to just past the entries of its block's
/// contents (none for a command other than a block).
pub proof fn lemma_flat_layout(cmds: Seq<SedCommand>, base: int)
    ensures
        flat(cmds, base).len() == layout(cmds).len(),
        forall|k: int| 0 <= k < layout(cmds).len() ==> #[trigger] flat(cmds, base)[k] == (InstrModel {
            range: layout(cmds)[k].0,
            negated: layout(cmds)[k].1,
            command: layout(cmds)[k].2,
            skip: base + k + 1 + layout(cmds)[k].3,
        }),
    decreases cmds,
{
    lemma_flat(cmds, base);
    lemma_layout_len(cmds);
    if cmds.len() > 0 {
        let c = cmds[0];
        match c.command {
            Command::Block(v) => {
                assert(decreases_to!(cmds => cmds[0]));
                lemma_flat_layout(v@, base + 1);
                lemma_flat_layout(cmds.drop_first(), base + 1 + count(v@));
                lemma_layout_len(v@);
                let f = flat(cmds, base);
                let fi = flat(v@, base + 1);
                let fr = flat(cmds.drop_first(), base + 1 + count(v@));
                let l = layout(cmds);
                let li = layout(v@);
                let lr = layout(cmds.drop_first());
                assert(f == seq![InstrModel { range: range_model(c.address), negated: c.negated, command: CommandModel::Block, skip: base + 1 + count(v@) }] + fi + fr);
                assert(l == seq![(range_model(c.address), c.negated, CommandModel::Block, count(v@))] + li + lr);
                assert forall|k: int| 0 <= k < l.len() implies #[trigger] f[k] == (InstrModel {
                    range: l[k].0, negated: l[k].1, command: l[k].2, skip: base + k + 1 + l[k].3 }) by {
                    if k == 0 {
                    } else if k < 1 + count(v@) {
                        assert(f[k] == fi[k - 1]);
                        assert(l[k] == li[k - 1]);
                    } else {
                        assert(f[k] == fr[k - 1 - count(v@)]);
                        assert(l[k] == lr[k - 1 - count(v@)]);
                    }
                }
            },
            _ => {
                lemma_flat_layout(cmds.drop_first(), base + 1);
                let f = flat(cmds, base);
                let fr = flat(cmds.drop_first(), base + 1);
                let l = layout(cmds);
                let lr = layout(cmds.drop_first());
                assert forall|k: int| 0 <= k < l.len() implies #[trigger] f[k] == (InstrModel {
                    range: l[k].0, negated: l[k].1, command: l[k].2, skip: base + k + 1 + l[k].3 }) by {
                    if k > 0 {
                        assert(f[k] == fr[k - 1]);
                        assert(l[k] == lr[k - 1]);
                    }
                }
            },
        }
    }
}

/// The number of instructions `cmds` flatten to, or `usize::MAX` where that
/// number does not fit below it.
pub fn count_commands(commands: &Vec<SedCommand>) -> (n: usize)
    ensures
        n == if count(commands@) < usize::MAX { count(commands@) } else { usize::MAX as nat },
    decreases commands@,
{
    let mut n: usize = 0;
    let mut i: usize = 0;
    proof { assert(commands@.skip(0) =~= commands@); }
    while i < commands.len()
        invariant
            i <= commands.len(),
            n == if count(commands@) - count(commands@.skip(i as int)) < usize::MAX {
                count(commands@) - count(commands@.skip(i as int))
            } else {
                usize::MAX as int
            },
        decreases commands.len() - i,
    {
        proof { lemma_count_step(commands@, i as int); }
        let inner: usize = match &commands[i].command {
            Command::Block(v) => {
                proof {
                    assert(decreases_to!(commands@ => commands@[i as int]));
                }
                count_commands(v)
            },
            _ => 0,
        };
        n = n.saturating_add(1).saturating_add(inner);
        i += 1;
    }
    proof { assert(commands@.skip(commands.len() as int).len() == 0); }
    n
}

/// Counting from the `i`-th command on is counting the `i`-th command and
/// then the rest.
proof fn lemma_count_step(cmds: Seq<SedCommand>, i: int)
    requires
        0 <= i < cmds.len(),
    ensures
        count(cmds.skip(i)) == 1 + match cmds[i].command {
            Command::Block(v) => count(v@),
            _ => 0,
        } + count(cmds.skip(i + 1)),
        count(cmds.skip(0)) == count(cmds),
{
    assert(cmds.skip(i).drop_first() =~= cmds.skip(i + 1));
    assert(cmds.skip(0) =~= cmds);
}

/// Appends the instructions of `cmds` to `prog`.
pub fn flatten_into(prog: &mut Vec<Instr>, cmds: Vec<SedCommand>)
    requires
        old(prog).len() + count(cmds@) < usize::MAX,
    ensures
        models(final(prog)@) == models(old(prog)@) + flat(cmds@, old(prog).len() as int),
    decreases cmds@,
{
    let ghost all = cmds@;
    let ghost p0 = models(prog@);
    let mut cmds = cmds;
    if cmds.len() == 0 {
        assert(models(prog@) =~= p0 + flat(all, prog.len() as int));
        return;
    }
    let first = cmds.remove(0);
    assert(cmds@ =~= all.drop_first());
    let base = prog.len();
    let SedCommand { address, negated, command } = first;
    match command {
        Command::Block(inner) => {
            let n = count_commands(&inner);
            let ins = Instr { address, negated, command: Command::Block(Vec::new()), skip: base + 1 + n };
            prog.push(ins);
            assert(models(prog@) =~= p0.push(instr_model(ins)));
            assert(decreases_to!(all => all[0]));
            proof { lemma_flat(inner@, base + 1); }
            assert(count(all) == 1 + count(inner@) + count(all.drop_first()));
            flatten_into(prog, inner);
            assert(models(prog@).len() == prog@.len());
            assert(prog.len() == base + 1 + count(inner@));
            flatten_into(prog, cmds);
            assert(models(prog@) =~= p0 + flat(all, base as int));
        },
        other => {
            let ins = Instr { address, negated, command: other, skip: base + 1 };
            prog.push(ins);
            assert(models(prog@) =~= p0.push(instr_model(ins)));
            flatten_into(prog, cmds);
            assert(models(prog@) =~= p0 + flat(all, base as int));
        },
    }
}

/// The index of the first instruction at or after `i` that is the label
/// `l`, or the end of the script where there is none.
pub open spec fn label_from(prog: Seq<InstrModel>, l: Seq<char>, i: int) -> int
    decreases prog.len() - i,
{
    if i < 0 || i >= prog.len() {
        prog.len() as int
    } else if prog[i].command == CommandModel::Label(l) {
        i
    } else {
        label_from(prog, l, i + 1)
    }
}

/// Where a branch to the label `label` goes: the first instruction that is
/// that label, or the end of the script.
pub fn find_label(prog: &Vec<Instr>, label: &String) -> (j: usize)
    ensures
        j == label_from(models(prog@), label@, 0),
{
    let ghost ms = models(prog@);
    let mut i: usize = 0;
    while i < prog.len()
        invariant
            i <= prog.len(),
            ms == models(prog@),
            label_from(ms, label@, i as int) == label_from(ms, label@, 0),
        decreases prog.len() - i,
    {
        let found = match &prog[i].command {
            Command::Label(l) => *l == *label,
            _ => false,
        };
        if found {
            return i;
        }
        i += 1;
    }
    i
}

} // verus!
