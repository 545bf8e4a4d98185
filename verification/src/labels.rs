use vstd::prelude::*;
use crate::engine::{commands_of, count};
use crate::types::{opt_text, Command, CommandModel, SedCommand};

verus! {

/// The label that a command defines, if it is `:label`.
pub open spec fn label_of(c: CommandModel) -> Option<Seq<char>> {
    match c {
        CommandModel::Label(l) => Some(l),
        _ => None,
    }
}

/// The label that a command jumps to, if it is `b`, `t` or `T` with one.
pub open spec fn branch_of(c: CommandModel) -> Option<Seq<char>> {
    match c {
        CommandModel::Branch(l) => l,
        CommandModel::BranchIfSub(l) => l,
        CommandModel::BranchIfNoSub(l) => l,
        _ => None,
    }
}

/// The names that `f` picks out of the commands `cs`, in order.
pub open spec fn names_by(cs: Seq<CommandModel>, f: spec_fn(CommandModel) -> Option<Seq<char>>) -> Seq<Seq<char>>
    decreases cs.len(),
{
    if cs.len() == 0 {
        Seq::empty()
    } else {
        (match f(cs[0]) {
            Some(x) => seq![x],
            None => Seq::empty(),
        }) + names_by(cs.drop_first(), f)
    }
}

/// The labels defined in the commands `cmds`, blocks included, in order.
pub open spec fn labels_in(cmds: Seq<SedCommand>) -> Seq<Seq<char>> {
    names_by(commands_of(cmds), |c: CommandModel| label_of(c))
}

/// The labels that the branches in `cmds` jump to, in order.
pub open spec fn branches_in(cmds: Seq<SedCommand>) -> Seq<Seq<char>> {
    names_by(commands_of(cmds), |c: CommandModel| branch_of(c))
}

pub proof fn lemma_names_by_add(a: Seq<CommandModel>, b: Seq<CommandModel>, f: spec_fn(CommandModel) -> Option<Seq<char>>)
    ensures
        names_by(a + b, f) == names_by(a, f) + names_by(b, f),
    decreases a.len(),
{
    if a.len() == 0 {
        assert(a + b =~= b);
    } else {
        assert((a + b).drop_first() =~= a.drop_first() + b);
        lemma_names_by_add(a.drop_first(), b, f);
    }
}

proof fn lemma_names_by_one(x: CommandModel, f: spec_fn(CommandModel) -> Option<Seq<char>>)
    ensures
        names_by(seq![x], f) == match f(x) {
            Some(y) => seq![y],
            None => Seq::<Seq<char>>::empty(),
        },
{
    assert(seq![x].drop_first() =~= Seq::<CommandModel>::empty());
    assert(names_by(seq![x], f) =~= (match f(x) {
        Some(y) => seq![y],
        None => Seq::<Seq<char>>::empty(),
    }) + names_by(Seq::<CommandModel>::empty(), f));
}

/// The commands from the `i`-th on: that command (with a block's contents)
/// and then the rest.
proof fn lemma_commands_of_skip(cmds: Seq<SedCommand>, i: int)
    requires
        0 <= i < cmds.len(),
    ensures
        commands_of(cmds.skip(i)) == match cmds[i].command {
            Command::Block(v) => seq![CommandModel::Block] + commands_of(v@),
            _ => seq![crate::types::command_model(cmds[i].command)],
        } + commands_of(cmds.skip(i + 1)),
{
    assert(cmds.skip(i).drop_first() =~= cmds.skip(i + 1));
    assert(cmds.skip(i)[0] == cmds[i]);
}

/// The views of the strings `v`.
pub open spec fn texts(v: Seq<String>) -> Seq<Seq<char>> {
    v.map_values(|s: String| s@)
}

/// Collects the labels defined in `commands` (blocks included) into
/// `labels`.
pub fn collect_labels(commands: &Vec<SedCommand>, labels: &mut Vec<String>)
    ensures
        texts(final(labels)@) == texts(old(labels)@) + labels_in(commands@),
    decreases commands@,
{
    let ghost f = |c: CommandModel| label_of(c);
    let mut i: usize = 0;
    proof { assert(commands@.skip(0) =~= commands@); }
    while i < commands.len()
        invariant
            i <= commands.len(),
            f == (|c: CommandModel| label_of(c)),
            texts(labels@) + names_by(commands_of(commands@.skip(i as int)), f)
                == texts(old(labels)@) + labels_in(commands@),
        decreases commands.len() - i,
    {
        let ghost before = texts(labels@);
        proof { lemma_commands_of_skip(commands@, i as int); }
        match &commands[i].command {
            Command::Label(l) => {
                labels.push(l.clone());
                assert(texts(labels@) =~= before.push(l@));
                proof {
                    lemma_names_by_add(seq![CommandModel::Label(l@)], commands_of(commands@.skip(i + 1)), f);
                    lemma_names_by_one(CommandModel::Label(l@), f);
                }
            },
            Command::Block(inner) => {
                assert(decreases_to!(commands@ => commands@[i as int]));
                collect_labels(inner, labels);
                proof {
                    lemma_names_by_add(seq![CommandModel::Block] + commands_of(inner@), commands_of(commands@.skip(i + 1)), f);
                    lemma_names_by_add(seq![CommandModel::Block], commands_of(inner@), f);
                    lemma_names_by_one(CommandModel::Block, f);
                }
            },
            c => {
                proof {
                    let m = crate::types::command_model(*c);
                    lemma_names_by_add(seq![m], commands_of(commands@.skip(i + 1)), f);
                    lemma_names_by_one(m, f);
                }
            },
        }
        i += 1;
        assert(texts(labels@) + names_by(commands_of(commands@.skip(i as int)), f)
            =~= texts(old(labels)@) + labels_in(commands@));
    }
    assert(commands@.skip(i as int) =~= Seq::<SedCommand>::empty());
    assert(texts(labels@) =~= texts(labels@) + names_by(commands_of(commands@.skip(i as int)), f));
}

/// Collects the labels that the branches in `commands` (blocks included)
/// jump to into `branches`.
pub fn collect_branches(commands: &Vec<SedCommand>, branches: &mut Vec<String>)
    ensures
        texts(final(branches)@) == texts(old(branches)@) + branches_in(commands@),
    decreases commands@,
{
    let ghost f = |c: CommandModel| branch_of(c);
    let mut i: usize = 0;
    proof { assert(commands@.skip(0) =~= commands@); }
    while i < commands.len()
        invariant
            i <= commands.len(),
            f == (|c: CommandModel| branch_of(c)),
            texts(branches@) + names_by(commands_of(commands@.skip(i as int)), f)
                == texts(old(branches)@) + branches_in(commands@),
        decreases commands.len() - i,
    {
        let ghost before = texts(branches@);
        proof { lemma_commands_of_skip(commands@, i as int); }
        match &commands[i].command {
            Command::Branch(Some(l)) | Command::BranchIfSub(Some(l)) | Command::BranchIfNoSub(Some(l)) => {
                branches.push(l.clone());
                assert(texts(branches@) =~= before.push(l@));
                proof {
                    let m = crate::types::command_model(commands@[i as int].command);
                    lemma_names_by_add(seq![m], commands_of(commands@.skip(i + 1)), f);
                    lemma_names_by_one(m, f);
                }
            },
            Command::Block(inner) => {
                assert(decreases_to!(commands@ => commands@[i as int]));
                collect_branches(inner, branches);
                proof {
                    lemma_names_by_add(seq![CommandModel::Block] + commands_of(inner@), commands_of(commands@.skip(i + 1)), f);
                    lemma_names_by_add(seq![CommandModel::Block], commands_of(inner@), f);
                    lemma_names_by_one(CommandModel::Block, f);
                }
            },
            c => {
                proof {
                    let m = crate::types::command_model(*c);
                    lemma_names_by_add(seq![m], commands_of(commands@.skip(i + 1)), f);
                    lemma_names_by_one(m, f);
                }
            },
        }
        i += 1;
        assert(texts(branches@) + names_by(commands_of(commands@.skip(i as int)), f)
            =~= texts(old(branches)@) + branches_in(commands@));
    }
    assert(commands@.skip(i as int) =~= Seq::<SedCommand>::empty());
    assert(texts(branches@) =~= texts(branches@) + names_by(commands_of(commands@.skip(i as int)), f));
}

/// The first of `wanted` that is not among `known`.
pub open spec fn first_missing(wanted: Seq<Seq<char>>, known: Seq<Seq<char>>) -> Option<Seq<char>>
    decreases wanted.len(),
{
    if wanted.len() == 0 {
        None
    } else if known.contains(wanted[0]) {
        first_missing(wanted.drop_first(), known)
    } else {
        Some(wanted[0])
    }
}

/// Checks that every branch in `commands` has its label: the first label
/// jumped to that no `:` defines (`None`: all are defined). The caller
/// reports ``can't find label for jump to `L'``.
pub fn validate_labels(commands: &Vec<SedCommand>) -> (missing: Option<String>)
    ensures
        opt_text(missing) == first_missing(branches_in(commands@), labels_in(commands@)),
{
    let mut labels: Vec<String> = Vec::new();
    let mut branches: Vec<String> = Vec::new();
    collect_labels(commands, &mut labels);
    collect_branches(commands, &mut branches);
    assert(texts(labels@) =~= labels_in(commands@));
    assert(texts(branches@) =~= branches_in(commands@));
    let ghost known = labels_in(commands@);
    let ghost wanted = branches_in(commands@);
    let mut i: usize = 0;
    proof { assert(wanted.skip(0) =~= wanted); }
    while i < branches.len()
        invariant
            i <= branches.len(),
            texts(labels@) == known,
            texts(branches@) == wanted,
            known == labels_in(commands@),
            wanted == branches_in(commands@),
            first_missing(wanted.skip(i as int), known) == first_missing(wanted, known),
        decreases branches.len() - i,
    {
        let mut found = false;
        let mut j: usize = 0;
        while j < labels.len()
            invariant
                j <= labels.len(),
                texts(labels@) == known,
                texts(branches@) == wanted,
                i < branches.len(),
                found == exists|k: int| 0 <= k < j && known[k] == wanted[i as int],
            decreases labels.len() - j,
        {
            assert(known[j as int] == labels@[j as int]@);
            assert(wanted[i as int] == branches@[i as int]@);
            if labels[j] == branches[i] {
                found = true;
            }
            j += 1;
        }
        assert(wanted.skip(i as int)[0] == wanted[i as int]);
        assert(wanted.skip(i as int).drop_first() =~= wanted.skip(i + 1));
        if !found {
            assert(!known.contains(wanted[i as int]));
            assert(wanted[i as int] == branches@[i as int]@);
            assert(first_missing(wanted.skip(i as int), known) == Some(wanted[i as int]));
            let b = branches[i].clone();
            assert(b@ == wanted[i as int]);
            return Some(b);
        }
        assert(known.contains(wanted[i as int]));
        i += 1;
    }
    assert(wanted.skip(i as int).len() == 0);
    None
}

} // verus!
