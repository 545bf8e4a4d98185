use vstd::prelude::*;
use crate::sed_regex::{sed_is_match, SedRegex};
use crate::types::{address_model, Address, AddressModel, AddressRange, RangeModel};

verus! {

/// Where a two-address range stands for one command.
#[derive(Clone, Copy, PartialEq, Eq, Structural)]
pub enum RangeState {
    /// The range is not open.
    Idle,
    /// The range opened on this line number and has not ended yet.
    Active(usize),
}

/// The pattern of the last regex used, as the view of an optional regex.
pub open spec fn regex_view(r: Option<SedRegex>) -> Option<Seq<char>> {
    match r {
        Some(re) => Some(re@),
        None => None,
    }
}

/// Whether the address `a` selects line `line` (`last`: it is the last
/// line of input) with pattern space `ps`, and the last regex afterwards
/// (`lr` before): a regex that matches becomes the last regex. Line 0
/// stands for line 1; `//` reuses the last regex and matches nothing when
/// there is none.
pub open spec fn single(a: AddressModel, line: int, last: bool, ps: Seq<u8>, lr: Option<Seq<char>>) -> (bool, Option<Seq<char>>) {
    match a {
        AddressModel::Line(n) => (if n == 0 { line == 1 } else { line == n }, lr),
        AddressModel::Last => (last, lr),
        AddressModel::Regex(p) => if sed_is_match(p, ps) { (true, Some(p)) } else { (false, lr) },
        AddressModel::LastRegex => match lr {
            Some(p) => (sed_is_match(p, ps), lr),
            None => (false, lr),
        },
        AddressModel::Step(f, s) => (if s == 0 {
            line == f
        } else if f == 0 {
            line % (s as int) == 0
        } else {
            line >= f && (line - f) % (s as int) == 0
        }, lr),
        AddressModel::Relative(_) => (false, lr),
        AddressModel::Multiple(_) => (false, lr),
    }
}

/// A range whose end is `b` and that opens on line `line` also ends there:
/// its end is a line number not after it, `+0`, or `~N` with `line` a
/// multiple of `N` (or `N` 0). A regex or `$` end is looked for from the
/// next line on.
pub open spec fn ends_where_it_starts(b: AddressModel, line: int) -> bool {
    match b {
        AddressModel::Line(n) => n <= line,
        AddressModel::Relative(n) => n == 0,
        AddressModel::Multiple(n) => n == 0 || line % (n as int) == 0,
        _ => false,
    }
}

/// Whether the range `a,b` in state `rs` selects line `line`, its state
/// afterwards and the last regex afterwards. `0,b` is open from the start
/// and may end on line 1. An open range with a line-number end (or `+N`)
/// ends on that line, and a line past it is no longer selected.
pub open spec fn range_select(
    a: AddressModel,
    b: AddressModel,
    rs: RangeState,
    line: int,
    last: bool,
    ps: Seq<u8>,
    lr: Option<Seq<char>>,
) -> (bool, RangeState, Option<Seq<char>>) {
    match rs {
        RangeState::Idle => if a == AddressModel::Line(0) && line == 1 {
            let e = single(b, line, last, ps, lr);
            (true, if e.0 { RangeState::Idle } else { RangeState::Active(line as usize) }, e.1)
        } else {
            let s = single(a, line, last, ps, lr);
            if !s.0 {
                (false, RangeState::Idle, s.1)
            } else {
                (true, if ends_where_it_starts(b, line) { RangeState::Idle } else { RangeState::Active(line as usize) }, s.1)
            }
        },
        RangeState::Active(start) => match b {
            AddressModel::Line(n) => if line > n {
                (false, RangeState::Idle, lr)
            } else if line == n {
                (true, RangeState::Idle, lr)
            } else {
                (true, rs, lr)
            },
            AddressModel::Relative(n) => if line > start + n {
                (false, RangeState::Idle, lr)
            } else if line == start + n {
                (true, RangeState::Idle, lr)
            } else {
                (true, rs, lr)
            },
            AddressModel::Multiple(n) => if n == 0 || line % (n as int) == 0 {
                (true, RangeState::Idle, lr)
            } else {
                (true, rs, lr)
            },
            _ => {
                let e = single(b, line, last, ps, lr);
                (true, if e.0 { RangeState::Idle } else { rs }, e.1)
            },
        },
    }
}

/// Whether the address range `r` (before negation) selects the line, the
/// range state afterwards and the last regex afterwards.
pub open spec fn selects(r: RangeModel, rs: RangeState, line: int, last: bool, ps: Seq<u8>, lr: Option<Seq<char>>) -> (bool, RangeState, Option<Seq<char>>) {
    match r {
        RangeModel::NoAddress => (true, rs, lr),
        RangeModel::Single(a) => {
            let s = single(a, line, last, ps, lr);
            (s.0, rs, s.1)
        },
        RangeModel::Range(a, b) => range_select(a, b, rs, line, last, ps, lr),
    }
}

/// Whether `a` selects the line; a matching regex becomes the last regex.
pub fn addr_matches_single(a: &Address, line: usize, last: bool, ps: &Vec<u8>, lr: &mut Option<SedRegex>) -> (b: bool)
    ensures
        (b, regex_view(*final(lr))) == single(address_model(*a), line as int, last, ps@, regex_view(*old(lr))),
{
    match a {
        Address::Line(n) => {
            if *n == 0 {
                line == 1
            } else {
                line == *n
            }
        },
        Address::Last => last,
        Address::Regex(re) => {
            let m = re.is_match(ps.as_slice());
            if m {
                *lr = Some(re.clone());
            }
            m
        },
        Address::LastRegex => match lr {
            Some(re) => re.is_match(ps.as_slice()),
            None => false,
        },
        Address::Step(f, s) => {
            if *s == 0 {
                line == *f
            } else if *f == 0 {
                line % *s == 0
            } else {
                line >= *f && (line - *f) % *s == 0
            }
        },
        Address::Relative(_) => false,
        Address::Multiple(_) => false,
    }
}

fn ends_where_it_starts_exec(b: &Address, line: usize) -> (r: bool)
    ensures
        r == ends_where_it_starts(address_model(*b), line as int),
{
    match b {
        Address::Line(n) => *n <= line,
        Address::Relative(n) => *n == 0,
        Address::Multiple(n) => *n == 0 || line % *n == 0,
        _ => false,
    }
}

/// Whether the range `a,b` selects the line, updating its state.
fn range_matches(a: &Address, b: &Address, rs: &mut RangeState, line: usize, last: bool, ps: &Vec<u8>, lr: &mut Option<SedRegex>) -> (sel: bool)
    ensures
        (sel, *final(rs), regex_view(*final(lr))) == range_select(address_model(*a), address_model(*b), *old(rs), line as int, last, ps@, regex_view(*old(lr))),
{
    match *rs {
        RangeState::Idle => {
            let zero_start = match a {
                Address::Line(n) => *n == 0,
                _ => false,
            };
            if zero_start && line == 1 {
                assert(address_model(*a) == AddressModel::Line(0));
                let e = addr_matches_single(b, line, last, ps, lr);
                if !e {
                    *rs = RangeState::Active(line);
                }
                true
            } else {
                let s = addr_matches_single(a, line, last, ps, lr);
                if !s {
                    false
                } else {
                    if !ends_where_it_starts_exec(b, line) {
                        *rs = RangeState::Active(line);
                    }
                    true
                }
            }
        },
        RangeState::Active(start) => match b {
            Address::Line(n) => {
                if line > *n {
                    *rs = RangeState::Idle;
                    false
                } else if line == *n {
                    *rs = RangeState::Idle;
                    true
                } else {
                    true
                }
            },
            Address::Relative(n) => {
                if line >= start {
                    let d = line - start;
                    if d > *n {
                        *rs = RangeState::Idle;
                        false
                    } else if d == *n {
                        *rs = RangeState::Idle;
                        true
                    } else {
                        true
                    }
                } else {
                    true
                }
            },
            Address::Multiple(n) => {
                if *n == 0 || line % *n == 0 {
                    *rs = RangeState::Idle;
                }
                true
            },
            _ => {
                let e = addr_matches_single(b, line, last, ps, lr);
                if e {
                    *rs = RangeState::Idle;
                }
                true
            },
        },
    }
}

/// Whether the address range `r` selects the line (before negation),
/// updating the range state `rs` and the last regex `lr`.
pub fn address_matches(r: &AddressRange, rs: &mut RangeState, line: usize, last: bool, ps: &Vec<u8>, lr: &mut Option<SedRegex>) -> (sel: bool)
    ensures
        (sel, *final(rs), regex_view(*final(lr))) == selects(crate::types::range_model(*r), *old(rs), line as int, last, ps@, regex_view(*old(lr))),
{
    match r {
        AddressRange::NoAddress => true,
        AddressRange::Single(a) => addr_matches_single(a, line, last, ps, lr),
        AddressRange::Range(a, b) => range_matches(a, b, rs, line, last, ps, lr),
    }
}

} // verus!
