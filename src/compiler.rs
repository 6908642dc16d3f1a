use crate::state_machine::{
    chars_of, empty_node, finished, well_formed, with_basic, with_one_or_more, with_zero_or_more, Node,
    StateMachine, TransitionType,
};
use vstd::prelude::*;

verus! {

/// Why a pattern could not be compiled.
#[derive(Debug, Clone, Copy, PartialEq, Eq, Structural)]
pub enum CompileError {
    /// The pattern ended where a character was expected.
    EOF,
    /// A quantifier stood where a character was expected.
    UnboundRepeat,
}

/// One unit of a pattern: an atom, with how often it may occur.
#[derive(Debug, Clone, Copy)]
pub enum Transition {
    Basic(TransitionType),
    OneOrMore(TransitionType),
    ZeroOrMore(TransitionType),
}

impl Transition {
    /// The machine `m` with this unit attached at its frontier.
    pub open spec fn applied(self, m: Seq<Node>) -> Seq<Node> {
        match self {
            Transition::Basic(t) => with_basic(m, t.label()),
            Transition::OneOrMore(t) => with_one_or_more(m, t.label()),
            Transition::ZeroOrMore(t) => with_zero_or_more(m, t.label()),
        }
    }

    fn apply(self, machine: &mut StateMachine)
        requires
            well_formed(old(machine)@),
        ensures
            final(machine)@ == self.applied(old(machine)@),
            well_formed(final(machine)@),
    {
        match self {
            Transition::Basic(t) => {
                machine.add(t);
            },
            Transition::OneOrMore(t) => {
                machine.add_one_or_more(t);
            },
            Transition::ZeroOrMore(t) => {
                machine.add_zero_or_more(t);
            },
        }
    }
}

pub open spec fn is_quantifier(c: char) -> bool {
    c == '+' || c == '*'
}

/// How many characters the unit at the start of `p` takes: its atom, and a
/// quantifier if one follows.
pub open spec fn unit_len(p: Seq<char>) -> int {
    if p.len() >= 2 && is_quantifier(p[1]) {
        2
    } else {
        1
    }
}

/// The unit at the start of `p`, whose first character is its atom.
pub open spec fn unit_of(p: Seq<char>) -> Transition {
    let atom = TransitionType::ExactMatch(p[0]);
    if p.len() >= 2 && p[1] == '+' {
        Transition::OneOrMore(atom)
    } else if p.len() >= 2 && p[1] == '*' {
        Transition::ZeroOrMore(atom)
    } else {
        Transition::Basic(atom)
    }
}

/// The units of `p` from left to right, or `None` where a quantifier stands
/// where an atom is expected.
pub open spec fn parse(p: Seq<char>) -> Option<Seq<Transition>>
    decreases p.len(),
{
    if p.len() == 0 {
        Some(Seq::empty())
    } else if is_quantifier(p[0]) {
        None
    } else {
        match parse(p.skip(unit_len(p))) {
            Some(rest) => Some(seq![unit_of(p)] + rest),
            None => None,
        }
    }
}

/// The machine built by attaching `units` in order to a lone start state.
pub open spec fn built(units: Seq<Transition>) -> Seq<Node>
    decreases units.len(),
{
    if units.len() == 0 {
        seq![empty_node()]
    } else {
        units.last().applied(built(units.drop_last()))
    }
}

/// The machine that pattern `p` compiles to, or `None` where it is refused.
pub open spec fn compiled(p: Seq<char>) -> Option<Seq<Node>> {
    match parse(p) {
        Some(units) => Some(finished(built(units))),
        None => None,
    }
}

/// Compiles the pattern `s`.
pub fn compile(s: &str) -> (r: Result<StateMachine, CompileError>)
    ensures
        match r {
            Ok(m) => compiled(s@) == Some(m@) && well_formed(m@),
            Err(e) => compiled(s@) is None && e == CompileError::UnboundRepeat,
        },
{
    let pattern = chars_of(s);
    compile_from(pattern.as_slice())
}

/// Compiles the pattern made of the characters of `pattern`, in order.
pub fn compile_from(pattern: &[char]) -> (r: Result<StateMachine, CompileError>)
    ensures
        match r {
            Ok(m) => compiled(pattern@) == Some(m@) && well_formed(m@),
            Err(e) => compiled(pattern@) is None && e == CompileError::UnboundRepeat,
        },
{
    let mut machine = StateMachine::default();
    match compile_internal(pattern, &mut machine) {
        Ok(()) => {},
        Err(e) => {
            return Err(e);
        },
    }
    machine.finish();
    Ok(machine)
}

fn compile_internal(pattern: &[char], machine: &mut StateMachine) -> (r: Result<(), CompileError>)
    requires
        old(machine)@ == seq![empty_node()],
    ensures
        match r {
            Ok(()) => parse(pattern@) is Some && final(machine)@ == built(parse(pattern@)->0)
                && well_formed(final(machine)@),
            Err(e) => parse(pattern@) is None && e == CompileError::UnboundRepeat,
        },
{
    let ghost p = pattern@;
    let ghost mut done: Seq<Transition> = Seq::empty();
    let mut pos: usize = 0;
    assert(p.skip(0) =~= p);
    while pos < pattern.len()
        invariant
            p == pattern@,
            pos <= p.len(),
            well_formed(machine@),
            machine@ == built(done),
            parse(p) == match parse(p.skip(pos as int)) {
                Some(rest) => Some(done + rest),
                None => None,
            },
        decreases p.len() - pos,
    {
        let ghost start = pos as int;
        let ghost rest = p.skip(start);
        match compile_repeat(pattern, &mut pos) {
            Ok(unit) => {
                proof {
                    assert(rest.skip(unit_len(rest)) =~= p.skip(pos as int));
                    match parse(p.skip(pos as int)) {
                        Some(tail) => {
                            assert(done.push(unit) + tail =~= done + (seq![unit] + tail));
                        },
                        None => {},
                    }
                    assert(done.push(unit).drop_last() =~= done);
                    done = done.push(unit);
                }
                unit.apply(machine);
            },
            Err(e) => {
                return Err(e);
            },
        }
    }
    assert(done + Seq::<Transition>::empty() =~= done);
    Ok(())
}

/// Reads the unit that starts at `*pos`, and moves past it.
fn compile_repeat(pattern: &[char], pos: &mut usize) -> (r: Result<Transition, CompileError>)
    requires
        *old(pos) < pattern@.len(),
    ensures
        match r {
            Ok(unit) => !is_quantifier(pattern@[*old(pos) as int])
                && unit == unit_of(pattern@.skip(*old(pos) as int))
                && *final(pos) == *old(pos) + unit_len(pattern@.skip(*old(pos) as int)),
            Err(e) => is_quantifier(pattern@[*old(pos) as int]) && e == CompileError::UnboundRepeat,
        },
{
    let ghost rest = pattern@.skip(*pos as int);
    let atom = match compile_atom(pattern, pos) {
        Ok(t) => t,
        Err(e) => {
            return Err(e);
        },
    };
    if *pos < pattern.len() {
        let c = pattern[*pos];
        assert(rest[1] == c);
        if c == '+' {
            *pos = *pos + 1;
            return Ok(Transition::OneOrMore(atom));
        } else if c == '*' {
            *pos = *pos + 1;
            return Ok(Transition::ZeroOrMore(atom));
        }
    }
    Ok(Transition::Basic(atom))
}

/// Reads the character at `*pos` as an atom, and moves past it.
fn compile_atom(pattern: &[char], pos: &mut usize) -> (r: Result<TransitionType, CompileError>)
    requires
        *old(pos) <= pattern@.len(),
    ensures
        match r {
            Ok(t) => *old(pos) < pattern@.len() && !is_quantifier(pattern@[*old(pos) as int])
                && t == TransitionType::ExactMatch(pattern@[*old(pos) as int]) && *final(pos) == *old(pos) + 1,
            Err(e) => *final(pos) == *old(pos) && (if *old(pos) == pattern@.len() {
                e == CompileError::EOF
            } else {
                is_quantifier(pattern@[*old(pos) as int]) && e == CompileError::UnboundRepeat
            }),
        },
{
    if *pos >= pattern.len() {
        return Err(CompileError::EOF);
    }
    let c = pattern[*pos];
    if c == '+' || c == '*' {
        return Err(CompileError::UnboundRepeat);
    }
    *pos = *pos + 1;
    Ok(TransitionType::ExactMatch(c))
}

} // verus!
