//! What compiled machines accept.

use crate::compiler::{built, compiled, is_quantifier, parse, unit_len, unit_of, Transition};
use crate::state_machine::{
    accepts, active, closure, eps_reach, finished, has_edge, step, with_basic, Edge, Node, StateMachine,
    TransitionType,
};
use vstd::prelude::*;

verus! {

/// `p` holds no quantifier.
pub open spec fn is_literal(p: Seq<char>) -> bool {
    forall|i: int| 0 <= i < p.len() ==> !is_quantifier(#[trigger] p[i])
}

/// The unit that matches `c` once.
spec fn literal_unit(c: char) -> Transition {
    Transition::Basic(TransitionType::ExactMatch(c))
}

spec fn literal_units(p: Seq<char>) -> Seq<Transition> {
    p.map_values(|c: char| literal_unit(c))
}

/// State `i` moves on `p[i]` to state `i + 1` and nowhere else; the last
/// state has no transition.
spec fn is_chain(m: Seq<Node>, p: Seq<char>) -> bool {
    &&& m.len() == p.len() + 1
    &&& forall|i: int| 0 <= i < p.len() ==> #[trigger] m[i].edges == seq![Edge { label: Some(p[i]), to: i + 1 }]
    &&& m[p.len() as int].edges.len() == 0
}

proof fn lemma_parse_literal(p: Seq<char>)
    requires
        is_literal(p),
    ensures
        parse(p) == Some(literal_units(p)),
    decreases p.len(),
{
    if p.len() == 0 {
        assert(literal_units(p) =~= Seq::empty());
    } else {
        assert(!is_quantifier(p[0]));
        if p.len() >= 2 {
            assert(!is_quantifier(p[1]));
        }
        assert(unit_len(p) == 1);
        let tail = p.skip(1);
        assert forall|i: int| 0 <= i < tail.len() implies !is_quantifier(#[trigger] tail[i]) by {
            assert(tail[i] == p[i + 1]);
        }
        lemma_parse_literal(tail);
        assert(seq![unit_of(p)] + literal_units(tail) =~= literal_units(p));
    }
}

proof fn lemma_built_literal(p: Seq<char>)
    ensures
        is_chain(built(literal_units(p)), p),
        forall|i: int| 0 <= i <= p.len() ==> !(#[trigger] built(literal_units(p))[i]).accepting,
    decreases p.len(),
{
    let units = literal_units(p);
    if p.len() == 0 {
        assert(units =~= Seq::empty());
    } else {
        let q = p.drop_last();
        assert(units.drop_last() =~= literal_units(q));
        lemma_built_literal(q);
        let before = built(literal_units(q));
        let m = built(units);
        assert(m == with_basic(before, Some(p.last())));
        assert forall|i: int| 0 <= i < p.len() implies #[trigger] m[i].edges == seq![
            Edge { label: Some(p[i]), to: i + 1 },
        ] by {
            if i < q.len() {
                assert(m[i] == before[i]);
            } else {
                assert(m[i].edges =~= seq![Edge { label: Some(p[i]), to: i + 1 }]);
            }
        }
        assert forall|i: int| 0 <= i <= p.len() implies !(#[trigger] m[i]).accepting by {
            if i < p.len() {
                assert(m[i].accepting == before[i].accepting);
            }
        }
    }
}

/// Without epsilon moves a closure adds nothing.
proof fn lemma_chain_closure(m: Seq<Node>, p: Seq<char>, from: Set<int>)
    requires
        is_chain(m, p),
    ensures
        closure(m, from) == from,
{
    assert forall|t: int| closure(m, from).contains(t) <==> from.contains(t) by {
        if from.contains(t) {
            assert(eps_reach(m, t, t, 0));
        }
        if closure(m, from).contains(t) {
            let (s, n) = choose|s: int, n: nat| from.contains(s) && #[trigger] eps_reach(m, s, t, n);
            if s != t {
                let u = choose|u: int| #[trigger] has_edge(m, s, None, u) && eps_reach(m, u, t, (n - 1) as nat);
                let j = choose|j: int| 0 <= j < m[s].edges.len() && #[trigger] m[s].edges[j] == (Edge { label: None, to: u });
                if s < p.len() {
                    assert(m[s].edges == seq![Edge { label: Some(p[s]), to: s + 1 }]);
                }
            }
        }
    }
    assert(closure(m, from) =~= from);
}

proof fn lemma_chain_active(m: Seq<Node>, p: Seq<char>, w: Seq<char>)
    requires
        is_chain(m, p),
    ensures
        active(m, w) == if w.len() <= p.len() && w == p.take(w.len() as int) {
            set![w.len() as int]
        } else {
            Set::<int>::empty()
        },
    decreases w.len(),
{
    if w.len() == 0 {
        lemma_chain_closure(m, p, set![0]);
        assert(w =~= p.take(0));
    } else {
        let v = w.drop_last();
        let c = w.last();
        let k = v.len() as int;
        lemma_chain_active(m, p, v);
        let from = active(m, v);
        lemma_chain_closure(m, p, step(m, from, c));
        let prefix = w.len() <= p.len() && w == p.take(w.len() as int);
        if prefix {
            assert(v =~= p.take(k));
            assert(p[k] == c);
            assert(m[k].edges == seq![Edge { label: Some(p[k]), to: k + 1 }]);
            assert(m[k].edges[0] == (Edge { label: Some(c), to: k + 1 }));
            assert(has_edge(m, k, Some(c), k + 1));
            assert forall|t: int| step(m, from, c).contains(t) <==> t == k + 1 by {
                if step(m, from, c).contains(t) {
                    let j = choose|j: int|
                        0 <= j < m[k].edges.len() && #[trigger] m[k].edges[j] == (Edge { label: Some(c), to: t });
                }
            }
            assert(step(m, from, c) =~= set![w.len() as int]);
        } else {
            assert forall|t: int| !step(m, from, c).contains(t) by {
                if step(m, from, c).contains(t) {
                    assert(from.contains(k));
                    assert(k <= p.len() && v =~= p.take(k));
                    let j = choose|j: int|
                        0 <= j < m[k].edges.len() && #[trigger] m[k].edges[j] == (Edge { label: Some(c), to: t });
                    assert(k < p.len());
                    assert(m[k].edges == seq![Edge { label: Some(p[k]), to: k + 1 }]);
                    assert(p[k] == c);
                    assert(w =~= p.take(w.len() as int));
                }
            }
            assert(step(m, from, c) =~= Set::<int>::empty());
        }
    }
}

/// A pattern without quantifiers compiles, and its machine accepts an input
/// exactly when the input equals the pattern.
pub proof fn lemma_literal_pattern(p: Seq<char>, w: Seq<char>)
    requires
        is_literal(p),
    ensures
        compiled(p) is Some,
        accepts(compiled(p)->0, w) <==> w == p,
{
    lemma_parse_literal(p);
    lemma_built_literal(p);
    let before = built(literal_units(p));
    let m = finished(before);
    assert(compiled(p) == Some(m));
    assert(is_chain(m, p)) by {
        assert forall|i: int| 0 <= i < p.len() implies #[trigger] m[i].edges == seq![
            Edge { label: Some(p[i]), to: i + 1 },
        ] by {
            assert(before[i].edges == seq![Edge { label: Some(p[i]), to: i + 1 }]);
        }
    }
    lemma_chain_active(m, p, w);
    let n = p.len() as int;
    assert(m[n].accepting);
    if w == p {
        assert(p.take(n) =~= p);
        assert(active(m, w).contains(n));
    }
    if accepts(m, w) {
        let s = choose|s: int| active(m, w).contains(s) && 0 <= s < m.len() && #[trigger] m[s].accepting;
        assert(s == w.len());
        if s < n {
            assert(!before[s].accepting);
        }
        assert(w =~= p);
    }
}

/// The empty pattern compiles, and its machine accepts the empty input and
/// nothing else.
pub proof fn lemma_empty_pattern(w: Seq<char>)
    ensures
        compiled(Seq::empty()) is Some,
        accepts(compiled(Seq::empty())->0, w) <==> w.len() == 0,
{
    lemma_literal_pattern(Seq::empty(), w);
    if w.len() == 0 {
        assert(w =~= Seq::<char>::empty());
    }
}

/// A quantifier stands where an atom is expected: at the start of `p`, or
/// right after another quantifier.
pub open spec fn has_unbound_repeat(p: Seq<char>) -> bool {
    ||| (p.len() > 0 && is_quantifier(p[0]))
    ||| exists|i: int| 0 <= i < p.len() - 1 && #[trigger] is_quantifier(p[i]) && is_quantifier(p[i + 1])
}

/// A pattern is refused exactly when a quantifier stands at its start or
/// right after another quantifier.
pub proof fn lemma_refused_iff_unbound_repeat(p: Seq<char>)
    ensures
        compiled(p) is None <==> has_unbound_repeat(p),
    decreases p.len(),
{
    if p.len() > 0 && !is_quantifier(p[0]) {
        let k = unit_len(p);
        let tail = p.skip(k);
        lemma_refused_iff_unbound_repeat(tail);
        assert(compiled(p) is None <==> compiled(tail) is None);
        if has_unbound_repeat(tail) {
            if tail.len() > 0 && is_quantifier(tail[0]) {
                assert(k == 2);
                assert(is_quantifier(p[1]) && is_quantifier(p[2]));
            } else {
                let i = choose|i: int| 0 <= i < tail.len() - 1 && #[trigger] is_quantifier(tail[i]) && is_quantifier(tail[i + 1]);
                assert(is_quantifier(p[i + k]) && is_quantifier(p[i + k + 1]));
            }
        }
        if has_unbound_repeat(p) {
            let i = choose|i: int| 0 <= i < p.len() - 1 && #[trigger] is_quantifier(p[i]) && is_quantifier(p[i + 1]);
            if k == 1 {
                assert(i >= 1);
                assert(is_quantifier(tail[i - 1]) && is_quantifier(tail[i]));
            } else if i == 1 {
                assert(is_quantifier(tail[0]));
            } else {
                assert(i >= 2);
                assert(is_quantifier(tail[i - 2]) && is_quantifier(tail[i - 1]));
            }
        }
    }
}

/// Two machines compiled from one pattern accept the same inputs.
pub proof fn lemma_compile_idempotent(p: Seq<char>, a: StateMachine, b: StateMachine)
    requires
        compiled(p) == Some(a@),
        compiled(p) == Some(b@),
    ensures
        forall|w: Seq<char>| accepts(a@, w) == accepts(b@, w),
{
}

/// Whether a machine accepts an input depends on the machine and the input
/// alone: two answers for one machine and one input agree.
pub proof fn lemma_matches_deterministic(m: StateMachine, w: Seq<char>, first: bool, second: bool)
    requires
        first == accepts(m@, w),
        second == accepts(m@, w),
    ensures
        first == second,
{
}

} // verus!
