use vstd::prelude::*;

verus! {

/// Position of a state within the machine that owns it.
#[derive(Debug, Clone, Copy)]
pub struct StateRef(usize);

impl StateRef {
    pub closed spec fn spec_index(self) -> int {
        self.0 as int
    }

    /// The position of the state.
    pub fn index(&self) -> (r: usize)
        ensures
            r == self.spec_index(),
    {
        self.0
    }
}

/// What a transition needs to be taken.
#[derive(Debug, Clone, Copy)]
pub enum TransitionType {
    /// Consumes one input character equal to the given one.
    ExactMatch(char),
    /// Consumes nothing.
    Epsilon,
}

/// A transition of the model: `None` for an epsilon move, `Some(c)` for one
/// that consumes `c`; `to` is the index of the target state.
pub struct Edge {
    pub label: Option<char>,
    pub to: int,
}

/// A state of the model: its outgoing transitions, in order, and whether a
/// match may end in it.
pub struct Node {
    pub edges: Seq<Edge>,
    pub accepting: bool,
}

impl TransitionType {
    pub open spec fn label(self) -> Option<char> {
        match self {
            TransitionType::ExactMatch(c) => Some(c),
            TransitionType::Epsilon => None,
        }
    }

    /// Whether this label consumes the character `c`.
    fn execute(&self, c: &char) -> (r: bool)
        ensures
            r == (self.label() == Some(*c)),
    {
        match self {
            TransitionType::ExactMatch(a) => *a == *c,
            TransitionType::Epsilon => false,
        }
    }
}

#[derive(Debug, Clone, Copy)]
pub(crate) struct Transition {
    transition_type: TransitionType,
    to: StateRef,
}

impl Transition {
    spec fn model(self) -> Edge {
        Edge { label: self.transition_type.label(), to: self.to.0 as int }
    }

    fn new(transition_type: TransitionType, next: usize) -> (r: Self)
        ensures
            r.model() == (Edge { label: transition_type.label(), to: next as int }),
    {
        Transition { transition_type, to: StateRef(next) }
    }

    /// The target of this transition if it consumes `c`.
    fn execute(&self, c: &char) -> (r: Option<usize>)
        ensures
            r == (if self.model().label == Some(*c) {
                Some(self.to.0)
            } else {
                None
            }),
    {
        if self.transition_type.execute(c) {
            return Some(self.to.0);
        }
        None
    }
}

#[derive(Debug)]
struct State {
    transitions: Vec<Transition>,
    is_end: bool,
}

impl State {
    spec fn model(self) -> Node {
        Node { edges: self.transitions@.map_values(|t: Transition| t.model()), accepting: self.is_end }
    }

    fn new() -> (r: Self)
        ensures
            r.model() == empty_node(),
    {
        let r = State { transitions: Vec::new(), is_end: false };
        assert(r.model().edges =~= Seq::<Edge>::empty());
        r
    }
}

/// An automaton: an arena of states, with the start state at index 0.
#[derive(Debug)]
pub struct StateMachine {
    states: Vec<State>,
}

pub open spec fn empty_node() -> Node {
    Node { edges: Seq::empty(), accepting: false }
}

/// `m` with one more transition, labelled `label`, from `from` to `to`.
pub open spec fn push_edge(m: Seq<Node>, from: int, label: Option<char>, to: int) -> Seq<Node> {
    m.update(from, Node { edges: m[from].edges.push(Edge { label, to }), accepting: m[from].accepting })
}

/// A literal step: the frontier (the last state) moves on `label` to a new
/// state, the new frontier.
pub open spec fn with_basic(m: Seq<Node>, label: Option<char>) -> Seq<Node> {
    push_edge(m.push(empty_node()), m.len() - 1, label, m.len() as int)
}

/// One or more repetitions: the frontier moves on `label` to a new loop
/// state, which has epsilon moves back to the old frontier and on to a new
/// continuation state, the new frontier.
pub open spec fn with_one_or_more(m: Seq<Node>, label: Option<char>) -> Seq<Node> {
    let frontier = m.len() - 1;
    let looped = m.len() as int;
    let next = m.len() + 1int;
    let with_loop = push_edge(push_edge(m.push(empty_node()), frontier, label, looped), looped, None, frontier);
    push_edge(with_loop.push(empty_node()), looped, None, next)
}

/// Zero or more repetitions: as one or more, with an epsilon move from the
/// old frontier to the continuation state as well.
pub open spec fn with_zero_or_more(m: Seq<Node>, label: Option<char>) -> Seq<Node> {
    push_edge(with_one_or_more(m, label), m.len() - 1, None, m.len() + 1int)
}

/// `m` with its last state accepting.
pub open spec fn finished(m: Seq<Node>) -> Seq<Node> {
    m.update(m.len() - 1, Node { edges: m.last().edges, accepting: true })
}

/// Every transition targets a state of the machine, and there is a start state.
pub open spec fn well_formed(m: Seq<Node>) -> bool {
    &&& m.len() >= 1
    &&& forall|s: int, j: int|
        0 <= s < m.len() && 0 <= j < m[s].edges.len() ==> 0 <= #[trigger] m[s].edges[j].to < m.len()
}

/// State `s` has a transition labelled `label` to state `t`.
pub open spec fn has_edge(m: Seq<Node>, s: int, label: Option<char>, t: int) -> bool {
    &&& 0 <= s < m.len()
    &&& exists|j: int| 0 <= j < m[s].edges.len() && #[trigger] m[s].edges[j] == (Edge { label, to: t })
}

/// `t` is reachable from `s` by at most `n` epsilon moves.
pub open spec fn eps_reach(m: Seq<Node>, s: int, t: int, n: nat) -> bool
    decreases n,
{
    s == t || (n > 0 && exists|u: int| #[trigger] has_edge(m, s, None, u) && eps_reach(m, u, t, (n - 1) as nat))
}

/// The epsilon-closure of a set of states.
pub open spec fn closure(m: Seq<Node>, from: Set<int>) -> Set<int> {
    Set::new(|t: int| exists|s: int, n: nat| from.contains(s) && #[trigger] eps_reach(m, s, t, n))
}

/// The states reached from `from` by one transition that consumes `c`.
pub open spec fn step(m: Seq<Node>, from: Set<int>, c: char) -> Set<int> {
    Set::new(|t: int| exists|s: int| from.contains(s) && #[trigger] has_edge(m, s, Some(c), t))
}

/// The states active after reading `w` from the start state.
pub open spec fn active(m: Seq<Node>, w: Seq<char>) -> Set<int>
    decreases w.len(),
{
    if w.len() == 0 {
        closure(m, set![0])
    } else {
        closure(m, step(m, active(m, w.drop_last()), w.last()))
    }
}

/// The machine accepts `w`: an accepting state is active after reading it.
pub open spec fn accepts(m: Seq<Node>, w: Seq<char>) -> bool {
    exists|s: int| active(m, w).contains(s) && 0 <= s < m.len() && #[trigger] m[s].accepting
}

/// The characters of `s`, in order.
pub(crate) fn chars_of(s: &str) -> (r: Vec<char>)
    ensures
        r@ == s@,
{
    let mut r: Vec<char> = Vec::new();
    for c in it: s.chars()
        invariant
            r@ == it.seq().take(it.index()),
    {
        r.push(c);
    }
    assert(r@ == s@);
    r
}

/// The set of indices at which `v` holds `true`.
pub open spec fn marked_set(v: Seq<bool>) -> Set<int> {
    Set::new(|i: int| 0 <= i < v.len() && v[i])
}

spec fn count_unmarked(v: Seq<bool>) -> nat
    decreases v.len(),
{
    if v.len() == 0 {
        0
    } else {
        count_unmarked(v.drop_last()) + if v.last() {
            0nat
        } else {
            1nat
        }
    }
}

proof fn lemma_mark_one(v: Seq<bool>, i: int)
    requires
        0 <= i < v.len(),
        !v[i],
    ensures
        count_unmarked(v.update(i, true)) + 1 == count_unmarked(v),
    decreases v.len(),
{
    if i == v.len() - 1 {
        assert(v.update(i, true).drop_last() =~= v.drop_last());
    } else {
        assert(v.update(i, true).drop_last() =~= v.drop_last().update(i, true));
        lemma_mark_one(v.drop_last(), i);
    }
}

proof fn lemma_reach_extend(m: Seq<Node>, a: int, b: int, c: int, n: nat)
    requires
        eps_reach(m, a, b, n),
        has_edge(m, b, None, c),
    ensures
        eps_reach(m, a, c, n + 1),
    decreases n,
{
    if a == b {
        assert(eps_reach(m, c, c, n));
    } else {
        let u = choose|u: int| #[trigger] has_edge(m, a, None, u) && eps_reach(m, u, b, (n - 1) as nat);
        lemma_reach_extend(m, u, b, c, (n - 1) as nat);
    }
}

proof fn lemma_reach_within(m: Seq<Node>, within: Set<int>, s: int, t: int, n: nat)
    requires
        within.contains(s),
        forall|a: int, b: int| within.contains(a) && #[trigger] has_edge(m, a, None, b) ==> within.contains(b),
        eps_reach(m, s, t, n),
    ensures
        within.contains(t),
    decreases n,
{
    if s != t {
        let u = choose|u: int| #[trigger] has_edge(m, s, None, u) && eps_reach(m, u, t, (n - 1) as nat);
        lemma_reach_within(m, within, u, t, (n - 1) as nat);
    }
}

/// A set that holds `from` and is closed under epsilon moves holds its closure.
proof fn lemma_closure_within(m: Seq<Node>, from: Set<int>, within: Set<int>)
    requires
        from.subset_of(within),
        forall|a: int, b: int| within.contains(a) && #[trigger] has_edge(m, a, None, b) ==> within.contains(b),
    ensures
        closure(m, from).subset_of(within),
{
    assert forall|t: int| closure(m, from).contains(t) implies within.contains(t) by {
        let (s, n) = choose|s: int, n: nat| from.contains(s) && #[trigger] eps_reach(m, s, t, n);
        lemma_reach_within(m, within, s, t, n);
    }
}

impl View for StateMachine {
    type V = Seq<Node>;

    closed spec fn view(&self) -> Seq<Node> {
        Seq::new(self.states@.len(), |i: int| self.states@[i].model())
    }
}

impl Default for StateMachine {
    /// A machine with the start state alone, which is not accepting.
    fn default() -> (r: Self)
        ensures
            r@ == seq![empty_node()],
            well_formed(r@),
    {
        let mut states: Vec<State> = Vec::new();
        states.push(State::new());
        let r = StateMachine { states };
        assert(r@ =~= seq![empty_node()]);
        r
    }
}

impl StateMachine {
    /// Appends a state with no transitions and returns its position.
    pub(crate) fn append_state(&mut self) -> (r: StateRef)
        requires
            well_formed(old(self)@),
        ensures
            final(self)@ == old(self)@.push(empty_node()),
            well_formed(final(self)@),
            r.spec_index() == old(self)@.len(),
    {
        let ghost before = self@;
        let i = self.states.len();
        self.states.push(State::new());
        assert(self@ =~= before.push(empty_node()));
        StateRef(i)
    }

    /// Appends a transition labelled `t` from state `from` to state `to`.
    pub(crate) fn append_transition(&mut self, from: usize, t: TransitionType, to: usize)
        requires
            well_formed(old(self)@),
            from < old(self)@.len(),
            to < old(self)@.len(),
        ensures
            final(self)@ == push_edge(old(self)@, from as int, t.label(), to as int),
            well_formed(final(self)@),
    {
        let ghost before = self@;
        let tr = Transition::new(t, to);
        self.states[from].transitions.push(tr);
        assert(self@[from as int].edges =~= before[from as int].edges.push(tr.model()));
        assert(self@ =~= push_edge(before, from as int, t.label(), to as int));
    }

    /// Attaches a transition labelled `t` from the frontier to a new state,
    /// which becomes the frontier.
    pub(crate) fn add(&mut self, t: TransitionType) -> (r: StateRef)
        requires
            well_formed(old(self)@),
        ensures
            final(self)@ == with_basic(old(self)@, t.label()),
            well_formed(final(self)@),
            r.spec_index() == old(self)@.len(),
    {
        let frontier = self.states.len() - 1;
        let next = self.append_state();
        self.append_transition(frontier, t, next.0);
        next
    }

    /// Attaches one or more repetitions of `t` to the frontier; the new
    /// continuation state becomes the frontier, and is returned.
    pub(crate) fn add_one_or_more(&mut self, t: TransitionType) -> (r: StateRef)
        requires
            well_formed(old(self)@),
        ensures
            final(self)@ == with_one_or_more(old(self)@, t.label()),
            well_formed(final(self)@),
            r.spec_index() == old(self)@.len() + 1,
    {
        let frontier = self.states.len() - 1;
        let looped = self.append_state();
        self.append_transition(frontier, t, looped.0);
        self.append_transition(looped.0, TransitionType::Epsilon, frontier);
        let next = self.append_state();
        self.append_transition(looped.0, TransitionType::Epsilon, next.0);
        next
    }

    /// Attaches zero or more repetitions of `t` to the frontier; the new
    /// continuation state becomes the frontier, and is returned.
    pub(crate) fn add_zero_or_more(&mut self, t: TransitionType) -> (r: StateRef)
        requires
            well_formed(old(self)@),
        ensures
            final(self)@ == with_zero_or_more(old(self)@, t.label()),
            well_formed(final(self)@),
            r.spec_index() == old(self)@.len() + 1,
    {
        let frontier = self.states.len() - 1;
        let next = self.add_one_or_more(t);
        self.append_transition(frontier, TransitionType::Epsilon, next.0);
        next
    }

    /// Marks the frontier as accepting.
    pub(crate) fn finish(&mut self)
        requires
            well_formed(old(self)@),
        ensures
            final(self)@ == finished(old(self)@),
            well_formed(final(self)@),
    {
        let ghost before = self@;
        let last = self.states.len() - 1;
        self.states[last].is_end = true;
        assert(self@ =~= finished(before));
    }

    /// Replaces `marked` by the epsilon-closure of the states it marks.
    fn close(&self, marked: &mut Vec<bool>)
        requires
            well_formed(self@),
            old(marked)@.len() == self@.len(),
        ensures
            final(marked)@.len() == self@.len(),
            marked_set(final(marked)@) == closure(self@, marked_set(old(marked)@)),
    {
        let ghost m = self@;
        let ghost start = marked_set(marked@);
        let n = self.states.len();
        assert forall|t: int| start.contains(t) implies closure(m, start).contains(t) by {
            assert(eps_reach(m, t, t, 0));
        }
        loop
            invariant
                start == marked_set(old(marked)@),
                well_formed(m),
                m == self@,
                n == m.len(),
                marked@.len() == n,
                start.subset_of(marked_set(marked@)),
                marked_set(marked@).subset_of(closure(m, start)),
            decreases count_unmarked(marked@),
        {
            let ghost before = marked@;
            let mut changed = false;
            let mut s: usize = 0;
            while s < n
                invariant
                    well_formed(m),
                    m == self@,
                    n == m.len(),
                    s <= n,
                    marked@.len() == n,
                    start.subset_of(marked_set(marked@)),
                    marked_set(marked@).subset_of(closure(m, start)),
                    count_unmarked(marked@) <= count_unmarked(before),
                    changed ==> count_unmarked(marked@) < count_unmarked(before),
                    !changed ==> marked@ == before,
                    !changed ==> forall|a: int, j: int|
                        0 <= a < s && marked@[a] && 0 <= j < m[a].edges.len()
                            && #[trigger] m[a].edges[j].label is None ==> marked@[m[a].edges[j].to],
                decreases n - s,
            {
                if marked[s] {
                    let len = self.states[s].transitions.len();
                    let mut j: usize = 0;
                    while j < len
                        invariant
                            well_formed(m),
                            m == self@,
                            n == m.len(),
                            s < n,
                            marked@[s as int],
                            len == m[s as int].edges.len(),
                            j <= len,
                            marked@.len() == n,
                            start.subset_of(marked_set(marked@)),
                            marked_set(marked@).subset_of(closure(m, start)),
                            count_unmarked(marked@) <= count_unmarked(before),
                            changed ==> count_unmarked(marked@) < count_unmarked(before),
                            !changed ==> marked@ == before,
                            !changed ==> forall|a: int, k: int|
                                0 <= a < s && marked@[a] && 0 <= k < m[a].edges.len()
                                    && #[trigger] m[a].edges[k].label is None ==> marked@[m[a].edges[k].to],
                            !changed ==> forall|k: int|
                                0 <= k < j && #[trigger] m[s as int].edges[k].label is None
                                    ==> marked@[m[s as int].edges[k].to],
                        decreases len - j,
                    {
                        let tr = self.states[s].transitions[j];
                        assert(m[s as int].edges[j as int] == tr.model());
                        assert(0 <= m[s as int].edges[j as int].to < m.len());
                        if let TransitionType::Epsilon = tr.transition_type {
                            let t = tr.to.0;
                            if !marked[t] {
                                proof {
                                    lemma_mark_one(marked@, t as int);
                                    assert(closure(m, start).contains(s as int));
                                    let (s0, n0) = choose|s0: int, n0: nat|
                                        start.contains(s0) && #[trigger] eps_reach(m, s0, s as int, n0);
                                    assert(has_edge(m, s as int, None, t as int));
                                    lemma_reach_extend(m, s0, s as int, t as int, n0);
                                    assert(closure(m, start).contains(t as int));
                                }
                                marked[t] = true;
                                changed = true;
                            }
                        }
                        j += 1;
                    }
                }
                s += 1;
            }
            if !changed {
                proof {
                    let within = marked_set(marked@);
                    assert forall|a: int, b: int|
                        within.contains(a) && #[trigger] has_edge(m, a, None, b) implies within.contains(b) by {
                        let k = choose|k: int|
                            0 <= k < m[a].edges.len() && #[trigger] m[a].edges[k] == (Edge { label: None, to: b });
                        assert(m[a].edges[k].label is None);
                    }
                    lemma_closure_within(m, start, within);
                    assert(within =~= closure(m, start));
                }
                return;
            }
        }
    }

    /// The states reached from those that `current` marks by one transition
    /// that consumes `c`.
    fn step_on(&self, current: &Vec<bool>, c: char) -> (next: Vec<bool>)
        requires
            well_formed(self@),
            current@.len() == self@.len(),
        ensures
            next@.len() == self@.len(),
            marked_set(next@) == step(self@, marked_set(current@), c),
    {
        let ghost m = self@;
        let ghost from = marked_set(current@);
        let n = self.states.len();
        let mut next: Vec<bool> = Vec::new();
        let mut k: usize = 0;
        while k < n
            invariant
                k <= n,
                next@.len() == k,
                forall|i: int| 0 <= i < k ==> !next@[i],
            decreases n - k,
        {
            next.push(false);
            k += 1;
        }
        let mut s: usize = 0;
        while s < n
            invariant
                well_formed(m),
                m == self@,
                n == m.len(),
                current@.len() == n,
                from == marked_set(current@),
                s <= n,
                next@.len() == n,
                marked_set(next@).subset_of(step(m, from, c)),
                forall|a: int, j: int|
                    0 <= a < s && current@[a] && 0 <= j < m[a].edges.len()
                        && #[trigger] m[a].edges[j].label == Some(c) ==> next@[m[a].edges[j].to],
            decreases n - s,
        {
            if current[s] {
                let len = self.states[s].transitions.len();
                let mut j: usize = 0;
                while j < len
                    invariant
                        well_formed(m),
                        m == self@,
                        n == m.len(),
                        current@.len() == n,
                        from == marked_set(current@),
                        s < n,
                        current@[s as int],
                        len == m[s as int].edges.len(),
                        j <= len,
                        next@.len() == n,
                        marked_set(next@).subset_of(step(m, from, c)),
                        forall|a: int, k: int|
                            0 <= a < s && current@[a] && 0 <= k < m[a].edges.len()
                                && #[trigger] m[a].edges[k].label == Some(c) ==> next@[m[a].edges[k].to],
                        forall|k: int|
                            0 <= k < j && #[trigger] m[s as int].edges[k].label == Some(c)
                                ==> next@[m[s as int].edges[k].to],
                    decreases len - j,
                {
                    let tr = self.states[s].transitions[j];
                    assert(m[s as int].edges[j as int] == tr.model());
                    assert(0 <= m[s as int].edges[j as int].to < m.len());
                    if let Some(t) = tr.execute(&c) {
                        proof {
                            assert(has_edge(m, s as int, Some(c), t as int));
                            assert(from.contains(s as int));
                            assert(step(m, from, c).contains(t as int));
                        }
                        next[t] = true;
                    }
                    j += 1;
                }
            }
            s += 1;
        }
        proof {
            assert forall|t: int| step(m, from, c).contains(t) implies marked_set(next@).contains(t) by {
                let a = choose|a: int| from.contains(a) && #[trigger] has_edge(m, a, Some(c), t);
                let k = choose|k: int|
                    0 <= k < m[a].edges.len() && #[trigger] m[a].edges[k] == (Edge { label: Some(c), to: t });
                assert(m[a].edges[k].label == Some(c));
                assert(0 <= m[a].edges[k].to < m.len());
            }
            assert(marked_set(next@) =~= step(m, from, c));
        }
        next
    }

    /// Whether the machine accepts the characters of `input`, in order.
    pub fn matches_from(&self, input: &[char]) -> (r: bool)
        requires
            well_formed(self@),
        ensures
            r == accepts(self@, input@),
    {
        let ghost m = self@;
        let n = self.states.len();
        let mut current: Vec<bool> = Vec::new();
        current.push(true);
        let mut k: usize = 1;
        while k < n
            invariant
                1 <= k <= n,
                current@.len() == k,
                current@[0],
                forall|i: int| 1 <= i < k ==> !current@[i],
            decreases n - k,
        {
            current.push(false);
            k += 1;
        }
        assert(marked_set(current@) =~= set![0]);
        self.close(&mut current);
        let mut i: usize = 0;
        while i < input.len()
            invariant
                well_formed(m),
                m == self@,
                n == m.len(),
                i <= input@.len(),
                current@.len() == n,
                marked_set(current@) == active(m, input@.take(i as int)),
            decreases input@.len() - i,
        {
            let mut next = self.step_on(&current, input[i]);
            self.close(&mut next);
            current = next;
            proof {
                let w = input@.take(i + 1);
                assert(w.drop_last() =~= input@.take(i as int));
                assert(w.last() == input@[i as int]);
            }
            i += 1;
        }
        assert(input@.take(input@.len() as int) =~= input@);
        let mut s: usize = 0;
        while s < n
            invariant
                m == self@,
                n == m.len(),
                current@.len() == n,
                marked_set(current@) == active(m, input@),
                s <= n,
                forall|a: int| 0 <= a < s && current@[a] ==> !m[a].accepting,
            decreases n - s,
        {
            if current[s] && self.states[s].is_end {
                assert(marked_set(current@).contains(s as int));
                assert(m[s as int].accepting);
                return true;
            }
            s += 1;
        }
        assert forall|a: int| active(m, input@).contains(a) && 0 <= a < m.len() implies !#[trigger] m[a].accepting by {
            assert(marked_set(current@).contains(a));
        }
        false
    }

    /// Whether the machine accepts `s`.
    pub fn matches(&self, s: &str) -> (r: bool)
        requires
            well_formed(self@),
        ensures
            r == accepts(self@, s@),
    {
        let input = chars_of(s);
        self.matches_from(input.as_slice())
    }
}

} // verus!
