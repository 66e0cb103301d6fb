//! A time optimised finite state machine.
use crate::game::tile::Letter;
use crate::util::fsm::{Fsm, FsmSequence, StateId};
use crate::util::fsm::small_fsm::SmallFsm;
use vstd::prelude::*;

verus! {

/// The target of the first transition labelled `l` in `ts`.
pub open spec fn find_target(ts: Seq<(Letter, StateId)>, l: Letter) -> Option<StateId>
    decreases ts.len(),
{
    if ts.len() == 0 {
        None
    } else if ts[0].0 == l {
        Some(ts[0].1)
    } else {
        find_target(ts.drop_first(), l)
    }
}

/// No two transitions share a label.
pub open spec fn distinct_labels(ts: Seq<(Letter, StateId)>) -> bool {
    forall|a: int, b: int| 0 <= a < b < ts.len() ==> (#[trigger] ts[a]).0 != (#[trigger] ts[b]).0
}

/// Every transition leads to one of the first `n` states.
pub open spec fn targets_below(ts: Seq<(Letter, StateId)>, n: int) -> bool {
    forall|k: int| 0 <= k < ts.len() ==> (#[trigger] ts[k]).1.0 < n
}

/// With distinct labels, the transition labelled `l` is found exactly when
/// some transition has that label, and then it is that one.
pub proof fn lemma_find_target(ts: Seq<(Letter, StateId)>, l: Letter)
    requires
        distinct_labels(ts),
    ensures
        find_target(ts, l) is Some <==> exists|k: int| 0 <= k < ts.len() && ts[k].0 == l,
        forall|k: int| 0 <= k < ts.len() && (#[trigger] ts[k]).0 == l ==> find_target(ts, l) == Some(ts[k].1),
    decreases ts.len(),
{
    if ts.len() > 0 {
        let rest = ts.drop_first();
        assert(distinct_labels(rest)) by {
            assert forall|a: int, b: int| 0 <= a < b < rest.len() implies (#[trigger] rest[a]).0 != (#[trigger] rest[b]).0 by {
                assert(rest[a] == ts[a + 1] && rest[b] == ts[b + 1]);
            }
        }
        lemma_find_target(rest, l);
        if ts[0].0 != l {
            if exists|k: int| 0 <= k < ts.len() && ts[k].0 == l {
                let k = choose|k: int| 0 <= k < ts.len() && ts[k].0 == l;
                assert(rest[k - 1] == ts[k]);
            }
            assert forall|k: int| 0 <= k < ts.len() && (#[trigger] ts[k]).0 == l implies find_target(ts, l) == Some(ts[k].1) by {
                assert(rest[k - 1] == ts[k]);
            }
        } else {
            assert forall|k: int| 0 <= k < ts.len() && (#[trigger] ts[k]).0 == l implies find_target(ts, l) == Some(ts[k].1) by {
                if k > 0 {
                    assert(ts[0].0 == ts[k].0);
                }
            }
        }
    }
}

/// Searches `ts` for the transition labelled `l`.
pub fn find_transition(ts: &Vec<(Letter, StateId)>, l: Letter) -> (r: Option<StateId>)
    ensures
        r == find_target(ts@, l),
{
    let mut i: usize = 0;
    assert(ts@.subrange(0, ts@.len() as int) =~= ts@);
    while i < ts.len()
        invariant
            i <= ts@.len(),
            find_target(ts@, l) == find_target(ts@.subrange(i as int, ts@.len() as int), l),
        decreases ts@.len() - i,
    {
        let ghost rest = ts@.subrange(i as int, ts@.len() as int);
        assert(rest.drop_first() =~= ts@.subrange(i as int + 1, ts@.len() as int));
        if ts[i].0 == l {
            return Some(ts[i].1);
        }
        i = i + 1;
    }
    None
}

/// A copy of the transitions `ts`.
pub fn copy_transitions(ts: &Vec<(Letter, StateId)>) -> (r: Vec<(Letter, StateId)>)
    ensures
        r@ == ts@,
{
    let mut r: Vec<(Letter, StateId)> = Vec::new();
    let mut i: usize = 0;
    while i < ts.len()
        invariant
            i <= ts@.len(),
            r@ == ts@.subrange(0, i as int),
        decreases ts@.len() - i,
    {
        r.push(ts[i]);
        i = i + 1;
        assert(r@ =~= ts@.subrange(0, i as int));
    }
    assert(r@ =~= ts@);
    r
}

/// A state in the [`FastFsm`]: the transitions to other states.
#[derive(Debug, Clone, PartialEq, Eq)]
pub struct State {
    pub(crate) transitions: Vec<(Letter, StateId)>,
}

/// A time optimised finite state machine.
///
/// States are laid out in a single array, with the initial (and by
/// definition non-terminal) state at index zero, followed by all other
/// non-terminal states, then all terminal states, so that no terminal flag
/// needs to be stored.
#[derive(Debug, PartialEq, Eq)]
pub struct FastFsm {
    pub(crate) states: Vec<State>,
    pub(crate) terminal_count: usize,
}

/// The total number of transitions of the first `n` states.
pub closed spec fn transitions_total(states: Seq<State>, n: int) -> int
    decreases n,
{
    if n <= 0 {
        0
    } else {
        transitions_total(states, n - 1) + states[n - 1].transitions@.len()
    }
}

impl FastFsm {
    #[verifier::type_invariant]
    spec fn inv(self) -> bool {
        &&& self.states@.len() >= 1
        &&& self.terminal_count < self.states@.len()
        &&& forall|i: int| 0 <= i < self.states@.len() ==> distinct_labels(#[trigger] self.states@[i].transitions@)
            && targets_below(self.states@[i].transitions@, self.states@.len() as int)
    }

    /// The transitions of each state, in order of state id.
    pub closed spec fn spec_states(&self) -> Seq<Seq<(Letter, StateId)>> {
        Seq::new(self.states@.len(), |i: int| self.states@[i].transitions@)
    }

    /// The number of terminal states, which come last.
    pub closed spec fn spec_terminal_count(&self) -> nat {
        self.terminal_count as nat
    }

    /// The total number of transitions.
    pub closed spec fn spec_transition_total(&self) -> int {
        transitions_total(self.states@, self.states@.len() as int)
    }

    /// How the machine steps, in terms of its states.
    pub proof fn lemma_semantics(f: &FastFsm)
        ensures
            forall|s: StateId, l: Letter| #[trigger] f.spec_step(s, l) == if s.0 < f.spec_states().len() {
                find_target(f.spec_states()[s.0 as int], l)
            } else {
                None
            },
            forall|s: StateId| #[trigger] f.spec_terminal(s) == (s.0 >= f.spec_states().len() - f.spec_terminal_count()),
            forall|s: StateId| #[trigger] f.spec_valid(s) == (s.0 < f.spec_states().len()),
            f.spec_initial() == StateId(0),
    {
    }

    /// The transitions of state `i`.
    pub(crate) fn state_transitions(&self, i: usize) -> (r: &Vec<(Letter, StateId)>)
        requires
            i < self.spec_states().len(),
        ensures
            r@ == self.spec_states()[i as int],
            distinct_labels(r@),
            targets_below(r@, self.spec_states().len() as int),
    {
        proof {
            use_type_invariant(self);
        }
        &self.states[i].transitions
    }

    /// The number of terminal states.
    pub(crate) fn terminal_states(&self) -> (r: usize)
        ensures
            r == self.spec_terminal_count(),
            r < self.spec_states().len(),
            forall|i: int| 0 <= i < self.spec_states().len() ==> distinct_labels(#[trigger] self.spec_states()[i])
                && targets_below(self.spec_states()[i], self.spec_states().len() as int),
    {
        proof {
            use_type_invariant(self);
        }
        self.terminal_count
    }

    /// Builds a machine from its states, the non-terminal ones first (the
    /// initial state among them, at index zero), then the
    /// `terminal_count` terminal ones.
    pub(crate) fn from_parts(states: Vec<State>, terminal_count: usize) -> (f: FastFsm)
        requires
            states@.len() >= 1,
            terminal_count < states@.len(),
            forall|i: int| 0 <= i < states@.len() ==> distinct_labels(#[trigger] states@[i].transitions@)
                && targets_below(states@[i].transitions@, states@.len() as int),
        ensures
            f.spec_states() == Seq::new(states@.len(), |i: int| states@[i].transitions@),
            f.spec_terminal_count() == terminal_count,
    {
        FastFsm { states, terminal_count }
    }

    /// The transitions of each state, in order of state id, and the number
    /// of terminal states: the parts that [`FastFsm::from_checked_parts`]
    /// takes back.
    pub fn to_parts(&self) -> (r: (Vec<Vec<(Letter, StateId)>>, usize))
        ensures
            r.0@.len() == self.spec_states().len(),
            forall|i: int| 0 <= i < r.0@.len() ==> (#[trigger] r.0@[i])@ == self.spec_states()[i],
            r.1 == self.spec_terminal_count(),
    {
        let n = self.states.len();
        let mut parts: Vec<Vec<(Letter, StateId)>> = Vec::new();
        let mut i: usize = 0;
        while i < n
            invariant
                i <= n,
                n == self.spec_states().len(),
                parts@.len() == i,
                forall|k: int| 0 <= k < i ==> (#[trigger] parts@[k])@ == self.spec_states()[k],
            decreases n - i,
        {
            parts.push(copy_transitions(&self.states[i].transitions));
            i = i + 1;
        }
        (parts, self.terminal_count)
    }

    /// Builds a machine from the transitions of each state (the initial
    /// state first, the `terminal_count` terminal states last), provided
    /// they make one: there is a state, fewer terminal states than states,
    /// and every state's labels are distinct and lead to states that exist.
    pub fn from_checked_parts(parts: Vec<Vec<(Letter, StateId)>>, terminal_count: usize) -> (r: Option<FastFsm>)
        ensures
            r is Some <==> (parts@.len() >= 1 && terminal_count < parts@.len() && forall|i: int|
                0 <= i < parts@.len() ==> distinct_labels((#[trigger] parts@[i])@) && targets_below(
                    parts@[i]@,
                    parts@.len() as int,
                )),
            r matches Some(f) ==> f.spec_terminal_count() == terminal_count && f.spec_states().len()
                == parts@.len() && forall|i: int| 0 <= i < parts@.len() ==> #[trigger] f.spec_states()[i]
                == parts@[i]@,
    {
        let n = parts.len();
        if n == 0 || terminal_count >= n {
            return None;
        }
        let ghost all = parts@;
        let mut states: Vec<State> = Vec::new();
        let mut i: usize = 0;
        while i < n
            invariant
                i <= n,
                n == all.len(),
                parts@ == all,
                states@.len() == i,
                forall|k: int| 0 <= k < i ==> (#[trigger] states@[k]).transitions@ == all[k]@,
                forall|k: int| 0 <= k < i ==> distinct_labels(#[trigger] all[k]@) && targets_below(
                    all[k]@,
                    n as int,
                ),
            decreases n - i,
        {
            let ts = &parts[i];
            let mut a: usize = 0;
            while a < ts.len()
                invariant
                    a <= ts@.len(),
                    i < n,
                    parts@ == all,
                    *ts == all[i as int],
                    n == all.len(),
                    forall|x: int, y: int| 0 <= x < y < a ==> (#[trigger] ts@[x]).0 != (#[trigger] ts@[y]).0,
                    forall|x: int| 0 <= x < a ==> (#[trigger] ts@[x]).1.0 < n,
                decreases ts@.len() - a,
            {
                if ts[a].1.0 >= n {
                    assert(!targets_below(all[i as int]@, n as int)) by {
                        assert(all[i as int]@[a as int].1.0 >= n);
                    }
                    return None;
                }
                let mut b: usize = 0;
                while b < a
                    invariant
                        b <= a < ts@.len(),
                        i < n,
                        parts@ == all,
                        n == all.len(),
                        *ts == all[i as int],
                        forall|x: int| 0 <= x < b ==> (#[trigger] ts@[x]).0 != ts@[a as int].0,
                    decreases a - b,
                {
                    if ts[b].0 == ts[a].0 {
                        assert(!distinct_labels(all[i as int]@)) by {
                            assert(all[i as int]@[b as int].0 == all[i as int]@[a as int].0);
                        }
                        return None;
                    }
                    b = b + 1;
                }
                a = a + 1;
            }
            states.push(State { transitions: copy_transitions(ts) });
            i = i + 1;
        }
        let f = FastFsm::from_parts(states, terminal_count);
        Some(f)
    }

    /// Builds the fast machine with the same states and transitions as
    /// `small`.
    pub fn from_small(small: SmallFsm) -> (f: FastFsm)
        ensures
            f.spec_states() == small.spec_states(),
            f.spec_terminal_count() == small.spec_terminal_count(),
    {
        let n = small.state_count();
        let tc = small.terminal_states();
        let mut states: Vec<State> = Vec::new();
        let mut i: usize = 0;
        while i < n
            invariant
                i <= n,
                n == small.spec_states().len(),
                states@.len() == i,
                forall|k: int| 0 <= k < i ==> (#[trigger] states@[k]).transitions@ == small.spec_states()[k],
            decreases n - i,
        {
            let ts = small.state_transitions(i);
            states.push(State { transitions: ts });
            i = i + 1;
        }
        let f = FastFsm { states, terminal_count: tc };
        assert(f.spec_states() =~= small.spec_states());
        f
    }

    /// Gets the number of states.
    pub fn state_count(&self) -> (r: usize)
        ensures
            r == self.spec_states().len(),
    {
        self.states.len()
    }

    /// Gets the number of transitions.
    pub fn transition_count(&self) -> (r: usize)
        requires
            self.spec_transition_total() <= usize::MAX,
        ensures
            r == self.spec_transition_total(),
    {
        let mut total: usize = 0;
        let mut i: usize = 0;
        while i < self.states.len()
            invariant
                i <= self.states@.len(),
                total == transitions_total(self.states@, i as int),
                transitions_total(self.states@, self.states@.len() as int) <= usize::MAX,
            decreases self.states@.len() - i,
        {
            proof {
                lemma_transitions_total_mono(self.states@, i as int + 1, self.states@.len() as int);
            }
            total = total + self.states[i].transitions.len();
            i = i + 1;
        }
        total
    }

    /// Traverses a sequence from `state`.
    pub fn traverse_from<S: FsmSequence>(&self, state: StateId, seq: S) -> (r: Option<StateId>)
        requires
            self.spec_valid(state),
        ensures
            r == crate::util::fsm::run(self, state, seq.spec_letters()),
    {
        crate::util::fsm::traverse_from(self, state, seq)
    }

    /// Traverses a sequence from the initial state.
    pub fn traverse<S: FsmSequence>(&self, seq: S) -> (r: Option<StateId>)
        ensures
            r == crate::util::fsm::run(self, self.spec_initial(), seq.spec_letters()),
    {
        crate::util::fsm::traverse(self, seq)
    }

    /// Checks whether a sequence is accepted: it leads from the initial
    /// state to a terminal state.
    pub fn accepts<S: FsmSequence>(&self, seq: S) -> (r: bool)
        ensures
            r == crate::util::fsm::accepts_word(self, seq.spec_letters()),
    {
        crate::util::fsm::accepts(self, seq)
    }
}

impl Clone for FastFsm {
    fn clone(&self) -> (r: FastFsm)
        ensures
            r.spec_states() == self.spec_states(),
            r.spec_terminal_count() == self.spec_terminal_count(),
    {
        proof {
            use_type_invariant(self);
        }
        let mut states: Vec<State> = Vec::new();
        let mut i: usize = 0;
        while i < self.states.len()
            invariant
                i <= self.states@.len(),
                states@.len() == i,
                forall|k: int| 0 <= k < i ==> (#[trigger] states@[k]).transitions@ == self.states@[k].transitions@,
            decreases self.states@.len() - i,
        {
            states.push(State { transitions: copy_transitions(&self.states[i].transitions) });
            i = i + 1;
        }
        let r = FastFsm { states, terminal_count: self.terminal_count };
        assert(r.spec_states() =~= self.spec_states());
        r
    }
}

impl From<SmallFsm> for FastFsm {
    fn from(small: SmallFsm) -> (f: FastFsm)
        ensures
            f.spec_states() == small.spec_states(),
            f.spec_terminal_count() == small.spec_terminal_count(),
    {
        FastFsm::from_small(small)
    }
}

impl vstd::std_specs::convert::FromSpecImpl<SmallFsm> for FastFsm {
    /// The conversion is described by [`FastFsm::from_small`].
    open spec fn obeys_from_spec() -> bool {
        false
    }

    open spec fn from_spec(small: SmallFsm) -> FastFsm {
        arbitrary()
    }
}

/// Machines with the same states, transitions and number of terminal
/// states behave the same.
pub proof fn lemma_same_machine<F: Fsm, G: Fsm>(f: &F, g: &G, w: Seq<Letter>)
    requires
        forall|s: StateId, l: Letter| #[trigger] f.spec_step(s, l) == g.spec_step(s, l),
        forall|s: StateId| #[trigger] f.spec_terminal(s) == g.spec_terminal(s),
        f.spec_initial() == g.spec_initial(),
    ensures
        crate::util::fsm::run(f, f.spec_initial(), w) == crate::util::fsm::run(g, g.spec_initial(), w),
        crate::util::fsm::accepts_word(f, w) == crate::util::fsm::accepts_word(g, w),
    decreases w.len(),
{
    if w.len() > 0 {
        lemma_same_machine(f, g, w.drop_last());
    }
}

/// Totals only grow with more states.
pub proof fn lemma_transitions_total_mono(states: Seq<State>, a: int, b: int)
    requires
        0 <= a <= b,
    ensures
        transitions_total(states, a) <= transitions_total(states, b),
    decreases b - a,
{
    if a < b {
        lemma_transitions_total_mono(states, a, b - 1);
    }
}

impl Fsm for FastFsm {
    closed spec fn spec_step(&self, s: StateId, l: Letter) -> Option<StateId> {
        if s.0 < self.states@.len() {
            find_target(self.states@[s.0 as int].transitions@, l)
        } else {
            None
        }
    }

    closed spec fn spec_terminal(&self, s: StateId) -> bool {
        s.0 >= self.states@.len() - self.terminal_count
    }

    closed spec fn spec_initial(&self) -> StateId {
        StateId(0)
    }

    closed spec fn spec_valid(&self, s: StateId) -> bool {
        s.0 < self.states@.len()
    }

    fn transitions(&self, state: StateId) -> (r: Vec<(Letter, StateId)>) {
        proof {
            use_type_invariant(self);
            let ts = self.states@[state.0 as int].transitions@;
            assert(distinct_labels(ts));
            assert forall|l: Letter| true implies (find_target(ts, l) is Some <==> exists|k: int| 0 <= k < ts.len() && ts[k].0 == l)
                && (forall|k: int| 0 <= k < ts.len() && (#[trigger] ts[k]).0 == l ==> find_target(ts, l) == Some(ts[k].1)) by {
                lemma_find_target(ts, l);
            }
        }
        copy_transitions(&self.states[state.0].transitions)
    }

    fn is_terminal(&self, state: StateId) -> (r: bool) {
        proof {
            use_type_invariant(self);
        }
        state.0 >= self.states.len() - self.terminal_count
    }

    fn initial_state(&self) -> (r: StateId) {
        proof {
            use_type_invariant(self);
        }
        StateId(0)
    }

    fn step(&self, state: StateId, l: Letter) -> (r: Option<StateId>) {
        proof {
            use_type_invariant(self);
            let ts = self.states@[state.0 as int].transitions@;
            lemma_find_target(ts, l);
        }
        find_transition(&self.states[state.0].transitions, l)
    }
}

} // verus!
