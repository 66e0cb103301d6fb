//! A memory optimised finite state machine.
use crate::game::tile::Letter;
use crate::util::fsm::fast_fsm::{distinct_labels, find_target, lemma_find_target, targets_below, FastFsm};
use crate::util::fsm::{Fsm, FsmSequence, StateId};
use vstd::prelude::*;

verus! {

/// Used to identify a state in a [`SmallFsm`]. Uses fewer bits than
/// [`StateId`] so that it takes up less storage space.
#[derive(Hash, Default, Debug, PartialEq, Eq, Structural, Clone, Copy)]
pub struct SmallStateId(pub(crate) u32);

/// An index into the transitions array in [`SmallFsm`].
#[derive(Clone, Copy, Debug, PartialEq, Eq, Structural)]
pub struct TransitionStartId(pub(crate) u32);

/// A state in the [`SmallFsm`]: the index of its first transition.
#[derive(Clone, Copy, PartialEq, Eq, Structural, Debug)]
pub struct State(pub(crate) TransitionStartId);

/// A transition, mapping from one state to another.
#[derive(Clone, Copy, Debug, PartialEq, Eq, Structural)]
pub struct Transition(pub(crate) Letter, pub(crate) SmallStateId);

/// A memory optimised finite state machine.
///
/// States hold the index of their first transition in a single array of
/// transitions, so the transitions of state `i` run up to those of state
/// `i + 1`. States are ordered with the terminal ones last.
#[derive(Debug, PartialEq, Eq)]
pub struct SmallFsm {
    pub(crate) states: Vec<State>,
    pub(crate) transitions: Vec<Transition>,
    pub(crate) terminal_count: usize,
}

/// The first transition index of each state, then the number of
/// transitions.
pub closed spec fn limit(starts: Seq<State>, total: int, i: int) -> int {
    if i < starts.len() {
        starts[i].0.0 as int
    } else {
        total
    }
}

/// The transitions `start..end` as (label, target) pairs.
pub closed spec fn slice_pairs(ts: Seq<Transition>, start: int, end: int) -> Seq<(Letter, StateId)> {
    Seq::new((end - start) as nat, |k: int| (ts[start + k].0, StateId(ts[start + k].1.0 as usize)))
}

impl SmallFsm {
    #[verifier::type_invariant]
    spec fn inv(self) -> bool {
        &&& self.states@.len() >= 1
        &&& self.states@.len() <= u32::MAX
        &&& self.terminal_count < self.states@.len()
        &&& limit(self.states@, self.transitions@.len() as int, 0) == 0
        &&& forall|i: int, j: int| 0 <= i <= j <= self.states@.len() ==> limit(self.states@, self.transitions@.len() as int, i)
            <= limit(self.states@, self.transitions@.len() as int, j)
        &&& forall|i: int| 0 <= i < self.states@.len() ==> #[trigger] limit(self.states@, self.transitions@.len() as int, i) <= self.transitions@.len()
        &&& forall|i: int| 0 <= i < self.states@.len() ==> distinct_labels(#[trigger] self.spec_slice(i))
        &&& forall|k: int| 0 <= k < self.transitions@.len() ==> (#[trigger] self.transitions@[k]).1.0 < self.states@.len()
    }

    /// The transitions of state `i` as (label, target) pairs.
    pub closed spec fn spec_slice(&self, i: int) -> Seq<(Letter, StateId)> {
        slice_pairs(
            self.transitions@,
            limit(self.states@, self.transitions@.len() as int, i),
            limit(self.states@, self.transitions@.len() as int, i + 1),
        )
    }

    /// Where the transitions of state `i` start (the number of
    /// transitions for the state after the last).
    pub closed spec fn spec_limit(&self, i: int) -> int {
        limit(self.states@, self.transitions@.len() as int, i)
    }

    /// The transitions of each state, in order of state id.
    pub closed spec fn spec_states(&self) -> Seq<Seq<(Letter, StateId)>> {
        Seq::new(self.states@.len(), |i: int| self.spec_slice(i))
    }

    /// The number of terminal states, which come last.
    pub closed spec fn spec_terminal_count(&self) -> nat {
        self.terminal_count as nat
    }

    /// The number of transitions.
    pub closed spec fn spec_transition_count(&self) -> nat {
        self.transitions@.len()
    }

    /// Gets the start and end of the transitions of a state. The states'
    /// ranges follow one another in state order and cover the whole table:
    /// the first starts at zero, each ends where the next starts, and the
    /// last ends at the number of transitions.
    pub fn transition_limits(&self, id: StateId) -> (r: (usize, usize))
        requires
            id.0 < self.spec_states().len(),
        ensures
            r.0 <= r.1 <= self.spec_transition_count(),
            r.0 == self.spec_limit(id.0 as int),
            r.1 == self.spec_limit(id.0 as int + 1),
            id.0 == 0 ==> r.0 == 0,
            id.0 + 1 == self.spec_states().len() ==> r.1 == self.spec_transition_count(),
            r.1 - r.0 == self.spec_states()[id.0 as int].len(),
    {
        proof {
            use_type_invariant(self);
            assert(limit(self.states@, self.transitions@.len() as int, id.0 as int) <= limit(self.states@, self.transitions@.len() as int, id.0 as int + 1));
        }
        let start = self.states[id.0].0.0 as usize;
        let end = if id.0 + 1 < self.states.len() {
            self.states[id.0 + 1].0.0 as usize
        } else {
            self.transitions.len()
        };
        (start, end)
    }

    /// The transitions of the first `j` states, laid end to end, are as
    /// many as the limits of those states span.
    proof fn lemma_flatten_count(&self, j: int)
        requires
            0 <= j <= self.states@.len(),
            limit(self.states@, self.transitions@.len() as int, 0) == 0,
            forall|a: int, b: int| 0 <= a <= b <= self.states@.len() ==> limit(self.states@, self.transitions@.len() as int, a)
                <= limit(self.states@, self.transitions@.len() as int, b),
        ensures
            flatten(self.spec_states(), j).len() == self.spec_limit(j),
        decreases j,
    {
        if j > 0 {
            self.lemma_flatten_count(j - 1);
            assert(self.spec_states()[j - 1] == self.spec_slice(j - 1));
            assert(self.spec_limit(j - 1) <= self.spec_limit(j));
        }
    }

    /// Gets the number of transitions: as many as all the states have,
    /// together.
    pub fn transition_count(&self) -> (r: usize)
        ensures
            r == self.spec_transition_count(),
            r == flatten(self.spec_states(), self.spec_states().len() as int).len(),
    {
        proof {
            use_type_invariant(self);
            self.lemma_flatten_count(self.states@.len() as int);
        }
        self.transitions.len()
    }

    /// Gets the number of states.
    pub fn state_count(&self) -> (r: usize)
        ensures
            r == self.spec_states().len(),
    {
        self.states.len()
    }

    /// Traverses a sequence from `state`.
    pub fn traverse_from<S: FsmSequence>(&self, state: StateId, seq: S) -> (r: Option<StateId>)
        requires
            self.spec_valid(state),
        ensures
            r == crate::util::fsm::run(self, state, seq.spec_letters()),
    {
        crate::util::fsm::traverse_from(self, state, seq)
    }

    /// Traverses a sequence from the initial state.
    pub fn traverse<S: FsmSequence>(&self, seq: S) -> (r: Option<StateId>)
        ensures
            r == crate::util::fsm::run(self, self.spec_initial(), seq.spec_letters()),
    {
        crate::util::fsm::traverse(self, seq)
    }

    /// Checks whether a sequence is accepted: it leads from the initial
    /// state to a terminal state.
    pub fn accepts<S: FsmSequence>(&self, seq: S) -> (r: bool)
        ensures
            r == crate::util::fsm::accepts_word(self, seq.spec_letters()),
    {
        crate::util::fsm::accepts(self, seq)
    }

    /// How the machine steps, in terms of its states.
    pub proof fn lemma_semantics(f: &SmallFsm)
        ensures
            forall|s: StateId, l: Letter| #[trigger] f.spec_step(s, l) == if s.0 < f.spec_states().len() {
                find_target(f.spec_states()[s.0 as int], l)
            } else {
                None
            },
            forall|s: StateId| #[trigger] f.spec_terminal(s) == (s.0 >= f.spec_states().len() - f.spec_terminal_count()),
            forall|s: StateId| #[trigger] f.spec_valid(s) == (s.0 < f.spec_states().len()),
            f.spec_initial() == StateId(0),
    {
    }

    /// The well-formedness facts of a machine value.
    proof fn lemma_wf(&self)
        requires
            self.inv(),
        ensures
            self.spec_states().len() >= 1,
            self.spec_terminal_count() < self.spec_states().len(),
            forall|i: int| 0 <= i < self.spec_states().len() ==> distinct_labels(#[trigger] self.spec_states()[i])
                && targets_below(self.spec_states()[i], self.spec_states().len() as int),
    {
        assert forall|i: int| 0 <= i < self.spec_states().len() implies distinct_labels(#[trigger] self.spec_states()[i])
            && targets_below(self.spec_states()[i], self.spec_states().len() as int) by {
            let ts = self.spec_slice(i);
            let start = limit(self.states@, self.transitions@.len() as int, i);
            let end = limit(self.states@, self.transitions@.len() as int, i + 1);
            assert(start <= end <= self.transitions@.len());
            assert forall|k: int| 0 <= k < ts.len() implies (#[trigger] ts[k]).1.0 < self.states@.len() by {
                assert(self.transitions@[start + k].1.0 < self.states@.len());
            }
        }
    }

    /// The transitions of state `i`, as (label, target) pairs.
    pub(crate) fn state_transitions(&self, i: usize) -> (r: Vec<(Letter, StateId)>)
        requires
            i < self.spec_states().len(),
        ensures
            r@ == self.spec_states()[i as int],
    {
        self.slice_of(i)
    }

    /// The number of terminal states.
    pub(crate) fn terminal_states(&self) -> (r: usize)
        ensures
            r == self.spec_terminal_count(),
            r < self.spec_states().len(),
            forall|i: int| 0 <= i < self.spec_states().len() ==> distinct_labels(#[trigger] self.spec_states()[i])
                && targets_below(self.spec_states()[i], self.spec_states().len() as int),
    {
        proof {
            use_type_invariant(self);
            self.lemma_wf();
        }
        self.terminal_count
    }

    /// The transitions of a state as (label, target) pairs.
    fn slice_of(&self, id: usize) -> (r: Vec<(Letter, StateId)>)
        requires
            id < self.spec_states().len(),
        ensures
            r@ == self.spec_slice(id as int),
    {
        proof {
            use_type_invariant(self);
        }
        let (start, end) = self.transition_limits(StateId(id));
        let mut r: Vec<(Letter, StateId)> = Vec::new();
        let mut k: usize = start;
        while k < end
            invariant
                start <= k <= end <= self.transitions@.len(),
                start == limit(self.states@, self.transitions@.len() as int, id as int),
                end == limit(self.states@, self.transitions@.len() as int, id as int + 1),
                r@ == slice_pairs(self.transitions@, start as int, k as int),
            decreases end - k,
        {
            let Transition(l, SmallStateId(t)) = self.transitions[k];
            r.push((l, StateId(t as usize)));
            k = k + 1;
            assert(r@ =~= slice_pairs(self.transitions@, start as int, k as int));
        }
        r
    }
}

impl Fsm for SmallFsm {
    closed spec fn spec_step(&self, s: StateId, l: Letter) -> Option<StateId> {
        if s.0 < self.states@.len() {
            find_target(self.spec_slice(s.0 as int), l)
        } else {
            None
        }
    }

    closed spec fn spec_terminal(&self, s: StateId) -> bool {
        s.0 >= self.states@.len() - self.terminal_count
    }

    closed spec fn spec_initial(&self) -> StateId {
        StateId(0)
    }

    closed spec fn spec_valid(&self, s: StateId) -> bool {
        s.0 < self.states@.len()
    }

    fn transitions(&self, state: StateId) -> (r: Vec<(Letter, StateId)>) {
        proof {
            use_type_invariant(self);
            let ts = self.spec_slice(state.0 as int);
            assert(distinct_labels(ts));
            assert forall|l: Letter| true implies (find_target(ts, l) is Some <==> exists|k: int| 0 <= k < ts.len() && ts[k].0 == l)
                && (forall|k: int| 0 <= k < ts.len() && (#[trigger] ts[k]).0 == l ==> find_target(ts, l) == Some(ts[k].1)) by {
                lemma_find_target(ts, l);
            }
            let start = limit(self.states@, self.transitions@.len() as int, state.0 as int);
            let end = limit(self.states@, self.transitions@.len() as int, state.0 as int + 1);
            assert(start <= end <= self.transitions@.len());
            assert forall|k: int| 0 <= k < ts.len() implies (#[trigger] ts[k]).1.0 < self.states@.len() by {
                assert(self.transitions@[start + k].1.0 < self.states@.len());
            }
        }
        self.slice_of(state.0)
    }

    fn is_terminal(&self, state: StateId) -> (r: bool) {
        proof {
            use_type_invariant(self);
        }
        state.0 >= self.states.len() - self.terminal_count
    }

    fn initial_state(&self) -> (r: StateId) {
        proof {
            use_type_invariant(self);
        }
        StateId(0)
    }

    fn step(&self, state: StateId, l: Letter) -> (r: Option<StateId>) {
        proof {
            use_type_invariant(self);
            let ts = self.spec_slice(state.0 as int);
            lemma_find_target(ts, l);
            let start = limit(self.states@, self.transitions@.len() as int, state.0 as int);
            let end = limit(self.states@, self.transitions@.len() as int, state.0 as int + 1);
            assert(start <= end <= self.transitions@.len());
            assert forall|k: int| 0 <= k < ts.len() implies (#[trigger] ts[k]).1.0 < self.states@.len() by {
                assert(self.transitions@[start + k].1.0 < self.states@.len());
            }
        }
        let ts = self.slice_of(state.0);
        crate::util::fsm::fast_fsm::find_transition(&ts, l)
    }
}


/// The transitions of the first `n` states, one state after another.
pub open spec fn flatten(ss: Seq<Seq<(Letter, StateId)>>, n: int) -> Seq<(Letter, StateId)>
    decreases n,
{
    if n <= 0 {
        Seq::empty()
    } else {
        flatten(ss, n - 1) + ss[n - 1]
    }
}

/// The transitions as (label, target) pairs.
pub closed spec fn as_pairs(ts: Seq<Transition>) -> Seq<(Letter, StateId)> {
    Seq::new(ts.len(), |k: int| (ts[k].0, StateId(ts[k].1.0 as usize)))
}

/// Flattening fewer states gives a prefix.
pub proof fn lemma_flatten_prefix(ss: Seq<Seq<(Letter, StateId)>>, m: int, n: int)
    requires
        0 <= m <= n <= ss.len(),
    ensures
        flatten(ss, m).len() <= flatten(ss, n).len(),
        flatten(ss, n).subrange(0, flatten(ss, m).len() as int) == flatten(ss, m),
    decreases n - m,
{
    if m < n {
        lemma_flatten_prefix(ss, m, n - 1);
        let a = flatten(ss, n - 1);
        assert(flatten(ss, n) == a + ss[n - 1]);
        assert(flatten(ss, n).subrange(0, a.len() as int) =~= a);
        assert(flatten(ss, n).subrange(0, flatten(ss, m).len() as int) =~= a.subrange(0, flatten(ss, m).len() as int));
    } else {
        assert(flatten(ss, n).subrange(0, flatten(ss, n).len() as int) =~= flatten(ss, n));
    }
}

/// State `j`'s transitions sit between the flattened lengths before and
/// after it.
pub proof fn lemma_flatten_slice(ss: Seq<Seq<(Letter, StateId)>>, j: int, n: int)
    requires
        0 <= j < n <= ss.len(),
    ensures
        flatten(ss, n).subrange(flatten(ss, j).len() as int, flatten(ss, j + 1).len() as int) == ss[j],
{
    lemma_flatten_prefix(ss, j + 1, n);
    let f = flatten(ss, n);
    let a = flatten(ss, j);
    let b = flatten(ss, j + 1);
    assert(b == a + ss[j]);
    assert(f.subrange(a.len() as int, b.len() as int) =~= b.subrange(a.len() as int, b.len() as int));
    assert(b.subrange(a.len() as int, b.len() as int) =~= ss[j]);
}

/// Flattened transitions keep every target below `n` when each state does.
pub proof fn lemma_flatten_targets(ss: Seq<Seq<(Letter, StateId)>>, m: int, n: int)
    requires
        0 <= m <= ss.len(),
        forall|j: int| 0 <= j < ss.len() ==> targets_below(#[trigger] ss[j], n),
    ensures
        targets_below(flatten(ss, m), n),
    decreases m,
{
    if m > 0 {
        lemma_flatten_targets(ss, m - 1, n);
        let a = flatten(ss, m - 1);
        let f = flatten(ss, m);
        assert forall|k: int| 0 <= k < f.len() implies (#[trigger] f[k]).1.0 < n by {
            if k < a.len() {
                assert(f[k] == a[k]);
            } else {
                assert(f[k] == ss[m - 1][k - a.len()]);
            }
        }
    }
}

impl SmallFsm {
    /// Builds the small machine with the same states and transitions as
    /// `fast`, which must have fewer than `u32::MAX` states and transitions.
    pub fn from_fast(fast: FastFsm) -> (r: SmallFsm)
        requires
            fast.spec_states().len() < u32::MAX,
            flatten(fast.spec_states(), fast.spec_states().len() as int).len() < u32::MAX,
        ensures
            r.spec_states() == fast.spec_states(),
            r.spec_terminal_count() == fast.spec_terminal_count(),
    {
        let ghost ss = fast.spec_states();
        let n = fast.state_count();
        let tc = fast.terminal_states();
        let mut states: Vec<State> = Vec::new();
        let mut transitions: Vec<Transition> = Vec::new();
        let mut tid: u32 = 0;
        let mut i: usize = 0;
        proof {
            lemma_flatten_prefix(ss, 0, n as int);
        }
        while i < n
            invariant
                i <= n,
                n == ss.len(),
                n < u32::MAX,
                ss == fast.spec_states(),
                flatten(ss, n as int).len() < u32::MAX,
                states@.len() == i,
                forall|j: int| 0 <= j < i ==> (#[trigger] states@[j]).0.0 == flatten(ss, j).len(),
                as_pairs(transitions@) == flatten(ss, i as int),
                tid == transitions@.len(),
            decreases n - i,
        {
            proof {
                lemma_flatten_prefix(ss, i as int + 1, n as int);
            }
            states.push(State(TransitionStartId(tid)));
            let ts = fast.state_transitions(i);
            let mut k: usize = 0;
            while k < ts.len()
                invariant
                    k <= ts@.len(),
                    ts@ == ss[i as int],
                    i < n,
                    n == ss.len(),
                    n < u32::MAX,
                    flatten(ss, i as int + 1).len() < u32::MAX,
                    flatten(ss, i as int + 1) == flatten(ss, i as int) + ss[i as int],
                    as_pairs(transitions@) == flatten(ss, i as int) + ts@.subrange(0, k as int),
                    tid == transitions@.len(),
                    targets_below(ts@, n as int),
                decreases ts@.len() - k,
            {
                let (l, t) = ts[k];
                assert(t.0 < n);
                let ghost before = transitions@;
                transitions.push(Transition(l, SmallStateId(t.0 as u32)));
                assert(as_pairs(before).len() == before.len());
                assert(flatten(ss, i as int).len() + k < flatten(ss, i as int + 1).len());
                tid = tid + 1;
                k = k + 1;
                assert(ts@.subrange(0, k as int) =~= ts@.subrange(0, k as int - 1).push(ts@[k as int - 1]));
                assert(as_pairs(transitions@) =~= as_pairs(before).push((l, t)));
                assert(as_pairs(transitions@) =~= flatten(ss, i as int) + ts@.subrange(0, k as int));
            }
            assert(ts@.subrange(0, k as int) =~= ts@);
            i = i + 1;
        }
        proof {
            let total = transitions@.len() as int;
            assert forall|j: int| 0 <= j <= n implies #[trigger] limit(states@, total, j) == flatten(ss, j).len() by {
            }
            assert(limit(states@, total, 0) == 0);
            assert forall|a: int, b: int| 0 <= a <= b <= n implies limit(states@, total, a) <= limit(states@, total, b) by {
                lemma_flatten_prefix(ss, a, b);
            }
            assert forall|j: int| 0 <= j < n implies #[trigger] limit(states@, total, j) <= total by {
                lemma_flatten_prefix(ss, j, n as int);
            }
            assert forall|j: int| 0 <= j < n implies #[trigger] slice_pairs(transitions@, limit(states@, total, j), limit(states@, total, j + 1)) == ss[j] by {
                lemma_flatten_slice(ss, j, n as int);
                lemma_flatten_prefix(ss, j + 1, n as int);
                lemma_flatten_prefix(ss, j, j + 1);
                assert(slice_pairs(transitions@, limit(states@, total, j), limit(states@, total, j + 1)) =~= as_pairs(transitions@).subrange(flatten(ss, j).len() as int, flatten(ss, j + 1).len() as int));
            }
            assert forall|j: int| 0 <= j < ss.len() implies targets_below(#[trigger] ss[j], n as int) by {
                assert(ss[j] == fast.spec_states()[j]);
            }
            lemma_flatten_targets(ss, n as int, n as int);
            assert forall|k: int| 0 <= k < transitions@.len() implies (#[trigger] transitions@[k]).1.0 < n by {
                assert(as_pairs(transitions@)[k].1.0 < n);
            }
        }
        let r = SmallFsm { states, transitions, terminal_count: tc };
        proof {
            assert forall|j: int| 0 <= j < n implies #[trigger] r.spec_slice(j) == ss[j] by {
            }
            assert(r.spec_states() =~= ss);
        }
        r
    }
}

impl SmallFsm {
    /// Builds the small machine with the same states and transitions as
    /// `fast`, or gives nothing when `fast` has `u32::MAX` states or
    /// transitions or more, which the small layout cannot number.
    pub fn try_from_fast(fast: FastFsm) -> (r: Option<SmallFsm>)
        ensures
            r is Some <==> fast.spec_states().len() < u32::MAX
                && flatten(fast.spec_states(), fast.spec_states().len() as int).len() < u32::MAX,
            r matches Some(small) ==> small.spec_states() == fast.spec_states()
                && small.spec_terminal_count() == fast.spec_terminal_count(),
    {
        let ghost ss = fast.spec_states();
        let n = fast.state_count();
        if n >= 0xffff_ffff {
            return None;
        }
        let mut total: usize = 0;
        let mut i: usize = 0;
        while i < n
            invariant
                i <= n,
                n == ss.len(),
                ss == fast.spec_states(),
                total == flatten(ss, i as int).len(),
                total < u32::MAX,
            decreases n - i,
        {
            let len = fast.state_transitions(i).len();
            if len >= 0xffff_ffff - total {
                proof {
                    lemma_flatten_prefix(ss, i as int + 1, n as int);
                }
                return None;
            }
            total = total + len;
            i = i + 1;
        }
        Some(SmallFsm::from_fast(fast))
    }
}

impl Clone for SmallFsm {
    fn clone(&self) -> (r: SmallFsm)
        ensures
            r.spec_states() == self.spec_states(),
            r.spec_terminal_count() == self.spec_terminal_count(),
    {
        proof {
            use_type_invariant(self);
        }
        let mut states: Vec<State> = Vec::new();
        let mut i: usize = 0;
        while i < self.states.len()
            invariant
                i <= self.states@.len(),
                states@ == self.states@.subrange(0, i as int),
            decreases self.states@.len() - i,
        {
            states.push(self.states[i]);
            i = i + 1;
            proof {
                assert(states@ =~= self.states@.subrange(0, i as int));
            }
        }
        let mut transitions: Vec<Transition> = Vec::new();
        let mut j: usize = 0;
        while j < self.transitions.len()
            invariant
                j <= self.transitions@.len(),
                transitions@ == self.transitions@.subrange(0, j as int),
            decreases self.transitions@.len() - j,
        {
            transitions.push(self.transitions[j]);
            j = j + 1;
            proof {
                assert(transitions@ =~= self.transitions@.subrange(0, j as int));
            }
        }
        proof {
            use_type_invariant(self);
            assert(states@ =~= self.states@);
            assert(transitions@ =~= self.transitions@);
            assert forall|i: int| 0 <= i < states@.len() implies distinct_labels(
                #[trigger] slice_pairs(
                    transitions@,
                    limit(states@, transitions@.len() as int, i),
                    limit(states@, transitions@.len() as int, i + 1),
                ),
            ) by {
                assert(distinct_labels(self.spec_slice(i)));
            }
        }
        SmallFsm { states, transitions, terminal_count: self.terminal_count }
    }
}

} // verus!
