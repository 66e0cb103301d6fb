//! A finite state machine (FSM) which can be used to efficiently traverse
//! the space of available words.
pub mod builder;
pub mod fast_fsm;
pub mod small_fsm;

use crate::game::tile::Letter;
use vstd::prelude::*;
use vstd::string::StrSliceExecFns;

pub use builder::FsmBuilder;
pub use fast_fsm::FastFsm;
pub use small_fsm::SmallFsm;

verus! {

/// Used to identify a state.
#[derive(Hash, Default, Debug, PartialEq, Eq, Structural, Clone, Copy)]
pub struct StateId(pub usize);

/// The state reached from `s` by following the letters of `w`, if every
/// transition exists.
pub open spec fn run<F: Fsm>(f: &F, s: StateId, w: Seq<Letter>) -> Option<StateId>
    decreases w.len(),
{
    if w.len() == 0 {
        Some(s)
    } else {
        match run(f, s, w.drop_last()) {
            Some(t) => f.spec_step(t, w.last()),
            None => None,
        }
    }
}

/// Whether the machine accepts the word `w`: following it from the initial
/// state ends on a terminal state.
pub open spec fn accepts_word<F: Fsm>(f: &F, w: Seq<Letter>) -> bool {
    match run(f, f.spec_initial(), w) {
        Some(t) => f.spec_terminal(t),
        None => false,
    }
}

/// Operations for traversing a finite state machine whose transitions are
/// labelled by letters. Once constructed, finite state machines are
/// immutable.
pub trait Fsm: Sized {
    /// The state reached from `s` by the transition labelled `l`.
    spec fn spec_step(&self, s: StateId, l: Letter) -> Option<StateId>;

    /// Whether `s` ends an accepted sequence.
    spec fn spec_terminal(&self, s: StateId) -> bool;

    /// The initial state.
    spec fn spec_initial(&self) -> StateId;

    /// Whether `s` names a state of the machine.
    spec fn spec_valid(&self, s: StateId) -> bool;

    /// Gets the transitions from a state, as (label, target) pairs with
    /// distinct labels.
    fn transitions(&self, state: StateId) -> (r: Vec<(Letter, StateId)>)
        requires
            self.spec_valid(state),
        ensures
            forall|k: int| 0 <= k < r@.len() ==> self.spec_step(state, (#[trigger] r@[k]).0) == Some(r@[k].1)
                && self.spec_valid(r@[k].1),
            forall|l: Letter| #[trigger] self.spec_step(state, l) is Some ==> exists|k: int| 0 <= k < r@.len() && r@[k].0 == l,
            forall|a: int, b: int| 0 <= a < b < r@.len() ==> (#[trigger] r@[a]).0 != (#[trigger] r@[b]).0,
    ;

    /// Checks whether a state is terminal (ends a valid sequence).
    fn is_terminal(&self, state: StateId) -> (r: bool)
        ensures
            r == self.spec_terminal(state),
    ;

    /// Gets the initial state id.
    fn initial_state(&self) -> (r: StateId)
        ensures
            r == self.spec_initial(),
            self.spec_valid(r),
    ;

    /// Follows the transition labelled `l` from `state`.
    fn step(&self, state: StateId, l: Letter) -> (r: Option<StateId>)
        requires
            self.spec_valid(state),
        ensures
            r == self.spec_step(state, l),
            r matches Some(t) ==> self.spec_valid(t),
    ;

}

/// Traverses a sequence through the finite state machine from a given
/// initial `state`.
pub fn traverse_from<F: Fsm, S: FsmSequence>(f: &F, state: StateId, seq: S) -> (r: Option<StateId>)
    requires
        f.spec_valid(state),
    ensures
        r == run(f, state, seq.spec_letters()),
        r matches Some(t) ==> f.spec_valid(t),
{
    let letters = seq.letters();
    traverse_letters(f, state, letters.as_slice())
}

/// Traverses a slice of letters through the finite state machine from
/// a given initial `state`.
pub fn traverse_letters<F: Fsm>(f: &F, state: StateId, letters: &[Letter]) -> (r: Option<StateId>)
    requires
        f.spec_valid(state),
    ensures
        r == run(f, state, letters@),
        r matches Some(t) ==> f.spec_valid(t),
{
    let mut curr = state;
    let mut i: usize = 0;
    while i < letters.len()
        invariant
            i <= letters@.len(),
            f.spec_valid(curr),
            run(f, state, letters@.subrange(0, i as int)) == Some(curr),
        decreases letters@.len() - i,
    {
        let ghost prefix = letters@.subrange(0, i as int + 1);
        assert(prefix.drop_last() =~= letters@.subrange(0, i as int));
        match f.step(curr, letters[i]) {
            Some(t) => {
                curr = t;
            },
            None => {
                proof {
                    lemma_run_stuck(f, state, letters@, i as int);
                }
                return None;
            },
        }
        i = i + 1;
    }
    assert(letters@.subrange(0, letters@.len() as int) =~= letters@);
    Some(curr)
}

/// Traverses a sequence through the finite state machine from the
/// initial state.
pub fn traverse<F: Fsm, S: FsmSequence>(f: &F, seq: S) -> (r: Option<StateId>)
    ensures
        r == run(f, f.spec_initial(), seq.spec_letters()),
        r matches Some(t) ==> f.spec_valid(t),
{
    let init = f.initial_state();
    traverse_from(f, init, seq)
}

/// Checks whether a letter sequence is accepted by the finite state
/// machine: its path from the initial state ends on a terminal state.
pub fn accepts<F: Fsm, S: FsmSequence>(f: &F, seq: S) -> (r: bool)
    ensures
        r == accepts_word(f, seq.spec_letters()),
{
    match traverse(f, seq) {
        Some(t) => f.is_terminal(t),
        None => false,
    }
}

/// Following `a` then `b` is following `a`, then `b` from where `a` ends.
pub proof fn lemma_run_append<F: Fsm>(f: &F, s: StateId, a: Seq<Letter>, b: Seq<Letter>)
    ensures
        run(f, s, a + b) == match run(f, s, a) {
            Some(t) => run(f, t, b),
            None => None,
        },
    decreases b.len(),
{
    if b.len() == 0 {
        assert(a + b =~= a);
    } else {
        lemma_run_append(f, s, a, b.drop_last());
        assert((a + b).drop_last() =~= a + b.drop_last());
        assert((a + b).last() == b.last());
    }
}

/// Following a nonempty word means taking its first letter, then
/// following the rest.
pub proof fn lemma_run_first<F: Fsm>(f: &F, s: StateId, w: Seq<Letter>)
    requires
        w.len() > 0,
    ensures
        run(f, s, w) == match f.spec_step(s, w[0]) {
            Some(t) => run(f, t, w.drop_first()),
            None => None,
        },
    decreases w.len(),
{
    if w.len() > 1 {
        let wd = w.drop_last();
        lemma_run_first(f, s, wd);
        assert(wd.drop_first() =~= w.drop_first().drop_last());
        assert(wd[0] == w[0]);
        match f.spec_step(s, w[0]) {
            Some(t) => {
                let r = w.drop_first();
                assert(r.len() > 0);
                assert(r.last() == w.last());
                assert(run(f, s, wd) == run(f, t, r.drop_last()));
                assert(run(f, t, r) == match run(f, t, r.drop_last()) {
                    Some(u) => f.spec_step(u, r.last()),
                    None => None,
                });
            },
            None => {
                assert(run(f, s, wd) is None);
                assert(run(f, s, w) is None);
            },
        }
    } else {
        assert(w.drop_last().len() == 0);
        assert(w.drop_first().len() == 0);
        assert(w.last() == w[0]);
        assert(run(f, s, w.drop_last()) == Some(s));
        match f.spec_step(s, w[0]) {
            Some(t) => {
                assert(run(f, t, w.drop_first()) == Some(t));
            },
            None => {},
        }
    }
}

/// Once a transition is missing, every longer word fails too.
pub proof fn lemma_run_stuck<F: Fsm>(f: &F, s: StateId, w: Seq<Letter>, i: int)
    requires
        0 <= i < w.len(),
        run(f, s, w.subrange(0, i + 1)) is None,
    ensures
        run(f, s, w) is None,
    decreases w.len() - i,
{
    if i + 1 < w.len() {
        let p = w.subrange(0, i + 2);
        assert(p.drop_last() =~= w.subrange(0, i + 1));
        lemma_run_stuck(f, s, w, i + 1);
    } else {
        assert(w.subrange(0, i + 1) =~= w);
    }
}

/// The letters of `cs` up to the first character that is not a latin letter.
pub open spec fn letters_prefix(cs: Seq<char>) -> Seq<Letter>
    decreases cs.len(),
{
    if cs.len() == 0 {
        Seq::empty()
    } else {
        match Letter::spec_new(cs[0]) {
            Some(l) => seq![l] + letters_prefix(cs.drop_first()),
            None => Seq::empty(),
        }
    }
}

/// The latin letters of `cs`, skipping other characters.
pub open spec fn letters_filter(cs: Seq<char>) -> Seq<Letter>
    decreases cs.len(),
{
    if cs.len() == 0 {
        Seq::empty()
    } else {
        match Letter::spec_new(cs.last()) {
            Some(l) => letters_filter(cs.drop_last()).push(l),
            None => letters_filter(cs.drop_last()),
        }
    }
}

/// The letters of a string up to its first character that is not a latin
/// letter.
pub fn str_letters(s: &str) -> (r: Vec<Letter>)
    ensures
        r@ == letters_prefix(s@),
{
    let n = s.unicode_len();
    let mut r: Vec<Letter> = Vec::new();
    let mut i: usize = 0;
    assert(s@.subrange(0, n as int) =~= s@);
    assert(r@ + letters_prefix(s@) =~= letters_prefix(s@));
    while i < n
        invariant
            i <= n,
            n == s@.len(),
            r@ + letters_prefix(s@.subrange(i as int, n as int)) == letters_prefix(s@),
        decreases n - i,
    {
        let ghost rest = s@.subrange(i as int, n as int);
        assert(rest.drop_first() =~= s@.subrange(i as int + 1, n as int));
        match Letter::new(s.get_char(i)) {
            Some(l) => {
                r.push(l);
                assert(r@ + letters_prefix(s@.subrange(i as int + 1, n as int)) =~= letters_prefix(s@));
            },
            None => {
                assert(letters_prefix(rest) == Seq::<Letter>::empty());
                assert(r@ =~= letters_prefix(s@));
                return r;
            },
        }
        i = i + 1;
    }
    assert(r@ =~= letters_prefix(s@));
    r
}

/// The latin letters of a string, skipping other characters.
pub fn str_letters_filtered(s: &str) -> (r: Vec<Letter>)
    ensures
        r@ == letters_filter(s@),
{
    let n = s.unicode_len();
    let mut r: Vec<Letter> = Vec::new();
    let mut i: usize = 0;
    while i < n
        invariant
            i <= n,
            n == s@.len(),
            r@ == letters_filter(s@.subrange(0, i as int)),
        decreases n - i,
    {
        let ghost pre = s@.subrange(0, i as int + 1);
        assert(pre.drop_last() =~= s@.subrange(0, i as int));
        match Letter::new(s.get_char(i)) {
            Some(l) => {
                r.push(l);
            },
            None => {},
        }
        i = i + 1;
    }
    assert(s@.subrange(0, n as int) =~= s@);
    r
}

/// A sequence provided as input to a finite state machine.
pub trait FsmSequence {
    /// The letters of the sequence.
    spec fn spec_letters(&self) -> Seq<Letter>;

    /// Returns the letters of the sequence.
    fn letters(&self) -> (r: Vec<Letter>)
        ensures
            r@ == self.spec_letters(),
    ;
}

impl<'a> FsmSequence for &'a str {
    open spec fn spec_letters(&self) -> Seq<Letter> {
        letters_prefix((*self)@)
    }

    fn letters(&self) -> (r: Vec<Letter>) {
        str_letters(*self)
    }
}

impl<'a> FsmSequence for &'a String {
    open spec fn spec_letters(&self) -> Seq<Letter> {
        letters_prefix((*self)@)
    }

    fn letters(&self) -> (r: Vec<Letter>) {
        str_letters(self.as_str())
    }
}

impl<'a> FsmSequence for &'a [Letter] {
    open spec fn spec_letters(&self) -> Seq<Letter> {
        (*self)@
    }

    fn letters(&self) -> (r: Vec<Letter>) {
        let mut r: Vec<Letter> = Vec::new();
        let mut i: usize = 0;
        while i < self.len()
            invariant
                i <= self@.len(),
                r@ == self@.subrange(0, i as int),
            decreases self@.len() - i,
        {
            r.push(self[i]);
            i = i + 1;
            assert(r@ =~= self@.subrange(0, i as int));
        }
        assert(r@ =~= self@);
        r
    }
}

impl FsmSequence for Letter {
    open spec fn spec_letters(&self) -> Seq<Letter> {
        seq![*self]
    }

    fn letters(&self) -> (r: Vec<Letter>) {
        let mut r: Vec<Letter> = Vec::new();
        r.push(*self);
        assert(r@ =~= seq![*self]);
        r
    }
}

} // verus!
