//! Construction of finite state machines from words inserted in
//! alphabetical order, merging identical suffixes as they are completed.
use crate::game::tile::Letter;
use crate::util::fsm::fast_fsm::{distinct_labels, find_target, lemma_find_target, targets_below, FastFsm, State as FastState};
use crate::util::fsm::{accepts_word, lemma_run_append, lemma_run_first, run, Fsm};
use crate::util::fsm::small_fsm::SmallFsm;
use crate::util::fsm::{FsmSequence, StateId};
use vstd::prelude::*;

verus! {

/// Represents a state in a finite state machine under construction.
/// `is_terminal` determines whether it is an acceptance state.
#[derive(Debug)]
pub struct State {
    pub(crate) is_terminal: bool,
    pub(crate) transitions: Vec<(Letter, StateId)>,
}

/// The largest label among `ts`, if any.
pub open spec fn max_label(ts: Seq<(Letter, StateId)>) -> Option<int>
    decreases ts.len(),
{
    if ts.len() == 0 {
        None
    } else {
        let rest = max_label(ts.drop_last());
        let l = ts.last().0.index() as int;
        match rest {
            Some(m) => if m >= l { Some(m) } else { Some(l) },
            None => Some(l),
        }
    }
}

impl State {
    /// The transitions of the state.
    pub closed spec fn spec_transitions(&self) -> Seq<(Letter, StateId)> {
        self.transitions@
    }

    /// Whether the state is terminal.
    pub closed spec fn spec_terminal(&self) -> bool {
        self.is_terminal
    }

    /// Gets the transition label with greatest value, which is the label
    /// that was added most recently, since insertion occurs in alphabetical
    /// order.
    pub fn last_transition(&self) -> (r: Option<Letter>)
        ensures
            r is None <==> self.spec_transitions().len() == 0,
            r matches Some(l) ==> Some(l.index() as int) == max_label(self.spec_transitions())
                && exists|k: int| 0 <= k < self.spec_transitions().len() && self.spec_transitions()[k].0 == l,
    {
        let mut best: Option<Letter> = None;
        let mut i: usize = 0;
        while i < self.transitions.len()
            invariant
                i <= self.transitions@.len(),
                best is None <==> i == 0,
                best matches Some(l) ==> Some(l.index() as int) == max_label(self.transitions@.subrange(0, i as int))
                    && exists|k: int| 0 <= k < i && self.transitions@[k].0 == l,
            decreases self.transitions@.len() - i,
        {
            let l = self.transitions[i].0;
            let ghost pre = self.transitions@.subrange(0, i as int + 1);
            assert(pre.drop_last() =~= self.transitions@.subrange(0, i as int));
            match best {
                None => {
                    best = Some(l);
                },
                Some(b) => {
                    if l.to_index() > b.to_index() {
                        best = Some(l);
                    }
                },
            }
            i = i + 1;
        }
        assert(self.transitions@.subrange(0, i as int) =~= self.transitions@);
        best
    }
}

/// Used to construct a finite state machine. States are kept in an
/// arena indexed by their ids; states merged away are marked deleted.
#[derive(Debug)]
pub struct FsmBuilder {
    states: Vec<State>,
    deleted: Vec<bool>,
    previous_seq: Vec<Letter>,
    register: Vec<StateId>,
}

/// The target of the transition labelled `l` in `ts`, if any, as an
/// executable search.
fn find_in(ts: &Vec<(Letter, StateId)>, l: Letter) -> (r: Option<usize>)
    ensures
        r matches Some(k) ==> k < ts@.len() && ts@[k as int].0 == l,
        r is None ==> forall|k: int| 0 <= k < ts@.len() ==> (#[trigger] ts@[k]).0 != l,
{
    let mut i: usize = 0;
    while i < ts.len()
        invariant
            i <= ts@.len(),
            forall|k: int| 0 <= k < i ==> (#[trigger] ts@[k]).0 != l,
        decreases ts@.len() - i,
    {
        if ts[i].0 == l {
            return Some(i);
        }
        i = i + 1;
    }
    None
}

/// Whether the word `w` leads from state `s` of the graph `g` to a
/// terminal state.
pub closed spec fn graph_accepts(g: Seq<State>, s: int, w: Seq<Letter>) -> bool
    decreases w.len(),
{
    if !(0 <= s < g.len()) {
        false
    } else if w.len() == 0 {
        g[s].is_terminal
    } else {
        match find_target(g[s].transitions@, w[0]) {
            Some(t) => graph_accepts(g, t.0 as int, w.drop_first()),
            None => false,
        }
    }
}

/// States `a` and `b` of `g` accept the same words.
pub open spec fn lang_eq(g: Seq<State>, a: int, b: int) -> bool {
    forall|w: Seq<Letter>| #[trigger] graph_accepts(g, a, w) == graph_accepts(g, b, w)
}

/// The transition `t` has a counterpart among `ts` with the same label,
/// leading to a state that accepts the same words.
pub open spec fn matched(g: Seq<State>, ts: Seq<(Letter, StateId)>, t: (Letter, StateId)) -> bool {
    match find_target(ts, t.0) {
        Some(u) => lang_eq(g, t.1.0 as int, u.0 as int),
        None => false,
    }
}

/// States `a` and `b` of `g` both lack a transition labelled `l`, or both
/// have one, leading to states that accept the same words.
pub closed spec fn same_child(g: Seq<State>, a: int, b: int, l: Letter) -> bool {
    match (find_target(g[a].transitions@, l), find_target(g[b].transitions@, l)) {
        (Some(x), Some(y)) => lang_eq(g, x.0 as int, y.0 as int),
        (None, None) => true,
        _ => false,
    }
}

/// States `a` and `b` of `g` are identical to depth `budget`: both are
/// terminal or both are not, and their children are identical.
pub closed spec fn same_state(g: Seq<State>, a: int, b: int, budget: nat) -> bool
    decreases budget, 1nat,
{
    g[a].is_terminal == g[b].is_terminal && same_children(g, a, b, budget)
}

/// The children of states `a` and `b` of `g` are identical to depth
/// `budget`: with no depth left, neither state has any; otherwise both
/// have as many transitions, with the same labels, each label of `a`
/// leading to a state identical, to one level less, to where it leads
/// from `b`.
pub closed spec fn same_children(g: Seq<State>, a: int, b: int, budget: nat) -> bool
    decreases budget, 0nat,
{
    let ta = g[a].transitions@;
    let tb = g[b].transitions@;
    if budget == 0 {
        ta.len() == 0 && tb.len() == 0
    } else {
        &&& ta.len() == tb.len()
        &&& forall|k: int|
            0 <= k < ta.len() ==> match find_target(tb, (#[trigger] ta[k]).0) {
                Some(u) => same_state(g, ta[k].1.0 as int, u.0 as int, (budget - 1) as nat),
                None => false,
            }
        &&& forall|k: int| 0 <= k < tb.len() ==> find_target(ta, (#[trigger] tb[k]).0) is Some
    }
}

/// Retargeting the transition at `k` keeps labels distinct and changes
/// only where its label leads.
proof fn lemma_retarget(ts: Seq<(Letter, StateId)>, k: int, l: Letter, t: StateId)
    requires
        distinct_labels(ts),
        0 <= k < ts.len(),
        ts[k].0 == l,
    ensures
        distinct_labels(ts.update(k, (l, t))),
        find_target(ts.update(k, (l, t)), l) == Some(t),
        forall|l2: Letter| l2 != l ==> #[trigger] find_target(ts.update(k, (l, t)), l2) == find_target(ts, l2),
{
    let ts2 = ts.update(k, (l, t));
    assert(distinct_labels(ts2)) by {
        assert forall|a: int, b: int| 0 <= a < b < ts2.len() implies (#[trigger] ts2[a]).0 != (#[trigger] ts2[b]).0 by {
            assert(ts2[a].0 == ts[a].0 && ts2[b].0 == ts[b].0);
        }
    }
    lemma_find_target(ts2, l);
    assert(ts2[k].0 == l);
    assert forall|l2: Letter| l2 != l implies #[trigger] find_target(ts2, l2) == find_target(ts, l2) by {
        lemma_find_target(ts, l2);
        lemma_find_target(ts2, l2);
        if find_target(ts, l2) is Some {
            let j = choose|j: int| 0 <= j < ts.len() && ts[j].0 == l2;
            assert(ts2[j] == ts[j]);
        }
        if find_target(ts2, l2) is Some {
            let j = choose|j: int| 0 <= j < ts2.len() && ts2[j].0 == l2;
            assert(ts2[j] == ts[j]);
        }
    }
}

/// Redirecting the transition labelled `l` of state `p` from `c` to a
/// state `m` that accepts the same words changes what no state accepts.
proof fn lemma_redirect(g: Seq<State>, g2: Seq<State>, p: int, l: Letter, c: usize, m: usize)
    requires
        0 <= p < g.len(),
        g2.len() == g.len(),
        forall|i: int| 0 <= i < g.len() && i != p ==> #[trigger] g2[i] == g[i],
        g2[p].is_terminal == g[p].is_terminal,
        forall|l2: Letter| l2 != l ==> #[trigger] find_target(g2[p].transitions@, l2) == find_target(g[p].transitions@, l2),
        find_target(g[p].transitions@, l) == Some(StateId(c)),
        find_target(g2[p].transitions@, l) == Some(StateId(m)),
        lang_eq(g, c as int, m as int),
    ensures
        forall|s: int, w: Seq<Letter>| #[trigger] graph_accepts(g2, s, w) == graph_accepts(g, s, w),
{
    assert forall|s: int, w: Seq<Letter>| #[trigger] graph_accepts(g2, s, w) == graph_accepts(g, s, w) by {
        lemma_redirect_word(g, g2, p, l, c, m, w);
    }
}

proof fn lemma_redirect_word(g: Seq<State>, g2: Seq<State>, p: int, l: Letter, c: usize, m: usize, w: Seq<Letter>)
    requires
        0 <= p < g.len(),
        g2.len() == g.len(),
        forall|i: int| 0 <= i < g.len() && i != p ==> #[trigger] g2[i] == g[i],
        g2[p].is_terminal == g[p].is_terminal,
        forall|l2: Letter| l2 != l ==> #[trigger] find_target(g2[p].transitions@, l2) == find_target(g[p].transitions@, l2),
        find_target(g[p].transitions@, l) == Some(StateId(c)),
        find_target(g2[p].transitions@, l) == Some(StateId(m)),
        lang_eq(g, c as int, m as int),
    ensures
        forall|s: int| #[trigger] graph_accepts(g2, s, w) == graph_accepts(g, s, w),
    decreases w.len(),
{
    if w.len() > 0 {
        lemma_redirect_word(g, g2, p, l, c, m, w.drop_first());
        assert forall|s: int| #[trigger] graph_accepts(g2, s, w) == graph_accepts(g, s, w) by {
            if 0 <= s < g.len() {
                let rest = w.drop_first();
                if s == p && w[0] == l {
                    assert(graph_accepts(g, c as int, rest) == graph_accepts(g, m as int, rest));
                    assert(graph_accepts(g2, m as int, rest) == graph_accepts(g, m as int, rest));
                    assert(graph_accepts(g2, s, w) == graph_accepts(g2, m as int, rest));
                    assert(graph_accepts(g, s, w) == graph_accepts(g, c as int, rest));
                } else {
                    if s == p {
                        assert(find_target(g2[p].transitions@, w[0]) == find_target(g[p].transitions@, w[0]));
                    } else {
                        assert(g2[s] == g[s]);
                    }
                    assert(find_target(g2[s].transitions@, w[0]) == find_target(g[s].transitions@, w[0]));
                    match find_target(g[s].transitions@, w[0]) {
                        Some(t) => {
                            assert(graph_accepts(g2, t.0 as int, rest) == graph_accepts(g, t.0 as int, rest));
                        },
                        None => {},
                    }
                }
            }
        }
    } else {
        assert forall|s: int| #[trigger] graph_accepts(g2, s, w) == graph_accepts(g, s, w) by {
            if 0 <= s < g.len() && s != p {
                assert(g2[s] == g[s]);
            }
        }
    }
}

/// The state reached from the initial state of `g` along the first `d`
/// letters of `p`, or `-1` once a transition is missing.
pub closed spec fn path_state(g: Seq<State>, p: Seq<Letter>, d: int) -> int
    decreases d,
{
    if d <= 0 {
        0
    } else {
        let s = path_state(g, p, d - 1);
        if 0 <= s < g.len() {
            match find_target(g[s].transitions@, p[d - 1]) {
                Some(t) => t.0 as int,
                None => -1,
            }
        } else {
            -1
        }
    }
}

/// The word `p` is a path of distinct states of `g` from the initial
/// state; each of its states but the last has the letter that follows as
/// its greatest label, and the last has no transition; a transition leads
/// into the path only as the path's own step; and no registered state is
/// on it.
pub closed spec fn path_ok(g: Seq<State>, register: Seq<StateId>, p: Seq<Letter>) -> bool {
    &&& forall|d: int| 0 <= d <= p.len() ==> 0 <= #[trigger] path_state(g, p, d) < g.len()
    &&& forall|d1: int, d2: int|
        0 <= d1 < d2 <= p.len() ==> #[trigger] path_state(g, p, d1) != #[trigger] path_state(g, p, d2)
    &&& forall|d: int|
        0 <= d < p.len() ==> max_label(g[#[trigger] path_state(g, p, d)].transitions@) == Some(
            p[d].index() as int,
        )
    &&& g[path_state(g, p, p.len() as int)].transitions@.len() == 0
    &&& forall|s: int, j: int, e: int|
        #![trigger g[s].transitions@[j], path_state(g, p, e)]
        0 <= s < g.len() && 0 <= j < g[s].transitions@.len() && 0 <= e <= p.len()
            && g[s].transitions@[j].1.0 == path_state(g, p, e) ==> 1 <= e && s == path_state(g, p, e - 1)
            && g[s].transitions@[j].0 == p[e - 1]
    &&& forall|k: int, e: int|
        #![trigger register[k], path_state(g, p, e)]
        0 <= k < register.len() && 0 <= e <= p.len() ==> register[k].0 != path_state(g, p, e)
}

/// `g2` is `g` with the word `suffix` hung from state `last` as a chain of
/// fresh states: `last` gains a transition on the first letter to the
/// first fresh state, each fresh state leads on to the next by the
/// following letter, and the last one (or `last` itself, for an empty
/// suffix) is terminal.
pub closed spec fn added_suffix(g: Seq<State>, g2: Seq<State>, last: int, suffix: Seq<Letter>) -> bool {
    let n = g.len();
    let m = suffix.len();
    &&& g2.len() == n + m
    &&& forall|j: int| 0 <= j < n && j != last ==> #[trigger] g2[j] == g[j]
    &&& g2[last].is_terminal == (g[last].is_terminal || m == 0)
    &&& g2[last].transitions@ == (if m == 0 {
        g[last].transitions@
    } else {
        g[last].transitions@.push((suffix[0], StateId(n as usize)))
    })
    &&& forall|j: int|
        0 <= j < m ==> (#[trigger] g2[n + j]).is_terminal == (j + 1 == m) && g2[n + j].transitions@ == (if j
            + 1 < m {
            seq![(suffix[j + 1], StateId((n + j + 1) as usize))]
        } else {
            Seq::<(Letter, StateId)>::empty()
        })
}

/// The state that the transition with the greatest label of state `s`
/// leads to, or `-1` when there is none.
pub closed spec fn last_child(g: Seq<State>, s: int) -> int {
    if 0 <= s < g.len() {
        match max_label(g[s].transitions@) {
            Some(m) => match find_target(g[s].transitions@, Letter::with_index(m as nat)) {
                Some(t) => t.0 as int,
                None => -1,
            },
            None => -1,
        }
    } else {
        -1
    }
}

/// The state reached from `s` by following the transition with the
/// greatest label `d` times, or `-1` once there is none.
pub closed spec fn last_chain(g: Seq<State>, s: int, d: nat) -> int
    decreases d,
{
    if d == 0 {
        s
    } else {
        last_chain(g, last_child(g, s), (d - 1) as nat)
    }
}

/// State `i` is on the chain of greatest-label transitions from `s`.
pub closed spec fn on_chain(g: Seq<State>, s: int, i: int) -> bool {
    exists|d: nat| #[trigger] last_chain(g, s, d) == i
}

/// State `i` is on the chain of greatest-label transitions from `s`,
/// below `s`.
pub closed spec fn below_chain(g: Seq<State>, s: int, i: int) -> bool {
    exists|d: nat| d >= 1 && #[trigger] last_chain(g, s, d) == i
}

/// `b` has the labels of `a`, in order, each leading where it did or to a
/// state of `register`.
pub open spec fn same_labels(
    a: Seq<(Letter, StateId)>,
    b: Seq<(Letter, StateId)>,
    register: Seq<StateId>,
) -> bool {
    &&& a.len() == b.len()
    &&& forall|k: int|
        0 <= k < a.len() ==> (#[trigger] b[k]).0 == a[k].0 && (b[k].1 == a[k].1 || register.contains(b[k].1))
}

proof fn lemma_same_labels_refl(g: Seq<State>, register: Seq<StateId>)
    ensures
        forall|i: int| 0 <= i < g.len() ==> same_labels(g[i].transitions@, #[trigger] g[i].transitions@, register),
{
}

/// Growing the register keeps states that had the same labels so.
proof fn lemma_same_labels_grow(g: Seq<State>, g1: Seq<State>, r1: Seq<StateId>, r2: Seq<StateId>)
    requires
        g1.len() == g.len(),
        r2.len() >= r1.len(),
        r2.subrange(0, r1.len() as int) == r1,
        forall|i: int| 0 <= i < g.len() ==> same_labels(g[i].transitions@, #[trigger] g1[i].transitions@, r1),
    ensures
        forall|i: int| 0 <= i < g.len() ==> same_labels(g[i].transitions@, #[trigger] g1[i].transitions@, r2),
{
    assert forall|t: StateId| r1.contains(t) implies r2.contains(t) by {
        let k = choose|k: int| 0 <= k < r1.len() && r1[k] == t;
        assert(r2[k] == r2.subrange(0, r1.len() as int)[k]);
    }
}

/// Changing one state `p` of `g1` into one with the same labels keeps
/// every state's labels those of `g`.
proof fn lemma_same_labels_step(g: Seq<State>, g1: Seq<State>, g2: Seq<State>, r: Seq<StateId>, p: int)
    requires
        g1.len() == g.len(),
        g2.len() == g.len(),
        0 <= p < g.len(),
        forall|i: int| 0 <= i < g.len() && i != p ==> #[trigger] g2[i] == g1[i],
        forall|i: int| 0 <= i < g.len() ==> same_labels(g[i].transitions@, #[trigger] g1[i].transitions@, r),
        same_labels(g1[p].transitions@, g2[p].transitions@, r),
    ensures
        forall|i: int| 0 <= i < g.len() ==> same_labels(g[i].transitions@, #[trigger] g2[i].transitions@, r),
{
    assert forall|i: int| 0 <= i < g.len() implies same_labels(g[i].transitions@, #[trigger] g2[i].transitions@, r) by {
        if i == p {
            assert(same_labels(g[i].transitions@, g1[i].transitions@, r));
            let (a, b, c) = (g[i].transitions@, g1[i].transitions@, g2[i].transitions@);
            assert forall|k: int| 0 <= k < a.len() implies (#[trigger] c[k]).0 == a[k].0 && (c[k].1 == a[k].1
                || r.contains(c[k].1)) by {
                assert(b[k].0 == a[k].0);
            }
        } else {
            assert(g2[i] == g1[i]);
        }
    }
}

/// What the walk below the last child `c` of `s` touched is on the chain
/// below `s`, one step further on.
proof fn lemma_chain_shift(g: Seq<State>, s: int, c: int, g1: Seq<State>, r0: Seq<StateId>, r1: Seq<StateId>)
    requires
        last_child(g, s) == c,
        forall|i: int| 0 <= i < g.len() ==> #[trigger] g1[i] == g[i] || on_chain(g, c, i),
        forall|k: int| r0.len() <= k < r1.len() ==> below_chain(g, c, #[trigger] r1[k].0 as int),
    ensures
        forall|i: int| 0 <= i < g.len() ==> #[trigger] g1[i] == g[i] || on_chain(g, s, i),
        forall|k: int| r0.len() <= k < r1.len() ==> below_chain(g, s, #[trigger] r1[k].0 as int),
{
    assert forall|i: int| 0 <= i < g.len() implies #[trigger] g1[i] == g[i] || on_chain(g, s, i) by {
        if g1[i] != g[i] {
            let d = choose|d: nat| #[trigger] last_chain(g, c, d) == i;
            let d2: nat = d + 1;
            assert(last_chain(g, s, d2) == last_chain(g, c, d));
        }
    }
    assert forall|k: int| r0.len() <= k < r1.len() implies below_chain(g, s, #[trigger] r1[k].0 as int) by {
        let d = choose|d: nat| d >= 1 && #[trigger] last_chain(g, c, d) == r1[k].0;
        let d2: nat = d + 1;
        assert(last_chain(g, s, d2) == last_chain(g, c, d));
    }
}

/// Words that agree on their first `k` letters follow the same path that
/// far.
proof fn lemma_path_agree(g: Seq<State>, a: Seq<Letter>, b: Seq<Letter>, k: int)
    requires
        0 <= k <= a.len(),
        k <= b.len(),
        forall|i: int| 0 <= i < k ==> a[i] == b[i],
    ensures
        forall|d: int| 0 <= d <= k ==> #[trigger] path_state(g, a, d) == path_state(g, b, d),
    decreases k,
{
    if k > 0 {
        lemma_path_agree(g, a, b, k - 1);
        assert(path_state(g, a, k) == path_state(g, b, k)) by {
            assert(path_state(g, a, k - 1) == path_state(g, b, k - 1));
            assert(a[k - 1] == b[k - 1]);
        }
    }
}

/// No state lies beyond a missing transition.
proof fn lemma_chain_gone(g: Seq<State>, d: nat)
    ensures
        last_chain(g, -1, d) == -1,
    decreases d,
{
    if d > 0 {
        lemma_chain_gone(g, (d - 1) as nat);
    }
}

/// Along a path kept by [`path_ok`], the greatest-label transitions follow
/// the path to its end.
proof fn lemma_chain_on_path(g: Seq<State>, reg: Seq<StateId>, p: Seq<Letter>, k: int, d: nat)
    requires
        path_ok(g, reg, p),
        0 <= k <= p.len(),
    ensures
        last_chain(g, path_state(g, p, k), d) == (if k + d <= p.len() {
            path_state(g, p, k + d)
        } else {
            -1
        }),
    decreases d,
{
    if d > 0 {
        let s = path_state(g, p, k);
        assert(0 <= s < g.len());
        if k < p.len() {
            let ts = g[s].transitions@;
            assert(max_label(ts) == Some(p[k].index() as int));
            Letter::lemma_index_determines(p[k]);
            assert(0 <= path_state(g, p, k + 1) < g.len());
            assert(last_child(g, s) == path_state(g, p, k + 1));
            lemma_chain_on_path(g, reg, p, k + 1, (d - 1) as nat);
        } else {
            assert(g[s].transitions@.len() == 0);
            assert(last_child(g, s) == -1);
            lemma_chain_gone(g, (d - 1) as nat);
        }
    }
}

/// Every label of `ts` is at most its greatest one, which is among them.
proof fn lemma_max_label(ts: Seq<(Letter, StateId)>)
    ensures
        max_label(ts) is None <==> ts.len() == 0,
        max_label(ts) matches Some(m) ==> forall|k: int| 0 <= k < ts.len() ==> (#[trigger] ts[k]).0.index() <= m,
    decreases ts.len(),
{
    if ts.len() > 0 {
        lemma_max_label(ts.drop_last());
        assert forall|k: int| 0 <= k < ts.len() - 1 implies (#[trigger] ts[k]) == ts.drop_last()[k] by {}
    }
}

/// Transitions with the same labels in the same order have the same
/// greatest label.
proof fn lemma_max_label_same(a: Seq<(Letter, StateId)>, b: Seq<(Letter, StateId)>)
    requires
        a.len() == b.len(),
        forall|k: int| 0 <= k < a.len() ==> (#[trigger] a[k]).0 == b[k].0,
    ensures
        max_label(a) == max_label(b),
    decreases a.len(),
{
    if a.len() > 0 {
        assert forall|k: int| 0 <= k < a.len() - 1 implies (#[trigger] a.drop_last()[k]).0 == b.drop_last()[k].0 by {
            assert(a.drop_last()[k] == a[k] && b.drop_last()[k] == b[k]);
        }
        lemma_max_label_same(a.drop_last(), b.drop_last());
        assert(a.last().0 == b.last().0) by {
            assert(a[a.len() - 1].0 == b[a.len() - 1].0);
        }
    }
}

/// Searching transitions with one more at the end finds the new one only
/// where nothing was found before.
proof fn lemma_find_push(ts: Seq<(Letter, StateId)>, t: (Letter, StateId), l: Letter)
    ensures
        find_target(ts.push(t), l) == (match find_target(ts, l) {
            Some(u) => Some(u),
            None => if t.0 == l {
                Some(t.1)
            } else {
                None
            },
        }),
    decreases ts.len(),
{
    if ts.len() > 0 {
        assert(ts.push(t).drop_first() =~= ts.drop_first().push(t));
        assert(ts.push(t)[0] == ts[0]);
        lemma_find_push(ts.drop_first(), t, l);
        if ts[0].0 != l {
            assert(find_target(ts.push(t), l) == find_target(ts.drop_first().push(t), l));
            assert(find_target(ts, l) == find_target(ts.drop_first(), l));
        }
    } else {
        let e = Seq::<(Letter, StateId)>::empty();
        assert(ts.push(t).drop_first() =~= e);
        assert(ts.push(t)[0] == t);
        assert(find_target(e, l) is None);
        assert(find_target(ts, l) is None);
    }
}

/// A label found among `ts` labels one of them.
proof fn lemma_find_some(ts: Seq<(Letter, StateId)>, l: Letter)
    ensures
        find_target(ts, l) matches Some(t) ==> exists|k: int| 0 <= k < ts.len() && #[trigger] ts[k] == (l, t),
    decreases ts.len(),
{
    if ts.len() > 0 && ts[0].0 != l {
        lemma_find_some(ts.drop_first(), l);
        if find_target(ts, l) is Some {
            let t = find_target(ts, l)->0;
            let k = choose|k: int| 0 <= k < ts.drop_first().len() && #[trigger] ts.drop_first()[k] == (l, t);
            assert(ts[k + 1] == (l, t));
        }
    } else if ts.len() > 0 {
        assert(ts[0] == (l, ts[0].1));
    }
}

/// Where two words in alphabetical order first differ, or where the first
/// ends, the first has the earlier letter or has ended.
proof fn lemma_in_order_split(a: Seq<Letter>, b: Seq<Letter>, r: int)
    requires
        in_order(a, b),
        0 <= r <= a.len(),
        r <= b.len(),
        forall|i: int| 0 <= i < r ==> a[i] == b[i],
        r < a.len() && r < b.len() ==> a[r] != b[r],
    ensures
        r == a.len() || (r < b.len() && a[r].index() < b[r].index()),
    decreases a.len(),
{
    if a.len() > 0 && b.len() > 0 && r > 0 {
        assert(a[0] == b[0]);
        assert forall|i: int| 0 <= i < r - 1 implies a.drop_first()[i] == b.drop_first()[i] by {
            assert(a[i + 1] == b[i + 1]);
        }
        lemma_in_order_split(a.drop_first(), b.drop_first(), r - 1);
    } else if a.len() > 0 && b.len() > 0 {
        if a[0] == b[0] {
            assert(r < a.len() && r < b.len());
        } else {
            Letter::lemma_index_determines(a[0]);
            Letter::lemma_index_determines(b[0]);
        }
    }
}

/// What merging below the `k`-th state of a path leaves of the path: the
/// states before it unchanged, no registered state among its first
/// `k + 1`, and every transition into those still a step of the path.
proof fn lemma_after_walk(
    g0: Seq<State>,
    reg0: Seq<StateId>,
    p: Seq<Letter>,
    k: int,
    g1: Seq<State>,
    reg1: Seq<StateId>,
)
    requires
        path_ok(g0, reg0, p),
        0 <= k <= p.len(),
        g1.len() == g0.len(),
        forall|i: int| 0 <= i < g0.len() ==> #[trigger] g1[i] == g0[i] || on_chain(g0, path_state(g0, p, k), i),
        forall|i: int| 0 <= i < g0.len() ==> same_labels(g0[i].transitions@, #[trigger] g1[i].transitions@, reg1),
        reg0.len() <= reg1.len(),
        reg1.subrange(0, reg0.len() as int) == reg0,
        forall|j: int| reg0.len() <= j < reg1.len() ==> below_chain(g0, path_state(g0, p, k), #[trigger] reg1[j].0 as int),
    ensures
        forall|d: int| 0 <= d < k ==> #[trigger] g1[path_state(g0, p, d)] == g0[path_state(g0, p, d)],
        forall|j: int, d: int|
            0 <= j < reg1.len() && 0 <= d <= k ==> #[trigger] reg1[j].0 != #[trigger] path_state(g0, p, d),
        forall|s: int, t: int, e: int|
            #![trigger g1[s].transitions@[t], path_state(g0, p, e)]
            0 <= s < g1.len() && 0 <= t < g1[s].transitions@.len() && 0 <= e <= k
                && g1[s].transitions@[t].1.0 == path_state(g0, p, e) ==> 1 <= e && s == path_state(g0, p, e - 1)
                && g1[s].transitions@[t].0 == p[e - 1],
{
    let pk = path_state(g0, p, k);
    assert forall|d: int| 0 <= d < k implies #[trigger] g1[path_state(g0, p, d)] == g0[path_state(g0, p, d)] by {
        let pd = path_state(g0, p, d);
        assert(0 <= pd < g0.len());
        if g1[pd] != g0[pd] {
            assert(on_chain(g0, pk, pd));
            let dd = choose|dd: nat| #[trigger] last_chain(g0, pk, dd) == pd;
            lemma_chain_on_path(g0, reg0, p, k, dd);
            assert(path_state(g0, p, d) != path_state(g0, p, k + dd));
        }
    }
    assert forall|j: int, d: int| 0 <= j < reg1.len() && 0 <= d <= k implies #[trigger] reg1[j].0 != #[trigger] path_state(
        g0,
        p,
        d,
    ) by {
        if j < reg0.len() {
            assert(reg1[j] == reg1.subrange(0, reg0.len() as int)[j]);
            assert(reg0[j].0 != path_state(g0, p, d));
        } else {
            assert(below_chain(g0, pk, reg1[j].0 as int));
            let dd = choose|dd: nat| dd >= 1 && #[trigger] last_chain(g0, pk, dd) == reg1[j].0;
            lemma_chain_on_path(g0, reg0, p, k, dd);
            if k + dd <= p.len() {
                assert(path_state(g0, p, d) != path_state(g0, p, k + dd));
            }
        }
    }
    assert forall|s: int, t: int, e: int|
        #![trigger g1[s].transitions@[t], path_state(g0, p, e)]
        0 <= s < g1.len() && 0 <= t < g1[s].transitions@.len() && 0 <= e <= k
            && g1[s].transitions@[t].1.0 == path_state(g0, p, e) implies 1 <= e && s == path_state(g0, p, e - 1)
            && g1[s].transitions@[t].0 == p[e - 1] by {
        assert(same_labels(g0[s].transitions@, g1[s].transitions@, reg1));
        let b = g1[s].transitions@[t];
        if reg1.contains(b.1) {
            let j = choose|j: int| 0 <= j < reg1.len() && reg1[j] == b.1;
            assert(reg1[j].0 != path_state(g0, p, e));
        } else {
            assert(g0[s].transitions@[t] == b);
            assert(g0[s].transitions@[t].1.0 == path_state(g0, p, e));
        }
    }
}

/// What `g`, with the rest of `x` hung below the last state of `ps` (the
/// path of its first `ps.len() - 1` letters), accepts from state `s`: what
/// `g` did, and from each state of the path also the rest of `x`; from the
/// fresh states, the rest of `x` beyond them.
pub closed spec fn grown_accepts(g: Seq<State>, ps: Seq<int>, x: Seq<Letter>, s: int, w: Seq<Letter>) -> bool {
    let n = g.len() as int;
    let k = ps.len() - 1;
    let m = x.len() - k;
    if 0 <= s < n {
        graph_accepts(g, s, w) || exists|j: int| 0 <= j < ps.len() && #[trigger] ps[j] == s && w == x.subrange(j, x.len() as int)
    } else if n <= s < n + m {
        w == x.subrange(k + 1 + (s - n), x.len() as int)
    } else {
        false
    }
}

/// `g2` is `g` with the rest of `x` hung below the last state of `ps`,
/// the path in `g` of the first `ps.len() - 1` letters of `x`, whose states
/// are entered only along it and whose last state has no transition on
/// the next letter.
spec fn hung(g: Seq<State>, g2: Seq<State>, ps: Seq<int>, x: Seq<Letter>) -> bool {
    &&& ps.len() >= 1
    &&& ps.len() - 1 <= x.len()
    &&& g2.len() <= usize::MAX
    &&& graph_ok(g)
    &&& forall|j: int| 0 <= j < ps.len() ==> 0 <= #[trigger] ps[j] < g.len()
    &&& forall|a: int, b: int| 0 <= a < b < ps.len() ==> #[trigger] ps[a] != #[trigger] ps[b]
    &&& forall|j: int|
        0 <= j < ps.len() - 1 ==> find_target(g[#[trigger] ps[j]].transitions@, x[j]) == Some(
            StateId(ps[j + 1] as usize),
        )
    &&& forall|s: int, t: int, e: int|
        #![trigger g[s].transitions@[t], ps[e]]
        0 <= s < g.len() && 0 <= t < g[s].transitions@.len() && 0 <= e < ps.len() && g[s].transitions@[t].1.0
            == ps[e] ==> 1 <= e && s == ps[e - 1] && g[s].transitions@[t].0 == x[e - 1]
    &&& ps.len() - 1 < x.len() ==> find_target(g[ps[ps.len() - 1]].transitions@, x[ps.len() - 1]) is None
    &&& added_suffix(g, g2, ps[ps.len() - 1], x.subrange(ps.len() - 1, x.len() as int))
}

/// A nonempty word is a tail of `x` exactly when its first letter is the
/// tail's and the rest is the next tail.
proof fn lemma_tail_step(w: Seq<Letter>, x: Seq<Letter>, j: int)
    requires
        0 <= j < x.len(),
        w.len() > 0,
    ensures
        (w == x.subrange(j, x.len() as int)) == (w[0] == x[j] && w.drop_first() == x.subrange(j + 1, x.len() as int)),
{
    if w[0] == x[j] && w.drop_first() =~= x.subrange(j + 1, x.len() as int) {
        assert forall|i: int| 0 <= i < w.len() implies w[i] == x.subrange(j, x.len() as int)[i] by {
            if i > 0 {
                assert(w[i] == w.drop_first()[i - 1]);
            }
        }
        assert(w =~= x.subrange(j, x.len() as int));
    }
    if w == x.subrange(j, x.len() as int) {
        assert(w.drop_first() =~= x.subrange(j + 1, x.len() as int));
    }
}

/// A transition from `s` on `l` to a state of the path is the path's own
/// step from `s`.
proof fn lemma_hung_edge(g: Seq<State>, g2: Seq<State>, ps: Seq<int>, x: Seq<Letter>, s: int, l: Letter, e: int)
    requires
        hung(g, g2, ps, x),
        0 <= s < g.len(),
        0 <= e < ps.len(),
        find_target(g[s].transitions@, l) == Some(StateId(ps[e] as usize)),
    ensures
        1 <= e && s == ps[e - 1] && l == x[e - 1],
{
    lemma_find_some(g[s].transitions@, l);
    let t = choose|t: int| 0 <= t < g[s].transitions@.len() && #[trigger] g[s].transitions@[t] == (l, StateId(ps[e] as usize));
    assert(g[s].transitions@[t].1.0 == ps[e]);
}

/// The step of [`lemma_hung_accepts`] for the fresh states.
proof fn lemma_hung_fresh(g: Seq<State>, g2: Seq<State>, ps: Seq<int>, x: Seq<Letter>, w: Seq<Letter>, s: int)
    requires
        hung(g, g2, ps, x),
        w.len() > 0,
        g.len() <= s < g.len() + x.len() - (ps.len() - 1),
        forall|s2: int| #[trigger] graph_accepts(g2, s2, w.drop_first()) == grown_accepts(g, ps, x, s2, w.drop_first()),
    ensures
        graph_accepts(g2, s, w) == grown_accepts(g, ps, x, s, w),
{
    let n = g.len() as int;
    let k = ps.len() - 1;
    let m = x.len() - k;
    let i = s - n;
    let suf = x.subrange(k, x.len() as int);
    assert(g2[n + i].transitions@ == (if i + 1 < m {
        seq![(suf[i + 1], StateId((n + i + 1) as usize))]
    } else {
        Seq::<(Letter, StateId)>::empty()
    }));
    let ts = g2[s].transitions@;
    if i + 1 < m {
        assert(suf[i + 1] == x[k + 1 + i]);
        assert(ts[0] == (x[k + 1 + i], StateId((n + i + 1) as usize)));
        assert(ts.drop_first().len() == 0);
        lemma_tail_step(w, x, k + 1 + i);
        if w[0] == x[k + 1 + i] {
            assert(find_target(ts, w[0]) == Some(StateId((n + i + 1) as usize)));
            assert(graph_accepts(g2, s, w) == graph_accepts(g2, n + i + 1, w.drop_first()));
        } else {
            assert(find_target(ts.drop_first(), w[0]) is None);
            assert(find_target(ts, w[0]) is None);
        }
    } else {
        assert(find_target(ts, w[0]) is None);
        assert(x.subrange(k + 1 + i, x.len() as int).len() == 0);
    }
}

/// The step of [`lemma_hung_accepts`] for the states of `g`.
#[verifier::spinoff_prover]
proof fn lemma_hung_old(g: Seq<State>, g2: Seq<State>, ps: Seq<int>, x: Seq<Letter>, w: Seq<Letter>, s: int)
    requires
        hung(g, g2, ps, x),
        w.len() > 0,
        0 <= s < g.len(),
        forall|s2: int| #[trigger] graph_accepts(g2, s2, w.drop_first()) == grown_accepts(g, ps, x, s2, w.drop_first()),
    ensures
        graph_accepts(g2, s, w) == grown_accepts(g, ps, x, s, w),
{
    let n = g.len() as int;
    let k = ps.len() - 1;
    let m = x.len() - k;
    let l = w[0];
    let rest = w.drop_first();
    let on_path = exists|j: int| 0 <= j < ps.len() && #[trigger] ps[j] == s;
    let ts = g[s].transitions@;
    // Where the word leads in `g2` from `s`, compared with `g`.
    let fresh_step = s == ps[k] && m > 0 && l == x[k];
    if fresh_step {
        assert(g2[s].transitions@ == ts.push((x[k], StateId(n as usize))));
        lemma_find_push(ts, (x[k], StateId(n as usize)), l);
        assert(find_target(g2[s].transitions@, l) == Some(StateId(n as usize)));
        assert(graph_accepts(g2, s, w) == graph_accepts(g2, n, rest));
        assert(grown_accepts(g, ps, x, n, rest) == (rest == x.subrange(k + 1, x.len() as int)));
        lemma_tail_step(w, x, k);
        assert(!graph_accepts(g, s, w));
        if grown_accepts(g, ps, x, s, w) {
            let j = choose|j: int| 0 <= j < ps.len() && #[trigger] ps[j] == s && w == x.subrange(j, x.len() as int);
            assert(j == k);
        }
        assert(w == x.subrange(k, x.len() as int) ==> grown_accepts(g, ps, x, s, w));
    } else {
        if s == ps[k] {
            if m > 0 {
                assert(g2[s].transitions@ == ts.push((x[k], StateId(n as usize))));
                lemma_find_push(ts, (x[k], StateId(n as usize)), l);
            }
            assert(find_target(g2[s].transitions@, l) == find_target(ts, l));
        } else {
            assert(g2[s] == g[s]);
        }
        assert(find_target(g2[s].transitions@, l) == find_target(ts, l));
        // The path's own step, if `s` is on the path and `l` its letter.
        match find_target(ts, l) {
            Some(t) => {
                assert(0 <= t.0 < n) by {
                    lemma_find_some(ts, l);
                    let q = choose|q: int| 0 <= q < ts.len() && #[trigger] ts[q] == (l, t);
                    assert(targets_below(ts, n));
                    assert(ts[q].1.0 < n);
                }
                assert(g2.len() == n + m);
                assert(find_target(g2[s].transitions@, w[0]) == Some(t));
                assert(graph_accepts(g2, s, w) == graph_accepts(g2, t.0 as int, rest));
                assert(graph_accepts(g2, t.0 as int, rest) == grown_accepts(g, ps, x, t.0 as int, rest));
                assert(graph_accepts(g, s, w) == graph_accepts(g, t.0 as int, rest));
                if exists|e: int| 0 <= e < ps.len() && #[trigger] ps[e] == t.0 && rest == x.subrange(e, x.len() as int) {
                    let e = choose|e: int| 0 <= e < ps.len() && #[trigger] ps[e] == t.0 && rest == x.subrange(e, x.len() as int);
                    lemma_hung_edge(g, g2, ps, x, s, l, e);
                    lemma_tail_step(w, x, e - 1);
                    assert(grown_accepts(g, ps, x, s, w));
                }
                if grown_accepts(g, ps, x, s, w) && !graph_accepts(g, s, w) {
                    let j = choose|j: int| 0 <= j < ps.len() && #[trigger] ps[j] == s && w == x.subrange(j, x.len() as int);
                    assert(j < x.len()) by {
                        if j == x.len() {
                            assert(x.subrange(j, x.len() as int).len() == 0);
                        }
                    }
                    lemma_tail_step(w, x, j);
                    assert(j < k) by {
                        if j == k {
                            assert(m > 0 && l == x[k]);
                        }
                    }
                    assert(find_target(g[ps[j]].transitions@, x[j]) == Some(StateId(ps[j + 1] as usize)));
                    assert(t.0 == ps[j + 1]);
                    assert(grown_accepts(g, ps, x, t.0 as int, rest));
                }
            },
            None => {
                assert(!graph_accepts(g2, s, w));
                assert(!graph_accepts(g, s, w));
                if grown_accepts(g, ps, x, s, w) {
                    let j = choose|j: int| 0 <= j < ps.len() && #[trigger] ps[j] == s && w == x.subrange(j, x.len() as int);
                    assert(j < x.len()) by {
                        if j == x.len() {
                            assert(x.subrange(j, x.len() as int).len() == 0);
                        }
                    }
                    lemma_tail_step(w, x, j);
                    if j == k {
                        assert(m > 0 && l == x[k]);
                    } else {
                        assert(find_target(g[ps[j]].transitions@, x[j]) == Some(StateId(ps[j + 1] as usize)));
                    }
                }
            },
        }
    }
}

/// The words accepted once the rest of `x` is hung below the path of its
/// first letters: those accepted before, and from the path's states the
/// rest of `x`.
proof fn lemma_hung_accepts(g: Seq<State>, g2: Seq<State>, ps: Seq<int>, x: Seq<Letter>, w: Seq<Letter>)
    requires
        hung(g, g2, ps, x),
    ensures
        forall|s: int| #[trigger] graph_accepts(g2, s, w) == grown_accepts(g, ps, x, s, w),
    decreases w.len(),
{
    let n = g.len() as int;
    let k = ps.len() - 1;
    let m = x.len() - k;
    if w.len() == 0 {
        assert forall|s: int| #[trigger] graph_accepts(g2, s, w) == grown_accepts(g, ps, x, s, w) by {
            if 0 <= s < n {
                if exists|j: int| 0 <= j < ps.len() && #[trigger] ps[j] == s && w == x.subrange(j, x.len() as int) {
                    let j = choose|j: int| 0 <= j < ps.len() && #[trigger] ps[j] == s && w == x.subrange(j, x.len() as int);
                    assert(x.subrange(j, x.len() as int).len() == 0);
                    assert(j == k);
                }
                if s == ps[k] {
                    if m == 0 {
                        assert(w =~= x.subrange(k, x.len() as int));
                    }
                } else {
                    assert(g2[s] == g[s]);
                }
            } else if n <= s < n + m {
                let i = s - n;
                assert(g2[n + i].is_terminal == (i + 1 == m));
                if i + 1 == m {
                    assert(w =~= x.subrange(k + 1 + i, x.len() as int));
                } else {
                    assert(x.subrange(k + 1 + i, x.len() as int).len() > 0);
                }
            }
        }
    } else {
        lemma_hung_accepts(g, g2, ps, x, w.drop_first());
        assert forall|s: int| #[trigger] graph_accepts(g2, s, w) == grown_accepts(g, ps, x, s, w) by {
            if 0 <= s < n {
                lemma_hung_old(g, g2, ps, x, w, s);
            } else if n <= s < n + m {
                lemma_hung_fresh(g, g2, ps, x, w, s);
            }
        }
    }
}

/// The path of `x` once its rest is hung below `ps`: the states of `ps`,
/// then the fresh states in order.
proof fn lemma_hung_states(g: Seq<State>, g2: Seq<State>, ps: Seq<int>, x: Seq<Letter>, d: int)
    requires
        hung(g, g2, ps, x),
        ps[0] == 0,
        0 <= d <= x.len(),
    ensures
        path_state(g2, x, d) == (if d < ps.len() {
            ps[d]
        } else {
            g.len() + d - ps.len()
        }),
    decreases d,
{
    let n = g.len() as int;
    let k = ps.len() - 1;
    let m = x.len() - k;
    if d > 0 {
        lemma_hung_states(g, g2, ps, x, d - 1);
        let prev = path_state(g2, x, d - 1);
        if d <= k {
            assert(ps[d - 1] != ps[k]);
            assert(g2[ps[d - 1]] == g[ps[d - 1]]);
            assert(find_target(g[ps[d - 1]].transitions@, x[d - 1]) == Some(StateId(ps[d] as usize)));
        } else if d == k + 1 {
            let ts = g[ps[k]].transitions@;
            assert(g2[ps[k]].transitions@ == ts.push((x[k], StateId(n as usize))));
            lemma_find_push(ts, (x[k], StateId(n as usize)), x[k]);
        } else {
            let i = d - k - 2;
            assert(prev == n + i);
            let suf = x.subrange(k, x.len() as int);
            assert(g2[n + i].transitions@ == seq![(suf[i + 1], StateId((n + i + 1) as usize))]);
            assert(suf[i + 1] == x[d - 1]);
            let ts = g2[n + i].transitions@;
            assert(ts[0].0 == x[d - 1]);
        }
    }
}

/// The greatest label of transitions with one more at the end.
proof fn lemma_max_label_push(ts: Seq<(Letter, StateId)>, t: (Letter, StateId))
    ensures
        max_label(ts.push(t)) == (match max_label(ts) {
            Some(m) => if m >= t.0.index() {
                Some(m)
            } else {
                Some(t.0.index() as int)
            },
            None => Some(t.0.index() as int),
        }),
{
    assert(ts.push(t).drop_last() =~= ts);
}

/// Once the rest of `x` is hung below `ps`, `x` is a path as [`path_ok`]
/// asks, given that the greatest labels along `ps` lead along `x` and that
/// no registered state is on `ps`.
#[verifier::spinoff_prover]
proof fn lemma_hung_path(g: Seq<State>, g2: Seq<State>, ps: Seq<int>, x: Seq<Letter>, reg: Seq<StateId>)
    requires
        hung(g, g2, ps, x),
        ps[0] == 0,
        forall|j: int| 0 <= j < ps.len() - 1 ==> max_label(g[#[trigger] ps[j]].transitions@) == Some(x[j].index() as int),
        ps.len() - 1 < x.len() ==> match max_label(g[ps[ps.len() - 1]].transitions@) {
            Some(mm) => mm < x[ps.len() - 1].index(),
            None => true,
        },
        ps.len() - 1 == x.len() ==> g[ps[ps.len() - 1]].transitions@.len() == 0,
        forall|j: int| 0 <= j < reg.len() ==> (#[trigger] reg[j]).0 < g.len(),
        forall|j: int, d: int| 0 <= j < reg.len() && 0 <= d < ps.len() ==> #[trigger] reg[j].0 != #[trigger] ps[d],
    ensures
        path_ok(g2, reg, x),
{
    let n = g.len() as int;
    let k = ps.len() - 1;
    let m = x.len() - k;
    let suf = x.subrange(k, x.len() as int);
    assert forall|d: int| 0 <= d <= x.len() implies #[trigger] path_state(g2, x, d) == (if d < ps.len() {
        ps[d]
    } else {
        n + d - ps.len()
    }) by {
        lemma_hung_states(g, g2, ps, x, d);
    }
    assert forall|d: int| 0 <= d < x.len() implies max_label(g2[#[trigger] path_state(g2, x, d)].transitions@) == Some(
        x[d].index() as int,
    ) by {
        if d < k {
            assert(ps[d] != ps[k]);
            assert(g2[ps[d]] == g[ps[d]]);
        } else if d == k {
            let ts = g[ps[k]].transitions@;
            assert(g2[ps[k]].transitions@ == ts.push((x[k], StateId(n as usize))));
            lemma_max_label_push(ts, (x[k], StateId(n as usize)));
        } else {
            let i = d - k - 1;
            assert(g2[n + i].transitions@ == seq![(suf[i + 1], StateId((n + i + 1) as usize))]);
            lemma_max_label_push(Seq::empty(), (suf[i + 1], StateId((n + i + 1) as usize)));
            assert(seq![(suf[i + 1], StateId((n + i + 1) as usize))] =~= Seq::empty().push((suf[i + 1], StateId((n + i + 1) as usize))));
        }
    }
    assert(g2[path_state(g2, x, x.len() as int)].transitions@.len() == 0) by {
        if m > 0 {
            assert(g2[n + (m - 1)].transitions@ == Seq::<(Letter, StateId)>::empty());
        }
    }
    assert forall|s: int, t: int, e: int|
        #![trigger g2[s].transitions@[t], path_state(g2, x, e)]
        0 <= s < g2.len() && 0 <= t < g2[s].transitions@.len() && 0 <= e <= x.len()
            && g2[s].transitions@[t].1.0 == path_state(g2, x, e) implies 1 <= e && s == path_state(g2, x, e - 1)
            && g2[s].transitions@[t].0 == x[e - 1] by {
        let ts2 = g2[s].transitions@;
        if s >= n {
            let i = s - n;
            assert(ts2 == seq![(suf[i + 1], StateId((n + i + 1) as usize))]);
            assert(t == 0);
            assert(path_state(g2, x, e) == n + i + 1);
            assert(e == k + 2 + i);
        } else if s == ps[k] && m > 0 && t == ts2.len() - 1 {
            assert(ts2 == g[s].transitions@.push((x[k], StateId(n as usize))));
            assert(ts2[t] == (x[k], StateId(n as usize)));
            assert(e == k + 1);
        } else {
            if s == ps[k] {
                if m > 0 {
                    assert(ts2 == g[s].transitions@.push((x[k], StateId(n as usize))));
                    assert(ts2[t] == g[s].transitions@[t]);
                }
            } else {
                assert(g2[s] == g[s]);
            }
            assert(ts2[t] == g[s].transitions@[t]);
            assert(targets_below(g[s].transitions@, n));
            assert(g[s].transitions@[t].1.0 < n);
            assert(e < ps.len());
            assert(g[s].transitions@[t].1.0 == ps[e]);
        }
    }
    assert forall|j: int, e: int|
        #![trigger reg[j], path_state(g2, x, e)]
        0 <= j < reg.len() && 0 <= e <= x.len() implies reg[j].0 != path_state(g2, x, e) by {
        if e < ps.len() {
            assert(reg[j].0 != ps[e]);
        }
    }
}

/// State `s` of `g` leads to a terminal state along some word.
spec fn live(g: Seq<State>, s: int) -> bool {
    exists|w: Seq<Letter>| #[trigger] graph_accepts(g, s, w)
}

/// Every state of `g` but the initial one leads to a terminal state.
spec fn all_live(g: Seq<State>) -> bool {
    forall|i: int| 1 <= i < g.len() ==> #[trigger] live(g, i)
}

/// Hanging the rest of `x` below a graph whose states other than the
/// initial one all lead to terminal states keeps that so: the old states
/// still accept what they did, and each fresh state accepts the rest of `x`
/// beyond it.
proof fn lemma_hung_live(g0: Seq<State>, g1: Seq<State>, g2: Seq<State>, ps: Seq<int>, x: Seq<Letter>)
    requires
        all_live(g0),
        g1.len() == g0.len(),
        forall|s: int, w: Seq<Letter>| #[trigger] graph_accepts(g1, s, w) == graph_accepts(g0, s, w),
        hung(g1, g2, ps, x),
    ensures
        all_live(g2),
{
    let n = g1.len() as int;
    let k = ps.len() - 1;
    assert forall|i: int| 1 <= i < g2.len() implies #[trigger] live(g2, i) by {
        if i < n {
            assert(live(g0, i));
            let w = choose|w: Seq<Letter>| #[trigger] graph_accepts(g0, i, w);
            assert(graph_accepts(g1, i, w));
            lemma_hung_accepts(g1, g2, ps, x, w);
            assert(grown_accepts(g1, ps, x, i, w));
            assert(graph_accepts(g2, i, w));
        } else {
            let w = x.subrange(k + 1 + (i - n), x.len() as int);
            lemma_hung_accepts(g1, g2, ps, x, w);
            assert(grown_accepts(g1, ps, x, i, w));
            assert(graph_accepts(g2, i, w));
        }
    }
}

/// `a` comes no later than `b` in alphabetical order: it is a prefix of
/// `b`, or has the earlier letter where they first differ.
pub open spec fn in_order(a: Seq<Letter>, b: Seq<Letter>) -> bool
    decreases a.len(),
{
    if a.len() == 0 {
        true
    } else if b.len() == 0 {
        false
    } else if a[0] == b[0] {
        in_order(a.drop_first(), b.drop_first())
    } else {
        a[0].index() < b[0].index()
    }
}

impl FsmBuilder {
    /// The states' transitions have distinct labels and lead to existing
    /// states, and the register holds existing states.
    closed spec fn graph_wf(&self) -> bool {
        &&& self.states@.len() >= 1
        &&& self.deleted@.len() == self.states@.len()
        &&& forall|i: int| 0 <= i < self.states@.len() ==> distinct_labels(#[trigger] self.states@[i].transitions@)
            && targets_below(self.states@[i].transitions@, self.states@.len() as int)
        &&& forall|k: int| 0 <= k < self.register@.len() ==> (#[trigger] self.register@[k]).0 < self.states@.len()
    }

    /// The builder is well formed: its graph is, and the last inserted word
    /// is a path from the initial state along the most recent transitions,
    /// entered only along itself and holding no registered state.
    pub closed spec fn wf(&self) -> bool {
        &&& self.graph_wf()
        &&& path_ok(self.states@, self.register@, self.previous_seq@)
        &&& all_live(self.states@)
    }

    /// The number of states ever created.
    pub closed spec fn spec_len(&self) -> nat {
        self.states@.len()
    }

    /// The last inserted sequence.
    pub closed spec fn spec_previous(&self) -> Seq<Letter> {
        self.previous_seq@
    }

    /// Whether the initial state is terminal (the empty word was inserted).
    pub closed spec fn spec_root_terminal(&self) -> bool {
        self.states@[0].is_terminal
    }

    /// A builder holding only the initial, non-terminal state.
    pub fn new() -> (b: FsmBuilder)
        ensures
            b.wf(),
            b.spec_len() == 1,
            b.spec_previous() == Seq::<Letter>::empty(),
            !b.spec_root_terminal(),
            forall|w: Seq<Letter>| !#[trigger] b.spec_accepts(w),
    {
        let mut states: Vec<State> = Vec::new();
        states.push(State { is_terminal: false, transitions: Vec::new() });
        let mut deleted: Vec<bool> = Vec::new();
        deleted.push(false);
        FsmBuilder { states, deleted, previous_seq: Vec::new(), register: Vec::new() }
    }

    /// Finds the length of the sequence that is common to both sequences,
    /// and starts at the beginning.
    fn common_prefix_len(a: &[Letter], b: &[Letter]) -> (r: usize)
        ensures
            r <= a@.len(),
            r <= b@.len(),
            forall|k: int| 0 <= k < r ==> a@[k] == b@[k],
            r < a@.len() && r < b@.len() ==> a@[r as int] != b@[r as int],
    {
        let mut i: usize = 0;
        while i < a.len() && i < b.len() && a[i] == b[i]
            invariant
                i <= a@.len(),
                i <= b@.len(),
                forall|k: int| 0 <= k < i ==> a@[k] == b@[k],
            decreases a@.len() - i,
        {
            i = i + 1;
        }
        i
    }

    /// Inserts a suffix into the fsm from `last_state_id`, as a new branch
    /// of fresh states, the last of which is terminal. The state must not
    /// already have a transition labelled with the suffix's first letter.
    fn add_suffix(&mut self, last_state_id: StateId, suffix: &[Letter])
        requires
            old(self).graph_wf(),
            last_state_id.0 < old(self).spec_len(),
            suffix@.len() > 0 ==> find_target(
                old(self).states@[last_state_id.0 as int].transitions@,
                suffix@[0],
            ) is None,
        ensures
            final(self).graph_wf(),
            final(self).spec_len() == old(self).spec_len() + suffix@.len(),
            final(self).spec_previous() == old(self).spec_previous(),
            final(self).register@ == old(self).register@,
            added_suffix(old(self).states@, final(self).states@, last_state_id.0 as int, suffix@),
    {
        let ghost n0 = self.states@.len();
        let ghost g0 = self.states@;
        let ghost last = last_state_id.0 as int;
        let ghost m = suffix@.len();
        let mut curr = last_state_id.0;
        let mut i: usize = 0;
        while i < suffix.len()
            invariant
                i <= suffix@.len(),
                m == suffix@.len(),
                n0 == g0.len(),
                0 <= last < n0,
                self.states@.len() == n0 + i,
                self.graph_wf(),
                curr == (if i == 0 { last } else { n0 + i - 1 }),
                self.previous_seq@ == old(self).previous_seq@,
                self.register@ == old(self).register@,
                suffix@.len() > 0 ==> find_target(g0[last].transitions@, suffix@[0]) is None,
                forall|j: int| 0 <= j < n0 && j != last ==> #[trigger] self.states@[j] == g0[j],
                self.states@[last].is_terminal == g0[last].is_terminal,
                self.states@[last].transitions@ == (if i == 0 {
                    g0[last].transitions@
                } else {
                    g0[last].transitions@.push((suffix@[0], StateId(n0 as usize)))
                }),
                forall|j: int|
                    0 <= j < i ==> !(#[trigger] self.states@[n0 + j]).is_terminal
                        && self.states@[n0 + j].transitions@ == (if j + 1 < i {
                            seq![(suffix@[j + 1], StateId((n0 + j + 1) as usize))]
                        } else {
                            Seq::<(Letter, StateId)>::empty()
                        }),
            decreases suffix@.len() - i,
        {
            let ch = suffix[i];
            let id = self.states.len();
            let ghost before = self.states@;
            self.states.push(State { is_terminal: false, transitions: Vec::new() });
            self.deleted.push(false);
            let mut ts = crate::util::fsm::fast_fsm::copy_transitions(&self.states[curr].transitions);
            let term = self.states[curr].is_terminal;
            proof {
                lemma_find_target(ts@, ch);
                if i > 0 {
                    let jj = i - 1;
                    assert(!before[n0 + jj].is_terminal);
                    assert(self.states@[curr as int] == before[n0 + jj]);
                    assert(ts@.len() == 0);
                }
            }
            match find_in(&ts, ch) {
                Some(k) => {
                    ts.set(k, (ch, StateId(id)));
                },
                None => {
                    ts.push((ch, StateId(id)));
                },
            }
            proof {
                assert forall|j: int| 0 <= j < self.states@.len() implies distinct_labels(#[trigger] self.states@[j].transitions@)
                    && targets_below(self.states@[j].transitions@, self.states@.len() as int) by {
                    if j < id {
                        assert(targets_below(before[j].transitions@, n0 + i));
                    }
                }
                assert(distinct_labels(ts@)) by {
                    assert forall|a: int, b: int| 0 <= a < b < ts@.len() implies (#[trigger] ts@[a]).0 != (#[trigger] ts@[b]).0 by {
                        if b == ts@.len() - 1 {
                            assert(ts@[a] == self.states@[curr as int].transitions@[a]);
                        }
                    }
                }
            }
            self.states.set(curr, State { is_terminal: term, transitions: ts });
            proof {
                assert forall|j: int|
                    0 <= j < i + 1 implies !(#[trigger] self.states@[n0 + j]).is_terminal
                        && self.states@[n0 + j].transitions@ == (if j + 1 < i + 1 {
                            seq![(suffix@[j + 1], StateId((n0 + j + 1) as usize))]
                        } else {
                            Seq::<(Letter, StateId)>::empty()
                        }) by {
                    if j + 1 == i && i > 0 {
                        assert(self.states@[n0 + j].transitions@ =~= seq![(suffix@[j + 1], StateId((n0 + j + 1) as usize))]);
                    }
                }
            }
            curr = id;
            i = i + 1;
        }
        let ts = crate::util::fsm::fast_fsm::copy_transitions(&self.states[curr].transitions);
        self.states.set(curr, State { is_terminal: true, transitions: ts });
    }
}

impl FsmBuilder {
    /// Remove a state by id, marking it deleted (its children stay).
    fn delete_state(&mut self, id: StateId)
        requires
            old(self).graph_wf(),
            id.0 < old(self).spec_len(),
        ensures
            final(self).graph_wf(),
            final(self).spec_len() == old(self).spec_len(),
            final(self).spec_previous() == old(self).spec_previous(),
            final(self).states@ == old(self).states@,
            final(self).register@ == old(self).register@,
            final(self).deleted@ == old(self).deleted@.update(id.0 as int, true),
    {
        self.deleted.set(id.0, true);
    }

    /// Recursively checks whether two states are identical: both terminal
    /// or both not, with the same labels leading to identical states.
    /// `budget` bounds the depth of the comparison; the number of states is
    /// enough, as no path of the acyclic machine is longer. When it answers
    /// yes, both states accept the same words.
    fn states_eq(&self, a_id: StateId, b_id: StateId, budget: usize) -> (r: bool)
        requires
            self.graph_wf(),
            a_id.0 < self.spec_len(),
            b_id.0 < self.spec_len(),
        ensures
            r == same_state(self.states@, a_id.0 as int, b_id.0 as int, budget as nat),
            r ==> lang_eq(self.states@, a_id.0 as int, b_id.0 as int),
        decreases budget, 1usize,
    {
        let a_state = &self.states[a_id.0];
        let b_state = &self.states[b_id.0];
        if a_state.is_terminal != b_state.is_terminal {
            return false;
        }
        let r = self.children_eq(a_id, b_id, budget);
        proof {
            if r {
                let g = self.states@;
                let (a, b) = (a_id.0 as int, b_id.0 as int);
                assert forall|w: Seq<Letter>| #[trigger] graph_accepts(g, a, w) == graph_accepts(g, b, w) by {
                    if w.len() > 0 {
                        assert(same_child(g, a, b, w[0]));
                        match (find_target(g[a].transitions@, w[0]), find_target(g[b].transitions@, w[0])) {
                            (Some(x), Some(y)) => {
                                assert(graph_accepts(g, x.0 as int, w.drop_first())
                                    == graph_accepts(g, y.0 as int, w.drop_first()));
                            },
                            _ => {},
                        }
                    }
                }
            }
        }
        r
    }

    /// Checks that the children of two states are identical: the same
    /// labels, leading to identical states.
    fn children_eq(&self, a_id: StateId, b_id: StateId, budget: usize) -> (r: bool)
        requires
            self.graph_wf(),
            a_id.0 < self.spec_len(),
            b_id.0 < self.spec_len(),
        ensures
            r == same_children(self.states@, a_id.0 as int, b_id.0 as int, budget as nat),
            r ==> forall|l: Letter| #[trigger] same_child(self.states@, a_id.0 as int, b_id.0 as int, l),
        decreases budget, 0usize,
    {
        let ghost g = self.states@;
        let a_ts = &self.states[a_id.0].transitions;
        let b_ts = &self.states[b_id.0].transitions;
        if a_ts.len() != b_ts.len() {
            return false;
        }
        if a_ts.len() > 0 && budget == 0 {
            return false;
        }
        let mut i: usize = 0;
        while i < a_ts.len()
            invariant
                self.graph_wf(),
                g == self.states@,
                a_id.0 < self.spec_len(),
                b_id.0 < self.spec_len(),
                *a_ts == self.states@[a_id.0 as int].transitions,
                *b_ts == self.states@[b_id.0 as int].transitions,
                a_ts@.len() > 0 ==> budget > 0,
                a_ts@.len() == b_ts@.len(),
                forall|k: int| 0 <= k < i ==> matched(g, b_ts@, #[trigger] a_ts@[k]),
                forall|k: int|
                    0 <= k < i ==> match find_target(b_ts@, (#[trigger] a_ts@[k]).0) {
                        Some(u) => same_state(g, a_ts@[k].1.0 as int, u.0 as int, (budget - 1) as nat),
                        None => false,
                    },
            decreases a_ts@.len() - i,
        {
            let (l, ta) = a_ts[i];
            proof {
                lemma_find_target(b_ts@, l);
            }
            match find_in(b_ts, l) {
                None => {
                    proof {
                        assert(a_ts@[i as int].0 == l);
                    }
                    return false;
                },
                Some(k) => {
                    let tb = b_ts[k].1;
                    proof {
                        lemma_find_target(b_ts@, l);
                    }
                    if !self.states_eq(ta, tb, budget - 1) {
                        proof {
                            assert(a_ts@[i as int].0 == l);
                            assert(find_target(b_ts@, l) == Some(tb));
                        }
                        return false;
                    }
                },
            }
            i = i + 1;
        }
        let mut j: usize = 0;
        while j < b_ts.len()
            invariant
                self.graph_wf(),
                g == self.states@,
                a_id.0 < self.spec_len(),
                b_id.0 < self.spec_len(),
                *a_ts == self.states@[a_id.0 as int].transitions,
                *b_ts == self.states@[b_id.0 as int].transitions,
                forall|k: int| 0 <= k < j ==> exists|ka: int| 0 <= ka < a_ts@.len() && a_ts@[ka].0 == (#[trigger] b_ts@[k]).0,
                a_ts@.len() == b_ts@.len(),
                a_ts@.len() > 0 ==> budget > 0,
                forall|k: int|
                    0 <= k < a_ts@.len() ==> match find_target(b_ts@, (#[trigger] a_ts@[k]).0) {
                        Some(u) => same_state(g, a_ts@[k].1.0 as int, u.0 as int, (budget - 1) as nat),
                        None => false,
                    },
                forall|k: int| 0 <= k < j ==> find_target(a_ts@, (#[trigger] b_ts@[k]).0) is Some,
            decreases b_ts@.len() - j,
        {
            proof {
                lemma_find_target(a_ts@, b_ts@[j as int].0);
            }
            match find_in(a_ts, b_ts[j].0) {
                None => {
                    return false;
                },
                Some(_) => {},
            }
            j = j + 1;
        }
        proof {
            let (a, b) = (a_id.0 as int, b_id.0 as int);
            assert(distinct_labels(g[a].transitions@) && distinct_labels(g[b].transitions@));
            assert forall|l: Letter| #[trigger] same_child(g, a, b, l) by {
                lemma_find_target(a_ts@, l);
                lemma_find_target(b_ts@, l);
                if find_target(a_ts@, l) is Some {
                    let k = choose|k: int| 0 <= k < a_ts@.len() && a_ts@[k].0 == l;
                    assert(matched(g, b_ts@, a_ts@[k]));
                } else if find_target(b_ts@, l) is Some {
                    let k = choose|k: int| 0 <= k < b_ts@.len() && b_ts@[k].0 == l;
                    assert(exists|ka: int| 0 <= ka < a_ts@.len() && a_ts@[ka].0 == b_ts@[k].0);
                }
            }
        }
        true
    }

    /// Replaces the states along the most recently added branch below
    /// `state_id` with identical registered states where there are any,
    /// registering the others. `budget` bounds the depth of the walk.
    /// Afterwards the last child of `state_id` is registered (unless that
    /// branch leads back to `state_id`), and only states below it on the
    /// branch have been marked deleted.
    fn replace_or_register(&mut self, state_id: StateId, budget: usize)
        requires
            old(self).graph_wf(),
            state_id.0 < old(self).spec_len(),
        ensures
            final(self).graph_wf(),
            final(self).spec_len() == old(self).spec_len(),
            final(self).spec_previous() == old(self).spec_previous(),
            forall|i: int| 0 <= i < old(self).spec_len() ==> (#[trigger] final(self).states@[i]).is_terminal
                == old(self).states@[i].is_terminal,
            forall|s: int, w: Seq<Letter>| #[trigger] graph_accepts(final(self).states@, s, w)
                == graph_accepts(old(self).states@, s, w),
            forall|i: int|
                0 <= i < old(self).spec_len() ==> #[trigger] final(self).states@[i] == old(self).states@[i]
                    || on_chain(old(self).states@, state_id.0 as int, i),
            forall|i: int|
                0 <= i < old(self).spec_len() ==> same_labels(
                    old(self).states@[i].transitions@,
                    #[trigger] final(self).states@[i].transitions@,
                    final(self).register@,
                ),
            old(self).register@.len() <= final(self).register@.len(),
            final(self).register@.subrange(0, old(self).register@.len() as int) == old(self).register@,
            forall|k: int|
                old(self).register@.len() <= k < final(self).register@.len() ==> below_chain(
                    old(self).states@,
                    state_id.0 as int,
                    #[trigger] final(self).register@[k].0 as int,
                ),
            budget > 0 && old(self).states@[state_id.0 as int].transitions@.len() > 0 && !below_chain(
                old(self).states@,
                state_id.0 as int,
                state_id.0 as int,
            ) ==> final(self).register@.contains(StateId(last_child(final(self).states@, state_id.0 as int) as usize)),
            forall|i: int|
                0 <= i < old(self).spec_len() && #[trigger] final(self).deleted@[i] ==> old(self).deleted@[i]
                    || below_chain(old(self).states@, state_id.0 as int, i),
        decreases budget,
    {
        let ghost g = self.states@;
        let ghost reg0 = self.register@;
        let ghost del0 = self.deleted@;
        let ghost sid = state_id.0 as int;
        proof {
            lemma_same_labels_refl(g, reg0);
        }
        if budget == 0 {
            return;
        }
        let child_transition = match self.states[state_id.0].last_transition() {
            Some(l) => l,
            None => {
                return;
            },
        };
        let k = match find_in(&self.states[state_id.0].transitions, child_transition) {
            Some(k) => k,
            None => {
                proof {
                    assert(false);
                }
                return;
            },
        };
        let child_id = self.states[state_id.0].transitions[k].1;
        proof {
            lemma_find_target(g[state_id.0 as int].transitions@, child_transition);
            Letter::lemma_index_determines(child_transition);
            assert(find_target(g[state_id.0 as int].transitions@, child_transition) == Some(child_id));
            assert(last_child(g, state_id.0 as int) == child_id.0 as int);
            assert(last_chain(g, state_id.0 as int, 1) == child_id.0 as int) by {
                assert(last_chain(g, child_id.0 as int, 0) == child_id.0 as int);
            }
        }
        self.replace_or_register(child_id, budget - 1);
        let ghost g1 = self.states@;
        let ghost reg1 = self.register@;
        let ghost del1 = self.deleted@;
        proof {
            lemma_chain_shift(g, state_id.0 as int, child_id.0 as int, g1, reg0, reg1);
            assert forall|i: int| 0 <= i < g.len() && #[trigger] del1[i] implies del0[i] || below_chain(g, sid, i) by {
                if !del0[i] {
                    let d = choose|d: nat| d >= 1 && #[trigger] last_chain(g, child_id.0 as int, d) == i;
                    let d2: nat = d + 1;
                    assert(last_chain(g, sid, d2) == last_chain(g, child_id.0 as int, d));
                }
            }
            if !below_chain(g, sid, sid) {
                if on_chain(g, child_id.0 as int, sid) {
                    let d = choose|d: nat| #[trigger] last_chain(g, child_id.0 as int, d) == sid;
                    let d2: nat = d + 1;
                    assert(last_chain(g, sid, d2) == last_chain(g, child_id.0 as int, d));
                }
                assert(g1[sid] == g[sid]);
            }
            assert(below_chain(g, sid, child_id.0 as int)) by {
                assert(last_chain(g, sid, 1) == child_id.0 as int);
            }
        }
        let n = self.states.len();
        let mut identical: Option<StateId> = None;
        let mut j: usize = 0;
        while j < self.register.len()
            invariant
                self.graph_wf(),
                self.states@ == g1,
                self.register@ == reg1,
                n == self.spec_len(),
                child_id.0 < n,
                identical matches Some(id) ==> id.0 < n && lang_eq(g1, id.0 as int, child_id.0 as int)
                    && reg1.contains(id),
            decreases self.register@.len() - j,
        {
            let node_id = self.register[j];
            if self.states_eq(node_id, child_id, n) {
                identical = Some(node_id);
                assert(reg1[j as int] == node_id);
                break;
            }
            j = j + 1;
        }
        match identical {
            Some(node_id) => {
                let mut ts = crate::util::fsm::fast_fsm::copy_transitions(&self.states[state_id.0].transitions);
                let term = self.states[state_id.0].is_terminal;
                match find_in(&ts, child_transition) {
                    Some(k2) => {
                        if ts[k2].1 == child_id {
                            let ghost p = state_id.0 as int;
                            let ghost ts0 = ts@;
                            proof {
                                lemma_retarget(ts@, k2 as int, child_transition, node_id);
                                lemma_find_target(ts@, child_transition);
                            }
                            ts.set(k2, (child_transition, node_id));
                            self.states.set(state_id.0, State { is_terminal: term, transitions: ts });
                            proof {
                                lemma_redirect(g1, self.states@, p, child_transition, child_id.0, node_id.0);
                                assert(same_labels(ts0, self.states@[p].transitions@, reg1));
                                lemma_same_labels_step(g, g1, self.states@, reg1, p);
                                assert(last_chain(g, p, 0) == p);
                                assert(on_chain(g, p, p));
                            }
                            self.delete_state(child_id);
                            proof {
                                if !below_chain(g, sid, sid) && g[sid].transitions@.len() > 0 {
                                    let g2 = self.states@;
                                    assert(g1[sid] == g[sid]);
                                    lemma_max_label_same(ts0, g2[sid].transitions@);
                                    assert(max_label(g2[sid].transitions@) == Some(child_transition.index() as int));
                                    assert(Letter::with_index(child_transition.index()) == child_transition);
                                    assert(last_child(g2, sid) == node_id.0 as int);
                                    assert(StateId(last_child(g2, sid) as usize) == node_id);
                                    assert(self.register@ == reg1);
                                    assert(self.register@.contains(node_id));
                                }
                            }
                        } else {
                            proof {
                                if !below_chain(g, sid, sid) {
                                    assert(g1[sid] == g[sid]);
                                    lemma_find_target(ts@, child_transition);
                                    assert(false);
                                }
                            }
                        }
                    },
                    None => {
                        proof {
                            if !below_chain(g, sid, sid) {
                                assert(g1[sid] == g[sid]);
                                lemma_find_target(ts@, child_transition);
                                assert(false);
                            }
                        }
                    },
                }
            },
            None => {
                self.register.push(child_id);
                proof {
                    if !below_chain(g, sid, sid) {
                        assert(last_child(g1, sid) == child_id.0 as int);
                        assert(StateId(last_child(g1, sid) as usize) == child_id);
                        assert(self.register@[reg1.len() as int] == child_id);
                    }
                    assert(self.register@.subrange(0, reg1.len() as int) =~= reg1);
                    assert(self.register@.subrange(0, reg0.len() as int) =~= reg0) by {
                        assert(reg1.subrange(0, reg0.len() as int) == reg0);
                    }
                    lemma_same_labels_grow(g, g1, reg1, self.register@);
                    assert forall|k2: int| reg0.len() <= k2 < self.register@.len() implies below_chain(
                        g,
                        state_id.0 as int,
                        #[trigger] self.register@[k2].0 as int,
                    ) by {
                        if k2 < reg1.len() {
                            assert(self.register@[k2] == reg1[k2]);
                        } else {
                            assert(last_chain(g, state_id.0 as int, 1) == self.register@[k2].0);
                        }
                    }
                }
            },
        }
    }

    /// Follows the first `len` letters of `seq` from the initial state,
    /// stopping early should a transition be missing.
    fn traverse(&self, seq: &Vec<Letter>, len: usize) -> (r: StateId)
        requires
            self.graph_wf(),
            len <= seq@.len(),
        ensures
            r.0 < self.spec_len(),
            (forall|d: int| 0 <= d <= len ==> 0 <= #[trigger] path_state(self.states@, seq@, d) < self.spec_len())
                ==> r.0 == path_state(self.states@, seq@, len as int),
    {
        let ghost g = self.states@;
        let mut curr: usize = 0;
        let mut i: usize = 0;
        while i < len
            invariant
                curr < self.states@.len(),
                self.graph_wf(),
                len <= seq@.len(),
                i <= len,
                g == self.states@,
                curr == path_state(g, seq@, i as int),
            decreases len - i,
        {
            let ts = &self.states[curr].transitions;
            proof {
                lemma_find_target(ts@, seq@[i as int]);
            }
            match find_in(ts, seq[i]) {
                Some(k) => {
                    curr = ts[k].1.0;
                },
                None => {
                    assert(path_state(g, seq@, i + 1) == -1);
                    return StateId(curr);
                },
            }
            i = i + 1;
        }
        StateId(curr)
    }

    /// Inserts a word into the builder. Words must be inserted in
    /// alphabetical order; inserting the last word again changes nothing.
    /// The builder then accepts what it did and the word.
    pub fn insert<S: FsmSequence>(&mut self, seq: S)
        requires
            old(self).wf(),
            in_order(old(self).spec_previous(), seq.spec_letters()),
        ensures
            final(self).wf(),
            final(self).spec_previous() == seq.spec_letters(),
            forall|w: Seq<Letter>| #[trigger] final(self).spec_accepts(w) == (old(self).spec_accepts(w) || w
                == seq.spec_letters()),
            final(self).spec_root_terminal() == (old(self).spec_root_terminal() || seq.spec_letters().len() == 0),
            final(self).spec_len() <= old(self).spec_len() + seq.spec_letters().len(),
    {
        let ghost g0 = self.states@;
        let ghost reg0 = self.register@;
        let ghost p = self.previous_seq@;
        let letters = seq.letters();
        let ghost x = letters@;
        let prefix_len = Self::common_prefix_len(self.previous_seq.as_slice(), letters.as_slice());
        let ghost k = prefix_len as int;
        proof {
            lemma_in_order_split(p, x, k);
            lemma_path_agree(g0, x, p, k);
            assert forall|d: int| 0 <= d <= k implies 0 <= #[trigger] path_state(g0, x, d) < g0.len() by {
                assert(path_state(g0, x, d) == path_state(g0, p, d));
            }
        }
        let last_state_id = self.traverse(&letters, prefix_len);
        let ghost pk = path_state(g0, p, k);
        assert(last_state_id.0 == pk);
        let n = self.states.len();
        self.replace_or_register(last_state_id, n);
        let ghost g1 = self.states@;
        let ghost reg1 = self.register@;
        proof {
            lemma_after_walk(g0, reg0, p, k, g1, reg1);
            assert(same_labels(g0[pk].transitions@, g1[pk].transitions@, reg1));
            lemma_max_label_same(g0[pk].transitions@, g1[pk].transitions@);
            lemma_max_label(g0[pk].transitions@);
            lemma_find_target(g1[pk].transitions@, x[k]);
            if k < x.len() {
                if find_target(g1[pk].transitions@, x[k]) is Some {
                    let q = choose|q: int| 0 <= q < g1[pk].transitions@.len() && g1[pk].transitions@[q].0 == x[k];
                    assert(g0[pk].transitions@[q].0 == x[k]);
                    if k < p.len() {
                        assert(g0[pk].transitions@[q].0.index() <= p[k].index());
                    }
                }
            }
        }
        let mut suffix: Vec<Letter> = Vec::new();
        let mut i: usize = prefix_len;
        while i < letters.len()
            invariant
                prefix_len <= i <= letters@.len(),
                suffix@ == letters@.subrange(prefix_len as int, i as int),
            decreases letters@.len() - i,
        {
            suffix.push(letters[i]);
            i = i + 1;
            assert(suffix@ =~= letters@.subrange(prefix_len as int, i as int));
        }
        self.add_suffix(last_state_id, suffix.as_slice());
        let total = self.states.len();
        let ghost g2 = self.states@;
        proof {
            assert(g1[0].is_terminal == g0[0].is_terminal);
            if k > 0 {
                assert(path_state(g0, p, 0) == 0);
                assert(path_state(g0, p, 0) != path_state(g0, p, k));
                assert(g2[0] == g1[0]);
            } else {
                assert(path_state(g0, p, 0) == 0);
                assert(suffix@.len() == x.len());
            }
            let ps = Seq::new((k + 1) as nat, |d: int| path_state(g0, p, d));
            assert forall|j: int| 0 <= j < ps.len() - 1 implies find_target(
                g1[#[trigger] ps[j]].transitions@,
                x[j],
            ) == Some(StateId(ps[j + 1] as usize)) by {
                assert(g1[path_state(g0, p, j)] == g0[path_state(g0, p, j)]);
                assert(0 <= path_state(g0, p, j + 1) < g0.len());
                assert(p[j] == x[j]);
            }
            assert forall|s2: int, t: int, e: int|
                #![trigger g1[s2].transitions@[t], ps[e]]
                0 <= s2 < g1.len() && 0 <= t < g1[s2].transitions@.len() && 0 <= e < ps.len()
                    && g1[s2].transitions@[t].1.0 == ps[e] implies 1 <= e && s2 == ps[e - 1]
                    && g1[s2].transitions@[t].0 == x[e - 1] by {
                assert(ps[e] == path_state(g0, p, e));
            }
            assert forall|a: int, b: int| 0 <= a < b < ps.len() implies #[trigger] ps[a] != #[trigger] ps[b] by {
                assert(path_state(g0, p, a) != path_state(g0, p, b));
            }
            assert forall|j: int| 0 <= j < ps.len() implies 0 <= #[trigger] ps[j] < g1.len() by {
                assert(0 <= path_state(g0, p, j) < g0.len());
            }
            assert(x.subrange(k, x.len() as int) == suffix@);
            assert(hung(g1, g2, ps, x));
            assert forall|j: int| 0 <= j < ps.len() - 1 implies max_label(g1[#[trigger] ps[j]].transitions@) == Some(
                x[j].index() as int,
            ) by {
                assert(g1[path_state(g0, p, j)] == g0[path_state(g0, p, j)]);
                assert(max_label(g0[path_state(g0, p, j)].transitions@) == Some(p[j].index() as int));
            }
            assert forall|j: int, d: int| 0 <= j < reg1.len() && 0 <= d < ps.len() implies #[trigger] reg1[j].0
                != #[trigger] ps[d] by {
                assert(reg1[j].0 != path_state(g0, p, d));
            }
            lemma_hung_path(g1, g2, ps, x, reg1);
            lemma_hung_live(g0, g1, g2, ps, x);
            assert forall|w: Seq<Letter>| #[trigger] graph_accepts(g2, 0, w) == (graph_accepts(g0, 0, w) || w == x) by {
                lemma_hung_accepts(g1, g2, ps, x, w);
                if exists|j: int| 0 <= j < ps.len() && #[trigger] ps[j] == 0 && w == x.subrange(j, x.len() as int) {
                    let j = choose|j: int| 0 <= j < ps.len() && #[trigger] ps[j] == 0 && w == x.subrange(j, x.len() as int);
                    assert(ps[0] == 0);
                    if j != 0 {
                        assert(ps[0] != ps[j]);
                    }
                    assert(x.subrange(0, x.len() as int) =~= x);
                }
                if w == x {
                    assert(ps[0] == 0);
                    assert(x.subrange(0, x.len() as int) =~= x);
                }
            }
        }
        self.previous_seq = letters;
    }
}


/// Distinct numbers below `n` are at most `n`.
proof fn lemma_distinct_below(s: Seq<int>, n: int)
    requires
        0 <= n,
        s.no_duplicates(),
        forall|k: int| 0 <= k < s.len() ==> 0 <= #[trigger] s[k] < n,
    ensures
        s.len() <= n,
{
    s.unique_seq_to_set();
    vstd::set_lib::lemma_int_range(0, n);
    assert(s.to_set().subset_of(vstd::set_lib::set_int_range(0, n)));
    vstd::set_lib::lemma_len_subset(s.to_set(), vstd::set_lib::set_int_range(0, n));
}

/// Transitions with distinct labels, all letters, are at most 26.
proof fn lemma_labels_at_most(ts: Seq<(Letter, StateId)>)
    requires
        distinct_labels(ts),
        forall|k: int| 0 <= k < ts.len() ==> (#[trigger] ts[k]).0.index() < 26,
    ensures
        ts.len() <= 26,
{
    let s = Seq::new(ts.len(), |k: int| ts[k].0.index() as int);
    assert forall|a: int, b: int| 0 <= a < s.len() && 0 <= b < s.len() && a != b implies s[a] != s[b] by {
        Letter::lemma_index_determines(ts[a].0);
        Letter::lemma_index_determines(ts[b].0);
        if a < b {
            assert(ts[a].0 != ts[b].0);
        } else {
            assert(ts[b].0 != ts[a].0);
        }
    }
    lemma_distinct_below(s, 26);
}

/// Laid end to end, `n` lists of at most 26 transitions each hold at most
/// `26 * n`.
proof fn lemma_flatten_at_most(ss: Seq<Seq<(Letter, StateId)>>, n: int)
    requires
        0 <= n <= ss.len(),
        forall|i: int| 0 <= i < ss.len() ==> (#[trigger] ss[i]).len() <= 26,
    ensures
        crate::util::fsm::small_fsm::flatten(ss, n).len() <= 26 * n,
    decreases n,
{
    if n > 0 {
        lemma_flatten_at_most(ss, n - 1);
    }
}

/// The number of `true` entries of `s`.
spec fn count_true(s: Seq<bool>) -> nat
    decreases s.len(),
{
    if s.len() == 0 {
        0
    } else {
        count_true(s.drop_last()) + if s.last() { 1nat } else { 0nat }
    }
}

proof fn lemma_count_true_le(s: Seq<bool>)
    ensures
        count_true(s) <= s.len(),
    decreases s.len(),
{
    if s.len() > 0 {
        lemma_count_true_le(s.drop_last());
    }
}

proof fn lemma_count_true_set(s: Seq<bool>, i: int)
    requires
        0 <= i < s.len(),
        !s[i],
    ensures
        count_true(s.update(i, true)) == count_true(s) + 1,
    decreases s.len(),
{
    let u = s.update(i, true);
    if i == s.len() - 1 {
        assert(u.drop_last() =~= s.drop_last());
    } else {
        assert(u.drop_last() =~= s.drop_last().update(i, true));
        lemma_count_true_set(s.drop_last(), i);
    }
}

proof fn lemma_count_true_single(s: Seq<bool>)
    requires
        s.len() >= 1,
        forall|k: int| 0 <= k < s.len() ==> s[k] == (k == 0),
    ensures
        count_true(s) == 1,
    decreases s.len(),
{
    if s.len() > 1 {
        assert(s.last() == s[s.len() - 1]);
        assert(!s[s.len() - 1]);
        assert forall|k: int| 0 <= k < s.drop_last().len() implies s.drop_last()[k] == (k == 0) by {
            assert(s.drop_last()[k] == s[k]);
        }
        lemma_count_true_single(s.drop_last());
    } else {
        assert(s.drop_last().len() == 0);
        assert(count_true(s.drop_last()) == 0);
        assert(s.last() == s[0]);
        assert(s[0]);
    }
}

/// Every transition of the graph has a distinct label within its state and
/// leads to a state of the graph.
spec fn graph_ok(g: Seq<State>) -> bool {
    forall|i: int| 0 <= i < g.len() ==> distinct_labels(#[trigger] g[i].transitions@)
        && targets_below(g[i].transitions@, g.len() as int)
}

/// The marked states include the targets of every marked state.
spec fn closed_under(g: Seq<State>, reach: Seq<bool>) -> bool {
    forall|i: int, k: int|
        #![trigger reach[i], g[i].transitions@[k]]
        0 <= i < g.len() && reach[i] && 0 <= k < g[i].transitions@.len() ==> reach[g[i].transitions@[k].1.0 as int]
}

/// The transitions `ts` with each target `t` renamed to `m[t]`.
spec fn mapped(ts: Seq<(Letter, StateId)>, m: Seq<usize>) -> Seq<(Letter, StateId)> {
    Seq::new(ts.len(), |k: int| (ts[k].0, StateId(m[ts[k].1.0 as int])))
}

/// Renaming targets renames what a search by label finds.
proof fn lemma_find_mapped(ts: Seq<(Letter, StateId)>, m: Seq<usize>, l: Letter)
    ensures
        find_target(mapped(ts, m), l) == match find_target(ts, l) {
            Some(t) => Some(StateId(m[t.0 as int])),
            None => None,
        },
    decreases ts.len(),
{
    if ts.len() > 0 {
        assert(mapped(ts, m).drop_first() =~= mapped(ts.drop_first(), m));
        lemma_find_mapped(ts.drop_first(), m, l);
    }
}

/// Marks the states reachable from the initial state.
fn reachable(states: &Vec<State>) -> (reach: Vec<bool>)
    requires
        states@.len() >= 1,
        graph_ok(states@),
    ensures
        reach@.len() == states@.len(),
        reach@[0],
        closed_under(states@, reach@),
{
    let n = states.len();
    let mut reach: Vec<bool> = Vec::new();
    let mut i: usize = 0;
    while i < n
        invariant
            i <= n,
            n == states@.len(),
            reach@.len() == i,
            forall|k: int| 0 <= k < i ==> reach@[k] == (k == 0),
        decreases n - i,
    {
        reach.push(i == 0);
        i = i + 1;
    }
    proof {
        lemma_count_true_single(reach@);
    }
    let mut order: Vec<usize> = Vec::new();
    order.push(0);
    let mut head: usize = 0;
    proof {
        assert forall|i: int| 0 <= i < n && #[trigger] reach@[i] implies exists|k: int| 0 <= k < order@.len() && order@[k] == i by {
            assert(order@[0] == 0);
        }
    }
    while head < order.len()
        invariant
            n == states@.len(),
            n >= 1,
            graph_ok(states@),
            reach@.len() == n,
            reach@[0],
            head <= order@.len(),
            order@.len() == count_true(reach@),
            forall|k: int| 0 <= k < order@.len() ==> (#[trigger] order@[k]) < n && reach@[order@[k] as int],
            forall|i: int| 0 <= i < n && #[trigger] reach@[i] ==> exists|k: int| 0 <= k < order@.len() && order@[k] == i,
            forall|k: int, j: int|
                #![trigger order@[k], states@[order@[k] as int].transitions@[j]]
                0 <= k < head && 0 <= j < states@[order@[k] as int].transitions@.len()
                ==> reach@[states@[order@[k] as int].transitions@[j].1.0 as int],
        decreases n - head,
    {
        proof {
            lemma_count_true_le(reach@);
        }
        let s = order[head];
        let ts = &states[s].transitions;
        let mut j: usize = 0;
        while j < ts.len()
            invariant
                n == states@.len(),
                n >= 1,
                graph_ok(states@),
                s < n,
                *ts == states@[s as int].transitions,
                head < order@.len(),
                order@[head as int] == s,
                reach@.len() == n,
                reach@[0],
                reach@[s as int],
                order@.len() == count_true(reach@),
                forall|k: int| 0 <= k < order@.len() ==> (#[trigger] order@[k]) < n && reach@[order@[k] as int],
                forall|i: int| 0 <= i < n && #[trigger] reach@[i] ==> exists|k: int| 0 <= k < order@.len() && order@[k] == i,
                forall|k: int, jj: int|
                    #![trigger order@[k], states@[order@[k] as int].transitions@[jj]]
                    0 <= k < head && 0 <= jj < states@[order@[k] as int].transitions@.len()
                    ==> reach@[states@[order@[k] as int].transitions@[jj].1.0 as int],
                forall|jj: int| 0 <= jj < j ==> reach@[(#[trigger] ts@[jj]).1.0 as int],
                j <= ts@.len(),
            decreases ts@.len() - j,
        {
            let t = ts[j].1.0;
            proof {
                assert(targets_below(states@[s as int].transitions@, n as int));
                assert(ts@[j as int].1.0 < n);
            }
            if !reach[t] {
                proof {
                    lemma_count_true_set(reach@, t as int);
                }
                let ghost old_order = order@;
                let ghost old_reach = reach@;
                reach.set(t, true);
                order.push(t);
                proof {
                    assert(order@[order@.len() - 1] == t);
                    assert forall|i: int| 0 <= i < n && #[trigger] reach@[i] implies exists|k: int| 0 <= k < order@.len() && order@[k] == i by {
                        if i == t {
                            assert(order@[order@.len() - 1] == i);
                        } else {
                            assert(old_reach[i]);
                            let k = choose|k: int| 0 <= k < old_order.len() && old_order[k] == i;
                            assert(order@[k] == i);
                        }
                    }
                }
            }
            j = j + 1;
        }
        head = head + 1;
    }
    proof {
        assert forall|i: int, k: int|
            #![trigger reach@[i], states@[i].transitions@[k]]
            0 <= i < states@.len() && reach@[i] && 0 <= k < states@[i].transitions@.len()
            implies reach@[states@[i].transitions@[k].1.0 as int] by {
            let q = choose|q: int| 0 <= q < order@.len() && order@[q] == i;
            assert(order@[q] == i);
        }
    }
    reach
}


/// Numbers the marked states: the initial state first, then the other
/// non-terminal ones, then the terminal ones. Returns the states in their
/// new order, the new number of each marked state, and how many are
/// non-terminal.
fn renumber(states: &Vec<State>, reach: &Vec<bool>) -> (r: (Vec<usize>, Vec<usize>, usize))
    requires
        states@.len() >= 1,
        reach@.len() == states@.len(),
        reach@[0],
        !states@[0].is_terminal,
    ensures
        r.0@.len() >= 1,
        r.0@[0] == 0,
        1 <= r.2 <= r.0@.len(),
        r.1@.len() == states@.len(),
        forall|k: int| 0 <= k < r.0@.len() ==> (#[trigger] r.0@[k]) < states@.len() && reach@[r.0@[k] as int]
            && r.1@[r.0@[k] as int] == k && (k < r.2 <==> !states@[r.0@[k] as int].is_terminal),
        forall|i: int| 0 <= i < states@.len() && #[trigger] reach@[i] ==> r.1@[i] < r.0@.len() && r.0@[r.1@[i] as int] == i,
{
    let n = states.len();
    let mut m: Vec<usize> = Vec::new();
    let mut i: usize = 0;
    while i < n
        invariant
            i <= n,
            m@.len() == i,
            forall|k: int| 0 <= k < i ==> m@[k] == 0,
        decreases n - i,
    {
        m.push(0);
        i = i + 1;
    }
    let mut order: Vec<usize> = Vec::new();
    order.push(0);
    let mut i: usize = 1;
    while i < n
        invariant
            1 <= i <= n,
            n == states@.len(),
            reach@.len() == n,
            reach@[0],
            !states@[0].is_terminal,
            m@.len() == n,
            m@[0] == 0,
            order@.len() >= 1,
            order@[0] == 0,
            forall|k: int| 0 <= k < order@.len() ==> (#[trigger] order@[k]) < i && reach@[order@[k] as int]
                && m@[order@[k] as int] == k && !states@[order@[k] as int].is_terminal,
            forall|j: int| 0 <= j < i && #[trigger] reach@[j] && !states@[j].is_terminal
                ==> m@[j] < order@.len() && order@[m@[j] as int] == j,
        decreases n - i,
    {
        if reach[i] && !states[i].is_terminal {
            m.set(i, order.len());
            order.push(i);
        }
        i = i + 1;
    }
    let nt = order.len();
    let mut i: usize = 1;
    while i < n
        invariant
            1 <= i <= n,
            n == states@.len(),
            reach@.len() == n,
            m@.len() == n,
            1 <= nt <= order@.len(),
            order@[0] == 0,
            forall|k: int| 0 <= k < order@.len() ==> (#[trigger] order@[k]) < n && reach@[order@[k] as int]
                && m@[order@[k] as int] == k && (k < nt <==> !states@[order@[k] as int].is_terminal),
            forall|k: int| nt <= k < order@.len() ==> (#[trigger] order@[k]) < i,
            forall|j: int| 0 <= j < n && #[trigger] reach@[j] && !states@[j].is_terminal
                ==> m@[j] < order@.len() && order@[m@[j] as int] == j,
            forall|j: int| 0 <= j < i && #[trigger] reach@[j] && states@[j].is_terminal
                ==> m@[j] < order@.len() && order@[m@[j] as int] == j,
        decreases n - i,
    {
        if reach[i] && states[i].is_terminal {
            m.set(i, order.len());
            order.push(i);
        }
        i = i + 1;
    }
    (order, m, nt)
}

/// Whether the word `w` leads from state `s` of `f` to a terminal state.
spec fn fast_accepts(f: &FastFsm, s: usize, w: Seq<Letter>) -> bool {
    match run(f, StateId(s), w) {
        Some(t) => f.spec_terminal(t),
        None => false,
    }
}

/// A machine whose states are the marked states of `g`, renumbered by `m`
/// with their transitions renamed accordingly, accepts from each the same
/// words as `g`.
proof fn lemma_convert(
    g: Seq<State>,
    f: &FastFsm,
    order: Seq<usize>,
    m: Seq<usize>,
    nt: int,
    reach: Seq<bool>,
    w: Seq<Letter>,
)
    requires
        graph_ok(g),
        closed_under(g, reach),
        reach.len() == g.len(),
        m.len() == g.len(),
        f.spec_states().len() == order.len(),
        0 <= nt <= order.len(),
        f.spec_terminal_count() == order.len() - nt,
        forall|q: int| 0 <= q < order.len() ==> (#[trigger] order[q]) < g.len()
            && f.spec_states()[q] == mapped(g[order[q] as int].transitions@, m)
            && (q < nt <==> !g[order[q] as int].is_terminal),
        forall|i: int| 0 <= i < g.len() && #[trigger] reach[i] ==> m[i] < order.len() && order[m[i] as int] == i,
    ensures
        forall|i: int| 0 <= i < g.len() && #[trigger] reach[i] ==> fast_accepts(f, m[i], w) == graph_accepts(g, i, w),
    decreases w.len(),
{
    FastFsm::lemma_semantics(f);
    if w.len() > 0 {
        lemma_convert(g, f, order, m, nt, reach, w.drop_first());
        assert forall|i: int| 0 <= i < g.len() && #[trigger] reach[i] implies fast_accepts(f, m[i], w) == graph_accepts(g, i, w) by {
            let ts = g[i].transitions@;
            let q = m[i] as int;
            assert(order[q] == i);
            assert(f.spec_states()[q] == mapped(ts, m));
            lemma_run_first(f, StateId(m[i]), w);
            lemma_find_mapped(ts, m, w[0]);
            lemma_find_target(ts, w[0]);
            match find_target(ts, w[0]) {
                Some(t) => {
                    let k = choose|k: int| 0 <= k < ts.len() && ts[k].0 == w[0];
                    assert(ts[k].1 == t);
                    assert(reach[ts[k].1.0 as int]);
                    assert(fast_accepts(f, m[t.0 as int], w.drop_first()) == graph_accepts(g, t.0 as int, w.drop_first()));
                },
                None => {},
            }
        }
    } else {
        assert forall|i: int| 0 <= i < g.len() && #[trigger] reach[i] implies fast_accepts(f, m[i], w) == graph_accepts(g, i, w) by {
            let q = m[i] as int;
            assert(order[q] == i);
        }
    }
}

/// State `q` of `f` leads to a terminal state along some word.
spec fn fast_live(f: &FastFsm, q: int) -> bool {
    exists|w: Seq<Letter>| #[trigger] fast_accepts(f, q as usize, w)
}

/// Where every transition of `f` leads to a state of `f`, so does every
/// path from the initial state.
proof fn lemma_run_valid(f: &FastFsm, v: Seq<Letter>)
    requires
        f.spec_states().len() >= 1,
        forall|q: int| 0 <= q < f.spec_states().len() ==> targets_below(
            #[trigger] f.spec_states()[q],
            f.spec_states().len() as int,
        ),
    ensures
        run(f, f.spec_initial(), v) matches Some(t) ==> t.0 < f.spec_states().len(),
    decreases v.len(),
{
    FastFsm::lemma_semantics(f);
    if v.len() > 0 {
        lemma_run_valid(f, v.drop_last());
        if let Some(p) = run(f, f.spec_initial(), v.drop_last()) {
            let ts = f.spec_states()[p.0 as int];
            lemma_find_some(ts, v.last());
            if let Some(t) = find_target(ts, v.last()) {
                let k = choose|k: int| 0 <= k < ts.len() && #[trigger] ts[k] == (v.last(), t);
                assert(targets_below(ts, f.spec_states().len() as int));
                assert(ts[k].1.0 < f.spec_states().len());
            }
        }
    }
}

/// In a machine whose states all lead to terminal states, or whose
/// initial state has no transition, a sequence can be followed from the
/// initial state exactly when it is empty or begins an accepted word.
proof fn lemma_prefixes(f: &FastFsm, v: Seq<Letter>)
    requires
        f.spec_states().len() >= 1,
        forall|q: int| 0 <= q < f.spec_states().len() ==> targets_below(
            #[trigger] f.spec_states()[q],
            f.spec_states().len() as int,
        ),
        f.spec_states()[0].len() == 0 || forall|q: int| 0 <= q < f.spec_states().len() ==> #[trigger] fast_live(f, q),
    ensures
        run(f, f.spec_initial(), v) is Some <==> (v.len() == 0 || exists|w: Seq<Letter>| accepts_word(f, v + w)),
{
    FastFsm::lemma_semantics(f);
    let init = f.spec_initial();
    if exists|w: Seq<Letter>| accepts_word(f, v + w) {
        let w = choose|w: Seq<Letter>| accepts_word(f, v + w);
        lemma_run_append(f, init, v, w);
    }
    if v.len() > 0 && run(f, init, v) is Some {
        if f.spec_states()[0].len() == 0 {
            lemma_run_first(f, init, v);
            assert(find_target(f.spec_states()[0], v[0]) is None);
        } else {
            lemma_run_valid(f, v);
            let t = run(f, init, v)->0;
            assert(fast_live(f, t.0 as int));
            let w = choose|w: Seq<Letter>| #[trigger] fast_accepts(f, t.0, w);
            lemma_run_append(f, init, v, w);
            assert(accepts_word(f, v + w));
        }
    }
}

impl FsmBuilder {
    /// Whether the machine under construction accepts the word `w`.
    pub closed spec fn spec_accepts(&self, w: Seq<Letter>) -> bool {
        graph_accepts(self.states@, 0, w)
    }

    /// Finishes the construction: merges what remains of the last branch,
    /// then lays the states out as a [`FastFsm`] that accepts exactly the
    /// words that the builder accepts, and in which a sequence can be
    /// followed from the initial state exactly when it is empty or begins
    /// an accepted word. The initial state must not be terminal: the empty
    /// word cannot be accepted.
    pub fn build(self) -> (f: FastFsm)
        requires
            self.wf(),
            !self.spec_root_terminal(),
        ensures
            forall|w: Seq<Letter>| #[trigger] accepts_word(&f, w) == self.spec_accepts(w),
            forall|v: Seq<Letter>| #[trigger] run(&f, f.spec_initial(), v) is Some <==> (v.len() == 0 || exists|
                w: Seq<Letter>,
            | accepts_word(&f, v + w)),
            f.spec_states().len() <= self.spec_len(),
            forall|i: int| 0 <= i < f.spec_states().len() ==> (#[trigger] f.spec_states()[i]).len() <= 26,
    {
        let ghost g0 = self.states@;
        let ghost root_live = g0[0].transitions@.len() > 0;
        proof {
            if root_live {
                let ts = g0[0].transitions@;
                let l = ts[0].0;
                let j = ts[0].1.0 as int;
                assert(targets_below(ts, g0.len() as int));
                assert(path_state(g0, self.previous_seq@, 0) == 0);
                assert(j != 0);
                assert(live(g0, j));
                let w = choose|w: Seq<Letter>| #[trigger] graph_accepts(g0, j, w);
                let w2 = seq![l] + w;
                lemma_find_target(ts, l);
                assert(w2.drop_first() =~= w);
                assert(graph_accepts(g0, 0, w2));
                assert(live(g0, 0));
            }
        }
        let mut b = self;
        let n = b.states.len();
        b.replace_or_register(StateId(0), n);
        let ghost g = b.states@;
        let reach = reachable(&b.states);
        let (order, m, nt) = renumber(&b.states, &reach);
        let mut fstates: Vec<FastState> = Vec::new();
        let mut k: usize = 0;
        while k < order.len()
            invariant
                k <= order@.len(),
                g == b.states@,
                graph_ok(g),
                m@.len() == g.len(),
                forall|q: int| 0 <= q < order@.len() ==> (#[trigger] order@[q]) < g.len(),
                fstates@.len() == k,
                forall|q: int| 0 <= q < k ==> (#[trigger] fstates@[q]).transitions@
                    == mapped(g[order@[q] as int].transitions@, m@),
                forall|q: int, j: int|
                    0 <= q < k && 0 <= j < fstates@[q].transitions@.len() ==> (#[trigger] fstates@[q].transitions@[j]).0.index()
                        < 26,
            decreases order@.len() - k,
        {
            let s = order[k];
            let ts = &b.states[s].transitions;
            let mut mts: Vec<(Letter, StateId)> = Vec::new();
            let mut j: usize = 0;
            while j < ts.len()
                invariant
                    j <= ts@.len(),
                    *ts == g[s as int].transitions,
                    s < g.len(),
                    graph_ok(g),
                    m@.len() == g.len(),
                    mts@ == mapped(ts@.subrange(0, j as int), m@),
                    forall|i: int| 0 <= i < mts@.len() ==> (#[trigger] mts@[i]).0.index() < 26,
                decreases ts@.len() - j,
            {
                let (l, t) = ts[j];
                let _ = l.to_index();
                proof {
                    assert(targets_below(g[s as int].transitions@, g.len() as int));
                    assert(ts@[j as int].1.0 < g.len());
                }
                mts.push((l, StateId(m[t.0])));
                j = j + 1;
                proof {
                    assert(mts@ =~= mapped(ts@.subrange(0, j as int), m@));
                }
            }
            proof {
                assert(ts@.subrange(0, ts@.len() as int) =~= ts@);
            }
            fstates.push(FastState { transitions: mts });
            k = k + 1;
        }
        proof {
            assert forall|q: int| 0 <= q < fstates@.len() implies distinct_labels(#[trigger] fstates@[q].transitions@)
                && targets_below(fstates@[q].transitions@, fstates@.len() as int) by {
                let ts = g[order@[q] as int].transitions@;
                assert(distinct_labels(ts));
                let mt = fstates@[q].transitions@;
                assert forall|a: int, c: int| 0 <= a < c < mt.len() implies (#[trigger] mt[a]).0 != (#[trigger] mt[c]).0 by {
                    assert(ts[a].0 != ts[c].0);
                }
                assert forall|j: int| 0 <= j < mt.len() implies (#[trigger] mt[j]).1.0 < fstates@.len() by {
                    assert(reach@[ts[j].1.0 as int]);
                }
            }
        }
        let f = FastFsm::from_parts(fstates, order.len() - nt);
        proof {
            let ord = Seq::new(order@.len(), |q: int| order@[q] as int);
            assert(ord.no_duplicates()) by {
                assert forall|a: int, c: int| 0 <= a < ord.len() && 0 <= c < ord.len() && a != c implies ord[a]
                    != ord[c] by {
                    assert(m@[order@[a] as int] == a && m@[order@[c] as int] == c);
                }
            }
            lemma_distinct_below(ord, g.len() as int);
            assert forall|i: int| 0 <= i < f.spec_states().len() implies (#[trigger] f.spec_states()[i]).len() <= 26 by {
                assert(f.spec_states()[i] == fstates@[i].transitions@);
                lemma_labels_at_most(fstates@[i].transitions@);
            }
        }
        proof {
            assert forall|w: Seq<Letter>| #[trigger] accepts_word(&f, w) == graph_accepts(g0, 0, w) by {
                lemma_convert(g, &f, order@, m@, nt as int, reach@, w);
                FastFsm::lemma_semantics(&f);
                assert(reach@[0]);
                assert(m@[0] == 0);
            }
        }
        proof {
            let fs = f.spec_states();
            assert forall|q: int| 0 <= q < fs.len() implies targets_below(#[trigger] fs[q], fs.len() as int) by {
                assert(fs[q] == fstates@[q].transitions@);
            }
            if root_live {
                assert forall|q: int| 0 <= q < fs.len() implies #[trigger] fast_live(&f, q) by {
                    let i = order@[q] as int;
                    assert(m@[i] == q);
                    if i == 0 {
                        assert(live(g0, 0));
                    } else {
                        assert(live(g0, i));
                    }
                    let w = choose|w: Seq<Letter>| #[trigger] graph_accepts(g0, i, w);
                    assert(graph_accepts(g, i, w));
                    lemma_convert(g, &f, order@, m@, nt as int, reach@, w);
                    assert(fast_accepts(&f, m@[i], w));
                    assert(fast_accepts(&f, q as usize, w));
                }
            } else {
                assert(g0[0].transitions@.len() == 0);
                assert(same_labels(g0[0].transitions@, g[0].transitions@, b.register@));
                assert(fs[0] == fstates@[0].transitions@);
                assert(order@[0] == 0);
                assert(fs[0] == mapped(g[0].transitions@, m@));
            }
            assert forall|v: Seq<Letter>| #[trigger] run(&f, f.spec_initial(), v) is Some <==> (v.len() == 0 || exists|
                w: Seq<Letter>,
            | accepts_word(&f, v + w)) by {
                lemma_prefixes(&f, v);
            }
        }
        f
    }
}

impl FsmBuilder {
    /// Finishes the construction as [`FsmBuilder::build`] does, laid out
    /// as a [`SmallFsm`]; gives nothing when the machine has too many
    /// states or transitions for that layout, which cannot happen while the
    /// builder has made fewer than a 26th of `u32::MAX` states.
    pub fn build_small(self) -> (r: Option<SmallFsm>)
        requires
            self.wf(),
            !self.spec_root_terminal(),
        ensures
            r matches Some(small) ==> forall|w: Seq<Letter>| #[trigger] accepts_word(&small, w) == self.spec_accepts(w),
            r matches Some(small) ==> forall|v: Seq<Letter>| #[trigger] run(&small, small.spec_initial(), v) is Some
                <==> (v.len() == 0 || exists|w: Seq<Letter>| accepts_word(&small, v + w)),
            26 * self.spec_len() < u32::MAX ==> r is Some,
    {
        let ghost b = self;
        let fast = self.build();
        let r = SmallFsm::try_from_fast(fast);
        proof {
            lemma_flatten_at_most(fast.spec_states(), fast.spec_states().len() as int);
            if r is Some {
                let small = r->0;
                SmallFsm::lemma_semantics(&small);
                FastFsm::lemma_semantics(&fast);
                assert forall|w: Seq<Letter>| #[trigger] accepts_word(&small, w) == b.spec_accepts(w) by {
                    assert(accepts_word(&fast, w) == b.spec_accepts(w));
                    crate::util::fsm::fast_fsm::lemma_same_machine(&small, &fast, w);
                }
                assert forall|v: Seq<Letter>| #[trigger] run(&small, small.spec_initial(), v) is Some <==> (v.len() == 0
                    || exists|w: Seq<Letter>| accepts_word(&small, v + w)) by {
                    crate::util::fsm::fast_fsm::lemma_same_machine(&small, &fast, v);
                    assert(run(&fast, fast.spec_initial(), v) is Some <==> (v.len() == 0 || exists|w: Seq<Letter>|
                        accepts_word(&fast, v + w)));
                    if exists|w: Seq<Letter>| accepts_word(&small, v + w) {
                        let w = choose|w: Seq<Letter>| accepts_word(&small, v + w);
                        crate::util::fsm::fast_fsm::lemma_same_machine(&small, &fast, v + w);
                        assert(accepts_word(&fast, v + w));
                    }
                    if exists|w: Seq<Letter>| accepts_word(&fast, v + w) {
                        let w = choose|w: Seq<Letter>| accepts_word(&fast, v + w);
                        crate::util::fsm::fast_fsm::lemma_same_machine(&small, &fast, v + w);
                        assert(accepts_word(&small, v + w));
                    }
                }
            }
        }
        r
    }
}

/// Each of `words` comes no later than the next in alphabetical order.
pub open spec fn words_in_order(words: Seq<Seq<Letter>>) -> bool {
    forall|i: int| 0 <= i < words.len() - 1 ==> in_order(#[trigger] words[i], words[i + 1])
}

/// The letters of each of `ws`.
pub open spec fn letters_of(ws: Seq<Vec<Letter>>) -> Seq<Seq<Letter>> {
    ws.map_values(|w: Vec<Letter>| w@)
}

impl FsmBuilder {
    /// Inserts each of `words` in turn; they must come in alphabetical
    /// order, the first no earlier than the last word inserted before. The
    /// builder then accepts what it did and each of the words.
    pub fn insert_all(&mut self, words: &Vec<Vec<Letter>>)
        requires
            old(self).wf(),
            words@.len() > 0 ==> in_order(old(self).spec_previous(), words@[0]@),
            words_in_order(letters_of(words@)),
        ensures
            final(self).wf(),
            forall|w: Seq<Letter>| #[trigger] final(self).spec_accepts(w) == (old(self).spec_accepts(w) || letters_of(
                words@,
            ).contains(w)),
            final(self).spec_root_terminal() == (old(self).spec_root_terminal() || exists|i: int|
                0 <= i < words@.len() && (#[trigger] words@[i])@.len() == 0),
    {
        let ghost ws = letters_of(words@);
        let mut i: usize = 0;
        while i < words.len()
            invariant
                i <= words@.len(),
                ws == letters_of(words@),
                words_in_order(ws),
                self.wf(),
                i == 0 ==> self.spec_previous() == old(self).spec_previous(),
                i > 0 ==> self.spec_previous() == ws[i - 1],
                words@.len() > 0 ==> in_order(old(self).spec_previous(), words@[0]@),
                forall|w: Seq<Letter>| #[trigger] self.spec_accepts(w) == (old(self).spec_accepts(w) || ws.subrange(
                    0,
                    i as int,
                ).contains(w)),
                self.spec_root_terminal() == (old(self).spec_root_terminal() || exists|j: int|
                    0 <= j < i && (#[trigger] words@[j])@.len() == 0),
            decreases words@.len() - i,
        {
            proof {
                if i > 0 {
                    assert(in_order(ws[i - 1], ws[i as int]));
                }
            }
            let ghost before = *self;
            self.insert(words[i].as_slice());
            proof {
                assert(ws[i as int] == words@[i as int]@);
                assert forall|w: Seq<Letter>| #[trigger] self.spec_accepts(w) == (old(self).spec_accepts(w)
                    || ws.subrange(0, i as int + 1).contains(w)) by {
                    let s0 = ws.subrange(0, i as int);
                    let s1 = ws.subrange(0, i as int + 1);
                    if s0.contains(w) {
                        let k = choose|k: int| 0 <= k < s0.len() && #[trigger] s0[k] == w;
                        assert(s1[k] == w);
                    }
                    if s1.contains(w) {
                        let k = choose|k: int| 0 <= k < s1.len() && #[trigger] s1[k] == w;
                        if k < i {
                            assert(s0[k] == w);
                        }
                    }
                    assert(s1[i as int] == ws[i as int]);
                }
                if words@[i as int]@.len() == 0 {
                    assert(exists|j: int| 0 <= j < i + 1 && (#[trigger] words@[j])@.len() == 0);
                }
            }
            i = i + 1;
        }
        proof {
            assert(ws.subrange(0, i as int) =~= ws);
        }
    }
}

/// A machine that accepts exactly the words `ws`, at least one, and can
/// be followed from its initial state exactly along the empty sequence and
/// the beginnings of accepted words, can be followed exactly along the
/// beginnings of the words `ws`.
proof fn lemma_prefixes_of_words(f: &FastFsm, ws: Seq<Seq<Letter>>)
    requires
        ws.len() > 0,
        forall|w: Seq<Letter>| #[trigger] accepts_word(f, w) == ws.contains(w),
        forall|v: Seq<Letter>| #[trigger] run(f, f.spec_initial(), v) is Some <==> (v.len() == 0 || exists|
            w: Seq<Letter>,
        | accepts_word(f, v + w)),
    ensures
        forall|v: Seq<Letter>| #[trigger] run(f, f.spec_initial(), v) is Some <==> exists|i: int|
            0 <= i < ws.len() && v.is_prefix_of(#[trigger] ws[i]),
{
    assert forall|v: Seq<Letter>| #[trigger] run(f, f.spec_initial(), v) is Some <==> exists|i: int|
        0 <= i < ws.len() && v.is_prefix_of(#[trigger] ws[i]) by {
        if run(f, f.spec_initial(), v) is Some {
            if v.len() == 0 {
                assert(ws[0].subrange(0, 0) =~= v);
                assert(v.is_prefix_of(ws[0]));
            } else {
                let w = choose|w: Seq<Letter>| accepts_word(f, v + w);
                assert(ws.contains(v + w));
                let i = choose|i: int| 0 <= i < ws.len() && ws[i] == v + w;
                assert((v + w).subrange(0, v.len() as int) =~= v);
                assert(v.is_prefix_of(ws[i]));
            }
        }
        if exists|i: int| 0 <= i < ws.len() && v.is_prefix_of(#[trigger] ws[i]) {
            let i = choose|i: int| 0 <= i < ws.len() && v.is_prefix_of(#[trigger] ws[i]);
            let x = ws[i];
            let w = x.subrange(v.len() as int, x.len() as int);
            assert(v + w =~= x);
            assert(ws.contains(v + w));
            assert(accepts_word(f, v + w));
        }
    }
}

/// Builds the machine of `words`, of which there must be at least one, in
/// alphabetical order and none of them empty: it accepts exactly those
/// words, and a sequence can be followed from its initial state exactly
/// when it begins one of them.
pub fn build_from_words(words: &Vec<Vec<Letter>>) -> (f: FastFsm)
    requires
        words@.len() > 0,
        words_in_order(letters_of(words@)),
        forall|i: int| 0 <= i < words@.len() ==> (#[trigger] words@[i])@.len() > 0,
    ensures
        forall|w: Seq<Letter>| #[trigger] accepts_word(&f, w) == letters_of(words@).contains(w),
        forall|v: Seq<Letter>| #[trigger] run(&f, f.spec_initial(), v) is Some <==> exists|i: int|
            0 <= i < words@.len() && v.is_prefix_of(#[trigger] letters_of(words@)[i]),
{
    let mut b = FsmBuilder::new();
    b.insert_all(words);
    let f = b.build();
    proof {
        lemma_prefixes_of_words(&f, letters_of(words@));
    }
    f
}

impl Default for FsmBuilder {
    fn default() -> (b: FsmBuilder)
        ensures
            b.wf(),
            b.spec_len() == 1,
            b.spec_previous() == Seq::<Letter>::empty(),
            !b.spec_root_terminal(),
            forall|w: Seq<Letter>| !#[trigger] b.spec_accepts(w),
    {
        FsmBuilder::new()
    }
}

} // verus!
