use vstd::prelude::*;
use std::sync::Arc;
use crate::iset::{bit64, IndexSet};
use crate::model::Specification;
use crate::path::{
    first_violated_rule, node_start, node_steps, t_duty_set, t_first_unmatched, t_superset_ok,
    PathNode,
};
use crate::pstate::{seq_get, PartialState, Val, Var};

verus! {

/// Why a candidate step was rejected. A rejection is local to the candidate:
/// the enumerator simply moves on to the next subset.
#[derive(Debug, Clone, Copy, PartialEq, Eq, Structural)]
pub enum StepError {
    /// The candidate action set violates the action rule at this index.
    ViolatesActionRule { action_rule_index: usize },
    /// This action's precondition pattern is not matched by the current
    /// state at this variable.
    ViolatesActionPrecondition { action_index: usize, var: Var },
    /// Two actions applied in the same step assign different values to this
    /// variable.
    ConflictingAssignments { var: Var },
    /// The tentative successor state's satisfied duties violate the duty
    /// rule at this index.
    ViolatesDutyRule { duty_rule_index: usize },
}

/// The first action in the step word `m` (by ascending index, from `i`
/// upward) whose precondition fails at the trace's current state, with the
/// first unmatched variable of its pattern.
pub open spec fn t_first_bad_action(
    s: Specification,
    start: PartialState,
    steps: Seq<u64>,
    m: u64,
    i: int,
) -> Option<(int, Var)>
    decreases s.actions@.len() - i,
{
    if i < 0 || i >= s.actions@.len() {
        None
    } else if bit64(m, i as u64) {
        match t_first_unmatched(s, start, steps, s.actions@[i].src_pstate.pairs()) {
            Some(v) => Some((i, v)),
            None => t_first_bad_action(s, start, steps, m, i + 1),
        }
    } else {
        t_first_bad_action(s, start, steps, m, i + 1)
    }
}

/// Folds the pairs of `ps` into the accumulated assignment `acc`: the first
/// pair whose variable already has a different value is a conflict.
pub open spec fn conflict_pairs(ps: Seq<(Var, Val)>, acc: Map<Var, Val>) -> Result<
    Map<Var, Val>,
    Var,
>
    decreases ps.len(),
{
    if ps.len() == 0 {
        Ok(acc)
    } else if acc.contains_key(ps[0].0) && acc[ps[0].0] != ps[0].1 {
        Err(ps[0].0)
    } else {
        conflict_pairs(ps.drop_first(), acc.insert(ps[0].0, ps[0].1))
    }
}

/// Folds the postconditions of every action in the step word `m`, by
/// ascending action index from `i` upward, into `acc`.
pub open spec fn conflict_scan(s: Specification, m: u64, i: int, acc: Map<Var, Val>) -> Result<
    Map<Var, Val>,
    Var,
>
    decreases s.actions@.len() - i,
{
    if i < 0 || i >= s.actions@.len() {
        Ok(acc)
    } else if !bit64(m, i as u64) {
        conflict_scan(s, m, i + 1, acc)
    } else {
        match conflict_pairs(s.actions@[i].dst_pstate.pairs(), acc) {
            Err(v) => Err(v),
            Ok(acc2) => conflict_scan(s, m, i + 1, acc2),
        }
    }
}

/// The first variable assigned two different values by the actions of the
/// step word `m`, if any, in the scan order: ascending action index, and
/// within one action its postcondition's storage order.
pub open spec fn first_conflict(s: Specification, m: u64) -> Option<Var> {
    match conflict_scan(s, m, 0, Map::empty()) {
        Ok(_) => None,
        Err(v) => Some(v),
    }
}

/// The combined assignment that the step word `m` contributes, when it is
/// conflict-free.
pub open spec fn merged_delta(s: Specification, m: u64) -> Map<Var, Val> {
    match conflict_scan(s, m, 0, Map::empty()) {
        Ok(a) => a,
        Err(_) => Map::empty(),
    }
}

/// Folding a sorted postcondition either reports a conflict or extends the
/// accumulator with exactly its assignments, leaving earlier entries as they
/// were. Stated at one variable `k`.
proof fn lemma_conflict_pairs_ok(ps: Seq<(Var, Val)>, acc: Map<Var, Val>, acc2: Map<Var, Val>, k: Var)
    requires
        crate::pstate::seq_sorted(ps),
        conflict_pairs(ps, acc) == Ok::<Map<Var, Val>, Var>(acc2),
    ensures
        acc.contains_key(k) ==> acc2.contains_key(k) && acc2[k] == acc[k],
        seq_get(ps, k) is Some ==> acc2.contains_key(k) && Some(acc2[k]) == seq_get(ps, k),
    decreases ps.len(),
{
    if ps.len() > 0 {
        let k0 = ps[0].0;
        let v0 = ps[0].1;
        assert(!(acc.contains_key(k0) && acc[k0] != v0));
        crate::pstate::lemma_sorted_drop(ps);
        crate::pstate::lemma_seq_get_mem(ps, k0);
        lemma_conflict_pairs_ok(ps.drop_first(), acc.insert(k0, v0), acc2, k);
        if k == k0 {
            assert(seq_get(ps, k0) == Some(v0));
            assert(acc.insert(k0, v0).contains_key(k0));
            assert(acc.insert(k0, v0)[k0] == v0);
        } else {
            assert(seq_get(ps, k) == seq_get(ps.drop_first(), k));
            assert(acc.contains_key(k) ==> acc.insert(k0, v0)[k] == acc[k]);
        }
    }
}

/// Folding the postconditions of the actions of a step either reports a
/// conflict or records every assignment that any chosen action makes.
/// Stated at one action index `a` and one variable `k`.
proof fn lemma_conflict_scan_ok(
    s: Specification,
    m: u64,
    i: int,
    acc: Map<Var, Val>,
    acc2: Map<Var, Val>,
    a: int,
    k: Var,
)
    requires
        s.wf(),
        0 <= i <= s.actions@.len(),
        conflict_scan(s, m, i, acc) == Ok::<Map<Var, Val>, Var>(acc2),
    ensures
        acc.contains_key(k) ==> acc2.contains_key(k) && acc2[k] == acc[k],
        i <= a < s.actions@.len() && bit64(m, a as u64) && s.actions@[a].dst_pstate.spec_get(k)
            is Some ==> acc2.contains_key(k) && Some(acc2[k]) == s.actions@[a].dst_pstate.spec_get(
            k,
        ),
    decreases s.actions@.len() - i,
{
    if i < s.actions@.len() {
        if !bit64(m, i as u64) {
            lemma_conflict_scan_ok(s, m, i + 1, acc, acc2, a, k);
        } else {
            match conflict_pairs(s.actions@[i].dst_pstate.pairs(), acc) {
                Err(_) => {},
                Ok(acc1) => {
                    lemma_conflict_pairs_ok(s.actions@[i].dst_pstate.pairs(), acc, acc1, k);
                    lemma_conflict_scan_ok(s, m, i + 1, acc1, acc2, a, k);
                },
            }
        }
    }
}

/// Two actions of one step that assign the same variable two different
/// values are always caught by the postcondition consistency check.
pub proof fn lemma_conflict_detects(s: Specification, m: u64, a1: int, a2: int, k: Var)
    requires
        s.wf(),
        0 <= a1 < s.actions@.len(),
        0 <= a2 < s.actions@.len(),
        bit64(m, a1 as u64),
        bit64(m, a2 as u64),
        s.actions@[a1].dst_pstate.spec_get(k) is Some,
        s.actions@[a2].dst_pstate.spec_get(k) is Some,
        s.actions@[a1].dst_pstate.spec_get(k) != s.actions@[a2].dst_pstate.spec_get(k),
    ensures
        first_conflict(s, m) is Some,
{
    match conflict_scan(s, m, 0, Map::empty()) {
        Err(_) => {},
        Ok(acc2) => {
            lemma_conflict_scan_ok(s, m, 0, Map::empty(), acc2, a1, k);
            lemma_conflict_scan_ok(s, m, 0, Map::empty(), acc2, a2, k);
            assert(Some(acc2[k]) == s.actions@[a1].dst_pstate.spec_get(k));
            assert(Some(acc2[k]) == s.actions@[a2].dst_pstate.spec_get(k));
        },
    }
}

/// The verdict on the candidate step `m` taken after `steps`, in the fixed
/// validation order: action rules, then action preconditions, then
/// postcondition consistency, then duty rules on the tentative successor.
/// `None` means the step is legal.
pub open spec fn t_step_err(
    s: Specification,
    start: PartialState,
    steps: Seq<u64>,
    m: u64,
) -> Option<StepError> {
    match first_violated_rule(s.arules@, (IndexSet { bits: m }).to_set(), 0) {
        Some(i) => Some(StepError::ViolatesActionRule { action_rule_index: i as usize }),
        None => match t_first_bad_action(s, start, steps, m, 0) {
            Some(av) => Some(
                StepError::ViolatesActionPrecondition { action_index: av.0 as usize, var: av.1 },
            ),
            None => match first_conflict(s, m) {
                Some(v) => Some(StepError::ConflictingAssignments { var: v }),
                None => match first_violated_rule(
                    s.drules@,
                    t_duty_set(s, start, steps.push(m)),
                    0,
                ) {
                    Some(i) => Some(StepError::ViolatesDutyRule { duty_rule_index: i as usize }),
                    None => None,
                },
            },
        },
    }
}

/// No action's precondition fails exactly when every chosen action's
/// precondition pattern is matched.
pub proof fn lemma_first_bad_action_none(
    s: Specification,
    start: PartialState,
    steps: Seq<u64>,
    m: u64,
    i: int,
)
    requires
        0 <= i <= s.actions@.len(),
    ensures
        (t_first_bad_action(s, start, steps, m, i) is None) <==> (forall|a: int|
            i <= a < s.actions@.len() && bit64(m, a as u64) ==> t_first_unmatched(
                s,
                start,
                steps,
                (#[trigger] s.actions@[a]).src_pstate.pairs(),
            ) is None),
    decreases s.actions@.len() - i,
{
    if i < s.actions@.len() {
        lemma_first_bad_action_none(s, start, steps, m, i + 1);
    }
}

/// A candidate step is legal exactly when all four checks pass: every
/// action rule accepts the set, the current state matches every chosen
/// action's precondition, the chosen postconditions agree on every
/// variable, and the successor state's satisfied duties obey every duty
/// rule.
pub proof fn lemma_step_ok(s: Specification, start: PartialState, steps: Seq<u64>, m: u64)
    ensures
        (t_step_err(s, start, steps, m) is None) <==> {
            &&& forall|j: int|
                0 <= j < s.arules@.len() ==> (#[trigger] s.arules@[j]).spec_sat_set(
                    (IndexSet { bits: m }).to_set(),
                )
            &&& forall|a: int|
                0 <= a < s.actions@.len() && bit64(m, a as u64) ==> t_superset_ok(
                    s,
                    start,
                    steps,
                    (#[trigger] s.actions@[a]).src_pstate.pairs(),
                )
            &&& first_conflict(s, m) is None
            &&& forall|j: int|
                0 <= j < s.drules@.len() ==> (#[trigger] s.drules@[j]).spec_sat_set(
                    t_duty_set(s, start, steps.push(m)),
                )
        },
{
    crate::path::lemma_first_violated_none(s.arules@, (IndexSet { bits: m }).to_set(), 0);
    lemma_first_bad_action_none(s, start, steps, m, 0);
    assert forall|a: int| 0 <= a < s.actions@.len() implies ((t_first_unmatched(
        s,
        start,
        steps,
        (#[trigger] s.actions@[a]).src_pstate.pairs(),
    ) is None) <==> t_superset_ok(s, start, steps, s.actions@[a].src_pstate.pairs())) by {
        crate::path::lemma_first_unmatched_none(s, start, steps, s.actions@[a].src_pstate.pairs());
    }
    crate::path::lemma_first_violated_none(s.drules@, t_duty_set(s, start, steps.push(m)), 0);
}

/// The verdict on taking the action set `acts` at node `me`.
pub open spec fn step_err(s: Specification, me: Arc<PathNode>, acts: IndexSet) -> Option<
    StepError,
> {
    t_step_err(s, node_start(*me), node_steps(*me), acts.bits)
}

impl Specification {
    /// Collects the postcondition assignments of every action in
    /// `action_indexes` into one partial state; fails with the first
    /// variable that two actions of the step assign differently.
    pub fn consistent_assignments(&self, action_indexes: &IndexSet) -> (r: Result<
        PartialState,
        Var,
    >)
        ensures
            r matches Err(v) ==> first_conflict(*self, action_indexes.bits) == Some(v),
            r matches Ok(ps) ==> first_conflict(*self, action_indexes.bits) is None && ps.wf() && (
            forall|k: Var|
                ps.spec_get(k) == (if merged_delta(*self, action_indexes.bits).contains_key(k) {
                    Some(merged_delta(*self, action_indexes.bits)[k])
                } else {
                    None
                })),
    {
        let ghost m = action_indexes.bits;
        let mut c = PartialState::new();
        let ghost mut acc = Map::<Var, Val>::empty();
        let n = self.actions.len();
        let mut i: usize = 0;
        proof {
            assert forall|k: Var|
                c.spec_get(k) == (if acc.contains_key(k) {
                    Some(acc[k])
                } else {
                    None::<Val>
                }) by {}
        }
        while i < n
            invariant
                i <= n,
                c.wf(),
                forall|k: Var|
                    c.spec_get(k) == (if acc.contains_key(k) {
                        Some(acc[k])
                    } else {
                        None::<Val>
                    }),
                conflict_scan(*self, m, 0, Map::empty()) == conflict_scan(*self, m, i as int, acc),
            decreases n - i,
        {
            if action_indexes.contains(i) {
                let dst = &self.actions[i].dst_pstate;
                let np = dst.len();
                let mut j: usize = 0;
                proof {
                    assert(dst.pairs().skip(0) =~= dst.pairs());
                }
                while j < np
                    invariant
                        j <= np,
                        np == dst.pairs().len(),
                        c.wf(),
                        forall|k: Var|
                            c.spec_get(k) == (if acc.contains_key(k) {
                                Some(acc[k])
                            } else {
                                None::<Val>
                            }),
                        conflict_scan(*self, m, 0, Map::empty()) == (match conflict_pairs(
                            dst.pairs().skip(j as int),
                            acc,
                        ) {
                            Err(v) => Err(v),
                            Ok(acc2) => conflict_scan(*self, m, i + 1, acc2),
                        }),
                    decreases np - j,
                {
                    let (k, v) = dst.pair_at(j);
                    proof {
                        assert(dst.pairs().skip(j as int)[0] == dst.pairs()[j as int]);
                        assert(dst.pairs().skip(j as int).drop_first() =~= dst.pairs().skip(
                            j as int + 1,
                        ));
                    }
                    let old_v = c.insert(k, v);
                    if let Some(w) = old_v {
                        if w != v {
                            return Err(k);
                        }
                    }
                    proof {
                        acc = acc.insert(k, v);
                    }
                    j = j + 1;
                }
                proof {
                    assert(dst.pairs().skip(np as int) =~= Seq::<(Var, Val)>::empty());
                }
            }
            i = i + 1;
        }
        Ok(c)
    }

    /// Whether the postconditions of the actions in `action_indexes` are
    /// mutually consistent.
    pub fn postconditions_consistent(&self, action_indexes: &IndexSet) -> (r: bool)
        ensures
            r == (first_conflict(*self, action_indexes.bits) is None),
    {
        self.consistent_assignments(action_indexes).is_ok()
    }
}

impl PathNode {
    /// Validates taking the action set `acts_indexes` at node `me`, in the
    /// fixed order: action rules, action preconditions, postcondition
    /// consistency, duty rules on the tentative successor. On success the
    /// returned node extends `me` by this step, sharing `me` as its prefix.
    pub fn try_create_next_step(
        me: &Arc<PathNode>,
        acts_indexes: &IndexSet,
        spec: &Specification,
    ) -> (r: Result<PathNode, StepError>)
        requires
            spec.duties@.len() <= 64,
        ensures
            r matches Ok(n) ==> step_err(*spec, *me, *acts_indexes) is None && n is Next
                && n->Next_prev == *me && n->Next_acts_indexes == *acts_indexes,
            r matches Err(e) ==> step_err(*spec, *me, *acts_indexes) == Some(e),
    {
        let ghost m = acts_indexes.bits;
        // 1: every action rule must accept the candidate set.
        let n_ar = spec.arules.len();
        let mut i: usize = 0;
        while i < n_ar
            invariant
                i <= n_ar,
                first_violated_rule(spec.arules@, acts_indexes.to_set(), 0) == first_violated_rule(
                    spec.arules@,
                    acts_indexes.to_set(),
                    i as int,
                ),
            decreases n_ar - i,
        {
            if !spec.arules[i].satisfied_by(acts_indexes) {
                return Err(StepError::ViolatesActionRule { action_rule_index: i });
            }
            i = i + 1;
        }
        // 2: the current state must match every chosen action's precondition.
        let n_a = spec.actions.len();
        let mut a: usize = 0;
        while a < n_a
            invariant
                a <= n_a,
                t_first_bad_action(*spec, node_start(**me), node_steps(**me), m, 0)
                    == t_first_bad_action(*spec, node_start(**me), node_steps(**me), m, a as int),
            decreases n_a - a,
        {
            if acts_indexes.contains(a) {
                match me.state_assigns_superset(spec, &spec.actions[a].src_pstate) {
                    Err(var) => {
                        return Err(
                            StepError::ViolatesActionPrecondition { action_index: a, var },
                        );
                    },
                    Ok(_) => {},
                }
            }
            a = a + 1;
        }
        // 3: the chosen actions' postconditions must agree on every variable.
        match spec.consistent_assignments(acts_indexes) {
            Err(var) => {
                return Err(StepError::ConflictingAssignments { var });
            },
            Ok(_) => {},
        }
        // 4: the tentative successor's satisfied duties must obey every duty rule.
        let new_node = PathNode::Next { prev: me.clone(), acts_indexes: *acts_indexes };
        proof {
            assert(node_start(new_node) == node_start(**me));
            assert(node_steps(new_node) == node_steps(**me).push(m));
        }
        if let Some(duty_rule_index) = new_node.violated_duty_rule(spec) {
            return Err(StepError::ViolatesDutyRule { duty_rule_index });
        }
        Ok(new_node)
    }
}

/// Lazily produces every legal successor of `prev`, one per validated
/// non-empty subset of the action indices, in powerset descent order: from
/// the full action set down, by strictly decreasing word value.
pub struct NextStateStepIter<'a> {
    pub prev: &'a Arc<PathNode>,
    pub spec: &'a Specification,
    pub next_subset_to_consider: IndexSet,
}

/// The largest word `w <= m` that is a legal step for the trace, if any.
pub open spec fn t_scan(s: Specification, start: PartialState, steps: Seq<u64>, m: u64) -> Option<
    u64,
>
    decreases m,
{
    if m == 0 {
        None
    } else if t_step_err(s, start, steps, m) is None {
        Some(m)
    } else {
        t_scan(s, start, steps, (m - 1) as u64)
    }
}

/// What the iterator's cursor will find: the largest not-yet-considered word
/// that is a legal step at its node.
pub open spec fn iter_scan(it: NextStateStepIter) -> Option<u64> {
    t_scan(*it.spec, node_start(**it.prev), node_steps(**it.prev), it.next_subset_to_consider.bits)
}

/// The traces reached by taking each legal candidate step at the end of `t`,
/// in the enumerator's order: every word in `(0, m]`, visited by strictly
/// decreasing value, contributes `t.push(w)` exactly when it is a legal step.
pub open spec fn succ_traces(s: Specification, start: PartialState, t: Seq<u64>, m: u64) -> Seq<
    Seq<u64>,
>
    decreases m,
{
    if m == 0 {
        Seq::empty()
    } else if t_step_err(s, start, t, m) is None {
        seq![t.push(m)] + succ_traces(s, start, t, (m - 1) as u64)
    } else {
        succ_traces(s, start, t, (m - 1) as u64)
    }
}

/// What one scan of the cursor means for the successor list: the largest
/// legal word is its head, and the rest follow below it.
pub proof fn lemma_scan_succ(s: Specification, start: PartialState, t: Seq<u64>, m: u64)
    ensures
        match t_scan(s, start, t, m) {
            Some(w) => 0 < w <= m && t_step_err(s, start, t, w) is None && succ_traces(
                s,
                start,
                t,
                m,
            ) == seq![t.push(w)] + succ_traces(s, start, t, (w - 1) as u64),
            None => succ_traces(s, start, t, m) == Seq::<Seq<u64>>::empty(),
        },
    decreases m,
{
    if m > 0 && t_step_err(s, start, t, m) is Some {
        lemma_scan_succ(s, start, t, (m - 1) as u64);
    }
}

/// Enumeration completeness: when every non-empty candidate word up to `m`
/// is a legal step (no rule, precondition, consistency or duty check rejects
/// it), the enumerator yields exactly `m` successors, one per word in
/// `(0, m]`, in strictly descending word order, each exactly once. For `n`
/// actions the full cursor word is `2^n - 1`, so every non-empty subset of
/// the action universe appears exactly once.
pub proof fn lemma_enumeration_complete(s: Specification, start: PartialState, t: Seq<u64>, m: u64)
    requires
        forall|w: u64| 0 < w <= m ==> t_step_err(s, start, t, w) is None,
    ensures
        succ_traces(s, start, t, m).len() == m,
        forall|k: int| 0 <= k < m ==> succ_traces(s, start, t, m)[k] == t.push((m - k) as u64),
    decreases m,
{
    if m > 0 {
        lemma_enumeration_complete(s, start, t, (m - 1) as u64);
        assert forall|k: int| 0 <= k < m implies succ_traces(s, start, t, m)[k] == t.push(
            (m - k) as u64,
        ) by {
            if k > 0 {
                assert(succ_traces(s, start, t, m)[k] == succ_traces(s, start, t, (m - 1) as u64)[
                    k - 1]);
            }
        }
    }
}

impl<'a> NextStateStepIter<'a> {
    /// An enumerator whose first candidate is the full action set.
    pub fn new(prev: &'a Arc<PathNode>, spec: &'a Specification) -> (r: NextStateStepIter<'a>)
        requires
            spec.actions@.len() <= 64,
        ensures
            r.prev == prev,
            r.spec == spec,
            forall|i: u64| r.next_subset_to_consider.has(i) <==> i < spec.actions@.len(),
            spec.actions@.len() < 64 ==> r.next_subset_to_consider.bits == (1u64 << (
            spec.actions@.len() as u64)) - 1,
            spec.actions@.len() == 64 ==> r.next_subset_to_consider.bits == u64::MAX,
            spec.actions@.len() > 0 ==> r.next_subset_to_consider.bits >= 1,
    {
        NextStateStepIter { prev, spec, next_subset_to_consider: IndexSet::full(spec.actions.len()) }
    }

    /// The next legal successor node, if any candidate subset not yet
    /// considered admits one. Every call advances the cursor past the
    /// candidate it yields, or to exhaustion.
    pub fn next(&mut self) -> (r: Option<PathNode>)
        requires
            old(self).spec.duties@.len() <= 64,
        ensures
            final(self).prev == old(self).prev,
            final(self).spec == old(self).spec,
            r matches Some(node) ==> node is Next && node->Next_prev == **old(self).prev
                && iter_scan(*old(self)) == Some(node->Next_acts_indexes.bits)
                && final(self).next_subset_to_consider.bits == node->Next_acts_indexes.bits - 1,
            r is None ==> iter_scan(*old(self)) is None
                && final(self).next_subset_to_consider.bits == 0,
    {
        while self.next_subset_to_consider.bits != 0
            invariant
                self.prev == old(self).prev,
                self.spec == old(self).spec,
                iter_scan(*old(self)) == t_scan(
                    *self.spec,
                    node_start(**self.prev),
                    node_steps(**self.prev),
                    self.next_subset_to_consider.bits,
                ),
            decreases self.next_subset_to_consider.bits,
        {
            let ghost m = self.next_subset_to_consider.bits;
            let result_next = PathNode::try_create_next_step(
                self.prev,
                &self.next_subset_to_consider,
                self.spec,
            );
            self.next_subset_to_consider.try_decrease_in_powerset_order();
            match result_next {
                Ok(node) => {
                    return Some(node);
                },
                Err(_) => {},
            }
        }
        None
    }
}

} // verus!
