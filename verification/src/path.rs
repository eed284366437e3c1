use vstd::prelude::*;
use std::sync::Arc;
use crate::iset::{bit64, IndexSet};
use crate::model::{Duty, Rule, Specification};
use crate::pstate::{seq_get, seq_sorted, PartialState, Val, Var};

verus! {

/// One node of an immutable, shared history of concurrently applied action
/// sets. A node stores only the increment taken at its step and a shared
/// reference to its predecessor; no materialized state is kept. Many branches
/// may share the same prefix chain.
#[derive(Debug, Clone, PartialEq, Eq)]
pub enum PathNode {
    Start { start_state: PartialState },
    Next { prev: Arc<PathNode>, acts_indexes: IndexSet },
}

/// The start state at the root of a node's history.
pub open spec fn node_start(n: PathNode) -> PartialState
    decreases n,
{
    match n {
        PathNode::Start { start_state } => start_state,
        PathNode::Next { prev, .. } => node_start(*prev),
    }
}

/// A node's history as a trace: the word values of the action sets applied,
/// oldest first. Together with the start state, the trace determines every
/// observable property of the node.
pub open spec fn node_steps(n: PathNode) -> Seq<u64>
    decreases n,
{
    match n {
        PathNode::Start { .. } => Seq::empty(),
        PathNode::Next { prev, acts_indexes } => node_steps(*prev).push(acts_indexes.bits),
    }
}

/// Every partial state stored along the history is well formed.
pub open spec fn node_wf(n: PathNode) -> bool
    decreases n,
{
    match n {
        PathNode::Start { start_state } => start_state.wf(),
        PathNode::Next { prev, .. } => node_wf(*prev),
    }
}

/// Scans the actions from index `i` upward; the first action in the step
/// word `m` whose postcondition assigns `var` wins. Ties between actions
/// applied in the same step are thus broken by ascending action index.
pub open spec fn first_assign(s: Specification, m: u64, i: int, var: Var) -> Option<Val>
    decreases s.actions@.len() - i,
{
    if i < 0 || i >= s.actions@.len() {
        None
    } else if bit64(m, i as u64) && s.actions@[i].dst_pstate.spec_get(var) is Some {
        s.actions@[i].dst_pstate.spec_get(var)
    } else {
        first_assign(s, m, i + 1, var)
    }
}

/// The current value of `var` after applying the steps of `steps` to
/// `start`: the most recently applied step that assigns `var` wins; within
/// one step, the action with the lowest index.
pub open spec fn trace_assignment(
    s: Specification,
    start: PartialState,
    steps: Seq<u64>,
    var: Var,
) -> Option<Val>
    decreases steps.len(),
{
    if steps.len() == 0 {
        start.spec_get(var)
    } else if first_assign(s, steps.last(), 0, var) is Some {
        first_assign(s, steps.last(), 0, var)
    } else {
        trace_assignment(s, start, steps.drop_last(), var)
    }
}

/// The current value of `var` at node `n`.
pub open spec fn spec_assignment(s: Specification, n: PathNode, var: Var) -> Option<Val> {
    trace_assignment(s, node_start(n), node_steps(n), var)
}

/// The first pair of `ps` (in storage order) whose variable does not have
/// exactly the paired value at the trace's current state, if any.
pub open spec fn t_first_unmatched(
    s: Specification,
    start: PartialState,
    steps: Seq<u64>,
    ps: Seq<(Var, Val)>,
) -> Option<Var>
    decreases ps.len(),
{
    if ps.len() == 0 {
        None
    } else if trace_assignment(s, start, steps, ps[0].0) != Some(ps[0].1) {
        Some(ps[0].0)
    } else {
        t_first_unmatched(s, start, steps, ps.drop_first())
    }
}

/// The same check at a node.
pub open spec fn first_unmatched(s: Specification, n: PathNode, ps: Seq<(Var, Val)>) -> Option<
    Var,
> {
    t_first_unmatched(s, node_start(n), node_steps(n), ps)
}

/// Every pair of `ps` is present and equal in the trace's current state.
pub open spec fn t_superset_ok(
    s: Specification,
    start: PartialState,
    steps: Seq<u64>,
    ps: Seq<(Var, Val)>,
) -> bool {
    forall|i: int|
        0 <= i < ps.len() ==> trace_assignment(s, start, steps, (#[trigger] ps[i]).0) == Some(
            ps[i].1,
        )
}

/// Every pair of `ps` is present and equal in the effective state at `n`.
pub open spec fn spec_superset_ok(s: Specification, n: PathNode, ps: Seq<(Var, Val)>) -> bool {
    t_superset_ok(s, node_start(n), node_steps(n), ps)
}

/// No pair is unmatched exactly when every pair is matched.
pub proof fn lemma_first_unmatched_none(
    s: Specification,
    start: PartialState,
    steps: Seq<u64>,
    ps: Seq<(Var, Val)>,
)
    ensures
        (t_first_unmatched(s, start, steps, ps) is None) <==> t_superset_ok(s, start, steps, ps),
    decreases ps.len(),
{
    if ps.len() > 0 {
        lemma_first_unmatched_none(s, start, steps, ps.drop_first());
        if trace_assignment(s, start, steps, ps[0].0) == Some(ps[0].1) {
            assert forall|i: int|
                0 <= i < ps.len() && t_superset_ok(
                    s,
                    start,
                    steps,
                    ps.drop_first(),
                ) implies trace_assignment(s, start, steps, (#[trigger] ps[i]).0) == Some(
                ps[i].1,
            ) by {
                if i > 0 {
                    assert(ps.drop_first()[i - 1] == ps[i]);
                }
            }
            if t_superset_ok(s, start, steps, ps) {
                assert forall|i: int|
                    0 <= i < ps.drop_first().len() implies trace_assignment(
                    s,
                    start,
                    steps,
                    (#[trigger] ps.drop_first()[i]).0,
                ) == Some(ps.drop_first()[i].1) by {
                    assert(ps.drop_first()[i] == ps[i + 1]);
                }
            }
        }
    }
}

/// Whether the duty at index `di` holds for the trace.
pub open spec fn t_duty_sat(
    s: Specification,
    start: PartialState,
    steps: Seq<u64>,
    di: int,
) -> bool {
    t_superset_ok(s, start, steps, s.duties@[di].partial_state.pairs())
}

/// Whether the duty at index `di` holds at node `n`.
pub open spec fn spec_duty_sat(s: Specification, n: PathNode, di: int) -> bool {
    t_duty_sat(s, node_start(n), node_steps(n), di)
}

/// The set of duty indices satisfied by the trace's current state.
pub open spec fn t_duty_set(s: Specification, start: PartialState, steps: Seq<u64>) -> Set<u64> {
    Set::new(|i: u64| i < s.duties@.len() && t_duty_sat(s, start, steps, i as int))
}

/// The set of duty indices satisfied at node `n`.
pub open spec fn spec_duty_set(s: Specification, n: PathNode) -> Set<u64> {
    t_duty_set(s, node_start(n), node_steps(n))
}

/// The first rule (by index, from `i` upward) not satisfied by the index set
/// `ds`, if any.
pub open spec fn first_violated_rule(rules: Seq<Rule>, ds: Set<u64>, i: int) -> Option<int>
    decreases rules.len() - i,
{
    if i < 0 || i >= rules.len() {
        None
    } else if !rules[i].spec_sat_set(ds) {
        Some(i)
    } else {
        first_violated_rule(rules, ds, i + 1)
    }
}

/// No rule is violated exactly when every rule is satisfied.
pub proof fn lemma_first_violated_none(rules: Seq<Rule>, ds: Set<u64>, i: int)
    requires
        0 <= i <= rules.len(),
    ensures
        (first_violated_rule(rules, ds, i) is None) <==> (forall|j: int|
            i <= j < rules.len() ==> (#[trigger] rules[j]).spec_sat_set(ds)),
    decreases rules.len() - i,
{
    if i < rules.len() {
        lemma_first_violated_none(rules, ds, i + 1);
    }
}

/// The assignments one step contributes, as a partial state: for each
/// variable, the lowest-indexed action of the step that assigns it wins.
fn step_delta(spec: &Specification, acts: &IndexSet) -> (d: PartialState)
    ensures
        d.wf(),
        forall|k: Var| d.spec_get(k) == first_assign(*spec, acts.bits, 0, k),
{
    let ghost m = acts.bits;
    let mut d = PartialState::new();
    let n = spec.actions.len();
    let mut i: usize = 0;
    while i < n
        invariant
            i <= n,
            d.wf(),
            forall|k: Var|
                (if d.spec_get(k) is Some {
                    d.spec_get(k)
                } else {
                    first_assign(*spec, m, i as int, k)
                }) == first_assign(*spec, m, 0, k),
        decreases n - i,
    {
        if acts.contains(i) {
            let dst = &spec.actions[i].dst_pstate;
            let np = dst.len();
            let mut j: usize = 0;
            proof {
                assert(dst.pairs().skip(0) =~= dst.pairs());
            }
            while j < np
                invariant
                    j <= np,
                    np == dst.pairs().len(),
                    d.wf(),
                    forall|k: Var|
                        (if d.spec_get(k) is Some {
                            d.spec_get(k)
                        } else if seq_get(dst.pairs().skip(j as int), k) is Some {
                            seq_get(dst.pairs().skip(j as int), k)
                        } else {
                            first_assign(*spec, m, i + 1, k)
                        }) == first_assign(*spec, m, 0, k),
                decreases np - j,
            {
                let (k0, v0) = dst.pair_at(j);
                proof {
                    assert(dst.pairs().skip(j as int)[0] == dst.pairs()[j as int]);
                    assert(dst.pairs().skip(j as int).drop_first() =~= dst.pairs().skip(
                        j as int + 1,
                    ));
                }
                let have = d.get(k0);
                if have.is_none() {
                    d.insert(k0, v0);
                }
                j = j + 1;
            }
            proof {
                assert(dst.pairs().skip(np as int) =~= Seq::<(Var, Val)>::empty());
            }
        }
        i = i + 1;
    }
    d
}

impl PathNode {
    /// Materializes the effective state: the partial state that, for every
    /// variable, holds exactly the node's current assignment.
    pub fn to_partial_state(&self, spec: &Specification) -> (r: PartialState)
        requires
            node_wf(*self),
        ensures
            r.wf(),
            forall|k: Var| r.spec_get(k) == spec_assignment(*spec, *self, k),
        decreases *self,
    {
        match self {
            PathNode::Start { start_state } => {
                let r = start_state.duplicate();
                r
            },
            PathNode::Next { prev, acts_indexes } => {
                proof {
                    assert(node_steps(*self) == node_steps(**prev).push(acts_indexes.bits));
                    assert(node_steps(*self).last() == acts_indexes.bits);
                    assert(node_steps(*self).drop_last() =~= node_steps(**prev));
                    assert(node_start(*self) == node_start(**prev));
                }
                let mut r = prev.to_partial_state(spec);
                let d = step_delta(spec, acts_indexes);
                let nd = d.len();
                let mut j: usize = 0;
                proof {
                    assert(d.pairs().take(0) =~= Seq::<(Var, Val)>::empty());
                }
                while j < nd
                    invariant
                        j <= nd,
                        nd == d.pairs().len(),
                        r.wf(),
                        forall|k: Var|
                            r.spec_get(k) == (if seq_get(d.pairs().take(j as int), k) is Some {
                                seq_get(d.pairs().take(j as int), k)
                            } else {
                                spec_assignment(*spec, **prev, k)
                            }),
                    decreases nd - j,
                {
                    let (k0, v0) = d.pair_at(j);
                    proof {
                        crate::pstate::lemma_sorted_take(d.pairs(), j as int);
                        crate::pstate::lemma_sorted_prefix_lt(d.pairs(), j as int);
                        crate::pstate::lemma_seq_get_mem(d.pairs().take(j as int), k0);
                        assert(d.pairs().take(j as int + 1) =~= d.pairs().take(j as int).push(
                            d.pairs()[j as int],
                        ));
                    }
                    r.insert(k0, v0);
                    proof {
                        assert forall|k: Var|
                            r.spec_get(k) == (if seq_get(d.pairs().take(j as int + 1), k)
                                is Some {
                                seq_get(d.pairs().take(j as int + 1), k)
                            } else {
                                spec_assignment(*spec, **prev, k)
                            }) by {
                            crate::pstate::lemma_seq_get_push(
                                d.pairs().take(j as int),
                                d.pairs()[j as int],
                                k,
                            );
                        }
                    }
                    j = j + 1;
                }
                proof {
                    assert(d.pairs().take(nd as int) =~= d.pairs());
                    assert forall|k: Var| r.spec_get(k) == spec_assignment(*spec, *self, k) by {
                        assert(seq_get(d.pairs(), k) == d.spec_get(k));
                    }
                }
                r
            },
        }
    }
}

impl PathNode {
    /// The current value of `var`: looked up backward through the history,
    /// most recent step first.
    pub fn assignment(&self, spec: &Specification, var: Var) -> (r: Option<Val>)
        ensures
            r == spec_assignment(*spec, *self, var),
        decreases *self,
    {
        match self {
            PathNode::Start { start_state } => start_state.get(var),
            PathNode::Next { prev, acts_indexes } => {
                proof {
                    assert(node_steps(*self) == node_steps(**prev).push(acts_indexes.bits));
                    assert(node_steps(*self).last() == acts_indexes.bits);
                    assert(node_steps(*self).drop_last() =~= node_steps(**prev));
                    assert(node_start(*self) == node_start(**prev));
                }
                let n = spec.actions.len();
                let mut i: usize = 0;
                while i < n
                    invariant
                        n == spec.actions@.len(),
                        i <= n,
                        first_assign(*spec, acts_indexes.bits, 0, var) == first_assign(
                            *spec,
                            acts_indexes.bits,
                            i as int,
                            var,
                        ),
                    decreases n - i,
                {
                    if acts_indexes.contains(i) {
                        let got = spec.actions[i].dst_pstate.get(var);
                        if let Some(v) = got {
                            proof {
                                assert(first_assign(*spec, acts_indexes.bits, i as int, var)
                                    == Some(v));
                            }
                            return Some(v);
                        }
                    }
                    i = i + 1;
                }
                prev.assignment(spec, var)
            },
        }
    }

    /// Checks that, for every pair of `other`, the current value of the
    /// variable is exactly the paired value; reports the first variable (in
    /// `other`'s storage order) for which it is not.
    pub fn state_assigns_superset(&self, spec: &Specification, other: &PartialState) -> (r:
        Result<(), Var>)
        ensures
            r == (match first_unmatched(*spec, *self, other.pairs()) {
                None => Result::<(), Var>::Ok(()),
                Some(v) => Result::<(), Var>::Err(v),
            }),
            (r is Ok) <==> spec_superset_ok(*spec, *self, other.pairs()),
    {
        proof {
            lemma_first_unmatched_none(
                *spec,
                node_start(*self),
                node_steps(*self),
                other.pairs(),
            );
        }
        let ghost st = node_start(*self);
        let ghost sp = node_steps(*self);
        let n = other.len();
        let mut i: usize = 0;
        proof {
            assert(other.pairs().skip(0) =~= other.pairs());
        }
        while i < n
            invariant
                n == other.pairs().len(),
                i <= n,
                t_first_unmatched(*spec, st, sp, other.pairs()) == t_first_unmatched(
                    *spec,
                    st,
                    sp,
                    other.pairs().skip(i as int),
                ),
            decreases n - i,
        {
            let (var, val) = other.pair_at(i);
            proof {
                assert(other.pairs().skip(i as int)[0] == other.pairs()[i as int]);
                assert(other.pairs().skip(i as int).drop_first() =~= other.pairs().skip(
                    i as int + 1,
                ));
            }
            let got = self.assignment(spec, var);
            match got {
                None => {
                    return Err(var);
                },
                Some(my_val) => {
                    if my_val != val {
                        return Err(var);
                    }
                },
            }
            i = i + 1;
        }
        Ok(())
    }

    /// Whether this node's effective state satisfies `duty`'s pattern; an
    /// empty pattern holds trivially.
    pub fn state_satisfies_duty(&self, spec: &Specification, duty: &Duty) -> (r: Result<(), Var>)
        ensures
            r == (match first_unmatched(*spec, *self, duty.partial_state.pairs()) {
                None => Result::<(), Var>::Ok(()),
                Some(v) => Result::<(), Var>::Err(v),
            }),
            (r is Ok) <==> spec_superset_ok(*spec, *self, duty.partial_state.pairs()),
    {
        self.state_assigns_superset(spec, &duty.partial_state)
    }

    /// The set of duty indices whose pattern this node's state satisfies.
    pub fn satisfied_duties(&self, spec: &Specification) -> (r: IndexSet)
        requires
            spec.duties@.len() <= 64,
        ensures
            forall|i: u64| r.has(i) <==> spec_duty_set(*spec, *self).contains(i),
            r.to_set() == spec_duty_set(*spec, *self),
    {
        let n = spec.duties.len();
        let mut r = IndexSet::empty();
        let mut i: usize = 0;
        while i < n
            invariant
                i <= n,
                forall|j: u64| r.has(j) <==> (j < i && spec_duty_sat(*spec, *self, j as int)),
            decreases n - i,
        {
            let ok = self.state_satisfies_duty(spec, &spec.duties[i]).is_ok();
            if ok {
                r.insert(i);
            }
            i = i + 1;
        }
        proof {
            assert(r.to_set() =~= spec_duty_set(*spec, *self));
        }
        r
    }

    /// The index of the first duty rule that the set of satisfied duties
    /// violates, if any rule is violated.
    pub fn violated_duty_rule(&self, spec: &Specification) -> (r: Option<usize>)
        requires
            spec.duties@.len() <= 64,
        ensures
            r == (match first_violated_rule(spec.drules@, spec_duty_set(*spec, *self), 0) {
                None => Option::<usize>::None,
                Some(i) => Option::<usize>::Some(i as usize),
            }),
            (r is None) <==> (forall|j: int|
                0 <= j < spec.drules@.len() ==> (#[trigger] spec.drules@[j]).spec_sat_set(
                    spec_duty_set(*spec, *self),
                )),
    {
        proof {
            lemma_first_violated_none(spec.drules@, spec_duty_set(*spec, *self), 0);
        }
        let sd = self.satisfied_duties(spec);
        let n = spec.drules.len();
        let mut i: usize = 0;
        while i < n
            invariant
                i <= n,
                first_violated_rule(spec.drules@, spec_duty_set(*spec, *self), 0)
                    == first_violated_rule(spec.drules@, spec_duty_set(*spec, *self), i as int),
            decreases n - i,
        {
            if !spec.drules[i].satisfied_by(&sd) {
                return Some(i);
            }
            i = i + 1;
        }
        None
    }
}

} // verus!
