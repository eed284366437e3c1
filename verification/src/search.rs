use vstd::prelude::*;
use std::sync::Arc;
use crate::model::Specification;
use crate::pstate::PartialState;
use crate::path::{node_start, node_steps, t_first_unmatched, PathNode};
use crate::step::{succ_traces, NextStateStepIter};

verus! {

/// The word whose bits are the first `n` indices: the enumerator's first
/// candidate over a universe of `n` actions.
pub open spec fn full_bits(n: int) -> u64 {
    if n >= 64 {
        u64::MAX
    } else if n <= 0 {
        0u64
    } else {
        (((1u64 << (n as u64)) as int) - 1) as u64
    }
}

/// One trace is finished when its current state matches the target duty's
/// pattern.
pub open spec fn t_duty_holds(
    s: Specification,
    start: PartialState,
    t: Seq<u64>,
    duty_index: int,
) -> bool {
    t_first_unmatched(s, start, t, s.duties@[duty_index].partial_state.pairs()) is None
}

/// The meaning of the depth-first search, over traces. The stack holds the
/// unfinished traces, newest on top; `acc` holds the finished ones in the
/// order found. Each round pops one trace: a trace whose state satisfies the
/// target duty is moved to `acc`; otherwise its legal successor steps, in the
/// enumerator's order, replace it on the stack. Each round spends one unit of
/// fuel; `None` means the fuel ran out before the stack was exhausted.
pub open spec fn spec_search(
    s: Specification,
    start: PartialState,
    duty_index: int,
    stack: Seq<Seq<u64>>,
    acc: Seq<Seq<u64>>,
    fuel: nat,
) -> Option<Seq<Seq<u64>>>
    decreases fuel,
{
    if stack.len() == 0 {
        Some(acc)
    } else if fuel == 0 {
        None
    } else {
        let t = stack.last();
        if t_duty_holds(s, start, t, duty_index) {
            spec_search(s, start, duty_index, stack.drop_last(), acc.push(t), (fuel - 1) as nat)
        } else {
            spec_search(
                s,
                start,
                duty_index,
                stack.drop_last() + succ_traces(s, start, t, full_bits(s.actions@.len() as int)),
                acc,
                (fuel - 1) as nat,
            )
        }
    }
}

/// A history is valid when every step of it was a legal, non-empty
/// candidate within the action universe at the point it was taken.
pub open spec fn trace_valid(s: Specification, start: PartialState, t: Seq<u64>) -> bool
    decreases t.len(),
{
    t.len() == 0 || (trace_valid(s, start, t.drop_last()) && crate::step::t_step_err(
        s,
        start,
        t.drop_last(),
        t.last(),
    ) is None && 0 < t.last() <= full_bits(s.actions@.len() as int))
}

/// Every successor the enumerator produces extends its trace by one legal
/// step, so validity is preserved.
pub proof fn lemma_succ_traces_valid(s: Specification, start: PartialState, t: Seq<u64>, m: u64)
    requires
        trace_valid(s, start, t),
        m <= full_bits(s.actions@.len() as int),
    ensures
        forall|k: int|
            0 <= k < succ_traces(s, start, t, m).len() ==> trace_valid(
                s,
                start,
                #[trigger] succ_traces(s, start, t, m)[k],
            ),
    decreases m,
{
    if m > 0 {
        lemma_succ_traces_valid(s, start, t, (m - 1) as u64);
        if crate::step::t_step_err(s, start, t, m) is None {
            let ext = t.push(m);
            assert(ext.drop_last() =~= t);
            assert(trace_valid(s, start, ext));
            assert forall|k: int|
                0 <= k < succ_traces(s, start, t, m).len() implies trace_valid(
                s,
                start,
                #[trigger] succ_traces(s, start, t, m)[k],
            ) by {
                if k > 0 {
                    assert(succ_traces(s, start, t, m)[k] == succ_traces(
                        s,
                        start,
                        t,
                        (m - 1) as u64,
                    )[k - 1]);
                }
            }
        }
    }
}

/// What a finished search returns: the finished traces it was given, and
/// after them only traces whose final state satisfies the target duty; and
/// when every unfinished trace handed in was valid, every returned trace is
/// a valid history.
pub proof fn lemma_search_sound(
    s: Specification,
    start: PartialState,
    duty_index: int,
    stack: Seq<Seq<u64>>,
    acc: Seq<Seq<u64>>,
    fuel: nat,
    out: Seq<Seq<u64>>,
)
    requires
        spec_search(s, start, duty_index, stack, acc, fuel) == Some(out),
        forall|k: int| 0 <= k < stack.len() ==> trace_valid(s, start, #[trigger] stack[k]),
    ensures
        out.len() >= acc.len(),
        forall|k: int| 0 <= k < acc.len() ==> out[k] == acc[k],
        forall|k: int|
            acc.len() <= k < out.len() ==> t_duty_holds(s, start, #[trigger] out[k], duty_index)
                && trace_valid(s, start, out[k]),
    decreases fuel,
{
    if stack.len() == 0 {
    } else {
        let t = stack.last();
        if t_duty_holds(s, start, t, duty_index) {
            lemma_search_sound(
                s,
                start,
                duty_index,
                stack.drop_last(),
                acc.push(t),
                (fuel - 1) as nat,
                out,
            );
            assert forall|k: int|
                acc.len() <= k < out.len() implies t_duty_holds(
                s,
                start,
                #[trigger] out[k],
                duty_index,
            ) && trace_valid(s, start, out[k]) by {
                if k == acc.len() {
                    assert(out[k] == acc.push(t)[k]);
                    assert(acc.push(t)[acc.len() as int] == t);
                }
            }
        } else {
            let succs = succ_traces(s, start, t, full_bits(s.actions@.len() as int));
            lemma_succ_traces_valid(s, start, t, full_bits(s.actions@.len() as int));
            let stack2 = stack.drop_last() + succs;
            assert forall|k: int| 0 <= k < stack2.len() implies trace_valid(
                s,
                start,
                #[trigger] stack2[k],
            ) by {
                if k < stack.drop_last().len() {
                    assert(stack2[k] == stack[k]);
                } else {
                    assert(stack2[k] == succs[k - stack.drop_last().len()]);
                }
            }
            lemma_search_sound(s, start, duty_index, stack2, acc, (fuel - 1) as nat, out);
        }
    }
}

impl Specification {
    /// Every path history that reaches a state satisfying the duty at
    /// `duty_index`, found by depth-first search from `start_state` through
    /// legal steps. The search tree may be infinite, so the caller bounds the
    /// work: each popped candidate costs one unit of `fuel`, and `None`
    /// reports that the bound was reached before the search was exhausted.
    pub fn paths_to_duty(
        &self,
        start_state: PartialState,
        duty_index: usize,
        fuel: u64,
    ) -> (r: Option<Vec<PathNode>>)
        requires
            duty_index < self.duties@.len(),
            self.duties@.len() <= 64,
            self.actions@.len() <= 64,
        ensures
            r matches Some(v) ==> {
                &&& Some(v@.map_values(|n: PathNode| node_steps(n))) == spec_search(
                    *self,
                    start_state,
                    duty_index as int,
                    seq![Seq::<u64>::empty()],
                    Seq::empty(),
                    fuel as nat,
                )
                &&& forall|i: int|
                    0 <= i < v@.len() ==> node_start(#[trigger] v@[i]) == start_state
            },
            r is None ==> spec_search(
                *self,
                start_state,
                duty_index as int,
                seq![Seq::<u64>::empty()],
                Seq::empty(),
                fuel as nat,
            ) is None,
    {
        let duty = &self.duties[duty_index];
        let mut incomplete: Vec<PathNode> = Vec::new();
        incomplete.push(PathNode::Start { start_state });
        let mut complete: Vec<PathNode> = Vec::new();
        let mut fuel_left: u64 = fuel;
        proof {
            assert(incomplete@.map_values(|n: PathNode| node_steps(n)) =~= seq![
                Seq::<u64>::empty(),
            ]);
            assert(complete@.map_values(|n: PathNode| node_steps(n)) =~= Seq::<Seq<u64>>::empty());
        }
        while incomplete.len() > 0
            invariant
                spec_search(
                    *self,
                    start_state,
                    duty_index as int,
                    incomplete@.map_values(|n: PathNode| node_steps(n)),
                    complete@.map_values(|n: PathNode| node_steps(n)),
                    fuel_left as nat,
                ) == spec_search(
                    *self,
                    start_state,
                    duty_index as int,
                    seq![Seq::<u64>::empty()],
                    Seq::empty(),
                    fuel as nat,
                ),
                forall|i: int|
                    0 <= i < incomplete@.len() ==> node_start(#[trigger] incomplete@[i])
                        == start_state,
                forall|i: int|
                    0 <= i < complete@.len() ==> node_start(#[trigger] complete@[i])
                        == start_state,
            decreases fuel_left,
        {
            if fuel_left == 0 {
                return None;
            }
            fuel_left = fuel_left - 1;
            let ghost stack0 = incomplete@.map_values(|n: PathNode| node_steps(n));
            let path = incomplete.pop().unwrap();
            proof {
                assert(incomplete@.map_values(|n: PathNode| node_steps(n)) =~= stack0.drop_last());
                assert(stack0.last() == node_steps(path));
            }
            let ghost acc0 = complete@.map_values(|n: PathNode| node_steps(n));
            proof {
                assert(node_start(path) == start_state);
            }
            let sat = path.state_assigns_superset(self, &duty.partial_state).is_ok();
            if sat {
                proof {
                    assert(t_duty_holds(*self, start_state, stack0.last(), duty_index as int));
                }
                complete.push(path);
                proof {
                    assert(complete@.map_values(|n: PathNode| node_steps(n)) =~= acc0.push(
                        stack0.last(),
                    ));
                    assert(spec_search(
                        *self,
                        start_state,
                        duty_index as int,
                        stack0,
                        acc0,
                        (fuel_left + 1) as nat,
                    ) == spec_search(
                        *self,
                        start_state,
                        duty_index as int,
                        stack0.drop_last(),
                        acc0.push(stack0.last()),
                        fuel_left as nat,
                    ));
                }
            } else {
                let prev = Arc::new(path);
                let mut next_iter = NextStateStepIter::new(&prev, self);
                let ghost base = incomplete@;
                proof {
                    assert(stack0.last() == node_steps(*prev));
                    lemma_full_bits(
                        self.actions@.len() as int,
                        next_iter.next_subset_to_consider.bits,
                    );
                    assert(next_iter.next_subset_to_consider.bits == full_bits(
                        self.actions@.len() as int,
                    ));
                }
                let mut going = true;
                while going
                    invariant
                        next_iter.prev == &prev,
                        next_iter.spec == self,
                        node_start(*prev) == start_state,
                        incomplete@.len() >= base.len(),
                        incomplete@.take(base.len() as int) == base,
                        forall|i: int|
                            0 <= i < incomplete@.len() ==> node_start(#[trigger] incomplete@[i])
                                == start_state,
                        incomplete@.map_values(|n: PathNode| node_steps(n)) + succ_traces(
                            *self,
                            start_state,
                            node_steps(*prev),
                            next_iter.next_subset_to_consider.bits,
                        ) == stack0.drop_last() + succ_traces(
                            *self,
                            start_state,
                            node_steps(*prev),
                            full_bits(self.actions@.len() as int),
                        ),
                        !going ==> next_iter.next_subset_to_consider.bits == 0,
                    decreases next_iter.next_subset_to_consider.bits, (if going {
                        1int
                    } else {
                        0int
                    }),
                {
                    let ghost cur_bits = next_iter.next_subset_to_consider.bits;
                    proof {
                        assert(stack0.last() == node_steps(*prev));
                        crate::step::lemma_scan_succ(*self, start_state, stack0.last(), cur_bits);
                    }
                    match next_iter.next() {
                        Some(node) => {
                            proof {
                                assert(node_steps(node) == node_steps(*prev).push(
                                    node->Next_acts_indexes.bits,
                                ));
                                assert(node_start(node) == start_state);
                            }
                            incomplete.push(node);
                            proof {
                                assert(incomplete@.map_values(|n: PathNode| node_steps(n)) =~= incomplete@.take(
                                    incomplete@.len() - 1,
                                ).map_values(|n: PathNode| node_steps(n)).push(node_steps(node)));
                                assert(incomplete@.take(base.len() as int) =~= base);
                            }
                        },
                        None => {
                            going = false;
                        },
                    }
                }
                proof {
                    assert(succ_traces(*self, start_state, node_steps(*prev), 0)
                        =~= Seq::<Seq<u64>>::empty());
                    assert(incomplete@.map_values(|n: PathNode| node_steps(n)) =~= stack0.drop_last()
                        + succ_traces(
                        *self,
                        start_state,
                        stack0.last(),
                        full_bits(self.actions@.len() as int),
                    ));
                    assert(!t_duty_holds(*self, start_state, stack0.last(), duty_index as int));
                    assert(spec_search(
                        *self,
                        start_state,
                        duty_index as int,
                        stack0,
                        acc0,
                        (fuel_left + 1) as nat,
                    ) == spec_search(
                        *self,
                        start_state,
                        duty_index as int,
                        stack0.drop_last() + succ_traces(
                            *self,
                            start_state,
                            stack0.last(),
                            full_bits(self.actions@.len() as int),
                        ),
                        acc0,
                        fuel_left as nat,
                    ));
                }
            }
        }
        Some(complete)
    }
}

/// The word the enumerator starts from is `full_bits` of the universe size.
pub proof fn lemma_full_bits(n: int, b: u64)
    requires
        0 <= n <= 64,
        n < 64 ==> b == (1u64 << (n as u64)) - 1,
        n == 64 ==> b == u64::MAX,
    ensures
        b == full_bits(n),
{
    if 0 < n < 64 {
        let nn = n as u64;
        let p = 1u64 << nn;
        assert(nn < 64 ==> 1u64 << nn >= 1) by (bit_vector);
        assert(p >= 1);
        assert(0 <= (p as int) - 1 <= u64::MAX);
        assert((((p as int) - 1) as u64) as int == (p as int) - 1);
        assert(full_bits(n) == (((p as int) - 1) as u64));
        assert(b as int == (p as int) - 1);
        assert(b == full_bits(n));
    } else if n == 0 {
        let nn = n as u64;
        assert(nn == 0);
        assert(1u64 << 0u64 == 1) by (bit_vector);
        assert(b == 0);
        assert(full_bits(n) == 0u64);
    } else {
        assert(n == 64);
        assert(b == u64::MAX);
        assert(full_bits(n) == u64::MAX);
    }
}

} // verus!
