use std::sync::Arc;

use actionpaths::{Action, Duty, IndexSet, PartialState, PathNode, Rule, Specification, StepError};

fn ps(pairs: &[(u32, u32)]) -> PartialState {
    let mut p = PartialState::new();
    for &(k, v) in pairs {
        p.insert(k, v);
    }
    p
}

fn iset(indexes: &[usize]) -> IndexSet {
    let mut s = IndexSet::empty();
    for &i in indexes {
        s.insert(i);
    }
    s
}

fn action(name: &'static str, src: &[(u32, u32)], dst: &[(u32, u32)]) -> Action {
    Action { name, src_pstate: ps(src), dst_pstate: ps(dst) }
}

fn duty(name: &'static str, pat: &[(u32, u32)]) -> Duty {
    Duty { name, partial_state: ps(pat) }
}

#[test]
fn path_test() {
    let spec = Specification {
        duties: vec![duty("Var(0) == 3", &[(0, 3)]), duty("Var(99) == 99", &[(99, 99)])],
        actions: vec![
            action("Var(99) := 99", &[], &[(99, 99)]),
            action("Var(0) := 3", &[], &[(0, 3)]),
        ],
        drules: vec![Rule {
            name: "Duty 1 always FALSE",
            if_all: IndexSet::empty(),
            then_all: IndexSet::empty(),
            then_none: iset(&[1]),
        }],
        arules: vec![],
    };
    let start_state = ps(&[(0, 0), (1, 1)]);

    // run!
    let duty_index = 0;
    let r = spec.paths_to_duty(start_state, duty_index, 10_000).expect("search budget");

    println!("===================");
    for (i, q) in r.iter().enumerate() {
        println!("path {}", i);
        println!("{:?}", q.to_partial_state(&spec));
        println!();
    }
}

#[test]
fn pruned_search_keeps_only_the_legal_path() {
    // The same scenario as path_test, with the outcome pinned down: the duty
    // rule forbids satisfying duty 1, so only the step {1} survives.
    let spec = Specification {
        duties: vec![duty("Var(0) == 3", &[(0, 3)]), duty("Var(99) == 99", &[(99, 99)])],
        actions: vec![
            action("Var(99) := 99", &[], &[(99, 99)]),
            action("Var(0) := 3", &[], &[(0, 3)]),
        ],
        drules: vec![Rule {
            name: "Duty 1 always FALSE",
            if_all: IndexSet::empty(),
            then_all: IndexSet::empty(),
            then_none: iset(&[1]),
        }],
        arules: vec![],
    };
    let start_state = ps(&[(0, 0), (1, 1)]);
    let r = spec.paths_to_duty(start_state, 0, 10_000).expect("search budget");
    assert_eq!(r.len(), 1);
    match &r[0] {
        PathNode::Next { prev, acts_indexes } => {
            assert_eq!(acts_indexes.bits, 0b10);
            assert!(matches!(**prev, PathNode::Start { .. }));
        },
        PathNode::Start { .. } => panic!("expected one step"),
    }
    let state = r[0].to_partial_state(&spec);
    assert_eq!(state.get(0), Some(3));
    assert_eq!(state.get(1), Some(1));
    assert_eq!(state.get(99), None);
}

#[test]
fn single_action_scenario() {
    // One action establishing the duty: exactly one path of one step, whose
    // effective state keeps the untouched variable.
    let spec = Specification {
        duties: vec![duty("D", &[(0, 3)])],
        actions: vec![action("A", &[], &[(0, 3)])],
        drules: vec![],
        arules: vec![],
    };
    let start = ps(&[(0, 0), (1, 1)]);
    let r = spec.paths_to_duty(start, 0, 10_000).expect("search budget");
    assert_eq!(r.len(), 1);
    match &r[0] {
        PathNode::Next { prev, acts_indexes } => {
            assert_eq!(acts_indexes.bits, 0b1);
            assert!(matches!(**prev, PathNode::Start { .. }));
        },
        PathNode::Start { .. } => panic!("expected one step"),
    }
    let state = r[0].to_partial_state(&spec);
    assert_eq!(state.get(0), Some(3));
    assert_eq!(state.get(1), Some(1));
}

#[test]
fn rule_satisfaction_formula() {
    let r = Rule { name: "r", if_all: iset(&[0, 1]), then_all: iset(&[2]), then_none: iset(&[3]) };
    // Vacuous: if_all is not a subset.
    assert!(r.satisfied_by(&iset(&[0])));
    assert!(r.satisfied_by(&IndexSet::empty()));
    // Triggered and satisfied.
    assert!(r.satisfied_by(&iset(&[0, 1, 2])));
    // Triggered, then_all missing.
    assert!(!r.satisfied_by(&iset(&[0, 1])));
    // Triggered, then_none overlaps.
    assert!(!r.satisfied_by(&iset(&[0, 1, 2, 3])));
}

#[test]
fn conflicting_postconditions_reject_the_step() {
    let spec = Specification {
        duties: vec![],
        actions: vec![action("A", &[], &[(7, 1)]), action("B", &[], &[(7, 2)])],
        drules: vec![],
        arules: vec![],
    };
    let start = Arc::new(PathNode::Start { start_state: ps(&[]) });
    let both = iset(&[0, 1]);
    let r = PathNode::try_create_next_step(&start, &both, &spec);
    assert_eq!(r, Err(StepError::ConflictingAssignments { var: 7 }));
    // Same variable, same value: no conflict.
    let spec2 = Specification {
        duties: vec![],
        actions: vec![action("A", &[], &[(7, 1)]), action("B", &[], &[(7, 1)])],
        drules: vec![],
        arules: vec![],
    };
    assert!(PathNode::try_create_next_step(&start, &both, &spec2).is_ok());
}

#[test]
fn lookup_prefers_the_lowest_action_index_within_a_step() {
    let spec = Specification {
        duties: vec![],
        actions: vec![action("A", &[], &[(5, 10)]), action("B", &[], &[(5, 20), (6, 30)])],
        drules: vec![],
        arules: vec![],
    };
    let start = Arc::new(PathNode::Start { start_state: ps(&[(5, 0)]) });
    let node = PathNode::Next { prev: start, acts_indexes: iset(&[0, 1]) };
    assert_eq!(node.assignment(&spec, 5), Some(10));
    assert_eq!(node.assignment(&spec, 6), Some(30));
    assert_eq!(node.assignment(&spec, 7), None);
}

#[test]
fn enumerator_visits_every_nonempty_subset_descending() {
    // Three actions, no rules, no preconditions, disjoint postconditions:
    // the enumerator must yield all 2^3 - 1 subsets, by descending word.
    let spec = Specification {
        duties: vec![],
        actions: vec![
            action("A", &[], &[(0, 1)]),
            action("B", &[], &[(1, 1)]),
            action("C", &[], &[(2, 1)]),
        ],
        drules: vec![],
        arules: vec![],
    };
    let start = Arc::new(PathNode::Start { start_state: ps(&[]) });
    let mut it = actionpaths::NextStateStepIter::new(&start, &spec);
    let mut seen: Vec<u64> = Vec::new();
    while let Some(node) = it.next() {
        match node {
            PathNode::Next { acts_indexes, .. } => seen.push(acts_indexes.bits),
            PathNode::Start { .. } => panic!("enumerator yields steps"),
        }
    }
    assert_eq!(seen, vec![7, 6, 5, 4, 3, 2, 1]);
}

#[test]
fn duty_satisfaction_pattern() {
    let spec = Specification {
        duties: vec![duty("exact", &[(4, 3)]), duty("trivial", &[])],
        actions: vec![],
        drules: vec![],
        arules: vec![],
    };
    let at3 = PathNode::Start { start_state: ps(&[(4, 3), (9, 9)]) };
    let at2 = PathNode::Start { start_state: ps(&[(4, 2)]) };
    let empty = PathNode::Start { start_state: ps(&[]) };
    assert_eq!(at3.state_satisfies_duty(&spec, &spec.duties[0]), Ok(()));
    assert_eq!(at2.state_satisfies_duty(&spec, &spec.duties[0]), Err(4));
    assert_eq!(empty.state_satisfies_duty(&spec, &spec.duties[0]), Err(4));
    // An empty pattern holds trivially, whatever the state.
    assert_eq!(at3.state_satisfies_duty(&spec, &spec.duties[1]), Ok(()));
    assert_eq!(empty.state_satisfies_duty(&spec, &spec.duties[1]), Ok(()));
}

#[test]
fn compose_with_empty_keeps_content() {
    let spec = Specification {
        duties: vec![duty("d0", &[(0, 3)])],
        actions: vec![action("a0", &[(1, 1)], &[(2, 2)])],
        drules: vec![Rule {
            name: "r0",
            if_all: iset(&[0]),
            then_all: IndexSet::empty(),
            then_none: iset(&[1]),
        }],
        arules: vec![],
    };
    let empty = Specification::new();
    let c = spec.compose(&empty);
    assert_eq!(c.duties.len(), 1);
    assert_eq!(c.drules.len(), 1);
    assert_eq!(c.actions.len(), 1);
    assert_eq!(c.arules.len(), 0);
    assert_eq!(c.duties[0].name, "d0");
    assert_eq!(c.duties[0].partial_state, spec.duties[0].partial_state);
    assert_eq!(c.drules[0].name, "r0");
    assert_eq!(c.drules[0].if_all, spec.drules[0].if_all);
    assert_eq!(c.drules[0].then_none, spec.drules[0].then_none);
    assert_eq!(c.actions[0].name, "a0");
    assert_eq!(c.actions[0].src_pstate, spec.actions[0].src_pstate);
    assert_eq!(c.actions[0].dst_pstate, spec.actions[0].dst_pstate);
}

#[test]
fn compose_concatenates_in_order() {
    let a = Specification {
        duties: vec![duty("d0", &[(0, 1)])],
        actions: vec![],
        drules: vec![],
        arules: vec![],
    };
    let b = Specification {
        duties: vec![duty("d1", &[(1, 2)])],
        actions: vec![action("a0", &[], &[(3, 3)])],
        drules: vec![],
        arules: vec![],
    };
    let c = a.compose(&b);
    assert_eq!(c.duties.len(), 2);
    assert_eq!(c.duties[0].name, "d0");
    assert_eq!(c.duties[1].name, "d1");
    assert_eq!(c.actions.len(), 1);
    assert_eq!(c.actions[0].name, "a0");
}

#[test]
fn step_error_variants() {
    let start = Arc::new(PathNode::Start { start_state: ps(&[]) });
    // An action rule that demands action 0 whenever anything fires.
    let spec_ar = Specification {
        duties: vec![],
        actions: vec![action("A", &[], &[(0, 1)]), action("B", &[], &[(1, 1)])],
        drules: vec![],
        arules: vec![Rule {
            name: "need A",
            if_all: IndexSet::empty(),
            then_all: iset(&[0]),
            then_none: IndexSet::empty(),
        }],
    };
    let r = PathNode::try_create_next_step(&start, &iset(&[1]), &spec_ar);
    assert_eq!(r, Err(StepError::ViolatesActionRule { action_rule_index: 0 }));

    // A precondition the start state does not match.
    let spec_pre = Specification {
        duties: vec![],
        actions: vec![action("A", &[(5, 5)], &[(0, 1)])],
        drules: vec![],
        arules: vec![],
    };
    let r = PathNode::try_create_next_step(&start, &iset(&[0]), &spec_pre);
    assert_eq!(r, Err(StepError::ViolatesActionPrecondition { action_index: 0, var: 5 }));

    // A duty rule violated by the successor state.
    let spec_dr = Specification {
        duties: vec![duty("forbidden", &[(0, 1)])],
        actions: vec![action("A", &[], &[(0, 1)])],
        drules: vec![Rule {
            name: "never duty 0",
            if_all: IndexSet::empty(),
            then_all: IndexSet::empty(),
            then_none: iset(&[0]),
        }],
        arules: vec![],
    };
    let r = PathNode::try_create_next_step(&start, &iset(&[0]), &spec_dr);
    assert_eq!(r, Err(StepError::ViolatesDutyRule { duty_rule_index: 0 }));
}

#[test]
fn search_runs_out_of_fuel_on_endless_specifications() {
    // An action that keeps rewriting the same variable never reaches the
    // duty, so the search cannot finish and must report its budget spent.
    let spec = Specification {
        duties: vec![duty("unreachable", &[(9, 9)])],
        actions: vec![action("spin", &[], &[(0, 0)])],
        drules: vec![],
        arules: vec![],
    };
    let r = spec.paths_to_duty(ps(&[]), 0, 100);
    assert!(r.is_none());
}

#[test]
fn consistent_assignments_merges_or_reports() {
    let spec = Specification {
        duties: vec![],
        actions: vec![action("A", &[], &[(1, 10), (2, 20)]), action("B", &[], &[(3, 30)])],
        drules: vec![],
        arules: vec![],
    };
    let merged = spec.consistent_assignments(&iset(&[0, 1])).expect("no conflict");
    assert_eq!(merged.get(1), Some(10));
    assert_eq!(merged.get(2), Some(20));
    assert_eq!(merged.get(3), Some(30));
    assert!(spec.postconditions_consistent(&iset(&[0, 1])));

    let spec2 = Specification {
        duties: vec![],
        actions: vec![action("A", &[], &[(1, 10)]), action("B", &[], &[(1, 11)])],
        drules: vec![],
        arules: vec![],
    };
    assert_eq!(spec2.consistent_assignments(&iset(&[0, 1])), Err(1));
    assert!(!spec2.postconditions_consistent(&iset(&[0, 1])));
}

#[test]
fn two_step_paths_reach_a_two_part_duty() {
    // Reaching {x=1, y=1} needs both actions; each may fire alone or both at
    // once, so three histories satisfy the duty.
    let spec = Specification {
        duties: vec![duty("both", &[(0, 1), (1, 1)])],
        actions: vec![action("X", &[(0, 0)], &[(0, 1)]), action("Y", &[(1, 0)], &[(1, 1)])],
        drules: vec![],
        arules: vec![],
    };
    let r = spec.paths_to_duty(ps(&[(0, 0), (1, 0)]), 0, 10_000).expect("search budget");
    for node in &r {
        let state = node.to_partial_state(&spec);
        assert_eq!(state.get(0), Some(1));
        assert_eq!(state.get(1), Some(1));
    }
    // One single-step history {X, Y}, and two two-step histories.
    let mut lengths: Vec<usize> = r
        .iter()
        .map(|mut n| {
            let mut depth = 0;
            loop {
                match n {
                    PathNode::Start { .. } => break depth,
                    PathNode::Next { prev, .. } => {
                        depth += 1;
                        n = &**prev;
                    },
                }
            }
        })
        .collect();
    lengths.sort();
    assert_eq!(lengths, vec![1, 2, 2]);
}

#[test]
fn lookup_ignores_indices_outside_the_action_universe() {
    let spec = Specification {
        duties: vec![],
        actions: vec![action("A", &[], &[(5, 10)])],
        drules: vec![],
        arules: vec![],
    };
    let start = Arc::new(PathNode::Start { start_state: ps(&[(6, 66)]) });
    let mut acts = iset(&[0]);
    acts.insert(40);
    let node = PathNode::Next { prev: start, acts_indexes: acts };
    assert_eq!(node.assignment(&spec, 5), Some(10));
    assert_eq!(node.assignment(&spec, 6), Some(66));
}

#[test]
fn specification_well_formedness_check() {
    let spec = Specification {
        duties: vec![duty("d", &[(0, 1)])],
        actions: vec![action("a", &[(1, 1)], &[(2, 2)])],
        drules: vec![],
        arules: vec![],
    };
    assert!(spec.is_wf());
    assert!(Specification::new().is_wf());
}
