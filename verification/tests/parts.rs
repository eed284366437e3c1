use actionpaths::{
    Edge, Event, Fact, FactPattern, Graph, IndexSet, LabelledHalfEdge, PartialState, Situation,
    SquareBitMatrix,
};

#[test]
pub fn q() {
    let g = Graph::from_edges(vec![
        Edge { from_n_label: LabelledHalfEdge { vert: 0, label: 420 }, to: 1 },
        Edge { from_n_label: LabelledHalfEdge { vert: 0, label: 69 }, to: 2 },
        Edge { from_n_label: LabelledHalfEdge { vert: 0, label: 80085 }, to: 0 },
        Edge { from_n_label: LabelledHalfEdge { vert: 1, label: 111 }, to: 0 },
        Edge { from_n_label: LabelledHalfEdge { vert: 2, label: 123 }, to: 1 },
    ]);
    println!("{:#?}", g);

    let mut at = 0;
    for label in [80085, 80085, 69, 123, 111, 80085] {
        at = g.steps_to(&LabelledHalfEdge { vert: at, label }).unwrap();
        println!("at = {}", at);
    }
    println!("{:?}", g.at_vert(at).len());
}

#[test]
fn graph_walk_lands_where_expected() {
    let g = Graph::from_edges(vec![
        Edge { from_n_label: LabelledHalfEdge { vert: 0, label: 420 }, to: 1 },
        Edge { from_n_label: LabelledHalfEdge { vert: 0, label: 69 }, to: 2 },
        Edge { from_n_label: LabelledHalfEdge { vert: 0, label: 80085 }, to: 0 },
        Edge { from_n_label: LabelledHalfEdge { vert: 1, label: 111 }, to: 0 },
        Edge { from_n_label: LabelledHalfEdge { vert: 2, label: 123 }, to: 1 },
    ]);
    let mut at = 0;
    for label in [80085, 80085, 69, 123, 111, 80085] {
        at = g.steps_to(&LabelledHalfEdge { vert: at, label }).unwrap();
    }
    assert_eq!(at, 0);
    assert_eq!(g.at_vert(at).len(), 3);
    assert_eq!(g.steps_to(&LabelledHalfEdge { vert: 0, label: 1 }), None);
    assert!(g.has_outgoing(2));
    assert!(!g.has_outgoing(3));
    // Vertex 1 and 2 each have exactly one outgoing edge; vertex 0 has three.
    assert_eq!(
        g.deterministic_step(1),
        Some(LabelledHalfEdge { vert: 0, label: 111 })
    );
    assert_eq!(
        g.deterministic_step(2),
        Some(LabelledHalfEdge { vert: 1, label: 123 })
    );
    assert_eq!(g.deterministic_step(0), None);
    assert_eq!(g.deterministic_step(7), None);
}

#[test]
fn index_set_operations() {
    let mut s = IndexSet::empty();
    assert!(s.is_empty());
    s.insert(0);
    s.insert(5);
    assert!(!s.is_empty());
    assert!(s.contains(0));
    assert!(s.contains(5));
    assert!(!s.contains(1));
    assert!(!s.contains(64));
    assert_eq!(s.bits, 0b100001);
    assert_eq!(s.elems(), vec![0, 5]);

    let full3 = IndexSet::full(3);
    assert_eq!(full3.bits, 0b111);
    assert_eq!(full3.elems(), vec![0, 1, 2]);
    let mut sub = IndexSet::empty();
    sub.insert(1);
    assert!(sub.is_subset_of(&full3));
    assert!(!full3.is_subset_of(&sub));
    assert!(s.is_disjoint_with(&sub));
    assert!(!s.is_disjoint_with(&full3));

    // Powerset descent: strictly descending word values down to exhaustion.
    let mut cursor = IndexSet::full(2);
    let mut seen: Vec<u64> = vec![cursor.bits];
    while cursor.try_decrease_in_powerset_order() {
        seen.push(cursor.bits);
    }
    assert_eq!(seen, vec![3, 2, 1, 0]);
    assert!(!cursor.try_decrease_in_powerset_order());
}

#[test]
fn partial_state_is_a_partial_function() {
    let mut p = PartialState::new();
    assert_eq!(p.len(), 0);
    assert!(p.is_wf());
    assert_eq!(p.insert(4, 40), None);
    assert_eq!(p.insert(2, 20), None);
    assert_eq!(p.insert(4, 44), Some(40));
    assert_eq!(p.get(4), Some(44));
    assert_eq!(p.get(2), Some(20));
    assert_eq!(p.get(3), None);
    assert_eq!(p.len(), 2);
    assert!(p.is_wf());
    // Stored ascending by key.
    assert_eq!(p.pair_at(0), (2, 20));
    assert_eq!(p.pair_at(1), (4, 44));
    let copy = p.duplicate();
    assert_eq!(copy, p);
}

#[test]
fn fact_bits_pack_read_write() {
    // The two-bit kind tag is written first; each field write's mask reaches
    // down to bit zero, so the last field written is what remains.
    let owner = Fact::pack(0, &[2]);
    assert_eq!(owner.bits, 0b1000);
    assert_eq!(owner.read(2, 4), 2);
    let friends = Fact::pack(1, &[2, 3]);
    assert_eq!(friends.bits, 0b110000);
    assert_eq!(friends.read(4, 6), 3);
    let bare = Fact::pack(1, &[]);
    assert_eq!(bare.bits, 1);

    let p = FactPattern::from_bit_slice(0b1, 0, 1);
    assert!(bare.matches_pattern(p));
    assert!(!owner.matches_pattern(p));

    let mut f = Fact { bits: 0b1111 };
    f.write(FactPattern::from_bit_slice(0, 2, 4));
    assert_eq!(f.bits, 0);
    let g = Fact { bits: 0b1111 }.with(FactPattern::from_bit_slice(1, 2, 4));
    assert_eq!(g.bits, 0b0100);
}

#[test]
fn situation_records_and_updates_truth() {
    let mut s = Situation::new();
    let a = Fact { bits: 8 };
    let b = Fact { bits: 16 };
    assert_eq!(s.insert(a, true), None);
    assert_eq!(s.insert(b, false), None);
    assert_eq!(s.insert(a, false), Some(true));

    let mut other = Situation::new();
    other.insert(a, true);
    s.update(&other);
    // `a` now follows `other`; `b` keeps its own record.
    let hits = s.query(FactPattern { fact: Fact { bits: 0 }, mask: 0 });
    assert_eq!(hits, vec![(a, true), (b, false)]);
}

#[test]
fn situation_deltas_for_events() {
    let mut s = Situation::new();
    let old_owner = Fact::pack(0, &[1]);
    s.insert(old_owner, true);

    let delta = s.try_delta(Event::SetOwner { owner: 2 }).unwrap();
    let hits = delta.query(FactPattern { fact: Fact { bits: 0 }, mask: 0 });
    // The old owner fact is falsified, the new one established.
    assert_eq!(hits, vec![(old_owner, false), (Fact::pack(0, &[2]), true)]);

    let friend_delta = s.try_delta(Event::BecomeFriends { a: 1, b: 2 }).unwrap();
    let hits = friend_delta.query(FactPattern { fact: Fact { bits: 0 }, mask: 0 });
    assert_eq!(hits, vec![(Fact::pack(1, &[1, 2]), true)]);
}

#[test]
fn mat() {
    let mut m = SquareBitMatrix::new(5);
    m.insert([0, 1]);
    m.insert([1, 2]);
    m.insert([2, 3]);
    assert_eq!(m.contains([0, 1]), Some(true));
    assert_eq!(m.contains([1, 2]), Some(true));
    assert_eq!(m.contains([2, 3]), Some(true));
    assert_eq!(m.contains([1, 0]), Some(false));
    assert_eq!(m.contains([5, 0]), None);
}

#[test]
fn bit_matrix_insert_remove_contains() {
    let mut m = SquareBitMatrix::new(70);
    assert_eq!(m.contains([65, 3]), Some(false));
    assert_eq!(m.insert([65, 3]), Some(true));
    assert_eq!(m.insert([65, 3]), Some(false));
    assert_eq!(m.contains([65, 3]), Some(true));
    assert_eq!(m.contains([3, 65]), Some(false));
    assert_eq!(m.remove([65, 3]), Some(true));
    assert_eq!(m.remove([65, 3]), Some(false));
    assert_eq!(m.contains([65, 3]), Some(false));
    assert_eq!(m.insert([70, 0]), None);
    assert_eq!(m.remove([0, 70]), None);
    assert_eq!(m.contains([70, 70]), None);

    assert_eq!(m.any_self_loop(), None);
    m.insert([4, 4]);
    m.insert([9, 9]);
    assert_eq!(m.any_self_loop(), Some(4));
    m.remove([4, 4]);
    assert_eq!(m.any_self_loop(), Some(9));
}

#[test]
fn index_set_boundaries() {
    let mut s = IndexSet::empty();
    s.insert(63);
    assert!(s.contains(63));
    assert_eq!(s.bits, 1u64 << 63);
    let all = IndexSet::full(64);
    assert_eq!(all.bits, u64::MAX);
    assert!(s.is_subset_of(&all));
    assert_eq!(all.elems().len(), 64);
}
