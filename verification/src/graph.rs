use vstd::prelude::*;
use vstd::multiset::Multiset;

verus! {

/// One end of an edge together with the edge's label.
#[derive(Debug, Clone, Copy, Ord, PartialOrd, Eq, PartialEq, Structural)]
pub struct LabelledHalfEdge {
    pub vert: u32,
    pub label: u32,
}

/// A directed labelled edge.
#[derive(Debug, Clone, Copy, PartialEq, Eq, Structural)]
pub struct Edge {
    pub from_n_label: LabelledHalfEdge,
    pub to: u32,
}

/// Source-and-label keys in lexicographic order.
pub open spec fn key_le(a: LabelledHalfEdge, b: LabelledHalfEdge) -> bool {
    a.vert < b.vert || (a.vert == b.vert && a.label <= b.label)
}

/// Edges in non-decreasing key order from one to the next.
pub open spec fn edges_sorted(s: Seq<Edge>) -> bool {
    forall|i: int|
        0 <= i && i + 1 < s.len() ==> key_le(
            (#[trigger] s[i]).from_n_label,
            s[i + 1].from_n_label,
        )
}

/// In a sorted sequence any earlier key is at most any later key.
pub proof fn lemma_edges_sorted_general(s: Seq<Edge>, i: int, j: int)
    requires
        edges_sorted(s),
        0 <= i <= j < s.len(),
    ensures
        key_le(s[i].from_n_label, s[j].from_n_label),
    decreases j - i,
{
    if i < j {
        lemma_edges_sorted_general(s, i, j - 1);
    }
}

/// A directed graph held as its edges, sorted by source vertex and label so
/// that lookups can probe by bisection.
#[derive(Debug, Clone, PartialEq, Eq)]
pub struct Graph {
    sorted_edges: Vec<Edge>,
}

impl Graph {
    /// The edges, in storage order.
    pub closed spec fn edges(self) -> Seq<Edge> {
        self.sorted_edges@
    }

    /// Well-formed: the edges are sorted by key.
    pub open spec fn wf(self) -> bool {
        edges_sorted(self.edges())
    }

    /// A graph from any edge list: the same edges, sorted by key.
    pub fn from_edges(edges: Vec<Edge>) -> (r: Graph)
        ensures
            r.wf(),
            r.edges().to_multiset() == edges@.to_multiset(),
    {
        let n = edges.len();
        let mut out: Vec<Edge> = Vec::new();
        let mut i: usize = 0;
        proof {
            broadcast use vstd::seq_lib::group_to_multiset_ensures;
        }
        while i < n
            invariant
                i <= n,
                n == edges@.len(),
                edges_sorted(out@),
                out@.to_multiset() == edges@.take(i as int).to_multiset(),
            decreases n - i,
        {
            let e = edges[i];
            let m = out.len();
            let mut pos: usize = 0;
            while pos < m && (out[pos].from_n_label.vert < e.from_n_label.vert
                || (out[pos].from_n_label.vert == e.from_n_label.vert
                    && out[pos].from_n_label.label <= e.from_n_label.label))
                invariant
                    pos <= m,
                    m == out@.len(),
                    forall|l: int|
                        0 <= l < pos ==> key_le((#[trigger] out@[l]).from_n_label, e.from_n_label),
                decreases m - pos,
            {
                pos = pos + 1;
            }
            let ghost out0 = out@;
            out.insert(pos, e);
            proof {
                assert(out@ =~= out0.take(pos as int) + seq![e] + out0.skip(pos as int));
                assert forall|l: int|
                    0 <= l && l + 1 < out@.len() implies key_le(
                    (#[trigger] out@[l]).from_n_label,
                    out@[l + 1].from_n_label,
                ) by {
                    if l + 1 < pos {
                        assert(out@[l] == out0[l] && out@[l + 1] == out0[l + 1]);
                    } else if l + 1 == pos {
                        assert(out@[l] == out0[l] && out@[l + 1] == e);
                    } else if l == pos {
                        assert(out@[l] == e && out@[l + 1] == out0[l]);
                        assert(!key_le(out0[pos as int].from_n_label, e.from_n_label));
                    } else {
                        assert(out@[l] == out0[l - 1] && out@[l + 1] == out0[l]);
                        lemma_edges_sorted_general(out0, l - 1, l);
                    }
                }
                assert(out@.to_multiset() == edges@.take(i + 1).to_multiset()) by {
                    vstd::seq_lib::lemma_multiset_commutative(
                        out0.take(pos as int) + seq![e],
                        out0.skip(pos as int),
                    );
                    vstd::seq_lib::lemma_multiset_commutative(out0.take(pos as int), seq![e]);
                    vstd::seq_lib::lemma_multiset_commutative(
                        out0.take(pos as int),
                        out0.skip(pos as int),
                    );
                    assert(out0.take(pos as int) + out0.skip(pos as int) =~= out0);
                    assert(edges@.take(i + 1) =~= edges@.take(i as int).push(e));
                    assert(edges@.take(i as int).push(e).to_multiset() =~= edges@.take(
                        i as int,
                    ).to_multiset().insert(e));
                    assert(seq![e].to_multiset() =~= Multiset::<Edge>::empty().insert(e)) by {
                        assert(seq![e] =~= Seq::<Edge>::empty().push(e));
                        assert(Seq::<Edge>::empty().push(e).to_multiset()
                            =~= Seq::<Edge>::empty().to_multiset().insert(e));
                    }
                }
            }
            i = i + 1;
        }
        proof {
            assert(edges@.take(n as int) =~= edges@);
        }
        Graph { sorted_edges: out }
    }

    /// The destination of an edge whose source and label are exactly
    /// `from_n_label`, if the graph has one.
    pub fn steps_to(&self, from_n_label: &LabelledHalfEdge) -> (r: Option<u32>)
        requires
            self.wf(),
        ensures
            r is Some <==> (exists|i: int|
                0 <= i < self.edges().len() && (#[trigger] self.edges()[i]).from_n_label
                    == *from_n_label),
            r matches Some(t) ==> exists|i: int|
                0 <= i < self.edges().len() && (#[trigger] self.edges()[i]).from_n_label
                    == *from_n_label && self.edges()[i].to == t,
    {
        match self.find_key(from_n_label) {
            Some(i) => Some(self.sorted_edges[i].to),
            None => None,
        }
    }

    /// Bisects for any position whose edge has exactly this key.
    fn find_key(&self, key: &LabelledHalfEdge) -> (r: Option<usize>)
        requires
            self.wf(),
        ensures
            r matches Some(i) ==> i < self.edges().len() && (#[trigger] self.edges()[
            i as int]).from_n_label == *key,
            r is None ==> forall|i: int|
                0 <= i < self.edges().len() ==> (#[trigger] self.edges()[i]).from_n_label != *key,
    {
        let n = self.sorted_edges.len();
        let mut lo: usize = 0;
        let mut hi: usize = n;
        while lo < hi
            invariant
                lo <= hi <= n,
                n == self.edges().len(),
                forall|l: int| 0 <= l < lo ==> (#[trigger] self.edges()[l]).from_n_label != *key,
                forall|l: int| hi <= l < n ==> (#[trigger] self.edges()[l]).from_n_label != *key,
            decreases hi - lo,
        {
            let mid = lo + (hi - lo) / 2;
            let e = self.sorted_edges[mid];
            if e.from_n_label.vert < key.vert || (e.from_n_label.vert == key.vert
                && e.from_n_label.label < key.label) {
                proof {
                    assert forall|l: int| 0 <= l < mid + 1 implies (
                    #[trigger] self.edges()[l]).from_n_label != *key by {
                        lemma_edges_sorted_general(self.edges(), l, mid as int);
                    }
                }
                lo = mid + 1;
            } else if key.vert < e.from_n_label.vert || (key.vert == e.from_n_label.vert
                && key.label < e.from_n_label.label) {
                proof {
                    assert forall|l: int| mid <= l < n implies (
                    #[trigger] self.edges()[l]).from_n_label != *key by {
                        lemma_edges_sorted_general(self.edges(), mid as int, l);
                    }
                }
                hi = mid;
            } else {
                return Some(mid);
            }
        }
        None
    }

    /// Bisects for any position whose edge leaves `vert`.
    fn find_vert(&self, vert: u32) -> (r: Option<usize>)
        requires
            self.wf(),
        ensures
            r matches Some(i) ==> i < self.edges().len() && (#[trigger] self.edges()[
            i as int]).from_n_label.vert == vert,
            r is None ==> forall|i: int|
                0 <= i < self.edges().len() ==> (#[trigger] self.edges()[i]).from_n_label.vert
                    != vert,
    {
        let n = self.sorted_edges.len();
        let mut lo: usize = 0;
        let mut hi: usize = n;
        while lo < hi
            invariant
                lo <= hi <= n,
                n == self.edges().len(),
                forall|l: int|
                    0 <= l < lo ==> (#[trigger] self.edges()[l]).from_n_label.vert != vert,
                forall|l: int|
                    hi <= l < n ==> (#[trigger] self.edges()[l]).from_n_label.vert != vert,
            decreases hi - lo,
        {
            let mid = lo + (hi - lo) / 2;
            let e = self.sorted_edges[mid];
            if e.from_n_label.vert < vert {
                proof {
                    assert forall|l: int| 0 <= l < mid + 1 implies (
                    #[trigger] self.edges()[l]).from_n_label.vert != vert by {
                        lemma_edges_sorted_general(self.edges(), l, mid as int);
                    }
                }
                lo = mid + 1;
            } else if vert < e.from_n_label.vert {
                proof {
                    assert forall|l: int| mid <= l < n implies (
                    #[trigger] self.edges()[l]).from_n_label.vert != vert by {
                        lemma_edges_sorted_general(self.edges(), mid as int, l);
                    }
                }
                hi = mid;
            } else {
                return Some(mid);
            }
        }
        None
    }

    /// Whether any edge leaves `vert`.
    pub fn has_outgoing(&self, vert: u32) -> (r: bool)
        requires
            self.wf(),
        ensures
            r <==> (exists|i: int|
                0 <= i < self.edges().len() && (#[trigger] self.edges()[i]).from_n_label.vert
                    == vert),
    {
        self.find_vert(vert).is_some()
    }

    /// When exactly one edge leaves `vert`, its label and destination;
    /// nothing when none or several do.
    pub fn deterministic_step(&self, vert: u32) -> (r: Option<LabelledHalfEdge>)
        requires
            self.wf(),
        ensures
            r matches Some(h) ==> exists|i: int|
                0 <= i < self.edges().len() && (#[trigger] self.edges()[i]).from_n_label.vert
                    == vert && h.vert == self.edges()[i].to && h.label
                    == self.edges()[i].from_n_label.label && (forall|j: int|
                    0 <= j < self.edges().len() && (#[trigger] self.edges()[j]).from_n_label.vert
                        == vert ==> j == i),
            r is None ==> forall|i: int|
                0 <= i < self.edges().len() && (#[trigger] self.edges()[i]).from_n_label.vert
                    == vert ==> exists|j: int|
                    0 <= j < self.edges().len() && j != i && (
                    #[trigger] self.edges()[j]).from_n_label.vert == vert,
    {
        let n = self.sorted_edges.len();
        let found = self.find_vert(vert);
        match found {
            None => None,
            Some(i) => {
                let none_smaller = i == 0 || self.sorted_edges[i - 1].from_n_label.vert != vert;
                let none_larger = i == n - 1 || self.sorted_edges[i + 1].from_n_label.vert
                    != vert;
                if none_smaller && none_larger {
                    let e = self.sorted_edges[i];
                    proof {
                        assert forall|j: int|
                            0 <= j < self.edges().len() && (
                        #[trigger] self.edges()[j]).from_n_label.vert == vert implies j
                            == i by {
                            if j < i {
                                lemma_edges_sorted_general(self.edges(), j, i - 1);
                                lemma_edges_sorted_general(self.edges(), 0, j);
                                if j < i - 1 {
                                    lemma_edges_sorted_general(self.edges(), j, i - 1);
                                }
                                assert(self.edges()[i - 1].from_n_label.vert == vert);
                            } else if j > i {
                                if i + 1 < j {
                                    lemma_edges_sorted_general(self.edges(), i + 1, j);
                                }
                                assert(self.edges()[i + 1].from_n_label.vert == vert);
                            }
                        }
                    }
                    Some(LabelledHalfEdge { vert: e.to, label: e.from_n_label.label })
                } else {
                    proof {
                        if i > 0 && self.edges()[i - 1].from_n_label.vert == vert {
                        } else {
                            assert(i + 1 < n && self.edges()[i + 1].from_n_label.vert == vert);
                        }
                    }
                    None
                }
            },
        }
    }

    /// Every edge leaving `vert`, in storage order.
    pub fn at_vert(&self, vert: u32) -> (r: Vec<Edge>)
        requires
            self.wf(),
        ensures
            r@ == self.edges().filter(|e: Edge| e.from_n_label.vert == vert),
    {
        let n = self.sorted_edges.len();
        let mut r: Vec<Edge> = Vec::new();
        let mut i: usize = 0;
        proof {
            assert(self.edges().take(0) =~= Seq::<Edge>::empty());
            reveal(Seq::filter);
            assert(Seq::<Edge>::empty().filter(|e: Edge| e.from_n_label.vert == vert)
                =~= Seq::<Edge>::empty());
        }
        while i < n
            invariant
                i <= n,
                n == self.edges().len(),
                r@ == self.edges().take(i as int).filter(|e: Edge| e.from_n_label.vert == vert),
            decreases n - i,
        {
            let e = self.sorted_edges[i];
            proof {
                let pred = |e2: Edge| e2.from_n_label.vert == vert;
                let t1 = self.edges().take(i + 1);
                assert(t1.drop_last() =~= self.edges().take(i as int));
                assert(t1.last() == e);
                reveal(Seq::filter);
                assert(t1.filter(pred) == (if pred(e) {
                    self.edges().take(i as int).filter(pred).push(e)
                } else {
                    self.edges().take(i as int).filter(pred)
                }));
            }
            if e.from_n_label.vert == vert {
                r.push(e);
            }
            i = i + 1;
        }
        proof {
            assert(self.edges().take(n as int) =~= self.edges());
        }
        r
    }
}

} // verus!
