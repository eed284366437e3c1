use vstd::prelude::*;

verus! {

/// Variable identifier: an opaque unsigned integer, no meaning beyond equality.
pub type Var = u32;

/// Value identifier: an opaque unsigned integer, no meaning beyond equality.
pub type Val = u32;

/// Looks a key up in an association sequence: the first pair with that key wins.
pub open spec fn seq_get(s: Seq<(Var, Val)>, k: Var) -> Option<Val>
    decreases s.len(),
{
    if s.len() == 0 {
        None
    } else if s[0].0 == k {
        Some(s[0].1)
    } else {
        seq_get(s.drop_first(), k)
    }
}

/// Keys strictly ascending from one pair to the next.
pub open spec fn seq_sorted(s: Seq<(Var, Val)>) -> bool {
    forall|i: int| 0 <= i && i + 1 < s.len() ==> (#[trigger] s[i]).0 < s[i + 1].0
}

/// In a sorted sequence any earlier key is below any later key.
pub proof fn lemma_sorted_general(s: Seq<(Var, Val)>, i: int, j: int)
    requires
        seq_sorted(s),
        0 <= i < j < s.len(),
    ensures
        s[i].0 < s[j].0,
    decreases j - i,
{
    if i + 1 < j {
        lemma_sorted_general(s, i, j - 1);
    }
}

/// Lookup agrees with membership: in a sorted sequence, `seq_get` finds a key
/// exactly when some pair holds it, and then returns that pair's value.
pub proof fn lemma_seq_get_mem(s: Seq<(Var, Val)>, k: Var)
    requires
        seq_sorted(s),
    ensures
        (seq_get(s, k) is Some) <==> (exists|i: int| 0 <= i < s.len() && (#[trigger] s[i]).0
            == k),
        forall|i: int| 0 <= i < s.len() && (#[trigger] s[i]).0 == k ==> seq_get(s, k) == Some(
            s[i].1,
        ),
    decreases s.len(),
{
    if s.len() == 0 {
    } else if s[0].0 == k {
        assert forall|i: int| 0 <= i < s.len() && (#[trigger] s[i]).0 == k implies seq_get(s, k)
            == Some(s[i].1) by {
            if i > 0 {
                lemma_sorted_general(s, 0, i);
            }
        }
    } else {
        let t = s.drop_first();
        assert(t =~= s.subrange(1, s.len() as int));
        assert(seq_sorted(t)) by {
            assert forall|i: int| 0 <= i && i + 1 < t.len() implies (#[trigger] t[i]).0 < t[i + 1].0 by {
                assert(t[i] == s[i + 1]);
                assert(t[i + 1] == s[i + 2]);
                lemma_sorted_general(s, i + 1, i + 2);
            }
        }
        lemma_seq_get_mem(t, k);
        assert forall|i: int| 0 <= i < s.len() && (#[trigger] s[i]).0 == k implies seq_get(s, k)
            == Some(s[i].1) by {
            assert(i > 0);
            assert(t[i - 1] == s[i]);
        }
        if seq_get(s, k) is Some {
            let i = choose|i: int| 0 <= i < t.len() && (#[trigger] t[i]).0 == k;
            assert(s[i + 1].0 == k);
        }
    }
}

/// Appending a pair does not disturb earlier keys: lookup still prefers the
/// first occurrence.
pub proof fn lemma_seq_get_push(s: Seq<(Var, Val)>, p: (Var, Val), k: Var)
    ensures
        seq_get(s.push(p), k) == (if seq_get(s, k) is Some {
            seq_get(s, k)
        } else if p.0 == k {
            Some(p.1)
        } else {
            None::<Val>
        }),
    decreases s.len(),
{
    if s.len() == 0 {
        assert(s.push(p)[0] == p);
        assert(s.push(p).drop_first() =~= Seq::<(Var, Val)>::empty());
        if p.0 == k {
            assert(seq_get(s.push(p), k) == Some(p.1));
        } else {
            assert(seq_get(s.push(p), k) == seq_get(s.push(p).drop_first(), k));
        }
    } else {
        assert(s.push(p)[0] == s[0]);
        assert(s.push(p).drop_first() =~= s.drop_first().push(p));
        lemma_seq_get_push(s.drop_first(), p, k);
        if s[0].0 == k {
            assert(seq_get(s.push(p), k) == Some(s[0].1));
            assert(seq_get(s, k) == Some(s[0].1));
        } else {
            assert(seq_get(s.push(p), k) == seq_get(s.drop_first().push(p), k));
            assert(seq_get(s, k) == seq_get(s.drop_first(), k));
        }
    }
}

/// The rest of a sorted sequence is sorted.
pub proof fn lemma_sorted_drop(s: Seq<(Var, Val)>)
    requires
        seq_sorted(s),
        s.len() > 0,
    ensures
        seq_sorted(s.drop_first()),
{
    let t = s.drop_first();
    assert forall|i: int| 0 <= i && i + 1 < t.len() implies (#[trigger] t[i]).0 < t[i + 1].0 by {
        assert(t[i] == s[i + 1]);
        assert(t[i + 1] == s[i + 2]);
        lemma_sorted_general(s, i + 1, i + 2);
    }
}

/// A prefix of a sorted sequence is sorted.
pub proof fn lemma_sorted_take(s: Seq<(Var, Val)>, n: int)
    requires
        seq_sorted(s),
        0 <= n <= s.len(),
    ensures
        seq_sorted(s.take(n)),
{
    assert forall|i: int| 0 <= i && i + 1 < n implies (#[trigger] s.take(n)[i]).0 < s.take(n)[i
        + 1].0 by {
        assert(s.take(n)[i] == s[i]);
        assert(s.take(n)[i + 1] == s[i + 1]);
    }
}

/// In a sorted sequence every key before position `j` is below the key at `j`.
pub proof fn lemma_sorted_prefix_lt(s: Seq<(Var, Val)>, j: int)
    requires
        seq_sorted(s),
        0 <= j < s.len(),
    ensures
        forall|l: int| 0 <= l < j ==> (#[trigger] s[l]).0 < s[j].0,
{
    assert forall|l: int| 0 <= l < j implies (#[trigger] s[l]).0 < s[j].0 by {
        lemma_sorted_general(s, l, j);
    }
}

/// A partial assignment of variables to values: a partial function, where an
/// absent key means "unknown". Stored as a vector of pairs with strictly
/// ascending keys.
#[derive(Debug, Clone, PartialEq, Eq)]
pub struct PartialState {
    assignments: Vec<(Var, Val)>,
}

impl PartialState {
    /// The pairs, in storage order.
    pub closed spec fn pairs(self) -> Seq<(Var, Val)> {
        self.assignments@
    }

    /// Well-formed: keys strictly ascending, hence unique.
    pub open spec fn wf(self) -> bool {
        seq_sorted(self.pairs())
    }

    /// The value assigned to `k`, if any.
    pub open spec fn spec_get(self, k: Var) -> Option<Val> {
        seq_get(self.pairs(), k)
    }

    /// The empty assignment.
    pub fn new() -> (r: PartialState)
        ensures
            r.wf(),
            r.pairs() == Seq::<(Var, Val)>::empty(),
            forall|k: Var| r.spec_get(k) is None,
    {
        PartialState { assignments: Vec::new() }
    }

    pub fn len(&self) -> (n: usize)
        ensures
            n == self.pairs().len(),
    {
        self.assignments.len()
    }

    /// The pair at storage position `i`.
    pub fn pair_at(&self, i: usize) -> (r: (Var, Val))
        requires
            i < self.pairs().len(),
        ensures
            r == self.pairs()[i as int],
    {
        self.assignments[i]
    }

    /// Runtime check of well-formedness, for callers outside verified code.
    pub fn is_wf(&self) -> (b: bool)
        ensures
            b == self.wf(),
    {
        let n = self.assignments.len();
        if n == 0 {
            return true;
        }
        let mut i: usize = 0;
        while i < n - 1
            invariant
                n == self.pairs().len(),
                n >= 1,
                i <= n - 1,
                forall|j: int| 0 <= j < i ==> (#[trigger] self.pairs()[j]).0 < self.pairs()[j
                    + 1].0,
            decreases n - i,
        {
            if self.assignments[i].0 >= self.assignments[i + 1].0 {
                proof {
                    assert(!seq_sorted(self.pairs()));
                }
                return false;
            }
            i = i + 1;
        }
        true
    }

    /// The current value of `k`.
    pub fn get(&self, k: Var) -> (r: Option<Val>)
        ensures
            r == self.spec_get(k),
    {
        let n = self.assignments.len();
        let mut i: usize = 0;
        proof {
            assert(self.pairs().skip(0) =~= self.pairs());
        }
        while i < n
            invariant
                n == self.pairs().len(),
                i <= n,
                seq_get(self.pairs(), k) == seq_get(self.pairs().skip(i as int), k),
            decreases n - i,
        {
            let (kk, vv) = self.assignments[i];
            if kk == k {
                assert(self.pairs().skip(i as int)[0] == (kk, vv));
                return Some(vv);
            }
            proof {
                assert(self.pairs().skip(i as int).drop_first() =~= self.pairs().skip(
                    i as int + 1,
                ));
                assert(self.pairs().skip(i as int)[0] == self.pairs()[i as int]);
            }
            i = i + 1;
        }
        None
    }

    /// Sets `k` to `v`, superseding any earlier assignment, and returns the
    /// value that `k` had before, if any.
    #[verifier::rlimit(60)]
    pub fn insert(&mut self, k: Var, v: Val) -> (old_v: Option<Val>)
        requires
            old(self).wf(),
        ensures
            final(self).wf(),
            old_v == old(self).spec_get(k),
            final(self).spec_get(k) == Some(v),
            forall|k2: Var| k2 != k ==> final(self).spec_get(k2) == old(self).spec_get(k2),
            final(self).pairs().len() == old(self).pairs().len() + (if old(self).spec_get(k)
                is Some {
                0int
            } else {
                1int
            }),
    {
        proof {
            lemma_seq_get_mem(self.pairs(), k);
        }
        let ghost s0 = self.pairs();
        let n = self.assignments.len();
        let mut pos: usize = 0;
        while pos < n && self.assignments[pos].0 < k
            invariant
                n == self.pairs().len(),
                pos <= n,
                forall|j: int| 0 <= j < pos ==> (#[trigger] self.pairs()[j]).0 < k,
            decreases n - pos,
        {
            pos = pos + 1;
        }
        proof {
            assert forall|j: int| pos < j < s0.len() implies k < (#[trigger] s0[j]).0 by {
                lemma_sorted_general(s0, pos as int, j);
            }
        }
        if pos < n && self.assignments[pos].0 == k {
            let old_v = self.assignments[pos].1;
            self.assignments.set(pos, (k, v));
            proof {
                let s1 = self.pairs();
                assert(seq_sorted(s1)) by {
                    assert forall|i: int| 0 <= i && i + 1 < s1.len() implies (#[trigger] s1[i]).0 < s1[i
                        + 1].0 by {
                        assert(s1[i].0 == s0[i].0);
                        assert(s1[i + 1].0 == s0[i + 1].0);
                        lemma_sorted_general(s0, i, i + 1);
                    }
                }
                lemma_seq_get_mem(s0, k);
                lemma_seq_get_mem(s1, k);
                assert(s1[pos as int] == (k, v));
                assert(s0[pos as int].0 == k);
                assert(seq_get(s0, k) == Some(old_v));
                assert forall|k2: Var| k2 != k implies seq_get(s1, k2) == seq_get(s0, k2) by {
                    lemma_seq_get_mem(s1, k2);
                    lemma_seq_get_mem(s0, k2);
                    if seq_get(s0, k2) is Some {
                        let i = choose|i: int| 0 <= i < s0.len() && (#[trigger] s0[i]).0 == k2;
                        assert(i != pos);
                        assert(s1[i] == s0[i]);
                        assert(seq_get(s0, k2) == Some(s0[i].1));
                        assert(seq_get(s1, k2) == Some(s1[i].1));
                    } else if seq_get(s1, k2) is Some {
                        let j = choose|j: int| 0 <= j < s1.len() && (#[trigger] s1[j]).0 == k2;
                        assert(j != pos);
                        assert(s0[j] == s1[j]);
                        assert(seq_get(s0, k2) is Some);
                    }
                }
            }
            Some(old_v)
        } else {
            self.assignments.insert(pos, (k, v));
            proof {
                let s1 = self.pairs();
                assert(s1 =~= s0.take(pos as int) + seq![(k, v)] + s0.skip(pos as int));
                assert(seq_sorted(s1)) by {
                    assert forall|i: int| 0 <= i && i + 1 < s1.len() implies (#[trigger] s1[i]).0 < s1[i
                        + 1].0 by {
                        if i + 1 < pos {
                            assert(s1[i] == s0[i] && s1[i + 1] == s0[i + 1]);
                        } else if i + 1 == pos {
                            assert(s1[i] == s0[i]);
                        } else if i == pos {
                            assert(s1[i + 1] == s0[i]);
                        } else {
                            assert(s1[i] == s0[i - 1] && s1[i + 1] == s0[i]);
                        }
                    }
                }
                lemma_seq_get_mem(s0, k);
                lemma_seq_get_mem(s1, k);
                assert(s1[pos as int] == (k, v));
                assert(seq_get(s0, k) is None) by {
                    assert forall|i: int|
                        0 <= i < s0.len() implies (#[trigger] s0[i]).0 != k by {}
                }
                assert forall|k2: Var| k2 != k implies seq_get(s1, k2) == seq_get(s0, k2) by {
                    lemma_seq_get_mem(s1, k2);
                    lemma_seq_get_mem(s0, k2);
                    if seq_get(s0, k2) is Some {
                        let i = choose|i: int| 0 <= i < s0.len() && (#[trigger] s0[i]).0 == k2;
                        let j: int = if i < pos {
                            i
                        } else {
                            i + 1
                        };
                        assert(s1[j] == s0[i]);
                        assert(seq_get(s0, k2) == Some(s0[i].1));
                        assert(seq_get(s1, k2) == Some(s1[j].1));
                    } else if seq_get(s1, k2) is Some {
                        let j = choose|j: int| 0 <= j < s1.len() && (#[trigger] s1[j]).0 == k2;
                        assert(j != pos);
                        let i: int = if j < pos {
                            j
                        } else {
                            j - 1
                        };
                        assert(s0[i] == s1[j]);
                        assert(seq_get(s0, k2) is Some);
                    }
                }
            }
            None
        }
    }

    /// An element-for-element copy.
    pub fn duplicate(&self) -> (r: PartialState)
        ensures
            r.pairs() == self.pairs(),
    {
        let n = self.assignments.len();
        let mut v: Vec<(Var, Val)> = Vec::new();
        let mut i: usize = 0;
        while i < n
            invariant
                n == self.pairs().len(),
                i <= n,
                v@ =~= self.pairs().take(i as int),
            decreases n - i,
        {
            v.push(self.assignments[i]);
            i = i + 1;
        }
        proof {
            assert(v@ =~= self.pairs());
        }
        PartialState { assignments: v }
    }
}

impl Default for PartialState {
    /// The empty assignment.
    fn default() -> (r: PartialState)
        ensures
            r.wf(),
            r.pairs() == Seq::<(Var, Val)>::empty(),
    {
        PartialState { assignments: Vec::new() }
    }
}

} // verus!
