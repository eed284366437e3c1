use vstd::prelude::*;
use crate::iset::IndexSet;
use crate::pstate::PartialState;

verus! {

/// A named predicate over states: satisfied by every state whose effective
/// assignment extends `partial_state`.
#[derive(Debug, Clone)]
pub struct Duty {
    pub name: &'static str,
    pub partial_state: PartialState,
}

/// A named transition rule. `src_pstate` is the precondition pattern the
/// current state must match; `dst_pstate` holds the assignments the action
/// contributes to the next state when taken.
#[derive(Debug, Clone)]
pub struct Action {
    pub name: &'static str,
    pub src_pstate: PartialState,
    pub dst_pstate: PartialState,
}

/// A named constrained implication over a set of indices:
/// if `if_all` is a subset, then `then_all` must be a subset and `then_none`
/// disjoint. The same shape constrains action combinations (over action
/// indices) and duty-satisfaction combinations (over duty indices).
#[derive(Debug, Clone)]
pub struct Rule {
    pub name: &'static str,
    pub if_all: IndexSet,
    pub then_all: IndexSet,
    pub then_none: IndexSet,
}

impl Rule {
    /// What `satisfied_by` decides: a rule is vacuously satisfied whenever
    /// `if_all` is not a subset of the candidate set.
    pub open spec fn spec_satisfied_by(self, indexes: IndexSet) -> bool {
        !self.if_all.spec_subset_of(indexes) || (self.then_all.spec_subset_of(indexes)
            && self.then_none.spec_disjoint_with(indexes))
    }

    /// The same decision, over a mathematical set of indices.
    pub open spec fn spec_sat_set(self, s: Set<u64>) -> bool {
        !self.if_all.to_set().subset_of(s) || (self.then_all.to_set().subset_of(s)
            && self.then_none.to_set().disjoint(s))
    }

    /// Whether the candidate set `indexes` satisfies this rule.
    pub fn satisfied_by(&self, indexes: &IndexSet) -> (r: bool)
        ensures
            r == self.spec_satisfied_by(*indexes),
            r == self.spec_sat_set(indexes.to_set()),
    {
        !self.if_all.is_subset_of(indexes) || (self.then_all.is_subset_of(indexes)
            && self.then_none.is_disjoint_with(indexes))
    }
}

/// Same name and same assignment pairs.
pub open spec fn duty_equiv(a: Duty, b: Duty) -> bool {
    a.name@ == b.name@ && a.partial_state.pairs() == b.partial_state.pairs()
}

/// Same name and same precondition and postcondition pairs.
pub open spec fn action_equiv(a: Action, b: Action) -> bool {
    a.name@ == b.name@ && a.src_pstate.pairs() == b.src_pstate.pairs() && a.dst_pstate.pairs()
        == b.dst_pstate.pairs()
}

/// Same name and same three index sets.
pub open spec fn rule_equiv(a: Rule, b: Rule) -> bool {
    a.name@ == b.name@ && a.if_all == b.if_all && a.then_all == b.then_all && a.then_none
        == b.then_none
}

/// The declarative problem description: duties with rules over duty indices,
/// and actions with rules over action indices.
#[derive(Debug, Clone)]
pub struct Specification {
    pub duties: Vec<Duty>,
    pub drules: Vec<Rule>,
    pub actions: Vec<Action>,
    pub arules: Vec<Rule>,
}

impl Specification {
    /// Every partial state held by the specification is well formed.
    pub open spec fn wf(self) -> bool {
        &&& forall|i: int|
            0 <= i < self.duties@.len() ==> (#[trigger] self.duties@[i]).partial_state.wf()
        &&& forall|i: int|
            0 <= i < self.actions@.len() ==> (#[trigger] self.actions@[i]).src_pstate.wf() && (
            #[trigger] self.actions@[i]).dst_pstate.wf()
    }

    /// The specification with nothing in it.
    pub fn new() -> (r: Specification)
        ensures
            r.wf(),
            r.duties@.len() == 0,
            r.drules@.len() == 0,
            r.actions@.len() == 0,
            r.arules@.len() == 0,
    {
        Specification { duties: Vec::new(), drules: Vec::new(), actions: Vec::new(), arules: Vec::new() }
    }

    /// Runtime check of well-formedness, for callers outside verified code.
    pub fn is_wf(&self) -> (b: bool)
        ensures
            b == self.wf(),
    {
        let nd = self.duties.len();
        let mut i: usize = 0;
        while i < nd
            invariant
                nd == self.duties@.len(),
                i <= nd,
                forall|j: int| 0 <= j < i ==> (#[trigger] self.duties@[j]).partial_state.wf(),
            decreases nd - i,
        {
            if !self.duties[i].partial_state.is_wf() {
                return false;
            }
            i = i + 1;
        }
        let na = self.actions.len();
        let mut j: usize = 0;
        while j < na
            invariant
                na == self.actions@.len(),
                j <= na,
                forall|l: int| 0 <= l < j ==> (#[trigger] self.actions@[l]).src_pstate.wf() && (
                #[trigger] self.actions@[l]).dst_pstate.wf(),
                forall|l: int| 0 <= l < self.duties@.len() ==> (
                #[trigger] self.duties@[l]).partial_state.wf(),
            decreases na - j,
        {
            if !self.actions[j].src_pstate.is_wf() {
                return false;
            }
            if !self.actions[j].dst_pstate.is_wf() {
                return false;
            }
            j = j + 1;
        }
        true
    }

    /// The composition of this specification with another: the plain union of
    /// the respective lists, in order, with no deduplication and no check for
    /// name collisions. Neither input is changed.
    pub fn compose(&self, other: &Specification) -> (r: Specification)
        ensures
            r.duties@.len() == self.duties@.len() + other.duties@.len(),
            r.drules@.len() == self.drules@.len() + other.drules@.len(),
            r.actions@.len() == self.actions@.len() + other.actions@.len(),
            r.arules@.len() == self.arules@.len() + other.arules@.len(),
            forall|i: int|
                0 <= i < self.duties@.len() ==> duty_equiv(#[trigger] r.duties@[i], self.duties@[i]),
            forall|i: int|
                self.duties@.len() <= i < r.duties@.len() ==> duty_equiv(
                    #[trigger] r.duties@[i],
                    other.duties@[i - self.duties@.len()],
                ),
            forall|i: int|
                0 <= i < self.drules@.len() ==> rule_equiv(#[trigger] r.drules@[i], self.drules@[i]),
            forall|i: int|
                self.drules@.len() <= i < r.drules@.len() ==> rule_equiv(
                    #[trigger] r.drules@[i],
                    other.drules@[i - self.drules@.len()],
                ),
            forall|i: int|
                0 <= i < self.actions@.len() ==> action_equiv(
                    #[trigger] r.actions@[i],
                    self.actions@[i],
                ),
            forall|i: int|
                self.actions@.len() <= i < r.actions@.len() ==> action_equiv(
                    #[trigger] r.actions@[i],
                    other.actions@[i - self.actions@.len()],
                ),
            forall|i: int|
                0 <= i < self.arules@.len() ==> rule_equiv(#[trigger] r.arules@[i], self.arules@[i]),
            forall|i: int|
                self.arules@.len() <= i < r.arules@.len() ==> rule_equiv(
                    #[trigger] r.arules@[i],
                    other.arules@[i - self.arules@.len()],
                ),
    {
        let duties = copy_duties(&other.duties, copy_duties(&self.duties, Vec::new()));
        let drules = copy_rules(&other.drules, copy_rules(&self.drules, Vec::new()));
        let actions = copy_actions(&other.actions, copy_actions(&self.actions, Vec::new()));
        let arules = copy_rules(&other.arules, copy_rules(&self.arules, Vec::new()));
        Specification { duties, drules, actions, arules }
    }
}

impl Default for Specification {
    /// The specification with nothing in it.
    fn default() -> (r: Specification)
        ensures
            r.wf(),
            r.duties@.len() == 0,
            r.drules@.len() == 0,
            r.actions@.len() == 0,
            r.arules@.len() == 0,
    {
        Specification { duties: Vec::new(), drules: Vec::new(), actions: Vec::new(), arules: Vec::new() }
    }
}

/// Appends a copy of every duty of `src` to `acc`.
fn copy_duties(src: &Vec<Duty>, acc: Vec<Duty>) -> (r: Vec<Duty>)
    ensures
        r@.len() == acc@.len() + src@.len(),
        forall|i: int| 0 <= i < acc@.len() ==> #[trigger] r@[i] == acc@[i],
        forall|i: int|
            acc@.len() <= i < r@.len() ==> duty_equiv(#[trigger] r@[i], src@[i - acc@.len()]),
{
    let mut r = acc;
    let n = src.len();
    let ghost alen = r@.len();
    let ghost a0 = r@;
    let mut i: usize = 0;
    while i < n
        invariant
            n == src@.len(),
            i <= n,
            r@.len() == alen + i,
            a0.len() == alen,
            forall|j: int| 0 <= j < alen ==> #[trigger] r@[j] == a0[j],
            forall|j: int| alen <= j < r@.len() ==> duty_equiv(#[trigger] r@[j], src@[j - alen]),
        decreases n - i,
    {
        let d = &src[i];
        r.push(Duty { name: d.name, partial_state: d.partial_state.duplicate() });
        i = i + 1;
    }
    r
}

/// Appends a copy of every rule of `src` to `acc`.
fn copy_rules(src: &Vec<Rule>, acc: Vec<Rule>) -> (r: Vec<Rule>)
    ensures
        r@.len() == acc@.len() + src@.len(),
        forall|i: int| 0 <= i < acc@.len() ==> #[trigger] r@[i] == acc@[i],
        forall|i: int|
            acc@.len() <= i < r@.len() ==> rule_equiv(#[trigger] r@[i], src@[i - acc@.len()]),
{
    let mut r = acc;
    let n = src.len();
    let ghost alen = r@.len();
    let ghost a0 = r@;
    let mut i: usize = 0;
    while i < n
        invariant
            n == src@.len(),
            i <= n,
            r@.len() == alen + i,
            a0.len() == alen,
            forall|j: int| 0 <= j < alen ==> #[trigger] r@[j] == a0[j],
            forall|j: int| alen <= j < r@.len() ==> rule_equiv(#[trigger] r@[j], src@[j - alen]),
        decreases n - i,
    {
        let d = &src[i];
        r.push(Rule { name: d.name, if_all: d.if_all, then_all: d.then_all, then_none: d.then_none });
        i = i + 1;
    }
    r
}

/// Appends a copy of every action of `src` to `acc`.
fn copy_actions(src: &Vec<Action>, acc: Vec<Action>) -> (r: Vec<Action>)
    ensures
        r@.len() == acc@.len() + src@.len(),
        forall|i: int| 0 <= i < acc@.len() ==> #[trigger] r@[i] == acc@[i],
        forall|i: int|
            acc@.len() <= i < r@.len() ==> action_equiv(#[trigger] r@[i], src@[i - acc@.len()]),
{
    let mut r = acc;
    let n = src.len();
    let ghost alen = r@.len();
    let ghost a0 = r@;
    let mut i: usize = 0;
    while i < n
        invariant
            n == src@.len(),
            i <= n,
            r@.len() == alen + i,
            a0.len() == alen,
            forall|j: int| 0 <= j < alen ==> #[trigger] r@[j] == a0[j],
            forall|j: int| alen <= j < r@.len() ==> action_equiv(#[trigger] r@[j], src@[j - alen]),
        decreases n - i,
    {
        let d = &src[i];
        r.push(
            Action {
                name: d.name,
                src_pstate: d.src_pstate.duplicate(),
                dst_pstate: d.dst_pstate.duplicate(),
            },
        );
        i = i + 1;
    }
    r
}

/// Composing a specification with an empty one yields a specification equal
/// in content, list for list and entry for entry. The hypotheses are what
/// `compose` ensures of its result `r`.
pub proof fn lemma_compose_empty(s: Specification, e: Specification, r: Specification)
    requires
        e.duties@.len() == 0,
        e.drules@.len() == 0,
        e.actions@.len() == 0,
        e.arules@.len() == 0,
        r.duties@.len() == s.duties@.len() + e.duties@.len(),
        r.drules@.len() == s.drules@.len() + e.drules@.len(),
        r.actions@.len() == s.actions@.len() + e.actions@.len(),
        r.arules@.len() == s.arules@.len() + e.arules@.len(),
        forall|i: int|
            0 <= i < s.duties@.len() ==> duty_equiv(#[trigger] r.duties@[i], s.duties@[i]),
        forall|i: int|
            0 <= i < s.drules@.len() ==> rule_equiv(#[trigger] r.drules@[i], s.drules@[i]),
        forall|i: int|
            0 <= i < s.actions@.len() ==> action_equiv(#[trigger] r.actions@[i], s.actions@[i]),
        forall|i: int|
            0 <= i < s.arules@.len() ==> rule_equiv(#[trigger] r.arules@[i], s.arules@[i]),
    ensures
        r.duties@.len() == s.duties@.len(),
        r.drules@.len() == s.drules@.len(),
        r.actions@.len() == s.actions@.len(),
        r.arules@.len() == s.arules@.len(),
        forall|i: int|
            0 <= i < r.duties@.len() ==> duty_equiv(#[trigger] r.duties@[i], s.duties@[i]),
        forall|i: int|
            0 <= i < r.drules@.len() ==> rule_equiv(#[trigger] r.drules@[i], s.drules@[i]),
        forall|i: int|
            0 <= i < r.actions@.len() ==> action_equiv(#[trigger] r.actions@[i], s.actions@[i]),
        forall|i: int|
            0 <= i < r.arules@.len() ==> rule_equiv(#[trigger] r.arules@[i], s.arules@[i]),
{
}

} // verus!
