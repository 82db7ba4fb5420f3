use vstd::prelude::*;

use crate::types::{Assignment, Assignments, Literal, Literals, Variable};
use crate::types::{assign_negate, lit_polarity, lit_var, lit_value, lit_variable, valid_lit,
    valid_var};

verus! {

/// Spec-level contents of an association list of variable/assignment pairs:
/// the partial map it denotes, with `true` standing for `Assignment::True`.
pub open spec fn map_of(s: Seq<(Variable, Assignment)>) -> Map<int, bool>
    decreases s.len(),
{
    if s.len() == 0 {
        Map::empty()
    } else {
        map_of(s.drop_last()).insert(s.last().0 as int, s.last().1 is True)
    }
}

/// Well-formed certificate storage: valid, pairwise distinct variables and no
/// stored `Unassigned` entry.
pub open spec fn wf_assignments(s: Seq<(Variable, Assignment)>) -> bool {
    &&& forall|i: int| 0 <= i < s.len() ==> valid_var((#[trigger] s[i]).0)
    &&& forall|i: int| 0 <= i < s.len() ==> !((#[trigger] s[i]).1 is Unassigned)
    &&& forall|i: int, j: int| 0 <= i < j < s.len() ==> s[i].0 != s[j].0
}

/// The domain of `map_of(s)` is finite and holds exactly the stored variables.
pub proof fn lemma_map_of_dom(s: Seq<(Variable, Assignment)>)
    ensures
        map_of(s).dom().finite(),
        forall|v: int| #[trigger] map_of(s).dom().contains(v)
            <==> exists|i: int| 0 <= i < s.len() && (#[trigger] s[i]).0 as int == v,
    decreases s.len(),
{
    broadcast use vstd::set::group_set_axioms;

    if s.len() == 0 {
    } else {
        lemma_map_of_dom(s.drop_last());
        assert forall|v: int| #[trigger] map_of(s).dom().contains(v)
            implies exists|i: int| 0 <= i < s.len() && (#[trigger] s[i]).0 as int == v by {
            if v == s.last().0 as int {
                assert(s[s.len() - 1].0 as int == v);
            } else {
                let i = choose|i: int| 0 <= i < s.drop_last().len()
                    && (#[trigger] s.drop_last()[i]).0 as int == v;
                assert(s[i].0 as int == v);
            }
        }
        assert forall|v: int| (exists|i: int| 0 <= i < s.len() && (#[trigger] s[i]).0 as int == v)
            implies map_of(s).dom().contains(v) by {
            let i = choose|i: int| 0 <= i < s.len() && (#[trigger] s[i]).0 as int == v;
            if i < s.len() - 1 {
                assert(s.drop_last()[i].0 as int == v);
            }
        }
    }
}

/// With distinct variables, `map_of(s)` maps each stored variable to its
/// stored value.
pub proof fn lemma_map_of_lookup(s: Seq<(Variable, Assignment)>, i: int)
    requires
        forall|p: int, q: int| 0 <= p < q < s.len() ==> s[p].0 != s[q].0,
        0 <= i < s.len(),
    ensures
        map_of(s).dom().contains(s[i].0 as int),
        map_of(s)[s[i].0 as int] == (s[i].1 is True),
    decreases s.len(),
{
    if i == s.len() - 1 {
    } else {
        lemma_map_of_lookup(s.drop_last(), i);
        assert(s.drop_last()[i] == s[i]);
        assert(s[i].0 != s.last().0);
    }
}

/// With distinct variables, the denoted map has as many entries as the list.
pub proof fn lemma_map_of_len(s: Seq<(Variable, Assignment)>)
    requires
        forall|p: int, q: int| 0 <= p < q < s.len() ==> s[p].0 != s[q].0,
    ensures
        map_of(s).dom().len() == s.len(),
    decreases s.len(),
{
    broadcast use vstd::set::group_set_axioms;

    if s.len() == 0 {
    } else {
        lemma_map_of_len(s.drop_last());
        lemma_map_of_dom(s.drop_last());
        let key = s.last().0 as int;
        assert(!map_of(s.drop_last()).dom().contains(key)) by {
            if map_of(s.drop_last()).dom().contains(key) {
                let i = choose|i: int| 0 <= i < s.drop_last().len()
                    && (#[trigger] s.drop_last()[i]).0 as int == key;
                assert(s[i].0 == s.last().0);
                assert(s[i].0 != s[s.len() - 1].0);
            }
        }
        assert(map_of(s).dom() =~= map_of(s.drop_last()).dom().insert(key));
    }
}

/// A partial assignment of truth values to variables. Only `True` and `False`
/// are ever stored; a missing variable resolves to `Unassigned`. A variable,
/// once assigned, can never be flipped: a conflicting insertion fails.
#[derive(Debug)]
pub struct Certificate {
    assignments: Assignments,
}

impl View for Certificate {
    type V = Map<int, bool>;

    open spec fn view(&self) -> Map<int, bool> {
        map_of(self.entries())
    }
}

/// Whether inserting `l` into the partial map `m` succeeds: the variable is
/// free, or already carries the very value the literal asks for.
pub open spec fn insert_ok(m: Map<int, bool>, l: Literal) -> bool {
    !m.dom().contains(lit_var(l)) || m[lit_var(l)] == lit_polarity(l)
}

/// Two partial maps are compatible when they agree on every shared variable.
pub open spec fn compatible(a: Map<int, bool>, b: Map<int, bool>) -> bool {
    forall|v: int| #[trigger] a.dom().contains(v) && #[trigger] b.dom().contains(v)
        ==> a[v] == b[v]
}

impl Certificate {
    /// The stored variable/assignment pairs, in insertion order.
    pub closed spec fn entries(self) -> Seq<(Variable, Assignment)> {
        self.assignments@
    }

    /// Structural invariant of the storage.
    pub open spec fn wf(self) -> bool {
        wf_assignments(self.entries())
    }

    /// The certificate with no assignments.
    pub fn empty() -> (r: Certificate)
        ensures
            r.wf(),
            r@ == Map::<int, bool>::empty(),
            r.entries().len() == 0,
    {
        Certificate { assignments: Vec::new() }
    }

    /// A certificate holding exactly the assignment asserted by one literal.
    pub fn new(literal: Literal) -> (r: Certificate)
        requires
            valid_lit(literal),
        ensures
            r.wf(),
            r@ == Map::<int, bool>::empty().insert(lit_var(literal), lit_polarity(literal)),
    {
        let mut certificate = Certificate::empty();
        let res = certificate.insert(literal);
        proof {
            assert(res.is_ok());
        }
        certificate
    }

    /// Wraps existing storage, which must already be well formed.
    pub fn from(assignments: Assignments) -> (r: Certificate)
        requires
            wf_assignments(assignments@),
        ensures
            r.wf(),
            r.entries() == assignments@,
            r@ == map_of(assignments@),
    {
        Certificate { assignments }
    }

    /// Read-only access to the stored pairs, for rendering.
    pub fn assignments(&self) -> (r: &Assignments)
        ensures
            r@ == self.entries(),
    {
        &self.assignments
    }

    /// A copy with the same entries.
    pub fn duplicate(&self) -> (r: Certificate)
        ensures
            r.entries() == self.entries(),
            r@ == self@,
            r.wf() == self.wf(),
    {
        let mut out: Assignments = Vec::new();
        let n = self.assignments.len();
        let mut i: usize = 0;
        while i < n
            invariant
                i <= n,
                n == self.assignments@.len(),
                out@ == self.assignments@.take(i as int),
            decreases n - i,
        {
            out.push(self.assignments[i]);
            proof {
                assert(out@ =~= self.assignments@.take(i + 1 as int));
            }
            i = i + 1;
        }
        proof {
            assert(self.assignments@.take(n as int) =~= self.assignments@);
        }
        Certificate { assignments: out }
    }

    /// Number of assigned variables.
    pub fn len(&self) -> (r: usize)
        requires
            self.wf(),
        ensures
            r == self@.dom().len(),
    {
        proof {
            lemma_map_of_len(self.entries());
        }
        self.assignments.len()
    }

    /// Whether no variable is assigned.
    pub fn is_empty(&self) -> (r: bool)
        requires
            self.wf(),
        ensures
            r <==> self@.dom().len() == 0,
    {
        proof {
            lemma_map_of_len(self.entries());
        }
        self.assignments.len() == 0
    }

    /// The position of a variable in the storage, if present.
    fn index_of(&self, variable: Variable) -> (r: Option<usize>)
        ensures
            match r {
                Some(i) => i < self.entries().len() && self.entries()[i as int].0 == variable,
                None => forall|i: int| 0 <= i < self.entries().len()
                    ==> (#[trigger] self.entries()[i]).0 != variable,
            },
    {
        let n = self.assignments.len();
        let mut i: usize = 0;
        while i < n
            invariant
                i <= n,
                n == self.entries().len(),
                forall|j: int| 0 <= j < i ==> (#[trigger] self.entries()[j]).0 != variable,
            decreases n - i,
        {
            if self.assignments[i].0 == variable {
                return Some(i);
            }
            i = i + 1;
        }
        None
    }

    /// Whether the variable named by a literal is assigned.
    pub fn contains_literal(&self, literal: Literal) -> (r: bool)
        requires
            self.wf(),
            valid_lit(literal),
        ensures
            r == self@.dom().contains(lit_var(literal)),
    {
        let variable = lit_variable(literal);
        self.contains_variable(variable)
    }

    /// Whether a variable is assigned.
    pub fn contains_variable(&self, variable: Variable) -> (r: bool)
        requires
            self.wf(),
        ensures
            r == self@.dom().contains(variable as int),
    {
        proof {
            lemma_map_of_dom(self.entries());
        }
        match self.index_of(variable) {
            Some(_) => true,
            None => false,
        }
    }

    /// Asserts a literal: assigns its variable the polarity the literal asks
    /// for. Succeeds when the variable was free (recording it) or already
    /// carried that value (idempotent); fails on the opposite value, leaving
    /// the certificate unchanged. A failure is how contradictory forced facts
    /// are detected: an expected outcome, not a defect.
    pub fn insert(&mut self, literal: Literal) -> (r: Result<(), &'static str>)
        requires
            old(self).wf(),
            valid_lit(literal),
        ensures
            final(self).wf(),
            r.is_ok() == insert_ok(old(self)@, literal),
            r.is_ok() ==> final(self)@
                == old(self)@.insert(lit_var(literal), lit_polarity(literal)),
            !r.is_ok() ==> *final(self) == *old(self),
    {
        let variable = lit_variable(literal);
        let desired = if literal > 0 {
            Assignment::True
        } else {
            Assignment::False
        };
        match self.index_of(variable) {
            Some(i) => {
                proof {
                    lemma_map_of_lookup(self.entries(), i as int);
                }
                let stored = self.assignments[i].1;
                if stored == desired {
                    proof {
                        assert(old(self)@.insert(lit_var(literal), lit_polarity(literal))
                            =~= old(self)@);
                    }
                    Ok(())
                } else {
                    Err("tried to insert variable with conflicting assignment")
                }
            },
            None => {
                proof {
                    lemma_map_of_dom(self.entries());
                }
                self.assignments.push((variable, desired));
                proof {
                    assert(self.entries().drop_last() =~= old(self).entries());
                }
                Ok(())
            },
        }
    }

    /// Records an already-resolved variable/value pair, with the same conflict
    /// semantics as `insert`.
    pub fn insert_pair(&mut self, variable: Variable, assignment: Assignment) -> (r: Result<
        (),
        &'static str,
    >)
        requires
            old(self).wf(),
            valid_var(variable),
            !(assignment is Unassigned),
        ensures
            final(self).wf(),
            r.is_ok() == (!old(self)@.dom().contains(variable as int)
                || old(self)@[variable as int] == (assignment is True)),
            r.is_ok() ==> final(self)@
                == old(self)@.insert(variable as int, assignment is True),
            !r.is_ok() ==> *final(self) == *old(self),
    {
        match self.index_of(variable) {
            Some(i) => {
                proof {
                    lemma_map_of_lookup(self.entries(), i as int);
                }
                let stored = self.assignments[i].1;
                if stored == assignment {
                    proof {
                        assert(old(self)@.insert(variable as int, assignment is True)
                            =~= old(self)@);
                    }
                    Ok(())
                } else {
                    Err("tried to insert variable with conflicting assignment")
                }
            },
            None => {
                proof {
                    lemma_map_of_dom(self.entries());
                }
                self.assignments.push((variable, assignment));
                proof {
                    assert(self.entries().drop_last() =~= old(self).entries());
                }
                Ok(())
            },
        }
    }

    /// Resolves a literal: the stored value of its variable, negated for a
    /// negative literal, or `Unassigned` when the variable has no entry.
    pub fn get(&self, literal: Literal) -> (r: Assignment)
        requires
            self.wf(),
            valid_lit(literal),
        ensures
            r == lit_value(self@, literal),
    {
        let variable = lit_variable(literal);
        proof {
            lemma_map_of_dom(self.entries());
        }
        match self.index_of(variable) {
            Some(i) => {
                proof {
                    lemma_map_of_lookup(self.entries(), i as int);
                }
                let value = self.assignments[i].1;
                if literal > 0 {
                    value
                } else {
                    match value {
                        Assignment::True => Assignment::False,
                        Assignment::False => Assignment::True,
                        Assignment::Unassigned => {
                            proof {
                                assert(false);
                            }
                            Assignment::Unassigned
                        },
                    }
                }
            },
            None => Assignment::Unassigned,
        }
    }
}

impl Certificate {
    /// Whether the two certificates agree on every variable they both
    /// assign; variables present in only one are ignored.
    pub fn is_compatible(&self, other: &Certificate) -> (r: bool)
        requires
            self.wf(),
            other.wf(),
        ensures
            r == compatible(self@, other@),
    {
        let n = self.assignments.len();
        let mut i: usize = 0;
        while i < n
            invariant
                self.wf(),
                other.wf(),
                i <= n,
                n == self.entries().len(),
                forall|t: int| 0 <= t < i ==> (other@.dom().contains(
                    (#[trigger] self.entries()[t]).0 as int,
                ) ==> self@[self.entries()[t].0 as int] == other@[self.entries()[t].0 as int]),
            decreases n - i,
        {
            let (variable, value) = self.assignments[i];
            proof {
                lemma_map_of_lookup(self.entries(), i as int);
            }
            if other.contains_variable(variable) {
                let other_value = other.get(crate::types::var_literal(variable));
                if !(value == other_value) {
                    proof {
                        let v = variable as int;
                        assert(self@[v] == (value is True));
                        assert(other@[v] == (other_value is True));
                        assert(self@[v] != other@[v]);
                        assert(!compatible(self@, other@));
                    }
                    return false;
                }
            }
            i = i + 1;
        }
        proof {
            lemma_map_of_dom(self.entries());
            assert forall|v: int| #[trigger] self@.dom().contains(v) && other@.dom().contains(v)
                implies self@[v] == other@[v] by {
                let t = choose|t: int| 0 <= t < self.entries().len()
                    && (#[trigger] self.entries()[t]).0 as int == v;
            }
        }
        true
    }

    /// Merges two compatible certificates into their union; `None` when they
    /// conflict on some shared variable.
    pub fn merge(&self, other: &Certificate) -> (r: Option<Certificate>)
        requires
            self.wf(),
            other.wf(),
        ensures
            r.is_some() == compatible(self@, other@),
            r matches Some(c) ==> c.wf() && c@ == self@.union_prefer_right(other@),
    {
        if !self.is_compatible(other) {
            return None;
        }
        let mut merged = self.duplicate();
        let n = other.assignments.len();
        let mut i: usize = 0;
        while i < n
            invariant
                self.wf(),
                other.wf(),
                merged.wf(),
                compatible(self@, other@),
                i <= n,
                n == other.entries().len(),
                merged@ == self@.union_prefer_right(map_of(other.entries().take(i as int))),
            decreases n - i,
        {
            let (variable, value) = other.assignments[i];
            proof {
                lemma_map_of_lookup(other.entries(), i as int);
                lemma_map_of_dom(other.entries().take(i as int));
                let v = variable as int;
                assert(!map_of(other.entries().take(i as int)).dom().contains(v)) by {
                    if map_of(other.entries().take(i as int)).dom().contains(v) {
                        let t = choose|t: int| 0 <= t < other.entries().take(i as int).len()
                            && (#[trigger] other.entries().take(i as int)[t]).0 as int == v;
                        assert(other.entries()[t].0 == other.entries()[i as int].0);
                    }
                }
                if merged@.dom().contains(v) {
                    assert(self@.dom().contains(v));
                    assert(merged@[v] == self@[v]);
                    assert(other@.dom().contains(v));
                    assert(self@[v] == other@[v]);
                    assert(merged@[v] == (value is True));
                }
            }
            let res = merged.insert_pair(variable, value);
            proof {
                assert(res.is_ok());
                assert(other.entries().take(i + 1 as int).drop_last()
                    =~= other.entries().take(i as int));
                assert(other.entries().take(i + 1 as int).last() == other.entries()[i as int]);
                assert(merged@ =~= self@.union_prefer_right(
                    map_of(other.entries().take(i + 1 as int)),
                ));
            }
            match res {
                Ok(()) => {},
                Err(_) => {
                    proof {
                        assert(false);
                    }
                },
            }
            i = i + 1;
        }
        proof {
            assert(other.entries().take(n as int) =~= other.entries());
        }
        Some(merged)
    }

    /// Adds every entry of another certificate whose variables are all still
    /// free here; the union of the two mappings.
    pub fn absorb(&mut self, other: &Certificate)
        requires
            old(self).wf(),
            other.wf(),
            forall|v: int| other@.dom().contains(v) ==> !old(self)@.dom().contains(v),
        ensures
            final(self).wf(),
            final(self)@ == old(self)@.union_prefer_right(other@),
    {
        proof {
            assert(old(self)@.union_prefer_right(map_of(other.entries().take(0))) =~= old(
                self,
            )@);
        }
        let n = other.assignments.len();
        let mut i: usize = 0;
        while i < n
            invariant
                self.wf(),
                other.wf(),
                i <= n,
                n == other.entries().len(),
                forall|v: int| other@.dom().contains(v) ==> !old(self)@.dom().contains(v),
                self@ == old(self)@.union_prefer_right(map_of(other.entries().take(i as int))),
            decreases n - i,
        {
            let (variable, value) = other.assignments[i];
            proof {
                lemma_map_of_lookup(other.entries(), i as int);
                lemma_map_of_dom(other.entries());
                lemma_map_of_dom(other.entries().take(i as int));
                let v = variable as int;
                assert(other@.dom().contains(v));
                assert(!map_of(other.entries().take(i as int)).dom().contains(v)) by {
                    if map_of(other.entries().take(i as int)).dom().contains(v) {
                        let t = choose|t: int| 0 <= t < other.entries().take(i as int).len()
                            && (#[trigger] other.entries().take(i as int)[t]).0 as int == v;
                        assert(other.entries()[t].0 == other.entries()[i as int].0);
                    }
                }
                assert(!self@.dom().contains(v));
            }
            let res = self.insert_pair(variable, value);
            proof {
                assert(res.is_ok());
                assert(other.entries().take(i + 1 as int).drop_last()
                    =~= other.entries().take(i as int));
                assert(other.entries().take(i + 1 as int).last() == other.entries()[i as int]);
                assert(self@ =~= old(self)@.union_prefer_right(
                    map_of(other.entries().take(i + 1 as int)),
                ));
            }
            match res {
                Ok(()) => {},
                Err(_) => {
                    proof {
                        assert(false);
                    }
                },
            }
            i = i + 1;
        }
        proof {
            assert(other.entries().take(n as int) =~= other.entries());
        }
    }

    /// Folds a batch of forced literals into a fresh certificate by repeated
    /// conflict-checked insertion; a single conflict aborts the fold.
    pub fn from_literals(literals: &Literals) -> (r: Result<Certificate, &'static str>)
        requires
            forall|i: int| 0 <= i < literals@.len() ==> valid_lit(#[trigger] literals@[i]),
        ensures
            r.is_ok() == fold_ok(Map::<int, bool>::empty(), literals@),
            r matches Ok(c) ==> c.wf() && c@ == fold_lits(Map::<int, bool>::empty(), literals@),
    {
        let ghost whole = literals@;
        let mut certificate = Certificate::empty();
        proof {
            assert(whole.skip(0) =~= whole);
        }
        let n = literals.len();
        let mut i: usize = 0;
        while i < n
            invariant
                certificate.wf(),
                i <= n,
                n == whole.len(),
                whole == literals@,
                forall|t: int| 0 <= t < whole.len() ==> valid_lit(#[trigger] whole[t]),
                fold_lits(Map::<int, bool>::empty(), whole) == fold_lits(
                    certificate@,
                    whole.skip(i as int),
                ),
                fold_ok(Map::<int, bool>::empty(), whole) == fold_ok(
                    certificate@,
                    whole.skip(i as int),
                ),
            decreases n - i,
        {
            let literal = literals[i];
            proof {
                assert(whole.skip(i as int).first() == whole[i as int]);
                assert(whole.skip(i as int).drop_first() =~= whole.skip(i + 1 as int));
            }
            let res = certificate.insert(literal);
            match res {
                Ok(()) => {},
                Err(e) => {
                    return Err(e);
                },
            }
            i = i + 1;
        }
        proof {
            assert(whole.skip(n as int) =~= Seq::<Literal>::empty());
        }
        Ok(certificate)
    }
}

/// Whether a literal with the given variable occurs in the batch.
pub open spec fn seq_has_var(s: Seq<Literal>, v: int) -> bool {
    exists|i: int| 0 <= i < s.len() && lit_var(#[trigger] s[i]) == v
}

/// Whether the batch asks for both polarities of some variable.
pub open spec fn conflicting(s: Seq<Literal>) -> bool {
    exists|i: int, j: int|
        0 <= i < s.len() && 0 <= j < s.len() && lit_var(#[trigger] s[i]) == lit_var(
            #[trigger] s[j],
        ) && lit_polarity(s[i]) != lit_polarity(s[j])
}

/// The partial map reached by inserting each literal of a batch in turn.
pub open spec fn fold_lits(m: Map<int, bool>, s: Seq<Literal>) -> Map<int, bool>
    decreases s.len(),
{
    if s.len() == 0 {
        m
    } else {
        fold_lits(m.insert(lit_var(s.first()), lit_polarity(s.first())), s.drop_first())
    }
}

/// Whether every insertion of the fold succeeds.
pub open spec fn fold_ok(m: Map<int, bool>, s: Seq<Literal>) -> bool
    decreases s.len(),
{
    s.len() == 0 || (insert_ok(m, s.first()) && fold_ok(
        m.insert(lit_var(s.first()), lit_polarity(s.first())),
        s.drop_first(),
    ))
}

/// What a successful fold produces: each batch variable maps to the polarity
/// its literal asked for, everything else is untouched.
pub proof fn lemma_fold_facts(m: Map<int, bool>, s: Seq<Literal>)
    requires
        fold_ok(m, s),
    ensures
        forall|v: int| #[trigger] fold_lits(m, s).dom().contains(v) <==> m.dom().contains(v)
            || seq_has_var(s, v),
        forall|v: int| m.dom().contains(v) ==> #[trigger] fold_lits(m, s)[v] == m[v],
        forall|i: int| 0 <= i < s.len() ==> fold_lits(m, s)[lit_var(#[trigger] s[i])]
            == lit_polarity(s[i]),
    decreases s.len(),
{
    if s.len() == 0 {
    } else {
        let v0 = lit_var(s.first());
        let p0 = lit_polarity(s.first());
        let m1 = m.insert(v0, p0);
        lemma_fold_facts(m1, s.drop_first());
        assert forall|v: int| #[trigger] fold_lits(m, s).dom().contains(v)
            implies m.dom().contains(v) || seq_has_var(s, v) by {
            assert(fold_lits(m, s) == fold_lits(m1, s.drop_first()));
            assert(fold_lits(m1, s.drop_first()).dom().contains(v));
            if v == v0 {
                assert(lit_var(s[0]) == v);
            } else if m1.dom().contains(v) {
            } else {
                let i = choose|i: int| 0 <= i < s.drop_first().len()
                    && lit_var(#[trigger] s.drop_first()[i]) == v;
                assert(lit_var(s[i + 1]) == v);
            }
        }
        assert forall|v: int| m.dom().contains(v) || seq_has_var(s, v)
            implies #[trigger] fold_lits(m, s).dom().contains(v) by {
            assert(fold_lits(m, s) == fold_lits(m1, s.drop_first()));
            if v == v0 || m.dom().contains(v) {
                assert(m1.dom().contains(v));
                assert(fold_lits(m1, s.drop_first()).dom().contains(v));
            } else {
                let i = choose|i: int| 0 <= i < s.len() && lit_var(#[trigger] s[i]) == v;
                if i == 0 {
                    assert(v == v0);
                } else {
                    assert(s.drop_first()[i - 1] == s[i]);
                    assert(seq_has_var(s.drop_first(), v));
                    assert(fold_lits(m1, s.drop_first()).dom().contains(v));
                }
            }
        }
        assert forall|v: int| m.dom().contains(v)
            implies #[trigger] fold_lits(m, s)[v] == m[v] by {
            assert(fold_lits(m, s) == fold_lits(m1, s.drop_first()));
            assert(m1.dom().contains(v));
            assert(fold_lits(m1, s.drop_first())[v] == m1[v]);
            if v == v0 {
                assert(insert_ok(m, s.first()));
                assert(m1[v] == m[v]);
            }
        }
        assert forall|i: int| 0 <= i < s.len()
            implies fold_lits(m, s)[lit_var(#[trigger] s[i])] == lit_polarity(s[i]) by {
            assert(fold_lits(m, s) == fold_lits(m1, s.drop_first()));
            if i == 0 {
                assert(m1.dom().contains(v0));
                assert(fold_lits(m1, s.drop_first())[v0] == m1[v0]);
            } else {
                assert(s.drop_first()[i - 1] == s[i]);
                assert(fold_lits(m1, s.drop_first())[lit_var(s.drop_first()[i - 1])]
                    == lit_polarity(s.drop_first()[i - 1]));
            }
        }
    }
}

/// A fold succeeds exactly when the batch is internally conflict-free and no
/// literal contradicts what the map already holds.
pub proof fn lemma_fold_ok_iff(m: Map<int, bool>, s: Seq<Literal>)
    ensures
        fold_ok(m, s) <==> (!conflicting(s) && forall|i: int|
            0 <= i < s.len() ==> insert_ok(m, #[trigger] s[i])),
    decreases s.len(),
{
    if s.len() == 0 {
    } else {
        let v0 = lit_var(s.first());
        let p0 = lit_polarity(s.first());
        let m1 = m.insert(v0, p0);
        lemma_fold_ok_iff(m1, s.drop_first());
        if fold_ok(m, s) {
            assert(!conflicting(s)) by {
                if conflicting(s) {
                    let (i, j) = choose|i: int, j: int|
                        0 <= i < s.len() && 0 <= j < s.len() && lit_var(#[trigger] s[i])
                            == lit_var(#[trigger] s[j]) && lit_polarity(s[i]) != lit_polarity(
                            s[j],
                        );
                    if i >= 1 && j >= 1 {
                        assert(s.drop_first()[i - 1] == s[i]);
                        assert(s.drop_first()[j - 1] == s[j]);
                        assert(conflicting(s.drop_first()));
                    } else {
                        let k = if i == 0 { j } else { i };
                        assert(lit_var(s[k]) == v0 && lit_polarity(s[k]) != p0);
                        assert(s.drop_first()[k - 1] == s[k]);
                        assert(insert_ok(m1, s.drop_first()[k - 1]));
                    }
                }
            }
            assert forall|i: int| 0 <= i < s.len() implies insert_ok(m, #[trigger] s[i]) by {
                if i >= 1 {
                    assert(s.drop_first()[i - 1] == s[i]);
                    assert(insert_ok(m1, s[i]));
                    if lit_var(s[i]) == v0 {
                        assert(!conflicting(s)) by {
                            if conflicting(s) {
                            }
                        }
                        assert(lit_polarity(s[i]) == p0) by {
                            if lit_polarity(s[i]) != p0 {
                                assert(lit_var(s[0]) == lit_var(s[i])
                                    && lit_polarity(s[0]) != lit_polarity(s[i]));
                            }
                        }
                        assert(insert_ok(m, s.first()));
                    }
                }
            }
        }
        if !conflicting(s) && forall|i: int| 0 <= i < s.len() ==> insert_ok(m, #[trigger] s[i]) {
            assert(insert_ok(m, s[0]));
            assert(!conflicting(s.drop_first())) by {
                if conflicting(s.drop_first()) {
                    let (i, j) = choose|i: int, j: int|
                        0 <= i < s.drop_first().len() && 0 <= j < s.drop_first().len()
                            && lit_var(#[trigger] s.drop_first()[i]) == lit_var(
                            #[trigger] s.drop_first()[j],
                        ) && lit_polarity(s.drop_first()[i]) != lit_polarity(s.drop_first()[j]);
                    assert(s.drop_first()[i] == s[i + 1]);
                    assert(s.drop_first()[j] == s[j + 1]);
                    assert(lit_var(s[i + 1]) == lit_var(s[j + 1]) && lit_polarity(s[i + 1])
                        != lit_polarity(s[j + 1]));
                }
            }
            assert forall|i: int| 0 <= i < s.drop_first().len()
                implies insert_ok(m1, #[trigger] s.drop_first()[i]) by {
                assert(s.drop_first()[i] == s[i + 1]);
                assert(insert_ok(m, s[i + 1]));
                if lit_var(s[i + 1]) == v0 {
                    assert(lit_polarity(s[i + 1]) == p0) by {
                        if lit_polarity(s[i + 1]) != p0 {
                            assert(lit_var(s[0]) == lit_var(s[i + 1]) && lit_polarity(s[0])
                                != lit_polarity(s[i + 1]));
                        }
                    }
                }
            }
            assert(fold_ok(m1, s.drop_first()));
        }
    }
}

/// Law: folding a non-conflicting batch of literals is order-independent:
/// the two concatenation orders of two sub-batches fold to the very same
/// certificate.
pub proof fn lemma_fold_order_independent(m: Map<int, bool>, s1: Seq<Literal>, s2: Seq<Literal>)
    requires
        fold_ok(m, s1 + s2),
    ensures
        fold_ok(m, s2 + s1),
        fold_lits(m, s2 + s1) == fold_lits(m, s1 + s2),
{
    let a = s1 + s2;
    let b = s2 + s1;
    assert forall|i: int| 0 <= i < b.len() implies exists|k: int|
        0 <= k < a.len() && a[k] == #[trigger] b[i] by {
        if i < s2.len() {
            assert(a[s1.len() + i] == s2[i]);
            assert(a[s1.len() + i] == b[i]);
        } else {
            assert(a[i - s2.len()] == s1[i - s2.len()]);
            assert(b[i] == s1[i - s2.len()]);
        }
    }
    assert forall|i: int| 0 <= i < a.len() implies exists|k: int|
        0 <= k < b.len() && b[k] == #[trigger] a[i] by {
        if i < s1.len() {
            assert(b[s2.len() + i] == s1[i]);
            assert(b[s2.len() + i] == a[i]);
        } else {
            assert(b[i - s1.len()] == s2[i - s1.len()]);
            assert(a[i] == s2[i - s1.len()]);
        }
    }
    lemma_fold_ok_iff(m, a);
    lemma_fold_ok_iff(m, b);
    assert(!conflicting(b)) by {
        if conflicting(b) {
            let (i, j) = choose|i: int, j: int|
                0 <= i < b.len() && 0 <= j < b.len() && lit_var(#[trigger] b[i]) == lit_var(
                    #[trigger] b[j],
                ) && lit_polarity(b[i]) != lit_polarity(b[j]);
            let ki = choose|k: int| 0 <= k < a.len() && a[k] == b[i];
            let kj = choose|k: int| 0 <= k < a.len() && a[k] == b[j];
            assert(lit_var(a[ki]) == lit_var(a[kj]) && lit_polarity(a[ki]) != lit_polarity(
                a[kj],
            ));
        }
    }
    assert forall|i: int| 0 <= i < b.len() implies insert_ok(m, #[trigger] b[i]) by {
        let k = choose|k: int| 0 <= k < a.len() && a[k] == b[i];
        assert(insert_ok(m, a[k]));
    }
    lemma_fold_facts(m, a);
    lemma_fold_facts(m, b);
    assert forall|v: int| #[trigger] fold_lits(m, a).dom().contains(v)
        <==> fold_lits(m, b).dom().contains(v) by {
        if seq_has_var(a, v) {
            let i = choose|i: int| 0 <= i < a.len() && lit_var(#[trigger] a[i]) == v;
            let k = choose|k: int| 0 <= k < b.len() && b[k] == a[i];
            assert(seq_has_var(b, v));
        }
        if seq_has_var(b, v) {
            let i = choose|i: int| 0 <= i < b.len() && lit_var(#[trigger] b[i]) == v;
            let k = choose|k: int| 0 <= k < a.len() && a[k] == b[i];
            assert(seq_has_var(a, v));
        }
    }
    assert forall|v: int| #[trigger] fold_lits(m, a).dom().contains(v)
        implies fold_lits(m, a)[v] == fold_lits(m, b)[v] by {
        if m.dom().contains(v) {
        } else {
            let i = choose|i: int| 0 <= i < a.len() && lit_var(#[trigger] a[i]) == v;
            let k = choose|k: int| 0 <= k < b.len() && b[k] == a[i];
            assert(fold_lits(m, a)[v] == lit_polarity(a[i]));
            assert(fold_lits(m, b)[lit_var(b[k])] == lit_polarity(b[k]));
        }
    }
    assert(fold_lits(m, b) =~= fold_lits(m, a));
}

/// Law: a certificate resolves a literal and its negation to opposite values;
/// they are `Unassigned` together, exactly when the variable is absent.
pub proof fn lemma_get_negation(m: Map<int, bool>, literal: Literal, negated: Literal)
    requires
        valid_lit(literal),
        negated as int == -(literal as int),
    ensures
        lit_value(m, negated) == assign_negate(lit_value(m, literal)),
        lit_value(m, literal) is Unassigned <==> lit_value(m, negated) is Unassigned,
{
    assert(lit_var(negated) == lit_var(literal));
}

/// Law: asserting the same literal twice succeeds both times and leaves the
/// certificate exactly where the first insertion put it.
pub proof fn lemma_insert_idempotent(m: Map<int, bool>, literal: Literal)
    requires
        valid_lit(literal),
    ensures
        insert_ok(m, literal) ==> insert_ok(
            m.insert(lit_var(literal), lit_polarity(literal)),
            literal,
        ),
        m.insert(lit_var(literal), lit_polarity(literal)).insert(
            lit_var(literal),
            lit_polarity(literal),
        ) == m.insert(lit_var(literal), lit_polarity(literal)),
{
    assert(m.insert(lit_var(literal), lit_polarity(literal)).insert(
        lit_var(literal),
        lit_polarity(literal),
    ) =~= m.insert(lit_var(literal), lit_polarity(literal)));
}

} // verus!
