use vstd::prelude::*;

use crate::certificate::Certificate;
use crate::types::{Assignment, Literal, Literals, Variable};
use crate::types::{copy_literals, lit_polarity, lit_var, lit_value, valid_lit};

verus! {

/// Whether some literal of the list resolves to `True` under `m`: a single
/// satisfied disjunct satisfies the whole clause.
pub open spec fn clause_sat_under(m: Map<int, bool>, c: Seq<Literal>) -> bool {
    exists|i: int| 0 <= i < c.len() && lit_value(m, #[trigger] c[i]) is True
}

/// Whether every literal of the list resolves to `False` under `m`: the
/// clause is an empty disjunction, a contradiction.
pub open spec fn clause_false_under(m: Map<int, bool>, c: Seq<Literal>) -> bool {
    forall|i: int| 0 <= i < c.len() ==> lit_value(m, #[trigger] c[i]) is False
}

/// The literals kept by a reduction pass: those the certificate leaves
/// `Unassigned`, in their original order.
pub open spec fn reduce_lits(m: Map<int, bool>, c: Seq<Literal>) -> Seq<Literal>
    decreases c.len(),
{
    if c.len() == 0 {
        Seq::empty()
    } else {
        let rest = reduce_lits(m, c.drop_last());
        if lit_value(m, c.last()) is Unassigned {
            rest.push(c.last())
        } else {
            rest
        }
    }
}

/// Every kept literal occurs in the clause it was reduced from.
pub proof fn lemma_reduce_lits_membership(m: Map<int, bool>, c: Seq<Literal>)
    ensures
        forall|i: int| 0 <= i < reduce_lits(m, c).len()
            ==> c.contains(#[trigger] reduce_lits(m, c)[i])
                && lit_value(m, reduce_lits(m, c)[i]) is Unassigned,
    decreases c.len(),
{
    if c.len() == 0 {
    } else {
        lemma_reduce_lits_membership(m, c.drop_last());
        assert forall|i: int| 0 <= i < reduce_lits(m, c).len()
            implies c.contains(#[trigger] reduce_lits(m, c)[i])
                && lit_value(m, reduce_lits(m, c)[i]) is Unassigned by {
            let rest = reduce_lits(m, c.drop_last());
            if i < rest.len() {
                let l = rest[i];
                let j = choose|j: int| 0 <= j < c.drop_last().len() && c.drop_last()[j] == l;
                assert(c[j] == l);
            } else {
                assert(c[c.len() - 1] == reduce_lits(m, c)[i]);
            }
        }
    }
}

/// An `Unassigned` literal of the clause is kept by the reduction.
pub proof fn lemma_reduce_lits_keeps(m: Map<int, bool>, c: Seq<Literal>, i: int)
    requires
        0 <= i < c.len(),
        lit_value(m, c[i]) is Unassigned,
    ensures
        reduce_lits(m, c).contains(c[i]),
    decreases c.len(),
{
    if i == c.len() - 1 {
        let r = reduce_lits(m, c);
        assert(r[r.len() - 1] == c[i]);
    } else {
        lemma_reduce_lits_keeps(m, c.drop_last(), i);
        let rest = reduce_lits(m, c.drop_last());
        let j = choose|j: int| 0 <= j < rest.len() && rest[j] == c.drop_last()[i];
        if lit_value(m, c.last()) is Unassigned {
            assert(reduce_lits(m, c)[j] == rest[j]);
        }
        assert(reduce_lits(m, c)[j] == c[i]);
    }
}

/// Two reduction passes under assignments with disjoint variables equal one
/// pass under their union.
pub proof fn lemma_reduce_lits_compose(c: Map<int, bool>, m: Map<int, bool>, s: Seq<Literal>)
    requires
        forall|v: int| #[trigger] m.dom().contains(v) ==> !c.dom().contains(v),
    ensures
        reduce_lits(m, reduce_lits(c, s)) == reduce_lits(c.union_prefer_right(m), s),
    decreases s.len(),
{
    let u = c.union_prefer_right(m);
    if s.len() == 0 {
        assert(reduce_lits(m, reduce_lits(c, s)) =~= reduce_lits(u, s));
    } else {
        lemma_reduce_lits_compose(c, m, s.drop_last());
        let x = s.last();
        let rc = reduce_lits(c, s.drop_last());
        if lit_value(c, x) is Unassigned {
            assert(reduce_lits(c, s) == rc.push(x));
            assert(rc.push(x).drop_last() =~= rc);
            assert(rc.push(x).last() == x);
            if lit_value(m, x) is Unassigned {
                assert(lit_value(u, x) is Unassigned);
                assert(reduce_lits(m, rc.push(x)) == reduce_lits(m, rc).push(x));
            } else {
                assert(lit_value(u, x) == lit_value(m, x));
                assert(reduce_lits(m, rc.push(x)) == reduce_lits(m, rc));
            }
        } else {
            assert(lit_value(u, x) == lit_value(c, x));
        }
    }
}

/// When no literal is assigned by `m`, reduction keeps the clause as it is.
pub proof fn lemma_reduce_lits_identity(m: Map<int, bool>, c: Seq<Literal>)
    requires
        forall|i: int| 0 <= i < c.len() ==> lit_value(m, #[trigger] c[i]) is Unassigned,
    ensures
        reduce_lits(m, c) == c,
    decreases c.len(),
{
    if c.len() == 0 {
        assert(reduce_lits(m, c) =~= c);
    } else {
        lemma_reduce_lits_identity(m, c.drop_last());
        assert(c[c.len() - 1] == c.last());
        assert(reduce_lits(m, c) =~= c);
    }
}

/// A clause: the immutable literal list it was built from, plus the reduced
/// list of still-undetermined disjuncts under the assignments applied so far.
#[derive(Debug, PartialEq, Eq)]
pub struct Clause {
    literals: Literals,
    partial_literals: Literals,
}

/// The verdict of evaluating one clause against a certificate.
#[derive(Debug)]
pub enum EvaluatedClause {
    True,
    False,
    Undecided(Literals),
}

impl Clause {
    /// The original literal list, kept for provenance.
    pub closed spec fn orig(self) -> Seq<Literal> {
        self.literals@
    }

    /// The current reduced literal list.
    pub closed spec fn cur(self) -> Seq<Literal> {
        self.partial_literals@
    }

    /// Structural invariant: all literals valid, and the reduced list drawn
    /// from the original one.
    pub open spec fn wf(self) -> bool {
        &&& forall|i: int| 0 <= i < self.orig().len() ==> valid_lit(#[trigger] self.orig()[i])
        &&& forall|i: int| 0 <= i < self.cur().len() ==> valid_lit(#[trigger] self.cur()[i])
        &&& forall|i: int| 0 <= i < self.cur().len() ==> self.orig().contains(
            #[trigger] self.cur()[i],
        )
    }

    /// Builds a clause from its literal list; the reduced list starts equal.
    pub fn new(literals: Literals) -> (r: Clause)
        requires
            forall|i: int| 0 <= i < literals@.len() ==> valid_lit(#[trigger] literals@[i]),
        ensures
            r.wf(),
            r.orig() == literals@,
            r.cur() == literals@,
    {
        let copy = copy_literals(&literals);
        Clause { literals: copy, partial_literals: literals }
    }

    /// Rebuilds a clause around an already-reduced literal list.
    pub fn from_parts(literals: Literals, partial_literals: Literals) -> (r: Clause)
        requires
            forall|i: int| 0 <= i < literals@.len() ==> valid_lit(#[trigger] literals@[i]),
            forall|i: int| 0 <= i < partial_literals@.len() ==> literals@.contains(
                #[trigger] partial_literals@[i],
            ),
        ensures
            r.wf(),
            r.orig() == literals@,
            r.cur() == partial_literals@,
    {
        Clause { literals, partial_literals }
    }

    /// A copy with the same literal lists.
    pub fn duplicate(&self) -> (r: Clause)
        ensures
            r.orig() == self.orig(),
            r.cur() == self.cur(),
            r.wf() == self.wf(),
    {
        let r = Clause {
            literals: copy_literals(&self.literals),
            partial_literals: copy_literals(&self.partial_literals),
        };
        proof {
            assert(r.orig() == self.orig());
            assert(r.cur() == self.cur());
            if self.wf() {
                assert(r.wf());
            }
            if r.wf() {
                assert(self.wf());
            }
        }
        r
    }

    /// Width of the original clause.
    pub fn size(&self) -> (r: usize)
        ensures
            r == self.orig().len(),
    {
        self.literals.len()
    }

    /// Width of the reduced clause.
    pub fn len(&self) -> (r: usize)
        ensures
            r == self.cur().len(),
    {
        self.partial_literals.len()
    }

    /// Whether no undetermined literal is left.
    pub fn is_empty(&self) -> (r: bool)
        ensures
            r == (self.cur().len() == 0),
    {
        self.partial_literals.len() == 0
    }

    /// Read-only access to the original literal list, for rendering.
    pub fn literals(&self) -> (r: &Literals)
        ensures
            r@ == self.orig(),
    {
        &self.literals
    }

    /// Read-only access to the reduced literal list, for rendering.
    pub fn partial_literals(&self) -> (r: &Literals)
        ensures
            r@ == self.cur(),
    {
        &self.partial_literals
    }

    /// Whether a variable occurs in the reduced clause, under either polarity.
    pub fn contains(&self, variable: Variable) -> (r: bool)
        requires
            self.wf(),
        ensures
            r == exists|i: int| 0 <= i < self.cur().len()
                && lit_var(#[trigger] self.cur()[i]) == variable as int,
    {
        let n = self.partial_literals.len();
        let mut i: usize = 0;
        while i < n
            invariant
                self.wf(),
                i <= n,
                n == self.cur().len(),
                forall|j: int| 0 <= j < i ==> lit_var(#[trigger] self.cur()[j]) != variable as int,
            decreases n - i,
        {
            let literal = self.partial_literals[i];
            if crate::types::lit_variable(literal) == variable {
                return true;
            }
            i = i + 1;
        }
        false
    }

    /// Evaluates the reduced clause against a certificate. The first literal
    /// resolving `True` satisfies the clause; literals resolving `False` are
    /// dropped; `Unassigned` literals are retained. With no `True` literal and
    /// nothing retained the clause is a falsified empty disjunction.
    pub fn apply(&self, certificate: &Certificate) -> (r: EvaluatedClause)
        requires
            self.wf(),
            certificate.wf(),
        ensures
            r is True <==> clause_sat_under(certificate@, self.cur()),
            r is False <==> clause_false_under(certificate@, self.cur()),
            r matches EvaluatedClause::Undecided(kept) ==> kept@ == reduce_lits(
                certificate@,
                self.cur(),
            ) && kept@.len() > 0,
    {
        let ghost m = certificate@;
        let mut kept: Literals = Vec::new();
        let n = self.partial_literals.len();
        let mut i: usize = 0;
        while i < n
            invariant
                self.wf(),
                certificate.wf(),
                m == certificate@,
                i <= n,
                n == self.cur().len(),
                kept@ == reduce_lits(m, self.cur().take(i as int)),
                forall|j: int| 0 <= j < i ==> !(lit_value(m, #[trigger] self.cur()[j]) is True),
            decreases n - i,
        {
            let literal = self.partial_literals[i];
            let value = certificate.get(literal);
            proof {
                assert(self.cur().take(i + 1 as int).drop_last() =~= self.cur().take(i as int));
                assert(self.cur().take(i + 1 as int).last() == self.cur()[i as int]);
            }
            match value {
                Assignment::True => {
                    return EvaluatedClause::True;
                },
                Assignment::False => {},
                Assignment::Unassigned => {
                    kept.push(literal);
                },
            }
            i = i + 1;
        }
        proof {
            assert(self.cur().take(n as int) =~= self.cur());
        }
        if kept.len() == 0 {
            proof {
                assert forall|j: int| 0 <= j < self.cur().len()
                    implies lit_value(m, #[trigger] self.cur()[j]) is False by {
                    if lit_value(m, self.cur()[j]) is Unassigned {
                        lemma_reduce_lits_keeps(m, self.cur(), j);
                    }
                }
            }
            EvaluatedClause::False
        } else {
            proof {
                lemma_reduce_lits_membership(m, self.cur());
                assert(!clause_false_under(m, self.cur())) by {
                    let l = reduce_lits(m, self.cur())[0];
                    let j = choose|j: int| 0 <= j < self.cur().len() && self.cur()[j] == l;
                    assert(!(lit_value(m, self.cur()[j]) is False));
                }
            }
            EvaluatedClause::Undecided(kept)
        }
    }

    /// The one-literal certificates that would each satisfy this clause in
    /// isolation, for a future branching search to try.
    pub fn solve(&self) -> (r: Vec<Certificate>)
        requires
            self.wf(),
        ensures
            r@.len() == self.cur().len(),
            forall|i: int| 0 <= i < r@.len() ==> (#[trigger] r@[i]).wf() && r@[i]@
                == Map::<int, bool>::empty().insert(
                lit_var(self.cur()[i]),
                lit_polarity(self.cur()[i]),
            ),
    {
        let mut certificates: Vec<Certificate> = Vec::new();
        let n = self.partial_literals.len();
        let mut i: usize = 0;
        while i < n
            invariant
                self.wf(),
                i <= n,
                n == self.cur().len(),
                certificates@.len() == i,
                forall|j: int| 0 <= j < i ==> (#[trigger] certificates@[j]).wf()
                    && certificates@[j]@ == Map::<int, bool>::empty().insert(
                    lit_var(self.cur()[j]),
                    lit_polarity(self.cur()[j]),
                ),
            decreases n - i,
        {
            let literal = self.partial_literals[i];
            certificates.push(Certificate::new(literal));
            i = i + 1;
        }
        certificates
    }
}

} // verus!
