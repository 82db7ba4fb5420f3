use vstd::prelude::*;

use crate::certificate::Certificate;
use crate::certificate::{conflicting, fold_lits, fold_ok, insert_ok, lemma_fold_facts,
    lemma_fold_ok_iff, seq_has_var};
use crate::clause::{Clause, EvaluatedClause};
use crate::clause::{clause_false_under, clause_sat_under, lemma_reduce_lits_compose,
    lemma_reduce_lits_identity, lemma_reduce_lits_keeps, lemma_reduce_lits_membership,
    reduce_lits};
use crate::types::{copy_literals, InstanceSize, Literal, Literals, Variable};
use crate::types::{lit_polarity, lit_var, lit_value, valid_lit};

verus! {

/// Spec-level picture of one clause: its original literal list and its
/// current reduced literal list.
pub type ClauseModel = (Seq<Literal>, Seq<Literal>);

/// The models of a clause list.
pub open spec fn models(cs: Seq<Clause>) -> Seq<ClauseModel> {
    cs.map_values(|c: Clause| (c.orig(), c.cur()))
}

/// Whether some clause of the formula is falsified outright by `m`.
pub open spec fn some_clause_false(m: Map<int, bool>, f: Seq<ClauseModel>) -> bool {
    exists|j: int| 0 <= j < f.len() && clause_false_under(m, (#[trigger] f[j]).1)
}

/// Whether every clause of the formula is satisfied by `m`.
pub open spec fn all_clauses_sat(m: Map<int, bool>, f: Seq<ClauseModel>) -> bool {
    forall|j: int| 0 <= j < f.len() ==> clause_sat_under(m, (#[trigger] f[j]).1)
}

/// One reduction round over a formula: clauses satisfied by `m` are dropped,
/// the rest keep their provenance and lose their falsified literals.
pub open spec fn reduce_formula(m: Map<int, bool>, f: Seq<ClauseModel>) -> Seq<ClauseModel>
    decreases f.len(),
{
    if f.len() == 0 {
        Seq::empty()
    } else {
        let rest = reduce_formula(m, f.drop_last());
        if clause_sat_under(m, f.last().1) {
            rest
        } else {
            rest.push((f.last().0, reduce_lits(m, f.last().1)))
        }
    }
}

/// Whether an assignment carries at least everything `m` asserts.
pub open spec fn extends(a: Map<int, bool>, m: Map<int, bool>) -> bool {
    forall|v: int| #[trigger] m.dom().contains(v) ==> a.dom().contains(v) && a[v] == m[v]
}

/// Whether an assignment satisfies every clause of a formula.
pub open spec fn formula_sat_under(a: Map<int, bool>, f: Seq<ClauseModel>) -> bool {
    forall|j: int| 0 <= j < f.len() ==> clause_sat_under(a, (#[trigger] f[j]).1)
}

/// Whether a literal occurs in some reduced clause of the formula.
pub open spec fn in_lits(f: Seq<ClauseModel>, l: int) -> bool {
    exists|j: int, i: int| 0 <= j < f.len() && 0 <= i < f[j].1.len()
        && #[trigger] f[j].1[i] == l
}

/// Whether the formula has no unit clause left.
pub open spec fn no_units(f: Seq<ClauseModel>) -> bool {
    forall|j: int| 0 <= j < f.len() ==> (#[trigger] f[j]).1.len() != 1
}

/// Whether the formula has no pure literal left: every literal of the
/// working set also occurs negated somewhere in it.
pub open spec fn no_pures(f: Seq<ClauseModel>) -> bool {
    forall|l: int| #[trigger] in_lits(f, l) ==> in_lits(f, -l)
}

/// The variables occurring in the reduced clauses of a formula.
pub open spec fn formula_vars(f: Seq<ClauseModel>) -> Set<int> {
    Set::new(
        |v: int| exists|j: int, i: int| 0 <= j < f.len() && 0 <= i < f[j].1.len()
            && lit_var(#[trigger] f[j].1[i]) == v,
    )
}

/// A variable list, widened to the integers the specs speak of.
pub open spec fn vars_as_ints(s: Seq<Variable>) -> Seq<int> {
    s.map_values(|x: Variable| x as int)
}

/// The widest reduced clause of a formula; 0 when the formula is empty.
pub open spec fn max_width(f: Seq<ClauseModel>) -> int
    decreases f.len(),
{
    if f.len() == 0 {
        0
    } else {
        let rest = max_width(f.drop_last());
        if f.last().1.len() > rest {
            f.last().1.len() as int
        } else {
            rest
        }
    }
}

/// Whether some working clause is the unit clause of exactly this literal.
pub open spec fn is_unit_of(f: Seq<ClauseModel>, l: Literal) -> bool {
    exists|j0: int| 0 <= j0 < f.len() && (#[trigger] f[j0]).1.len() == 1 && f[j0].1[0] == l
}

/// Whether the list holds the negation of a literal.
pub open spec fn has_negation_of(s: Seq<Literal>, l: Literal) -> bool {
    exists|t: int| 0 <= t < s.len() && (#[trigger] s[t]) as int == -(l as int)
}

/// `extends` is transitive.
pub proof fn lemma_extends_trans(a: Map<int, bool>, b: Map<int, bool>, c: Map<int, bool>)
    requires
        extends(a, b),
        extends(b, c),
    ensures
        extends(a, c),
{
    assert forall|v: int| #[trigger] c.dom().contains(v)
        implies a.dom().contains(v) && a[v] == c[v] by {
        assert(b.dom().contains(v));
    }
}

/// Every reduced formula entry is a non-satisfied source clause with its
/// falsified literals removed.
pub proof fn lemma_reduce_formula_membership(m: Map<int, bool>, f: Seq<ClauseModel>)
    ensures
        forall|j: int| 0 <= j < reduce_formula(m, f).len() ==> exists|j0: int|
            0 <= j0 < f.len() && !clause_sat_under(m, (#[trigger] f[j0]).1)
                && #[trigger] reduce_formula(m, f)[j] == (f[j0].0, reduce_lits(m, f[j0].1)),
    decreases f.len(),
{
    if f.len() == 0 {
    } else {
        lemma_reduce_formula_membership(m, f.drop_last());
        assert forall|j: int| 0 <= j < reduce_formula(m, f).len() implies exists|j0: int|
            0 <= j0 < f.len() && !clause_sat_under(m, (#[trigger] f[j0]).1)
                && #[trigger] reduce_formula(m, f)[j] == (f[j0].0, reduce_lits(m, f[j0].1)) by {
            let rest = reduce_formula(m, f.drop_last());
            if j < rest.len() {
                let j0 = choose|j0: int| 0 <= j0 < f.drop_last().len()
                    && !clause_sat_under(m, (#[trigger] f.drop_last()[j0]).1)
                    && rest[j] == (f.drop_last()[j0].0, reduce_lits(m, f.drop_last()[j0].1));
                assert(f[j0] == f.drop_last()[j0]);
                assert(reduce_formula(m, f)[j] == rest[j]);
            } else {
                assert(!clause_sat_under(m, f[f.len() - 1].1));
                assert(reduce_formula(m, f)[j] == (f.last().0, reduce_lits(m, f.last().1)));
            }
        }
    }
}

/// The reduction never grows the formula, and shrinks it strictly as soon as
/// one clause is satisfied.
pub proof fn lemma_reduce_formula_len(m: Map<int, bool>, f: Seq<ClauseModel>)
    ensures
        reduce_formula(m, f).len() <= f.len(),
        (exists|j: int| 0 <= j < f.len() && clause_sat_under(m, (#[trigger] f[j]).1))
            ==> reduce_formula(m, f).len() < f.len(),
        reduce_formula(m, f).len() == 0 <==> all_clauses_sat(m, f),
    decreases f.len(),
{
    if f.len() == 0 {
    } else {
        lemma_reduce_formula_len(m, f.drop_last());
        if exists|j: int| 0 <= j < f.len() && clause_sat_under(m, (#[trigger] f[j]).1) {
            let j = choose|j: int| 0 <= j < f.len() && clause_sat_under(m, (#[trigger] f[j]).1);
            if j < f.len() - 1 {
                assert(f.drop_last()[j] == f[j]);
            }
        }
        if reduce_formula(m, f).len() == 0 {
            assert forall|j: int| 0 <= j < f.len()
                implies clause_sat_under(m, (#[trigger] f[j]).1) by {
                if j < f.len() - 1 {
                    assert(f.drop_last()[j] == f[j]);
                }
            }
        }
        if all_clauses_sat(m, f) {
            assert(clause_sat_under(m, f.last().1));
            assert forall|j: int| 0 <= j < f.drop_last().len()
                implies clause_sat_under(m, (#[trigger] f.drop_last()[j]).1) by {
                assert(f.drop_last()[j] == f[j]);
            }
        }
    }
}

/// Soundness of one reduction round: an assignment that extends the batch and
/// satisfies the reduced formula satisfies the formula it came from.
pub proof fn lemma_reduce_formula_sound(m: Map<int, bool>, a: Map<int, bool>, f: Seq<ClauseModel>)
    requires
        extends(a, m),
        formula_sat_under(a, reduce_formula(m, f)),
    ensures
        formula_sat_under(a, f),
    decreases f.len(),
{
    if f.len() == 0 {
    } else {
        let rest = reduce_formula(m, f.drop_last());
        if clause_sat_under(m, f.last().1) {
            lemma_reduce_formula_sound(m, a, f.drop_last());
            let i = choose|i: int| 0 <= i < f.last().1.len()
                && lit_value(m, #[trigger] f.last().1[i]) is True;
            assert(lit_value(a, f.last().1[i]) is True);
            assert(clause_sat_under(a, f.last().1));
        } else {
            assert forall|j: int| 0 <= j < rest.len()
                implies clause_sat_under(a, (#[trigger] rest[j]).1) by {
                assert(reduce_formula(m, f)[j] == rest[j]);
            }
            lemma_reduce_formula_sound(m, a, f.drop_last());
            let r = reduce_formula(m, f);
            assert(clause_sat_under(a, r[r.len() - 1].1));
            let i = choose|i: int| 0 <= i < reduce_lits(m, f.last().1).len()
                && lit_value(a, #[trigger] reduce_lits(m, f.last().1)[i]) is True;
            lemma_reduce_lits_membership(m, f.last().1);
            let l = reduce_lits(m, f.last().1)[i];
            let i0 = choose|i0: int| 0 <= i0 < f.last().1.len() && f.last().1[i0] == l;
            assert(clause_sat_under(a, f.last().1));
        }
        assert forall|j: int| 0 <= j < f.len()
            implies clause_sat_under(a, (#[trigger] f[j]).1) by {
            if j < f.len() - 1 {
                assert(f.drop_last()[j] == f[j]);
            }
        }
    }
}

/// Whether no assignment at all satisfies every clause of the formula.
pub open spec fn unsat(f: Seq<ClauseModel>) -> bool {
    forall|a: Map<int, bool>| !#[trigger] formula_sat_under(a, f)
}

/// Whether some assignment satisfies every clause of the formula.
pub open spec fn satisfiable(f: Seq<ClauseModel>) -> bool {
    exists|a: Map<int, bool>| #[trigger] formula_sat_under(a, f)
}

/// Whether no reduced clause of the formula is empty.
pub open spec fn no_empty_clauses(f: Seq<ClauseModel>) -> bool {
    forall|j: int| 0 <= j < f.len() ==> (#[trigger] f[j]).1.len() != 0
}

/// `unsat` is the negation of `satisfiable`.
pub proof fn lemma_unsat_iff(f: Seq<ClauseModel>)
    ensures
        unsat(f) <==> !satisfiable(f),
{
    if satisfiable(f) {
        let a = choose|a: Map<int, bool>| #[trigger] formula_sat_under(a, f);
        assert(!unsat(f));
    }
    if !unsat(f) {
        let a = choose|a: Map<int, bool>| #[trigger] formula_sat_under(a, f);
        assert(satisfiable(f));
    }
}

/// Two reduction rounds under assignments with disjoint variables equal one
/// round under their union.
pub proof fn lemma_reduce_formula_compose(c: Map<int, bool>, m: Map<int, bool>, f: Seq<
    ClauseModel,
>)
    requires
        forall|v: int| #[trigger] m.dom().contains(v) ==> !c.dom().contains(v),
    ensures
        reduce_formula(m, reduce_formula(c, f)) == reduce_formula(c.union_prefer_right(m), f),
    decreases f.len(),
{
    let u = c.union_prefer_right(m);
    if f.len() == 0 {
        assert(reduce_formula(m, reduce_formula(c, f)) =~= reduce_formula(u, f));
    } else {
        lemma_reduce_formula_compose(c, m, f.drop_last());
        let s = f.last().1;
        let restc = reduce_formula(c, f.drop_last());
        if clause_sat_under(c, s) {
            let i = choose|i: int| 0 <= i < s.len() && lit_value(c, #[trigger] s[i]) is True;
            assert(lit_value(u, s[i]) is True);
            assert(clause_sat_under(u, s));
        } else {
            let r1 = reduce_lits(c, s);
            assert(reduce_formula(c, f) == restc.push((f.last().0, r1)));
            assert(restc.push((f.last().0, r1)).drop_last() =~= restc);
            if clause_sat_under(m, r1) {
                assert(clause_sat_under(u, s)) by {
                    let i = choose|i: int| 0 <= i < r1.len() && lit_value(
                        m,
                        #[trigger] r1[i],
                    ) is True;
                    lemma_reduce_lits_membership(c, s);
                    let i0 = choose|i0: int| 0 <= i0 < s.len() && s[i0] == r1[i];
                    assert(lit_value(u, s[i0]) is True);
                }
                assert(reduce_formula(m, reduce_formula(c, f)) == reduce_formula(m, restc));
            } else {
                assert(!clause_sat_under(u, s)) by {
                    if clause_sat_under(u, s) {
                        let i = choose|i: int| 0 <= i < s.len() && lit_value(
                            u,
                            #[trigger] s[i],
                        ) is True;
                        let x = s[i];
                        if c.dom().contains(lit_var(x)) {
                            assert(lit_value(c, x) is True);
                        } else if m.dom().contains(lit_var(x)) {
                            assert(lit_value(m, x) is True);
                            assert(lit_value(c, x) is Unassigned);
                            lemma_reduce_lits_keeps(c, s, i);
                            let ik = choose|ik: int| 0 <= ik < r1.len() && r1[ik] == x;
                            assert(clause_sat_under(m, r1));
                        }
                    }
                }
                lemma_reduce_lits_compose(c, m, s);
                assert(reduce_formula(m, reduce_formula(c, f)) == reduce_formula(
                    m,
                    restc,
                ).push((f.last().0, reduce_lits(m, r1))));
            }
        }
    }
}

/// Reduction under an assignment that touches none of the formula's
/// variables changes nothing.
pub proof fn lemma_reduce_formula_untouched(m: Map<int, bool>, f: Seq<ClauseModel>)
    requires
        forall|j: int, i: int|
            0 <= j < f.len() && 0 <= i < f[j].1.len() ==> !m.dom().contains(
                lit_var(#[trigger] f[j].1[i]),
            ),
    ensures
        reduce_formula(m, f) == f,
    decreases f.len(),
{
    if f.len() == 0 {
        assert(reduce_formula(m, f) =~= f);
    } else {
        assert forall|j: int, i: int|
            0 <= j < f.drop_last().len() && 0 <= i < f.drop_last()[j].1.len()
            implies !m.dom().contains(lit_var(#[trigger] f.drop_last()[j].1[i])) by {
            assert(f.drop_last()[j] == f[j]);
        }
        lemma_reduce_formula_untouched(m, f.drop_last());
        let s = f.last().1;
        assert forall|i: int| 0 <= i < s.len()
            implies lit_value(m, #[trigger] s[i]) is Unassigned by {
            assert(f[f.len() - 1].1[i] == s[i]);
        }
        assert(!clause_sat_under(m, s));
        lemma_reduce_lits_identity(m, s);
        assert(reduce_formula(m, f) =~= f);
    }
}

/// Every clause the reduction does not satisfy shows up in the reduced
/// formula.
pub proof fn lemma_reduce_formula_covers(m: Map<int, bool>, f: Seq<ClauseModel>, j0: int)
    requires
        0 <= j0 < f.len(),
        !clause_sat_under(m, f[j0].1),
    ensures
        exists|k: int|
            0 <= k < reduce_formula(m, f).len() && #[trigger] reduce_formula(m, f)[k] == (
            f[j0].0,
            reduce_lits(m, f[j0].1),
            ),
    decreases f.len(),
{
    let rest = reduce_formula(m, f.drop_last());
    if j0 == f.len() - 1 {
        let r = reduce_formula(m, f);
        assert(r[r.len() - 1] == (f[j0].0, reduce_lits(m, f[j0].1)));
    } else {
        assert(f.drop_last()[j0] == f[j0]);
        lemma_reduce_formula_covers(m, f.drop_last(), j0);
        let k = choose|k: int| 0 <= k < rest.len() && #[trigger] rest[k] == (
        f.drop_last()[j0].0,
        reduce_lits(m, f.drop_last()[j0].1),
        );
        assert(reduce_formula(m, f)[k] == rest[k]);
    }
}

/// Any model of a reduced formula yields one of the formula it came from:
/// override it with the batch.
pub proof fn lemma_reduce_backward(m: Map<int, bool>, f: Seq<ClauseModel>)
    ensures
        satisfiable(reduce_formula(m, f)) ==> satisfiable(f),
{
    if satisfiable(reduce_formula(m, f)) {
        let a = choose|a: Map<int, bool>| #[trigger] formula_sat_under(a, reduce_formula(m, f));
        let b = a.union_prefer_right(m);
        assert(extends(b, m)) by {
            assert forall|v: int| #[trigger] m.dom().contains(v)
                implies b.dom().contains(v) && b[v] == m[v] by {}
        }
        lemma_reduce_formula_membership(m, f);
        assert forall|j: int| 0 <= j < reduce_formula(m, f).len()
            implies clause_sat_under(b, (#[trigger] reduce_formula(m, f)[j]).1) by {
            let s = reduce_formula(m, f)[j].1;
            assert(clause_sat_under(a, s));
            let i = choose|i: int| 0 <= i < s.len() && lit_value(a, #[trigger] s[i]) is True;
            let j0 = choose|j0: int|
                0 <= j0 < f.len() && !clause_sat_under(m, (#[trigger] f[j0]).1)
                    && reduce_formula(m, f)[j] == (f[j0].0, reduce_lits(m, f[j0].1));
            lemma_reduce_lits_membership(m, f[j0].1);
            assert(lit_value(m, s[i]) is Unassigned);
            assert(!m.dom().contains(lit_var(s[i])));
            assert(lit_value(b, s[i]) is True);
        }
        lemma_reduce_formula_sound(m, b, f);
        assert(satisfiable(f));
    }
}

/// A successful unit fold keeps the working set satisfiable.
pub proof fn lemma_unit_step_sat(w: Seq<ClauseModel>, units: Seq<Literal>)
    requires
        fold_ok(Map::<int, bool>::empty(), units),
        forall|t: int| 0 <= t < units.len() ==> is_unit_of(w, #[trigger] units[t]),
    ensures
        satisfiable(w) ==> satisfiable(
            reduce_formula(fold_lits(Map::<int, bool>::empty(), units), w),
        ),
{
    let mb = fold_lits(Map::<int, bool>::empty(), units);
    if satisfiable(w) {
        let a = choose|a: Map<int, bool>| #[trigger] formula_sat_under(a, w);
        lemma_unit_batch_honoured(w, units, a);
        lemma_reduce_formula_complete(mb, a, w);
        assert(satisfiable(reduce_formula(mb, w)));
    }
}

/// A successful pure fold keeps the working set satisfiable.
pub proof fn lemma_pure_step_sat(w: Seq<ClauseModel>, pures: Seq<Literal>)
    requires
        fold_ok(Map::<int, bool>::empty(), pures),
        forall|u: int| 0 <= u < pures.len() ==> valid_lit(#[trigger] pures[u]),
        forall|u: int|
            0 <= u < pures.len() ==> in_lits(w, (#[trigger] pures[u]) as int) && !in_lits(
                w,
                -(pures[u] as int),
            ),
        forall|j: int, i: int|
            0 <= j < w.len() && 0 <= i < w[j].1.len() ==> valid_lit(#[trigger] w[j].1[i]),
    ensures
        satisfiable(w) ==> satisfiable(
            reduce_formula(fold_lits(Map::<int, bool>::empty(), pures), w),
        ),
{
    let mb = fold_lits(Map::<int, bool>::empty(), pures);
    if satisfiable(w) {
        let a = choose|a: Map<int, bool>| #[trigger] formula_sat_under(a, w);
        lemma_pure_batch_override(w, pures, a);
        let b = a.union_prefer_right(mb);
        lemma_reduce_formula_complete(mb, b, w);
        assert(satisfiable(reduce_formula(mb, w)));
    }
}

/// Completeness of one reduction round: an assignment that honours the batch
/// and satisfies a formula also satisfies its reduction.
pub proof fn lemma_reduce_formula_complete(m: Map<int, bool>, a: Map<int, bool>, f: Seq<
    ClauseModel,
>)
    requires
        extends(a, m),
        formula_sat_under(a, f),
    ensures
        formula_sat_under(a, reduce_formula(m, f)),
    decreases f.len(),
{
    if f.len() == 0 {
    } else {
        assert forall|j: int| 0 <= j < f.drop_last().len()
            implies clause_sat_under(a, (#[trigger] f.drop_last()[j]).1) by {
            assert(f.drop_last()[j] == f[j]);
        }
        lemma_reduce_formula_complete(m, a, f.drop_last());
        let rest = reduce_formula(m, f.drop_last());
        if clause_sat_under(m, f.last().1) {
        } else {
            let c = f.last().1;
            assert(clause_sat_under(a, f[f.len() - 1].1));
            let i = choose|i: int| 0 <= i < c.len() && lit_value(a, #[trigger] c[i]) is True;
            assert(lit_value(m, c[i]) is Unassigned) by {
                if m.dom().contains(lit_var(c[i])) {
                    assert(a[lit_var(c[i])] == m[lit_var(c[i])]);
                    assert(lit_value(m, c[i]) is True);
                    assert(clause_sat_under(m, c));
                }
            }
            lemma_reduce_lits_keeps(m, c, i);
            let kept = reduce_lits(m, c);
            let ik = choose|ik: int| 0 <= ik < kept.len() && kept[ik] == c[i];
            assert(clause_sat_under(a, kept));
            assert forall|j: int| 0 <= j < reduce_formula(m, f).len()
                implies clause_sat_under(a, (#[trigger] reduce_formula(m, f)[j]).1) by {
                if j < rest.len() {
                    assert(reduce_formula(m, f)[j] == rest[j]);
                } else {
                    assert(reduce_formula(m, f)[j] == (f.last().0, kept));
                }
            }
        }
    }
}

/// A batch of unit-clause literals is honoured by every assignment that
/// satisfies the working set.
pub proof fn lemma_unit_batch_honoured(w: Seq<ClauseModel>, units: Seq<Literal>, a: Map<
    int,
    bool,
>)
    requires
        fold_ok(Map::<int, bool>::empty(), units),
        forall|t: int| 0 <= t < units.len() ==> is_unit_of(w, #[trigger] units[t]),
        formula_sat_under(a, w),
    ensures
        extends(a, fold_lits(Map::<int, bool>::empty(), units)),
{
    let mb = fold_lits(Map::<int, bool>::empty(), units);
    lemma_fold_facts(Map::<int, bool>::empty(), units);
    assert forall|v: int| #[trigger] mb.dom().contains(v)
        implies a.dom().contains(v) && a[v] == mb[v] by {
        let t = choose|t: int| 0 <= t < units.len() && lit_var(#[trigger] units[t]) == v;
        let l = units[t];
        assert(is_unit_of(w, l));
        let j0 = choose|j0: int| 0 <= j0 < w.len() && (#[trigger] w[j0]).1.len() == 1
            && w[j0].1[0] == l;
        assert(clause_sat_under(a, w[j0].1));
        let i = choose|i: int| 0 <= i < w[j0].1.len() && lit_value(a, #[trigger] w[j0].1[i])
            is True;
        assert(i == 0);
        assert(lit_value(a, l) is True);
        assert(mb[v] == lit_polarity(l));
    }
}

/// Overriding an assignment with a batch of pure literals keeps every clause
/// of the working set satisfied.
pub proof fn lemma_pure_batch_override(w: Seq<ClauseModel>, pures: Seq<Literal>, a: Map<
    int,
    bool,
>)
    requires
        fold_ok(Map::<int, bool>::empty(), pures),
        forall|u: int| 0 <= u < pures.len() ==> valid_lit(#[trigger] pures[u]),
        forall|u: int|
            0 <= u < pures.len() ==> in_lits(w, (#[trigger] pures[u]) as int) && !in_lits(
                w,
                -(pures[u] as int),
            ),
        forall|j: int, i: int|
            0 <= j < w.len() && 0 <= i < w[j].1.len() ==> valid_lit(#[trigger] w[j].1[i]),
        formula_sat_under(a, w),
    ensures
        formula_sat_under(
            a.union_prefer_right(fold_lits(Map::<int, bool>::empty(), pures)),
            w,
        ),
        extends(
            a.union_prefer_right(fold_lits(Map::<int, bool>::empty(), pures)),
            fold_lits(Map::<int, bool>::empty(), pures),
        ),
{
    let mb = fold_lits(Map::<int, bool>::empty(), pures);
    let b = a.union_prefer_right(mb);
    lemma_fold_facts(Map::<int, bool>::empty(), pures);
    assert forall|j: int| 0 <= j < w.len() implies clause_sat_under(b, (#[trigger] w[j]).1) by {
        let c = w[j].1;
        assert(clause_sat_under(a, c));
        let i = choose|i: int| 0 <= i < c.len() && lit_value(a, #[trigger] c[i]) is True;
        let x = c[i];
        if mb.dom().contains(lit_var(x)) {
            assert(seq_has_var(pures, lit_var(x)));
            let u = choose|u: int| 0 <= u < pures.len() && lit_var(#[trigger] pures[u])
                == lit_var(x);
            let p = pures[u];
            assert(valid_lit(x));
            assert(valid_lit(p));
            assert(x == p || x as int == -(p as int));
            if x == p {
                assert(b[lit_var(x)] == mb[lit_var(x)]);
                assert(mb[lit_var(p)] == lit_polarity(p));
                assert(lit_value(b, c[i]) is True);
            } else {
                assert(in_lits(w, x as int)) by {
                    assert(w[j].1[i] == x as int);
                }
                assert(in_lits(w, -(p as int)));
                assert(false);
            }
        } else {
            assert(b.dom().contains(lit_var(x)) && b[lit_var(x)] == a[lit_var(x)]);
            assert(lit_value(b, c[i]) is True);
        }
    }
    assert forall|v: int| #[trigger] mb.dom().contains(v)
        implies b.dom().contains(v) && b[v] == mb[v] by {}
}

/// A failing unit-clause fold proves unsatisfiability: either two unit
/// clauses force both polarities of a variable, or some clause loses every
/// literal to the forced assignments.
pub proof fn lemma_unit_false_unsat(w: Seq<ClauseModel>, units: Seq<Literal>)
    requires
        forall|t: int| 0 <= t < units.len() ==> is_unit_of(w, #[trigger] units[t]),
        !fold_ok(Map::<int, bool>::empty(), units) || some_clause_false(
            fold_lits(Map::<int, bool>::empty(), units),
            w,
        ),
    ensures
        unsat(w),
{
    lemma_fold_ok_iff(Map::<int, bool>::empty(), units);
    assert forall|a: Map<int, bool>| !#[trigger] formula_sat_under(a, w) by {
        if formula_sat_under(a, w) {
            if !fold_ok(Map::<int, bool>::empty(), units) {
                assert(forall|i: int|
                    0 <= i < units.len() ==> insert_ok(
                        Map::<int, bool>::empty(),
                        #[trigger] units[i],
                    ));
                assert(conflicting(units));
                let (i, j) = choose|i: int, j: int|
                    0 <= i < units.len() && 0 <= j < units.len() && lit_var(
                        #[trigger] units[i],
                    ) == lit_var(#[trigger] units[j]) && lit_polarity(units[i]) != lit_polarity(
                        units[j],
                    );
                assert(is_unit_of(w, units[i]));
                let ji = choose|ji: int| 0 <= ji < w.len() && (#[trigger] w[ji]).1.len() == 1
                    && w[ji].1[0] == units[i];
                assert(clause_sat_under(a, w[ji].1));
                let ii = choose|ii: int| 0 <= ii < w[ji].1.len() && lit_value(
                    a,
                    #[trigger] w[ji].1[ii],
                ) is True;
                assert(lit_value(a, units[i]) is True);
                assert(is_unit_of(w, units[j]));
                let jj = choose|jj: int| 0 <= jj < w.len() && (#[trigger] w[jj]).1.len() == 1
                    && w[jj].1[0] == units[j];
                assert(clause_sat_under(a, w[jj].1));
                let ij = choose|ij: int| 0 <= ij < w[jj].1.len() && lit_value(
                    a,
                    #[trigger] w[jj].1[ij],
                ) is True;
                assert(lit_value(a, units[j]) is True);
                assert(a[lit_var(units[i])] == lit_polarity(units[i]));
                assert(a[lit_var(units[j])] == lit_polarity(units[j]));
                assert(false);
            } else {
                lemma_unit_batch_honoured(w, units, a);
                let mb = fold_lits(Map::<int, bool>::empty(), units);
                let jc = choose|jc: int| 0 <= jc < w.len() && clause_false_under(
                    mb,
                    (#[trigger] w[jc]).1,
                );
                assert(clause_sat_under(a, w[jc].1));
                let i = choose|i: int| 0 <= i < w[jc].1.len() && lit_value(
                    a,
                    #[trigger] w[jc].1[i],
                ) is True;
                let x = w[jc].1[i];
                assert(lit_value(mb, x) is False);
                assert(mb.dom().contains(lit_var(x)));
                assert(a[lit_var(x)] == mb[lit_var(x)]);
                assert(false);
            }
        }
    }
}

/// A failing pure-literal fold proves unsatisfiability. A batch of pure
/// literals can never conflict internally, so only a fully falsified clause
/// remains, and overriding any satisfying assignment with the batch would
/// still satisfy the working set while falsifying that clause.
pub proof fn lemma_pure_false_unsat(w: Seq<ClauseModel>, pures: Seq<Literal>)
    requires
        forall|u: int| 0 <= u < pures.len() ==> valid_lit(#[trigger] pures[u]),
        forall|u: int|
            0 <= u < pures.len() ==> in_lits(w, (#[trigger] pures[u]) as int) && !in_lits(
                w,
                -(pures[u] as int),
            ),
        forall|j: int, i: int|
            0 <= j < w.len() && 0 <= i < w[j].1.len() ==> valid_lit(#[trigger] w[j].1[i]),
        !fold_ok(Map::<int, bool>::empty(), pures) || some_clause_false(
            fold_lits(Map::<int, bool>::empty(), pures),
            w,
        ),
    ensures
        unsat(w),
{
    lemma_fold_ok_iff(Map::<int, bool>::empty(), pures);
    assert(!conflicting(pures)) by {
        if conflicting(pures) {
            let (i, j) = choose|i: int, j: int|
                0 <= i < pures.len() && 0 <= j < pures.len() && lit_var(#[trigger] pures[i])
                    == lit_var(#[trigger] pures[j]) && lit_polarity(pures[i]) != lit_polarity(
                    pures[j],
                );
            assert(pures[j] as int == -(pures[i] as int));
            assert(in_lits(w, pures[j] as int));
            assert(in_lits(w, -(pures[i] as int)));
            assert(false);
        }
    }
    assert(forall|i: int|
        0 <= i < pures.len() ==> insert_ok(Map::<int, bool>::empty(), #[trigger] pures[i]));
    assert(fold_ok(Map::<int, bool>::empty(), pures));
    let mb = fold_lits(Map::<int, bool>::empty(), pures);
    assert forall|a: Map<int, bool>| !#[trigger] formula_sat_under(a, w) by {
        if formula_sat_under(a, w) {
            lemma_pure_batch_override(w, pures, a);
            let b = a.union_prefer_right(mb);
            let jc = choose|jc: int| 0 <= jc < w.len() && clause_false_under(
                mb,
                (#[trigger] w[jc]).1,
            );
            assert(clause_sat_under(b, w[jc].1));
            let i = choose|i: int| 0 <= i < w[jc].1.len() && lit_value(
                b,
                #[trigger] w[jc].1[i],
            ) is True;
            let x = w[jc].1[i];
            assert(lit_value(mb, x) is False);
            assert(mb.dom().contains(lit_var(x)));
            assert(b[lit_var(x)] == mb[lit_var(x)]);
            assert(false);
        }
    }
}

/// A successful unit-clause fold loses no model: any assignment that honours
/// the accumulated certificate and satisfies the working set already honours
/// the batch.
pub proof fn lemma_unit_premise(w: Seq<ClauseModel>, units: Seq<Literal>, common: Map<int, bool>)
    requires
        fold_ok(Map::<int, bool>::empty(), units),
        forall|t: int| 0 <= t < units.len() ==> is_unit_of(w, #[trigger] units[t]),
    ensures
        forall|a: Map<int, bool>|
            extends(a, common) && #[trigger] formula_sat_under(a, w) ==> exists|b: Map<int, bool>|
                extends(b, common) && extends(b, fold_lits(Map::<int, bool>::empty(), units))
                    && #[trigger] formula_sat_under(b, w),
{
    assert forall|a: Map<int, bool>| extends(a, common) && #[trigger] formula_sat_under(a, w)
        implies exists|b: Map<int, bool>|
            extends(b, common) && extends(b, fold_lits(Map::<int, bool>::empty(), units))
                && #[trigger] formula_sat_under(b, w) by {
        lemma_unit_batch_honoured(w, units, a);
        assert(extends(a, common) && extends(a, fold_lits(Map::<int, bool>::empty(), units))
            && formula_sat_under(a, w));
    }
}

/// A successful pure-literal fold loses no model: overriding an assignment
/// with the batch keeps the working set satisfied and touches no variable
/// the accumulated certificate assigns.
pub proof fn lemma_pure_premise(w: Seq<ClauseModel>, pures: Seq<Literal>, common: Map<int, bool>)
    requires
        fold_ok(Map::<int, bool>::empty(), pures),
        forall|u: int| 0 <= u < pures.len() ==> valid_lit(#[trigger] pures[u]),
        forall|u: int|
            0 <= u < pures.len() ==> in_lits(w, (#[trigger] pures[u]) as int) && !in_lits(
                w,
                -(pures[u] as int),
            ),
        forall|j: int, i: int|
            0 <= j < w.len() && 0 <= i < w[j].1.len() ==> valid_lit(#[trigger] w[j].1[i]),
        forall|u: int| 0 <= u < pures.len() ==> !common.dom().contains(
            lit_var(#[trigger] pures[u]),
        ),
    ensures
        forall|a: Map<int, bool>|
            extends(a, common) && #[trigger] formula_sat_under(a, w) ==> exists|b: Map<int, bool>|
                extends(b, common) && extends(b, fold_lits(Map::<int, bool>::empty(), pures))
                    && #[trigger] formula_sat_under(b, w),
{
    let mb = fold_lits(Map::<int, bool>::empty(), pures);
    lemma_fold_facts(Map::<int, bool>::empty(), pures);
    assert forall|a: Map<int, bool>| extends(a, common) && #[trigger] formula_sat_under(a, w)
        implies exists|b: Map<int, bool>|
            extends(b, common) && extends(b, mb) && #[trigger] formula_sat_under(b, w) by {
        lemma_pure_batch_override(w, pures, a);
        let b = a.union_prefer_right(mb);
        assert(extends(b, common)) by {
            assert forall|v: int| #[trigger] common.dom().contains(v)
                implies b.dom().contains(v) && b[v] == common[v] by {
                assert(!mb.dom().contains(v)) by {
                    if mb.dom().contains(v) {
                        assert(seq_has_var(pures, v));
                        let u = choose|u: int| 0 <= u < pures.len() && lit_var(
                            #[trigger] pures[u],
                        ) == v;
                        assert(!common.dom().contains(lit_var(pures[u])));
                    }
                }
                assert(a.dom().contains(v) && a[v] == common[v]);
            }
        }
        assert(extends(b, mb) && formula_sat_under(b, w));
    }
}

/// Folding a batch of pure literals never shrinks a clause: a clause either
/// contains one of them and is satisfied outright, or is kept as it is.
pub proof fn lemma_pure_fold_keeps_clauses(w: Seq<ClauseModel>, pures: Seq<Literal>)
    requires
        fold_ok(Map::<int, bool>::empty(), pures),
        forall|u: int| 0 <= u < pures.len() ==> valid_lit(#[trigger] pures[u]),
        forall|u: int|
            0 <= u < pures.len() ==> in_lits(w, (#[trigger] pures[u]) as int) && !in_lits(
                w,
                -(pures[u] as int),
            ),
        forall|j: int, i: int|
            0 <= j < w.len() && 0 <= i < w[j].1.len() ==> valid_lit(#[trigger] w[j].1[i]),
    ensures
        forall|j: int|
            0 <= j < reduce_formula(fold_lits(Map::<int, bool>::empty(), pures), w).len()
                ==> exists|jc: int|
                0 <= jc < w.len() && #[trigger] reduce_formula(
                    fold_lits(Map::<int, bool>::empty(), pures),
                    w,
                )[j] == w[jc],
{
    let mb = fold_lits(Map::<int, bool>::empty(), pures);
    lemma_fold_facts(Map::<int, bool>::empty(), pures);
    lemma_reduce_formula_membership(mb, w);
    assert forall|j: int| 0 <= j < reduce_formula(mb, w).len() implies exists|jc: int|
        0 <= jc < w.len() && #[trigger] reduce_formula(mb, w)[j] == w[jc] by {
        let jc = choose|jc: int|
            0 <= jc < w.len() && !clause_sat_under(mb, (#[trigger] w[jc]).1) && reduce_formula(
                mb,
                w,
            )[j] == (w[jc].0, reduce_lits(mb, w[jc].1));
        assert forall|i: int| 0 <= i < w[jc].1.len()
            implies lit_value(mb, #[trigger] w[jc].1[i]) is Unassigned by {
            let x = w[jc].1[i];
            assert(valid_lit(x));
            if mb.dom().contains(lit_var(x)) {
                assert(seq_has_var(pures, lit_var(x)));
                let u = choose|u: int| 0 <= u < pures.len() && lit_var(#[trigger] pures[u])
                    == lit_var(x);
                let p = pures[u];
                assert(valid_lit(p));
                assert(x == p || x as int == -(p as int));
                if x == p {
                    assert(mb[lit_var(x)] == lit_polarity(x));
                    assert(lit_value(mb, w[jc].1[i]) is True);
                    assert(clause_sat_under(mb, w[jc].1));
                    assert(false);
                } else {
                    assert(in_lits(w, x as int));
                    assert(in_lits(w, -(p as int)));
                    assert(false);
                }
            }
        }
        lemma_reduce_lits_identity(mb, w[jc].1);
        assert(reduce_formula(mb, w)[j] == w[jc]);
    }
}

/// A non-empty batch of pure literals makes progress: its fold satisfies at
/// least one clause, and the clauses that remain are kept whole, so no unit
/// clause can appear.
pub proof fn lemma_pure_batch_progress(w: Seq<ClauseModel>, pures: Seq<Literal>)
    requires
        fold_ok(Map::<int, bool>::empty(), pures),
        pures.len() > 0,
        forall|u: int| 0 <= u < pures.len() ==> valid_lit(#[trigger] pures[u]),
        forall|u: int|
            0 <= u < pures.len() ==> in_lits(w, (#[trigger] pures[u]) as int) && !in_lits(
                w,
                -(pures[u] as int),
            ),
        forall|j: int, i: int|
            0 <= j < w.len() && 0 <= i < w[j].1.len() ==> valid_lit(#[trigger] w[j].1[i]),
        no_units(w),
    ensures
        reduce_formula(fold_lits(Map::<int, bool>::empty(), pures), w).len() < w.len(),
        no_units(reduce_formula(fold_lits(Map::<int, bool>::empty(), pures), w)),
{
    let mb = fold_lits(Map::<int, bool>::empty(), pures);
    lemma_fold_facts(Map::<int, bool>::empty(), pures);
    let p0 = pures[0];
    assert(in_lits(w, p0 as int));
    let (j0, i0) = choose|j0: int, i0: int|
        0 <= j0 < w.len() && 0 <= i0 < w[j0].1.len() && #[trigger] w[j0].1[i0] == p0 as int;
    assert(lit_var(pures[0]) == lit_var(p0));
    assert(seq_has_var(pures, lit_var(p0)));
    assert(mb[lit_var(p0)] == lit_polarity(p0));
    assert(w[j0].1[i0] == p0);
    assert(lit_value(mb, w[j0].1[i0]) is True);
    assert(clause_sat_under(mb, w[j0].1));
    lemma_reduce_formula_len(mb, w);
    lemma_pure_fold_keeps_clauses(w, pures);
    assert forall|j: int| 0 <= j < reduce_formula(mb, w).len()
        implies (#[trigger] reduce_formula(mb, w)[j]).1.len() != 1 by {
        let jc = choose|jc: int| 0 <= jc < w.len() && #[trigger] reduce_formula(mb, w)[j]
            == w[jc];
        assert(w[jc].1.len() != 1);
    }
}

/// When every collected literal has its negation collected too, and the
/// collection covers the working set, no pure literal is left.
pub proof fn lemma_no_pures_from_record(w: Seq<ClauseModel>, lits: Seq<Literal>)
    requires
        forall|t: int| 0 <= t < lits.len() ==> in_lits(w, (#[trigger] lits[t]) as int),
        forall|j0: int, i0: int|
            0 <= j0 < w.len() && 0 <= i0 < w[j0].1.len() ==> lits.contains(
                #[trigger] w[j0].1[i0],
            ),
        forall|t0: int| 0 <= t0 < lits.len() ==> has_negation_of(lits, #[trigger] lits[t0]),
    ensures
        no_pures(w),
{
    assert forall|lv: int| #[trigger] in_lits(w, lv) implies in_lits(w, -lv) by {
        let (j0, i0) = choose|j0: int, i0: int|
            0 <= j0 < w.len() && 0 <= i0 < w[j0].1.len() && #[trigger] w[j0].1[i0] == lv;
        let x = w[j0].1[i0];
        assert(lits.contains(x));
        let t0 = choose|t0: int| 0 <= t0 < lits.len() && lits[t0] == x;
        assert(has_negation_of(lits, lits[t0]));
        let t1 = choose|t1: int| 0 <= t1 < lits.len() && (#[trigger] lits[t1]) as int == -(
        lits[t0] as int);
        assert(in_lits(w, lits[t1] as int));
    }
}

/// The verdict of applying a certificate to an instance: satisfied, proven
/// unsatisfiable, or undecided with the clauses still to be satisfied.
#[derive(Debug)]
pub enum EvaluatedInstance {
    True,
    False,
    Undecided(Vec<Clause>),
}

/// A CNF instance: the immutable clause set it was built from, a working
/// reduced clause set, the accumulating certificate of assignments common to
/// every remaining way of satisfying it, and cached size metrics.
#[derive(Debug)]
pub struct Instance {
    clauses: Vec<Clause>,
    size: InstanceSize,
    partial_clauses: Vec<Clause>,
    partial_size: InstanceSize,
    common_certificate: Certificate,
}

impl Instance {
    /// Model of the immutable clause set.
    pub closed spec fn formula(self) -> Seq<ClauseModel> {
        models(self.clauses@)
    }

    /// Model of the working clause set.
    pub closed spec fn work(self) -> Seq<ClauseModel> {
        models(self.partial_clauses@)
    }

    /// The accumulated common certificate, as a partial map.
    pub closed spec fn commonm(self) -> Map<int, bool> {
        self.common_certificate@
    }

    /// The cached size metrics.
    pub closed spec fn size_spec(self) -> InstanceSize {
        self.size
    }

    /// The cached size metrics of the working set.
    pub closed spec fn partial_size_spec(self) -> InstanceSize {
        self.partial_size
    }

    /// The working set never mentions a variable the common certificate has
    /// already assigned: folds remove such literals from every clause.
    pub open spec fn vars_disjoint(self) -> bool {
        forall|j: int, i: int|
            0 <= j < self.work().len() && 0 <= i < self.work()[j].1.len()
                ==> !self.commonm().dom().contains(lit_var(#[trigger] self.work()[j].1[i]))
    }

    /// Soundness of the accumulated state: any assignment that honours the
    /// common certificate and satisfies the working set satisfies the
    /// original clause set.
    pub open spec fn sound(self) -> bool {
        forall|a: Map<int, bool>| #[trigger] extends(a, self.commonm())
            && formula_sat_under(a, self.work()) ==> formula_sat_under(a, self.formula())
    }

    /// Completeness of the accumulated state: if the original clause set is
    /// satisfiable at all, then some assignment honours the common
    /// certificate and satisfies the working set. Unit propagation only
    /// records consequences, and pure-literal elimination preserves
    /// satisfiability, so no fold loses a satisfiable instance.
    pub open spec fn complete(self) -> bool {
        (exists|a: Map<int, bool>| #[trigger] formula_sat_under(a, self.formula()))
            ==> (exists|a: Map<int, bool>| extends(a, self.commonm())
                && #[trigger] formula_sat_under(a, self.work()))
    }

    /// Invariant tying the pieces together.
    pub closed spec fn wf(self) -> bool {
        &&& forall|j: int| 0 <= j < self.clauses@.len() ==> (#[trigger] self.clauses@[j]).wf()
        &&& forall|j: int| 0 <= j < self.partial_clauses@.len()
            ==> (#[trigger] self.partial_clauses@[j]).wf()
        &&& self.common_certificate.wf()
        &&& no_empty_clauses(self.work())
        &&& self.vars_disjoint()
        &&& self.sound()
        &&& self.complete()
    }

    /// Builds an instance from a non-empty clause set and its declared
    /// variable count (the latter is bookkeeping only). Each clause must
    /// still have literals, as the parser guarantees: an empty disjunction
    /// is already a contradiction, not an instance to simplify. The working
    /// set starts as a copy of the clause set and the common certificate
    /// empty.
    pub fn new(clauses: Vec<Clause>, m: usize) -> (r: Instance)
        requires
            clauses@.len() > 0,
            forall|j: int| 0 <= j < clauses@.len() ==> (#[trigger] clauses@[j]).wf(),
            forall|j: int| 0 <= j < clauses@.len() ==> (#[trigger] clauses@[j]).cur().len() != 0,
        ensures
            r.wf(),
            r.formula() == models(clauses@),
            r.work() == models(clauses@),
            r.commonm() == Map::<int, bool>::empty(),
            r.size_spec() == (max_width(models(clauses@)) as usize, m, clauses@.len() as usize),
            r.partial_size_spec() == r.size_spec(),
    {
        let ghost f = models(clauses@);
        let n = clauses.len();
        let mut k: usize = 0;
        let mut j: usize = 0;
        while j < n
            invariant
                j <= n,
                n == clauses@.len(),
                forall|t: int| 0 <= t < clauses@.len() ==> (#[trigger] clauses@[t]).wf(),
                f == models(clauses@),
                k == max_width(f.take(j as int)),
                k <= usize::MAX,
            decreases n - j,
        {
            let width = clauses[j].len();
            proof {
                assert(f.take(j + 1 as int).drop_last() =~= f.take(j as int));
                assert(f.take(j + 1 as int).last() == f[j as int]);
                assert(f[j as int].1 == clauses@[j as int].cur());
            }
            if width > k {
                k = width;
            }
            j = j + 1;
        }
        proof {
            assert(f.take(n as int) =~= f);
        }
        let working = copy_clauses(&clauses);
        let r = Instance {
            clauses,
            size: (k, m, n),
            partial_clauses: working,
            partial_size: (k, m, n),
            common_certificate: Certificate::empty(),
        };
        proof {
            assert(r.work() =~= r.formula());
            assert(no_empty_clauses(r.work())) by {
                assert forall|j: int| 0 <= j < r.work().len()
                    implies (#[trigger] r.work()[j]).1.len() != 0 by {
                    assert(r.work()[j].1 == clauses@[j].cur());
                }
            }
            assert forall|a: Map<int, bool>| #[trigger] extends(a, r.commonm())
                && formula_sat_under(a, r.work())
                implies formula_sat_under(a, r.formula()) by {}
            assert(r.complete()) by {
                if exists|a: Map<int, bool>| #[trigger] formula_sat_under(a, r.formula()) {
                    let a = choose|a: Map<int, bool>| #[trigger] formula_sat_under(
                        a,
                        r.formula(),
                    );
                    assert(extends(a, r.commonm()));
                    assert(formula_sat_under(a, r.work()));
                }
            }
        }
        r
    }

    /// A deep copy of another instance, so a future branching search can
    /// explore a sibling without touching its parent.
    pub fn from(other: &Instance) -> (r: Instance)
        ensures
            r.formula() == other.formula(),
            r.work() == other.work(),
            r.commonm() == other.commonm(),
            r.size_spec() == other.size_spec(),
            r.partial_size_spec() == other.partial_size_spec(),
            other.wf() ==> r.wf(),
    {
        let r = Instance {
            clauses: copy_clauses(&other.clauses),
            size: other.size,
            partial_clauses: copy_clauses(&other.partial_clauses),
            partial_size: other.partial_size,
            common_certificate: other.common_certificate.duplicate(),
        };
        proof {
            assert(r.formula() =~~= other.formula());
            assert(r.work() =~~= other.work());
            if other.wf() {
                assert(no_empty_clauses(r.work())) by {
                    assert forall|j: int| 0 <= j < r.work().len()
                        implies (#[trigger] r.work()[j]).1.len() != 0 by {
                        assert(r.work()[j] == other.work()[j]);
                    }
                }
                assert(r.vars_disjoint()) by {
                    assert forall|j: int, i: int|
                        0 <= j < r.work().len() && 0 <= i < r.work()[j].1.len()
                        implies !r.commonm().dom().contains(
                        lit_var(#[trigger] r.work()[j].1[i]),
                    ) by {
                        assert(r.work()[j].1[i] == other.work()[j].1[i]);
                    }
                }
                assert(r.sound()) by {
                    assert forall|a: Map<int, bool>| #[trigger] extends(a, r.commonm())
                        && formula_sat_under(a, r.work())
                        implies formula_sat_under(a, r.formula()) by {
                        assert(extends(a, other.commonm()));
                        assert(formula_sat_under(a, other.work()));
                    }
                }
                assert(r.complete()) by {
                    if exists|a: Map<int, bool>| #[trigger] formula_sat_under(a, r.formula()) {
                        let a = choose|a: Map<int, bool>| #[trigger] formula_sat_under(
                            a,
                            r.formula(),
                        );
                        assert(formula_sat_under(a, other.formula()));
                        let b = choose|b: Map<int, bool>| extends(b, other.commonm())
                            && #[trigger] formula_sat_under(b, other.work());
                        assert(extends(b, r.commonm()));
                        assert(formula_sat_under(b, r.work()));
                    }
                }
                assert(r.wf());
            }
        }
        r
    }

    /// Read-only access to the accumulated common certificate.
    pub fn common_certificate(&self) -> (r: &Certificate)
        ensures
            r@ == self.commonm(),
            self.wf() ==> r.wf(),
    {
        &self.common_certificate
    }

    /// Read-only access to the original clause set, for rendering.
    pub fn clauses(&self) -> (r: &Vec<Clause>)
        ensures
            models(r@) == self.formula(),
    {
        &self.clauses
    }

    /// Read-only access to the working clause set.
    pub fn partial_clauses(&self) -> (r: &Vec<Clause>)
        ensures
            models(r@) == self.work(),
    {
        &self.partial_clauses
    }

    /// The cached size metrics of the original clause set.
    pub fn size(&self) -> (r: InstanceSize)
        ensures
            r == self.size_spec(),
    {
        self.size
    }

    /// The cached size metrics of the working clause set.
    pub fn partial_size(&self) -> (r: InstanceSize)
        ensures
            r == self.partial_size_spec(),
    {
        self.partial_size
    }

    /// Recomputes the working-set metrics: widest reduced clause, number of
    /// distinct variables still mentioned, and clause count. A pure derived
    /// metric; nothing else changes.
    pub fn recalculate_partial_size(&mut self)
        requires
            old(self).wf(),
            old(self).work().len() > 0,
        ensures
            final(self).wf(),
            final(self).formula() == old(self).formula(),
            final(self).work() == old(self).work(),
            final(self).commonm() == old(self).commonm(),
            final(self).size_spec() == old(self).size_spec(),
            final(self).partial_size_spec() == (
                max_width(old(self).work()) as usize,
                formula_vars(old(self).work()).len() as usize,
                old(self).work().len() as usize,
            ),
    {
        let ghost f = self.work();
        let n = self.partial_clauses.len();
        let mut k: usize = 0;
        let mut j: usize = 0;
        while j < n
            invariant
                j <= n,
                n == f.len(),
                f == self.work(),
                k == max_width(f.take(j as int)),
            decreases n - j,
        {
            let width = self.partial_clauses[j].len();
            proof {
                assert(f.take(j + 1 as int).drop_last() =~= f.take(j as int));
                assert(f.take(j + 1 as int).last() == f[j as int]);
                assert(f[j as int].1 == self.partial_clauses@[j as int].cur());
            }
            if width > k {
                k = width;
            }
            j = j + 1;
        }
        proof {
            assert(f.take(n as int) =~= f);
        }
        let mut seen: Vec<Variable> = Vec::new();
        let mut j: usize = 0;
        while j < n
            invariant
                self.wf(),
                j <= n,
                n == f.len(),
                f == self.work(),
                seen@.no_duplicates(),
                forall|t: int| 0 <= t < seen@.len() ==> formula_vars(f).contains(
                    (#[trigger] seen@[t]) as int,
                ),
                forall|j0: int, i0: int|
                    0 <= j0 < j && 0 <= i0 < f[j0].1.len() ==> vars_as_ints(seen@).contains(
                        lit_var(#[trigger] f[j0].1[i0]),
                    ),
            decreases n - j,
        {
            let clause = &self.partial_clauses[j];
            let lits = clause.partial_literals();
            let len = lits.len();
            let mut i: usize = 0;
            while i < len
                invariant
                    self.wf(),
                    0 <= j < n,
                    i <= len,
                    n == f.len(),
                    f == self.work(),
                    len == f[j as int].1.len(),
                    lits@ == f[j as int].1,
                    clause.wf(),
                    clause.cur() == f[j as int].1,
                    seen@.no_duplicates(),
                    forall|t: int| 0 <= t < seen@.len() ==> formula_vars(f).contains(
                        (#[trigger] seen@[t]) as int,
                    ),
                    forall|j0: int, i0: int|
                        0 <= j0 < j && 0 <= i0 < f[j0].1.len() ==> vars_as_ints(seen@).contains(
                            lit_var(#[trigger] f[j0].1[i0]),
                        ),
                    forall|i0: int|
                        0 <= i0 < i ==> vars_as_ints(seen@).contains(
                            lit_var(#[trigger] f[j as int].1[i0]),
                        ),
                decreases len - i,
            {
                let literal = lits[i];
                proof {
                    assert(valid_lit(literal));
                }
                let variable = crate::types::lit_variable(literal);
                let ghost prev = seen@;
                if !contains_variable_vec(&seen, variable) {
                    seen.push(variable);
                    proof {
                        assert(formula_vars(f).contains(variable as int));
                        assert(seen@[seen@.len() - 1] == variable);
                        assert(vars_as_ints(seen@)[seen@.len() - 1] == variable as int);
                        assert(vars_as_ints(seen@).contains(variable as int));
                        assert forall|lv: int| #[trigger] vars_as_ints(prev).contains(lv)
                            implies vars_as_ints(seen@).contains(lv) by {
                            let t = choose|t: int| 0 <= t < vars_as_ints(prev).len()
                                && vars_as_ints(prev)[t] == lv;
                            assert(seen@[t] == prev[t]);
                            assert(vars_as_ints(seen@)[t] == lv);
                        }
                        assert(seen@.no_duplicates()) by {
                            assert forall|p: int, q: int| 0 <= p < q < seen@.len()
                                implies seen@[p] != seen@[q] by {
                                if q == seen@.len() - 1 {
                                    assert(!prev.contains(variable));
                                    assert(seen@[p] == prev[p]);
                                }
                            }
                        }
                    }
                } else {
                    proof {
                        let t = choose|t: int| 0 <= t < prev.len() && prev[t] == variable;
                        assert(vars_as_ints(seen@)[t] == variable as int);
                        assert(vars_as_ints(seen@).contains(variable as int));
                    }
                }
                proof {
                    assert(lit_var(f[j as int].1[i as int]) == variable as int);
                }
                i = i + 1;
            }
            j = j + 1;
        }
        let m = seen.len();
        proof {
            let mapped = vars_as_ints(seen@);
            assert(mapped.no_duplicates()) by {
                assert forall|p: int, q: int| 0 <= p < q < mapped.len()
                    implies mapped[p] != mapped[q] by {
                    assert(seen@[p] != seen@[q]);
                }
            }
            assert(mapped.to_set() =~= formula_vars(f)) by {
                assert forall|v: int| #[trigger] mapped.to_set().contains(v)
                    implies formula_vars(f).contains(v) by {
                    let t = choose|t: int| 0 <= t < mapped.len() && mapped[t] == v;
                    assert(formula_vars(f).contains((seen@[t]) as int));
                }
                assert forall|v: int| #[trigger] formula_vars(f).contains(v)
                    implies mapped.to_set().contains(v) by {
                    let (j0, i0) = choose|j0: int, i0: int|
                        0 <= j0 < f.len() && 0 <= i0 < f[j0].1.len() && lit_var(
                            #[trigger] f[j0].1[i0],
                        ) == v;
                    assert(vars_as_ints(seen@).contains(lit_var(f[j0].1[i0])));
                }
            }
            mapped.unique_seq_to_set();
            assert(formula_vars(f).len() == seen@.len());
        }
        self.partial_size = (k, m, n);
        proof {
            assert(self.complete()) by {
                if exists|a: Map<int, bool>| #[trigger] formula_sat_under(a, self.formula()) {
                    let a = choose|a: Map<int, bool>| #[trigger] formula_sat_under(
                        a,
                        self.formula(),
                    );
                    assert(formula_sat_under(a, old(self).formula()));
                    let b = choose|b: Map<int, bool>| extends(b, old(self).commonm())
                        && #[trigger] formula_sat_under(b, old(self).work());
                    assert(extends(b, self.commonm()));
                    assert(formula_sat_under(b, self.work()));
                }
            }
        }
    }

    /// Folds a batch of newly-forced literals into the accumulating common
    /// certificate. A conflict inside the batch proves the instance
    /// unsatisfiable and changes nothing. Otherwise the batch is applied to
    /// the working set: one clause falsified outright also proves
    /// unsatisfiability; else the working set is replaced by the reduction
    /// and the common certificate grows by the batch.
    fn extend_common(&mut self, literals: &Literals) -> (r: EvaluatedInstance)
        requires
            old(self).wf(),
            forall|i: int| 0 <= i < literals@.len() ==> valid_lit(#[trigger] literals@[i]),
            forall|i: int| 0 <= i < literals@.len() ==> !old(self).commonm().dom().contains(
                lit_var(#[trigger] literals@[i]),
            ),
            fold_ok(Map::<int, bool>::empty(), literals@) ==> forall|a: Map<int, bool>|
                extends(a, old(self).commonm()) && #[trigger] formula_sat_under(
                    a,
                    old(self).work(),
                ) ==> exists|b: Map<int, bool>|
                    extends(b, old(self).commonm()) && extends(
                        b,
                        fold_lits(Map::<int, bool>::empty(), literals@),
                    ) && #[trigger] formula_sat_under(b, old(self).work()),
        ensures
            final(self).wf(),
            final(self).formula() == old(self).formula(),
            final(self).size_spec() == old(self).size_spec(),
            final(self).partial_size_spec() == old(self).partial_size_spec(),
            r is False <==> !fold_ok(Map::<int, bool>::empty(), literals@) || some_clause_false(
                fold_lits(Map::<int, bool>::empty(), literals@),
                old(self).work(),
            ),
            r is False ==> *final(self) == *old(self),
            !(r is False) ==> final(self).work() == reduce_formula(
                fold_lits(Map::<int, bool>::empty(), literals@),
                old(self).work(),
            ) && final(self).commonm() == old(self).commonm().union_prefer_right(
                fold_lits(Map::<int, bool>::empty(), literals@),
            ),
            !(r is False) ==> (r is True <==> final(self).work().len() == 0),
            r matches EvaluatedInstance::Undecided(cs) ==> models(cs@) == final(self).work()
                && cs@.len() > 0,
            extends(final(self).commonm(), old(self).commonm()),
    {
        let ghost mb = fold_lits(Map::<int, bool>::empty(), literals@);
        let batch = match Certificate::from_literals(literals) {
            Ok(c) => c,
            Err(_) => {
                return EvaluatedInstance::False;
            },
        };
        proof {
            lemma_fold_facts(Map::<int, bool>::empty(), literals@);
        }
        let ev = self.apply(&batch);
        match ev {
            EvaluatedInstance::False => EvaluatedInstance::False,
            EvaluatedInstance::True => {
                proof {
                    lemma_reduce_formula_len(batch@, self.work());
                    assert(models(Seq::<Clause>::empty()) =~= reduce_formula(
                        batch@,
                        self.work(),
                    ));
                }
                self.finish_batch(&batch, Vec::new());
                EvaluatedInstance::True
            },
            EvaluatedInstance::Undecided(cs) => {
                let out = copy_clauses(&cs);
                self.finish_batch(&batch, cs);
                EvaluatedInstance::Undecided(out)
            },
        }
    }

    /// Commits a successfully applied batch: replaces the working set by the
    /// reduction and grows the common certificate.
    fn finish_batch(&mut self, batch: &Certificate, reduced: Vec<Clause>)
        requires
            old(self).wf(),
            batch.wf(),
            forall|v: int| batch@.dom().contains(v) ==> !old(self).commonm().dom().contains(v),
            !some_clause_false(batch@, old(self).work()),
            models(reduced@) == reduce_formula(batch@, old(self).work()),
            forall|j: int| 0 <= j < reduced@.len() ==> (#[trigger] reduced@[j]).wf(),
            forall|a: Map<int, bool>|
                extends(a, old(self).commonm()) && #[trigger] formula_sat_under(
                    a,
                    old(self).work(),
                ) ==> exists|b: Map<int, bool>|
                    extends(b, old(self).commonm()) && extends(b, batch@)
                        && #[trigger] formula_sat_under(b, old(self).work()),
        ensures
            final(self).wf(),
            final(self).formula() == old(self).formula(),
            final(self).size_spec() == old(self).size_spec(),
            final(self).partial_size_spec() == old(self).partial_size_spec(),
            final(self).work() == reduce_formula(batch@, old(self).work()),
            final(self).commonm() == old(self).commonm().union_prefer_right(batch@),
            extends(final(self).commonm(), old(self).commonm()),
    {
        let ghost mb = batch@;
        let ghost oldwork = self.work();
        let ghost oldcommon = self.commonm();
        proof {
            assert forall|v: int| oldcommon.dom().contains(v)
                implies !mb.dom().contains(v) by {}
        }
        self.common_certificate.absorb(batch);
        self.partial_clauses = reduced;
        proof {
            let newcommon = self.commonm();
            assert(extends(newcommon, oldcommon)) by {
                assert forall|v: int| #[trigger] oldcommon.dom().contains(v)
                    implies newcommon.dom().contains(v) && newcommon[v] == oldcommon[v] by {
                    assert(!mb.dom().contains(v));
                }
            }
            lemma_reduce_formula_membership(mb, oldwork);
            assert(self.vars_disjoint()) by {
                assert forall|j: int, i: int|
                    0 <= j < self.work().len() && 0 <= i < self.work()[j].1.len()
                    implies !newcommon.dom().contains(
                    lit_var(#[trigger] self.work()[j].1[i]),
                ) by {
                    assert(self.work() == reduce_formula(mb, oldwork));
                    assert(self.work()[j] == reduce_formula(mb, oldwork)[j]);
                    let j0 = choose|j0: int|
                        0 <= j0 < oldwork.len() && !clause_sat_under(mb, (#[trigger] oldwork[j0]).1)
                            && self.work()[j] == (oldwork[j0].0, reduce_lits(mb, oldwork[j0].1));
                    lemma_reduce_lits_membership(mb, oldwork[j0].1);
                    let l = self.work()[j].1[i];
                    assert(lit_value(mb, l) is Unassigned);
                    assert(!mb.dom().contains(lit_var(l)));
                    let i0 = choose|i0: int| 0 <= i0 < oldwork[j0].1.len() && oldwork[j0].1[i0]
                        == l;
                    assert(!oldcommon.dom().contains(lit_var(oldwork[j0].1[i0])));
                }
            }
            assert(self.sound()) by {
                assert forall|a: Map<int, bool>| #[trigger] extends(a, newcommon)
                    && formula_sat_under(a, self.work())
                    implies formula_sat_under(a, self.formula()) by {
                    assert(extends(a, oldcommon)) by {
                        assert forall|v: int| #[trigger] oldcommon.dom().contains(v)
                            implies a.dom().contains(v) && a[v] == oldcommon[v] by {
                            assert(newcommon.dom().contains(v));
                            assert(newcommon[v] == oldcommon[v]);
                        }
                    }
                    assert(extends(a, mb)) by {
                        assert forall|v: int| #[trigger] mb.dom().contains(v)
                            implies a.dom().contains(v) && a[v] == mb[v] by {
                            assert(newcommon.dom().contains(v));
                            assert(newcommon[v] == mb[v]);
                        }
                    }
                    lemma_reduce_formula_sound(mb, a, oldwork);
                }
            }
            assert(forall|j: int| 0 <= j < self.partial_clauses@.len()
                ==> (#[trigger] self.partial_clauses@[j]).wf());
            assert(no_empty_clauses(self.work())) by {
                assert forall|j: int| 0 <= j < self.work().len()
                    implies (#[trigger] self.work()[j]).1.len() != 0 by {
                    assert(self.work() == reduce_formula(mb, oldwork));
                    assert(self.work()[j] == reduce_formula(mb, oldwork)[j]);
                    let j0 = choose|j0: int|
                        0 <= j0 < oldwork.len() && !clause_sat_under(mb, (#[trigger] oldwork[j0]).1)
                            && self.work()[j] == (oldwork[j0].0, reduce_lits(mb, oldwork[j0].1));
                    assert(!clause_false_under(mb, oldwork[j0].1));
                    let i = choose|i: int|
                        0 <= i < oldwork[j0].1.len() && !(lit_value(
                            mb,
                            #[trigger] oldwork[j0].1[i],
                        ) is False);
                    assert(lit_value(mb, oldwork[j0].1[i]) is Unassigned);
                    lemma_reduce_lits_keeps(mb, oldwork[j0].1, i);
                }
            }
            assert(self.complete()) by {
                if exists|a: Map<int, bool>| #[trigger] formula_sat_under(a, self.formula()) {
                    let aw = choose|a: Map<int, bool>| #[trigger] formula_sat_under(
                        a,
                        self.formula(),
                    );
                    assert(self.formula() == old(self).formula());
                    assert(formula_sat_under(aw, old(self).formula()));
                    assert(old(self).complete());
                    let a0 = choose|a0: Map<int, bool>| extends(a0, old(self).commonm())
                        && #[trigger] formula_sat_under(a0, old(self).work());
                    assert(extends(a0, oldcommon));
                    assert(formula_sat_under(a0, oldwork));
                    let b = choose|b: Map<int, bool>|
                        extends(b, oldcommon) && extends(b, mb) && #[trigger] formula_sat_under(
                            b,
                            oldwork,
                        );
                    lemma_reduce_formula_complete(mb, b, oldwork);
                    assert(formula_sat_under(b, self.work()));
                    assert(extends(b, newcommon)) by {
                        assert forall|v: int| #[trigger] newcommon.dom().contains(v)
                            implies b.dom().contains(v) && b[v] == newcommon[v] by {
                            if mb.dom().contains(v) {
                                assert(newcommon[v] == mb[v]);
                            } else {
                                assert(oldcommon.dom().contains(v));
                                assert(newcommon[v] == oldcommon[v]);
                            }
                        }
                    }
                }
            }
        }
    }

    /// Evaluates every working clause against a certificate. One falsified
    /// clause falsifies the whole conjunction; satisfied clauses are dropped;
    /// if none remain the instance is satisfied, otherwise the reduced
    /// clauses are returned.
    pub fn apply(&self, certificate: &Certificate) -> (r: EvaluatedInstance)
        requires
            self.wf(),
            certificate.wf(),
        ensures
            r is False <==> some_clause_false(certificate@, self.work()),
            r is True <==> !some_clause_false(certificate@, self.work())
                && all_clauses_sat(certificate@, self.work()),
            r matches EvaluatedInstance::Undecided(cs) ==> models(cs@) == reduce_formula(
                certificate@,
                self.work(),
            ) && cs@.len() > 0 && forall|j: int| 0 <= j < cs@.len() ==> (#[trigger] cs@[j]).wf(),
    {
        let ghost m = certificate@;
        let ghost f = self.work();
        let mut out: Vec<Clause> = Vec::new();
        let n = self.partial_clauses.len();
        let mut j: usize = 0;
        while j < n
            invariant
                self.wf(),
                certificate.wf(),
                m == certificate@,
                f == self.work(),
                j <= n,
                n == f.len(),
                models(out@) == reduce_formula(m, f.take(j as int)),
                forall|t: int| 0 <= t < j ==> !clause_false_under(m, (#[trigger] f[t]).1),
                forall|t: int| 0 <= t < out@.len() ==> (#[trigger] out@[t]).wf(),
            decreases n - j,
        {
            let clause = &self.partial_clauses[j];
            proof {
                assert(f[j as int].0 == clause.orig());
                assert(f[j as int].1 == clause.cur());
                assert(f.take(j + 1 as int).drop_last() =~= f.take(j as int));
                assert(f.take(j + 1 as int).last() == f[j as int]);
            }
            match clause.apply(certificate) {
                EvaluatedClause::True => {
                    proof {
                        assert(models(out@) =~= reduce_formula(m, f.take(j + 1 as int)));
                    }
                },
                EvaluatedClause::False => {
                    return EvaluatedInstance::False;
                },
                EvaluatedClause::Undecided(kept) => {
                    proof {
                        lemma_reduce_lits_membership(m, clause.cur());
                        assert forall|t: int| 0 <= t < kept@.len()
                            implies clause.orig().contains(#[trigger] kept@[t]) by {
                            let l = kept@[t];
                            let i0 = choose|i0: int| 0 <= i0 < clause.cur().len()
                                && clause.cur()[i0] == l;
                            assert(valid_lit(l));
                        }
                        assert(!clause_sat_under(m, f[j as int].1));
                    }
                    let fresh = Clause::from_parts(copy_literals(&clause.literals()), kept);
                    out.push(fresh);
                    proof {
                        assert(models(out@) =~= reduce_formula(m, f.take(j + 1 as int)));
                    }
                },
            }
            j = j + 1;
        }
        proof {
            assert(f.take(n as int) =~= f);
            lemma_reduce_formula_len(m, f);
        }
        if out.len() == 0 {
            EvaluatedInstance::True
        } else {
            EvaluatedInstance::Undecided(out)
        }
    }

    /// Collects the literal of every unit clause of the working set.
    fn collect_unit_literals(&self) -> (units: Literals)
        requires
            self.wf(),
        ensures
            forall|t: int| 0 <= t < units@.len() ==> is_unit_of(self.work(), #[trigger] units@[t]),
            forall|t: int| 0 <= t < units@.len() ==> valid_lit(#[trigger] units@[t]),
            units@.len() == 0 ==> no_units(self.work()),
    {
        let ghost w = self.work();
        let mut units: Literals = Vec::new();
        let n = self.partial_clauses.len();
        let mut j: usize = 0;
        while j < n
            invariant
                self.wf(),
                w == self.work(),
                j <= n,
                n == w.len(),
                forall|t: int| 0 <= t < units@.len() ==> is_unit_of(w, #[trigger] units@[t]),
                forall|t: int| 0 <= t < units@.len() ==> valid_lit(#[trigger] units@[t]),
                forall|j0: int|
                    0 <= j0 < j && (#[trigger] w[j0]).1.len() == 1 ==> units@.contains(
                        w[j0].1[0],
                    ),
            decreases n - j,
        {
            let clause = &self.partial_clauses[j];
            if clause.len() == 1 {
                let lits = clause.partial_literals();
                let ghost prevu = units@;
                units.push(lits[0]);
                proof {
                    assert(units@[units@.len() - 1] == w[j as int].1[0]);
                    assert(is_unit_of(w, units@[units@.len() - 1]));
                    assert forall|x: Literal| prevu.contains(x) implies units@.contains(x) by {
                        let t = choose|t: int| 0 <= t < prevu.len() && prevu[t] == x;
                        assert(units@[t] == x);
                    }
                    assert(units@.contains(w[j as int].1[0]));
                }
            }
            j = j + 1;
        }
        proof {
            if units@.len() == 0 {
                assert forall|j0: int| 0 <= j0 < self.work().len()
                    implies (#[trigger] self.work()[j0]).1.len() != 1 by {
                    if self.work()[j0].1.len() == 1 {
                        assert(units@.contains(w[j0].1[0]));
                    }
                }
            }
        }
        units
    }

    /// Collects every pure literal of the working set: those whose negation
    /// occurs nowhere in it.
    fn collect_pure_literals(&self) -> (pures: Literals)
        requires
            self.wf(),
        ensures
            forall|u: int| 0 <= u < pures@.len() ==> valid_lit(#[trigger] pures@[u]),
            forall|u: int|
                0 <= u < pures@.len() ==> in_lits(self.work(), (#[trigger] pures@[u]) as int)
                    && !in_lits(self.work(), -(pures@[u] as int)),
            pures@.len() == 0 ==> no_pures(self.work()),
    {
        let ghost w = self.work();
        let mut lits: Literals = Vec::new();
        let n = self.partial_clauses.len();
        let mut j: usize = 0;
        while j < n
            invariant
                self.wf(),
                w == self.work(),
                j <= n,
                n == w.len(),
                forall|t: int| 0 <= t < lits@.len() ==> in_lits(w, (#[trigger] lits@[t]) as int),
                forall|t: int| 0 <= t < lits@.len() ==> valid_lit(#[trigger] lits@[t]),
                forall|j0: int, i0: int|
                    0 <= j0 < j && 0 <= i0 < w[j0].1.len() ==> lits@.contains(
                        #[trigger] w[j0].1[i0],
                    ),
            decreases n - j,
        {
            let clause = &self.partial_clauses[j];
            let cl = clause.partial_literals();
            let len = cl.len();
            let mut i: usize = 0;
            while i < len
                invariant
                    self.wf(),
                    w == self.work(),
                    0 <= j < n,
                    i <= len,
                    n == w.len(),
                    len == w[j as int].1.len(),
                    cl@ == w[j as int].1,
                    clause.wf(),
                    clause.cur() == w[j as int].1,
                    forall|t: int| 0 <= t < lits@.len() ==> in_lits(
                        w,
                        (#[trigger] lits@[t]) as int,
                    ),
                    forall|t: int| 0 <= t < lits@.len() ==> valid_lit(#[trigger] lits@[t]),
                    forall|j0: int, i0: int|
                        0 <= j0 < j && 0 <= i0 < w[j0].1.len() ==> lits@.contains(
                            #[trigger] w[j0].1[i0],
                        ),
                    forall|i0: int| 0 <= i0 < i ==> lits@.contains(#[trigger] w[j as int].1[i0]),
                decreases len - i,
            {
                let l = cl[i];
                let ghost prevl = lits@;
                lits.push(l);
                proof {
                    assert(lits@[lits@.len() - 1] == l);
                    assert forall|x: Literal| prevl.contains(x) implies lits@.contains(x) by {
                        let t = choose|t: int| 0 <= t < prevl.len() && prevl[t] == x;
                        assert(lits@[t] == x);
                    }
                    assert(w[j as int].1[i as int] == l);
                    assert(in_lits(w, l as int));
                    assert(lits@.contains(w[j as int].1[i as int]));
                }
                i = i + 1;
            }
            j = j + 1;
        }
        let mut pures: Literals = Vec::new();
        let nl = lits.len();
        let mut t: usize = 0;
        while t < nl
            invariant
                self.wf(),
                w == self.work(),
                t <= nl,
                nl == lits@.len(),
                n == w.len(),
                forall|t0: int| 0 <= t0 < lits@.len() ==> in_lits(
                    w,
                    (#[trigger] lits@[t0]) as int,
                ),
                forall|t0: int| 0 <= t0 < lits@.len() ==> valid_lit(#[trigger] lits@[t0]),
                forall|j0: int, i0: int|
                    0 <= j0 < n && 0 <= i0 < w[j0].1.len() ==> lits@.contains(
                        #[trigger] w[j0].1[i0],
                    ),
                forall|u: int| 0 <= u < pures@.len() ==> valid_lit(#[trigger] pures@[u]),
                forall|u: int|
                    0 <= u < pures@.len() ==> in_lits(w, (#[trigger] pures@[u]) as int)
                        && !in_lits(w, -(pures@[u] as int)),
                forall|t0: int|
                    0 <= t0 < t ==> has_negation_of(lits@, #[trigger] lits@[t0])
                        || pures@.contains(lits@[t0]),
            decreases nl - t,
        {
            let l = lits[t];
            let neg = -l;
            if !contains_literal_vec(&lits, neg) {
                let ghost prevp = pures@;
                pures.push(l);
                proof {
                    assert(pures@[pures@.len() - 1] == l);
                    assert forall|x: Literal| prevp.contains(x) implies pures@.contains(x) by {
                        let t1 = choose|t1: int| 0 <= t1 < prevp.len() && prevp[t1] == x;
                        assert(pures@[t1] == x);
                    }
                    assert(!in_lits(w, -(l as int))) by {
                        if in_lits(w, -(l as int)) {
                            let (j0, i0) = choose|j0: int, i0: int|
                                0 <= j0 < w.len() && 0 <= i0 < w[j0].1.len()
                                    && #[trigger] w[j0].1[i0] == -(l as int);
                            assert(lits@.contains(w[j0].1[i0]));
                            assert(w[j0].1[i0] == neg);
                        }
                    }
                    assert(pures@.contains(lits@[t as int]));
                }
            } else {
                proof {
                    let t1 = choose|t1: int| 0 <= t1 < lits@.len() && lits@[t1] == neg;
                    assert(lits@[t1] as int == -(l as int));
                    assert(has_negation_of(lits@, lits@[t as int]));
                }
            }
            t = t + 1;
        }
        proof {
            if pures@.len() == 0 {
                assert forall|t0: int| 0 <= t0 < lits@.len()
                    implies has_negation_of(lits@, #[trigger] lits@[t0]) by {}
                lemma_no_pures_from_record(w, lits@);
            }
        }
        pures
    }

    /// Drives simplification to a fixpoint: repeatedly folds all unit-clause
    /// literals, then all pure literals, into the common certificate, until a
    /// full round no longer shrinks the working clause count. Returns `True`
    /// when every clause got satisfied (the common certificate then satisfies
    /// the prior working set and the whole original clause set), `False` when
    /// a conflict or a falsified clause proved the prior working set - and
    /// with it the original clause set - unsatisfiable, and otherwise
    /// `Undecided` with the residual working set, which is exactly the prior
    /// working set reduced under the final certificate, is equisatisfiable
    /// with it, and has no empty or unit clauses and no pure literals left.
    /// Once converged, running the cascade again changes nothing.
    #[verifier::rlimit(100)]
    pub fn cascade(&mut self) -> (r: EvaluatedInstance)
        requires
            old(self).wf(),
        ensures
            final(self).wf(),
            final(self).formula() == old(self).formula(),
            final(self).size_spec() == old(self).size_spec(),
            final(self).partial_size_spec() == old(self).partial_size_spec(),
            extends(final(self).commonm(), old(self).commonm()),
            !(r is False) ==> no_units(final(self).work()) && no_pures(final(self).work()),
            !(r is False) ==> (r is True <==> final(self).work().len() == 0),
            r matches EvaluatedInstance::Undecided(cs) ==> models(cs@) == final(self).work()
                && cs@.len() > 0,
            r is True ==> formula_sat_under(final(self).commonm(), final(self).formula()),
            r is False ==> unsat(final(self).formula()),
            r is False ==> unsat(old(self).work()),
            final(self).sound(),
            final(self).complete(),
            final(self).vars_disjoint(),
            !(r is False) ==> final(self).work() == reduce_formula(
                final(self).commonm(),
                old(self).work(),
            ),
            !(r is False) ==> !some_clause_false(final(self).commonm(), old(self).work()),
            !(r is False) ==> no_empty_clauses(final(self).work()),
            r is True ==> all_clauses_sat(final(self).commonm(), old(self).work()),
            !(r is False) ==> (satisfiable(old(self).work()) <==> satisfiable(
                final(self).work(),
            )),
            no_units(old(self).work()) && no_pures(old(self).work()) ==> *final(self)
                == *old(self) && !(r is False),
    {
        let ghost init = *old(self);
        proof {
            assert forall|j: int, i: int|
                0 <= j < init.work().len() && 0 <= i < init.work()[j].1.len()
                implies !init.commonm().dom().contains(
                lit_var(#[trigger] init.work()[j].1[i]),
            ) by {}
            lemma_reduce_formula_untouched(init.commonm(), init.work());
        }
        let mut num_clauses: usize = self.partial_clauses.len();
        loop
            invariant
                init == *old(self),
                self.wf(),
                self.formula() == init.formula(),
                self.size_spec() == init.size_spec(),
                self.partial_size_spec() == init.partial_size_spec(),
                extends(self.commonm(), init.commonm()),
                self.work() == reduce_formula(self.commonm(), init.work()),
                satisfiable(init.work()) == satisfiable(self.work()),
                num_clauses == self.work().len(),
                no_units(init.work()) && no_pures(init.work()) ==> *self == init,
            ensures
                self.wf(),
                self.formula() == init.formula(),
                self.size_spec() == init.size_spec(),
                self.partial_size_spec() == init.partial_size_spec(),
                extends(self.commonm(), init.commonm()),
                self.work() == reduce_formula(self.commonm(), init.work()),
                satisfiable(init.work()) == satisfiable(self.work()),
                no_units(self.work()) && no_pures(self.work()),
                no_units(init.work()) && no_pures(init.work()) ==> *self == init,
            decreases num_clauses,
        {
            // Unit propagation, repeated until no unit clauses remain.
            loop
                invariant
                    init == *old(self),
                    self.wf(),
                    self.formula() == init.formula(),
                    self.size_spec() == init.size_spec(),
                    self.partial_size_spec() == init.partial_size_spec(),
                    extends(self.commonm(), init.commonm()),
                    self.work() == reduce_formula(self.commonm(), init.work()),
                    satisfiable(init.work()) == satisfiable(self.work()),
                    self.work().len() <= num_clauses,
                    no_units(init.work()) && no_pures(init.work()) ==> *self == init,
                ensures
                    self.wf(),
                    self.formula() == init.formula(),
                    self.size_spec() == init.size_spec(),
                    self.partial_size_spec() == init.partial_size_spec(),
                    extends(self.commonm(), init.commonm()),
                    self.work() == reduce_formula(self.commonm(), init.work()),
                    satisfiable(init.work()) == satisfiable(self.work()),
                    self.work().len() <= num_clauses,
                    no_units(init.work()) && no_pures(init.work()) ==> *self == init,
                    no_units(self.work()),
                decreases self.partial_clauses.len(),
            {
                let ghost w = self.work();
                let units = self.collect_unit_literals();
                if units.len() == 0 {
                    break;
                }
                proof {
                    assert forall|i: int| 0 <= i < units@.len()
                        implies !self.commonm().dom().contains(
                        lit_var(#[trigger] units@[i]),
                    ) by {
                        assert(is_unit_of(w, units@[i]));
                        let j0 = choose|j0: int| 0 <= j0 < w.len() && (#[trigger] w[j0]).1.len()
                            == 1 && w[j0].1[0] == units@[i];
                        assert(!self.commonm().dom().contains(lit_var(w[j0].1[0])));
                    }
                    if fold_ok(Map::<int, bool>::empty(), units@) {
                        lemma_unit_premise(w, units@, self.commonm());
                    }
                }
                let ghost pre = *self;
                let ev = self.extend_common(&units);
                match ev {
                    EvaluatedInstance::False => {
                        proof {
                            assert(w == pre.work());
                            lemma_unit_false_unsat(w, units@);
                            assert(unsat(self.work()));
                            assert forall|aa: Map<int, bool>| !#[trigger] formula_sat_under(
                                aa,
                                self.formula(),
                            ) by {
                                if formula_sat_under(aa, self.formula()) {
                                    let b = choose|b: Map<int, bool>| extends(b, self.commonm())
                                        && #[trigger] formula_sat_under(b, self.work());
                                    assert(!formula_sat_under(b, self.work()));
                                }
                            }
                            assert(unsat(self.formula()));
                            assert(unsat(init.work())) by {
                                lemma_unsat_iff(w);
                                lemma_unsat_iff(init.work());
                                assert(unsat(w));
                                assert(satisfiable(init.work()) == satisfiable(w));
                            }
                            assert(self.sound() && self.complete() && self.vars_disjoint());
                            if no_units(init.work()) && no_pures(init.work()) {
                                assert(pre == init);
                                assert(is_unit_of(init.work(), units@[0]));
                                assert(false);
                            }
                        }
                        return EvaluatedInstance::False;
                    },
                    _ => {},
                }
                proof {
                    let ghost mb = fold_lits(Map::<int, bool>::empty(), units@);
                    lemma_fold_facts(Map::<int, bool>::empty(), units@);
                    let u0 = units@[0];
                    assert(is_unit_of(w, u0));
                    let j0 = choose|j0: int| 0 <= j0 < w.len() && (#[trigger] w[j0]).1.len() == 1
                        && w[j0].1[0] == u0;
                    assert(lit_var(units@[0]) == lit_var(u0));
                    assert(seq_has_var(units@, lit_var(u0)));
                    assert(mb[lit_var(u0)] == lit_polarity(u0));
                    assert(lit_value(mb, w[j0].1[0]) is True);
                    assert(clause_sat_under(mb, w[j0].1));
                    lemma_reduce_formula_len(mb, w);
                    assert(self.work().len() < w.len());
                    lemma_extends_trans(self.commonm(), pre.commonm(), init.commonm());
                    assert forall|v: int| #[trigger] mb.dom().contains(v)
                        implies !pre.commonm().dom().contains(v) by {
                        assert(seq_has_var(units@, v));
                        let t = choose|t: int| 0 <= t < units@.len() && lit_var(
                            #[trigger] units@[t],
                        ) == v;
                        assert(!pre.commonm().dom().contains(lit_var(units@[t])));
                    }
                    lemma_reduce_formula_compose(pre.commonm(), mb, init.work());
                    assert(self.work() == reduce_formula(self.commonm(), init.work())) by {
                        assert(self.work() == reduce_formula(mb, pre.work()));
                        assert(pre.work() == reduce_formula(pre.commonm(), init.work()));
                        assert(self.commonm() == pre.commonm().union_prefer_right(mb));
                    }
                    assert(satisfiable(init.work()) == satisfiable(self.work())) by {
                        lemma_unit_step_sat(w, units@);
                        lemma_reduce_backward(mb, w);
                        assert(self.work() == reduce_formula(mb, w));
                        assert(satisfiable(init.work()) == satisfiable(w));
                    }
                    if no_units(init.work()) && no_pures(init.work()) {
                        assert(pre == init);
                        assert(is_unit_of(init.work(), u0));
                        assert(false);
                    }
                }
            }
            // Pure-literal elimination, repeated until no pure literals remain.
            loop
                invariant
                    init == *old(self),
                    self.wf(),
                    self.formula() == init.formula(),
                    self.size_spec() == init.size_spec(),
                    self.partial_size_spec() == init.partial_size_spec(),
                    extends(self.commonm(), init.commonm()),
                    self.work() == reduce_formula(self.commonm(), init.work()),
                    satisfiable(init.work()) == satisfiable(self.work()),
                    self.work().len() <= num_clauses,
                    no_units(self.work()),
                    no_units(init.work()) && no_pures(init.work()) ==> *self == init,
                ensures
                    self.wf(),
                    self.formula() == init.formula(),
                    self.size_spec() == init.size_spec(),
                    self.partial_size_spec() == init.partial_size_spec(),
                    extends(self.commonm(), init.commonm()),
                    self.work() == reduce_formula(self.commonm(), init.work()),
                    satisfiable(init.work()) == satisfiable(self.work()),
                    self.work().len() <= num_clauses,
                    no_units(self.work()),
                    no_pures(self.work()),
                    no_units(init.work()) && no_pures(init.work()) ==> *self == init,
                decreases self.partial_clauses.len(),
            {
                let ghost w = self.work();
                let pures = self.collect_pure_literals();
                if pures.len() == 0 {
                    break;
                }
                proof {
                    assert forall|i: int| 0 <= i < pures@.len()
                        implies !self.commonm().dom().contains(
                        lit_var(#[trigger] pures@[i]),
                    ) by {
                        assert(in_lits(w, pures@[i] as int));
                        let (j0, i0) = choose|j0: int, i0: int|
                            0 <= j0 < w.len() && 0 <= i0 < w[j0].1.len()
                                && #[trigger] w[j0].1[i0] == pures@[i] as int;
                        assert(!self.commonm().dom().contains(lit_var(w[j0].1[i0])));
                    }
                    assert forall|jv: int, iv: int|
                        0 <= jv < w.len() && 0 <= iv < w[jv].1.len()
                        implies valid_lit(#[trigger] w[jv].1[iv]) by {
                        assert(w[jv].1 == self.partial_clauses@[jv].cur());
                        assert(self.partial_clauses@[jv].wf());
                    }
                    if fold_ok(Map::<int, bool>::empty(), pures@) {
                        lemma_pure_premise(w, pures@, self.commonm());
                    }
                }
                let ghost pre = *self;
                let ev = self.extend_common(&pures);
                match ev {
                    EvaluatedInstance::False => {
                        proof {
                            assert(w == pre.work());
                            lemma_pure_false_unsat(w, pures@);
                            assert(unsat(self.work()));
                            assert forall|aa: Map<int, bool>| !#[trigger] formula_sat_under(
                                aa,
                                self.formula(),
                            ) by {
                                if formula_sat_under(aa, self.formula()) {
                                    let b = choose|b: Map<int, bool>| extends(b, self.commonm())
                                        && #[trigger] formula_sat_under(b, self.work());
                                    assert(!formula_sat_under(b, self.work()));
                                }
                            }
                            assert(unsat(self.formula()));
                            assert(unsat(init.work())) by {
                                lemma_unsat_iff(w);
                                lemma_unsat_iff(init.work());
                                assert(unsat(w));
                                assert(satisfiable(init.work()) == satisfiable(w));
                            }
                            assert(self.sound() && self.complete() && self.vars_disjoint());
                            if no_units(init.work()) && no_pures(init.work()) {
                                assert(pre == init);
                                assert(in_lits(init.work(), pures@[0] as int));
                                assert(!in_lits(init.work(), -(pures@[0] as int)));
                                assert(false);
                            }
                        }
                        return EvaluatedInstance::False;
                    },
                    _ => {},
                }
                proof {
                    let ghost mb = fold_lits(Map::<int, bool>::empty(), pures@);
                    assert forall|jv: int, iv: int|
                        0 <= jv < w.len() && 0 <= iv < w[jv].1.len()
                        implies valid_lit(#[trigger] w[jv].1[iv]) by {
                        assert(w[jv].1 == pre.partial_clauses@[jv].cur());
                        assert(pre.partial_clauses@[jv].wf());
                    }
                    lemma_pure_batch_progress(w, pures@);
                    assert(self.work() == reduce_formula(mb, w));
                    assert(self.work().len() < w.len());
                    lemma_extends_trans(self.commonm(), pre.commonm(), init.commonm());
                    lemma_fold_facts(Map::<int, bool>::empty(), pures@);
                    assert forall|v: int| #[trigger] mb.dom().contains(v)
                        implies !pre.commonm().dom().contains(v) by {
                        assert(seq_has_var(pures@, v));
                        let t = choose|t: int| 0 <= t < pures@.len() && lit_var(
                            #[trigger] pures@[t],
                        ) == v;
                        assert(!pre.commonm().dom().contains(lit_var(pures@[t])));
                    }
                    lemma_reduce_formula_compose(pre.commonm(), mb, init.work());
                    assert(self.work() == reduce_formula(self.commonm(), init.work())) by {
                        assert(pre.work() == reduce_formula(pre.commonm(), init.work()));
                        assert(self.commonm() == pre.commonm().union_prefer_right(mb));
                    }
                    assert(satisfiable(init.work()) == satisfiable(self.work())) by {
                        lemma_pure_step_sat(w, pures@);
                        lemma_reduce_backward(mb, w);
                        assert(satisfiable(init.work()) == satisfiable(w));
                    }
                    if no_units(init.work()) && no_pures(init.work()) {
                        assert(pre == init);
                        assert(in_lits(init.work(), pures@[0] as int));
                        assert(!in_lits(init.work(), -(pures@[0] as int)));
                        assert(false);
                    }
                }
            }
            if self.partial_clauses.len() == num_clauses {
                break;
            }
            num_clauses = self.partial_clauses.len();
        }
        proof {
            assert(self.sound() && self.complete() && self.vars_disjoint());
            assert(no_empty_clauses(self.work()));
            assert(!some_clause_false(self.commonm(), init.work())) by {
                if some_clause_false(self.commonm(), init.work()) {
                    let j0 = choose|j0: int|
                        0 <= j0 < init.work().len() && clause_false_under(
                            self.commonm(),
                            (#[trigger] init.work()[j0]).1,
                        );
                    assert(!clause_sat_under(self.commonm(), init.work()[j0].1)) by {
                        if clause_sat_under(self.commonm(), init.work()[j0].1) {
                            let i = choose|i: int|
                                0 <= i < init.work()[j0].1.len() && lit_value(
                                    self.commonm(),
                                    #[trigger] init.work()[j0].1[i],
                                ) is True;
                        }
                    }
                    lemma_reduce_formula_covers(self.commonm(), init.work(), j0);
                    let k = choose|k: int|
                        0 <= k < reduce_formula(self.commonm(), init.work()).len()
                            && #[trigger] reduce_formula(self.commonm(), init.work())[k] == (
                        init.work()[j0].0,
                        reduce_lits(self.commonm(), init.work()[j0].1),
                        );
                    assert(self.work()[k] == reduce_formula(self.commonm(), init.work())[k]);
                    assert(self.work()[k].1.len() != 0);
                    lemma_reduce_lits_membership(self.commonm(), init.work()[j0].1);
                    let l = reduce_lits(self.commonm(), init.work()[j0].1)[0];
                    let i0 = choose|i0: int|
                        0 <= i0 < init.work()[j0].1.len() && init.work()[j0].1[i0] == l;
                    assert(lit_value(self.commonm(), init.work()[j0].1[i0]) is False);
                    assert(false);
                }
            }
        }
        if self.partial_clauses.len() == 0 {
            proof {
                assert(extends(self.commonm(), self.commonm()));
                assert(self.work().len() == 0);
                assert(formula_sat_under(self.commonm(), self.work()));
                assert(formula_sat_under(self.commonm(), self.formula()));
                lemma_reduce_formula_len(self.commonm(), init.work());
                assert(all_clauses_sat(self.commonm(), init.work())) by {
                    assert(reduce_formula(self.commonm(), init.work()).len() == 0);
                }
            }
            EvaluatedInstance::True
        } else {
            let out = copy_clauses(&self.partial_clauses);
            EvaluatedInstance::Undecided(out)
        }
    }
}

/// Whether a vector of literals holds a given one.
fn contains_literal_vec(v: &Literals, x: Literal) -> (r: bool)
    ensures
        r == v@.contains(x),
{
    let n = v.len();
    let mut i: usize = 0;
    while i < n
        invariant
            i <= n,
            n == v@.len(),
            forall|t: int| 0 <= t < i ==> v@[t] != x,
        decreases n - i,
    {
        if v[i] == x {
            return true;
        }
        i = i + 1;
    }
    false
}

/// Whether a vector of variables holds a given one.
fn contains_variable_vec(v: &Vec<Variable>, x: Variable) -> (r: bool)
    ensures
        r == v@.contains(x),
{
    let n = v.len();
    let mut i: usize = 0;
    while i < n
        invariant
            i <= n,
            n == v@.len(),
            forall|t: int| 0 <= t < i ==> v@[t] != x,
        decreases n - i,
    {
        if v[i] == x {
            return true;
        }
        i = i + 1;
    }
    false
}

/// A deep copy of a clause list.
pub fn copy_clauses(cs: &Vec<Clause>) -> (r: Vec<Clause>)
    ensures
        models(r@) == models(cs@),
        r@.len() == cs@.len(),
        forall|j: int| 0 <= j < r@.len() ==> (#[trigger] r@[j]).wf() == cs@[j].wf(),
{
    let mut out: Vec<Clause> = Vec::new();
    let n = cs.len();
    let mut j: usize = 0;
    while j < n
        invariant
            j <= n,
            n == cs@.len(),
            out@.len() == j,
            models(out@) == models(cs@.take(j as int)),
            forall|t: int| 0 <= t < j ==> (#[trigger] out@[t]).wf() == cs@[t].wf(),
        decreases n - j,
    {
        let fresh = cs[j].duplicate();
        let ghost prev = out@;
        out.push(fresh);
        proof {
            assert forall|t: int| 0 <= t < out@.len()
                implies models(out@)[t] == models(cs@.take(j + 1 as int))[t] by {
                assert(cs@.take(j + 1 as int)[t] == cs@[t]);
                if t < j {
                    assert(out@[t] == prev[t]);
                    assert(models(prev)[t] == models(cs@.take(j as int))[t]);
                    assert(cs@.take(j as int)[t] == cs@[t]);
                } else {
                    assert(out@[t] == fresh);
                }
            }
            assert(models(out@) =~= models(cs@.take(j + 1 as int)));
        }
        j = j + 1;
    }
    proof {
        assert(cs@.take(n as int) =~= cs@);
        assert(models(cs@.take(n as int)) =~= models(cs@));
    }
    out
}

} // verus!
