use vstd::prelude::*;

verus! {

/// Identifier of a propositional variable: a positive integer.
pub type Variable = u32;

/// A literal: a nonzero signed integer. Its magnitude names a variable and its
/// sign gives the polarity (negative means the variable appears negated).
pub type Literal = i32;

/// A disjunction of literals, in the order the parser supplied them.
pub type Literals = Vec<Literal>;

/// Size metrics of an instance: (max clause width, variable count, clause count).
pub type InstanceSize = (usize, usize, usize);

/// The value a certificate resolves a variable or literal to. `Unassigned` is
/// a transient answer for absent variables; it is never stored.
#[derive(Debug, PartialEq, Eq, Structural, Clone, Copy)]
pub enum Assignment {
    True,
    False,
    Unassigned,
}

/// Storage of a certificate: variable/assignment pairs with pairwise distinct
/// variables and no stored `Unassigned`.
pub type Assignments = Vec<(Variable, Assignment)>;

/// A literal is meaningful when it is nonzero; `i32::MIN` is excluded so that
/// both its negation and its magnitude stay representable.
pub open spec fn valid_lit(l: Literal) -> bool {
    l != 0 && l != i32::MIN
}

/// A variable identifier is positive and small enough to be written as a
/// positive literal.
pub open spec fn valid_var(v: Variable) -> bool {
    1 <= v as int <= i32::MAX as int
}

/// The variable a literal refers to: its magnitude.
pub open spec fn lit_var(l: Literal) -> int {
    if l >= 0 {
        l as int
    } else {
        -(l as int)
    }
}

/// The polarity of a literal: `true` for a positive literal.
pub open spec fn lit_polarity(l: Literal) -> bool {
    l > 0
}

/// How a partial assignment (variable -> `true`/`false`) resolves a literal:
/// the stored value of its variable, negated for a negative literal, or
/// `Unassigned` when the variable has no entry.
pub open spec fn lit_value(m: Map<int, bool>, l: Literal) -> Assignment {
    if m.dom().contains(lit_var(l)) {
        if m[lit_var(l)] == lit_polarity(l) {
            Assignment::True
        } else {
            Assignment::False
        }
    } else {
        Assignment::Unassigned
    }
}

/// Logical negation of a tri-state value; `Unassigned` is its own negation.
pub open spec fn assign_negate(a: Assignment) -> Assignment {
    match a {
        Assignment::True => Assignment::False,
        Assignment::False => Assignment::True,
        Assignment::Unassigned => Assignment::Unassigned,
    }
}

/// The variable of a literal, as executable code computes it.
pub fn lit_variable(l: Literal) -> (v: Variable)
    requires
        valid_lit(l),
    ensures
        v as int == lit_var(l),
        valid_var(v),
{
    if l > 0 {
        l as u32
    } else {
        (-l) as u32
    }
}

/// A positive literal for a variable.
pub fn var_literal(v: Variable) -> (l: Literal)
    requires
        valid_var(v),
    ensures
        valid_lit(l),
        l as int == v as int,
        lit_var(l) == v as int,
        lit_polarity(l),
{
    v as i32
}

/// Copies a literal list.
pub fn copy_literals(v: &Literals) -> (r: Literals)
    ensures
        r@ == v@,
{
    let mut out: Literals = Vec::new();
    let n = v.len();
    let mut i: usize = 0;
    while i < n
        invariant
            i <= n,
            n == v@.len(),
            out@ == v@.take(i as int),
        decreases n - i,
    {
        out.push(v[i]);
        proof {
            assert(out@ =~= v@.take(i + 1 as int));
        }
        i = i + 1;
    }
    proof {
        assert(v@.take(n as int) =~= v@);
    }
    out
}

} // verus!
