//! Laws relating the operations, proved once over the digit model. The
//! operations' own contracts say each result is canonical and what it is
//! worth; these lemmas turn that into equalities between results.

use vstd::prelude::*;

use crate::arith::Comparison;
use crate::arith::cmp_spec;
use crate::digits::count_nonzero;
use crate::digits::is_canonical;
use crate::digits::lemma_canonical_unique;
use crate::digits::strip;
use crate::digits::to_nat;

verus! {

/// Round trip: a canonical digit sequence survives renormalization
/// unchanged, so rebuilding a value from its own digit sequence yields an
/// equal value.
pub proof fn lemma_round_trip(s: Seq<u64>)
    requires
        is_canonical(s),
    ensures
        strip(s) == s,
{
}

/// In canonical form the most-significant digit of a non-empty sequence is
/// non-zero, so every non-zero value has at least one non-zero digit.
pub proof fn lemma_nonzero_value_has_nonzero_digit(s: Seq<u64>)
    requires
        is_canonical(s),
        s.len() > 0,
    ensures
        count_nonzero(s) >= 1,
{
}

/// Addition is commutative: two canonical results worth the sum of the same
/// operands, taken in either order, are the same value.
pub proof fn lemma_add_commutes(a: Seq<u64>, b: Seq<u64>, r1: Seq<u64>, r2: Seq<u64>)
    requires
        is_canonical(r1),
        is_canonical(r2),
        to_nat(r1) == to_nat(a) + to_nat(b),
        to_nat(r2) == to_nat(b) + to_nat(a),
    ensures
        r1 == r2,
{
    lemma_canonical_unique(r1, r2);
}

/// Multiplication is commutative likewise.
pub proof fn lemma_multiply_commutes(a: Seq<u64>, b: Seq<u64>, r1: Seq<u64>, r2: Seq<u64>)
    requires
        is_canonical(r1),
        is_canonical(r2),
        to_nat(r1) == to_nat(a) * to_nat(b),
        to_nat(r2) == to_nat(b) * to_nat(a),
    ensures
        r1 == r2,
{
    assert(to_nat(a) * to_nat(b) == to_nat(b) * to_nat(a)) by (nonlinear_arith);
    lemma_canonical_unique(r1, r2);
}

/// Adding a value worth zero is the identity on canonical values.
pub proof fn lemma_add_identity(a: Seq<u64>, z: Seq<u64>, r: Seq<u64>)
    requires
        is_canonical(a),
        is_canonical(r),
        to_nat(z) == 0,
        to_nat(r) == to_nat(a) + to_nat(z),
    ensures
        r == a,
{
    lemma_canonical_unique(r, a);
}

/// Subtraction inverts addition: for `a` at least `b`, adding `b` back to
/// the difference `a - b` yields `a` again.
pub proof fn lemma_subtract_add_inverse(a: Seq<u64>, b: Seq<u64>, d: Seq<u64>, r: Seq<u64>)
    requires
        is_canonical(a),
        is_canonical(r),
        to_nat(b) <= to_nat(a),
        to_nat(d) == to_nat(a) - to_nat(b),
        to_nat(r) == to_nat(d) + to_nat(b),
    ensures
        r == a,
{
    lemma_canonical_unique(r, a);
}

/// `compare` decides a strict total order on canonical values, consistent
/// with numeric value: each outcome holds exactly when the values compare
/// that way, equality holds exactly between equal values, the order is
/// asymmetric, and it is transitive.
pub proof fn lemma_compare_strict_total_order(a: Seq<u64>, b: Seq<u64>, c: Seq<u64>)
    requires
        is_canonical(a),
        is_canonical(b),
        is_canonical(c),
    ensures
        cmp_spec(a, b) == Comparison::Less <==> to_nat(a) < to_nat(b),
        cmp_spec(a, b) == Comparison::Greater <==> to_nat(a) > to_nat(b),
        cmp_spec(a, b) == Comparison::Equal <==> a == b,
        cmp_spec(a, a) == Comparison::Equal,
        cmp_spec(a, b) == Comparison::Less <==> cmp_spec(b, a) == Comparison::Greater,
        cmp_spec(a, b) == Comparison::Less && cmp_spec(b, c) == Comparison::Less ==> cmp_spec(
            a,
            c,
        ) == Comparison::Less,
{
    if to_nat(a) == to_nat(b) {
        lemma_canonical_unique(a, b);
    }
}

} // verus!
