//! The mathematical model of a big integer: a little-endian sequence of
//! base-2^64 digits, its numeric value, and its canonical form.

use vstd::prelude::*;

verus! {

/// Each stored digit is a `u64`, so digit sequences are read in base 2^64.
pub const BASE: u128 = 0x1_0000_0000_0000_0000;

/// The digit base as a mathematical integer.
pub open spec fn base() -> nat {
    BASE as nat
}

/// `base()` raised to the power `n`: the weight of the digit at index `n`.
pub open spec fn pow_base(n: nat) -> nat
    decreases n,
{
    if n == 0 {
        1
    } else {
        base() * pow_base((n - 1) as nat)
    }
}

/// The numeric value of a little-endian digit sequence.
pub open spec fn to_nat(s: Seq<u64>) -> nat
    decreases s.len(),
{
    if s.len() == 0 {
        0
    } else {
        s[0] as nat + base() * to_nat(s.skip(1))
    }
}

/// Canonical form: the most-significant (last) digit, if any, is non-zero;
/// the empty sequence is the canonical zero.
pub open spec fn is_canonical(s: Seq<u64>) -> bool {
    s.len() == 0 || s.last() != 0
}

/// The canonical form of a digit sequence: trailing zero digits removed.
pub open spec fn strip(s: Seq<u64>) -> Seq<u64>
    decreases s.len(),
{
    if s.len() > 0 && s.last() == 0 {
        strip(s.drop_last())
    } else {
        s
    }
}

/// How many digits of the sequence are non-zero.
pub open spec fn count_nonzero(s: Seq<u64>) -> nat
    decreases s.len(),
{
    if s.len() == 0 {
        0
    } else {
        count_nonzero(s.drop_last()) + (if s.last() != 0 { 1nat } else { 0nat })
    }
}

/// The first `i` digits of a sequence, the whole sequence when it is shorter.
pub open spec fn takep(s: Seq<u64>, i: int) -> Seq<u64> {
    if i <= s.len() {
        s.take(i)
    } else {
        s
    }
}

/// The digit at index `i`, reading zero beyond the stored length.
pub open spec fn digit_at(s: Seq<u64>, i: int) -> u64 {
    if 0 <= i < s.len() {
        s[i]
    } else {
        0
    }
}

/// A product with a zero factor is zero.
pub proof fn lemma_mul_zero(a: nat, b: nat)
    by (nonlinear_arith)
    requires
        a == 0 || b == 0,
    ensures
        a * b == 0,
{
}

/// A one-digit sequence is worth its digit.
pub proof fn lemma_to_nat_singleton(d: u64)
    ensures
        to_nat(seq![d]) == d,
{
    let s = seq![d];
    assert(s.len() == 1);
    assert(s.skip(1) =~= Seq::<u64>::empty());
    assert(to_nat(Seq::<u64>::empty()) == 0);
    assert(to_nat(s) == s[0] as nat + base() * to_nat(s.skip(1)));
    assert(s[0] == d);
}

/// Every power of the base is positive.
proof fn lemma_pow_base_pos(n: nat)
    ensures
        pow_base(n) >= 1,
    decreases n,
{
    if n > 0 {
        lemma_pow_base_pos((n - 1) as nat);
        assert(base() * pow_base((n - 1) as nat) >= pow_base((n - 1) as nat))
            by (nonlinear_arith)
            requires
                pow_base((n - 1) as nat) >= 0,
        ;
    }
}

/// Powers of the base multiply when exponents add.
pub proof fn lemma_pow_base_add(m: nat, n: nat)
    ensures
        pow_base(m + n) == pow_base(m) * pow_base(n),
    decreases m,
{
    if m == 0 {
        assert(pow_base(n) == 1 * pow_base(n)) by (nonlinear_arith);
    } else {
        lemma_pow_base_add((m - 1) as nat, n);
        assert((m + n - 1) as nat == (m - 1) as nat + n);
        assert(base() * ((pow_base((m - 1) as nat)) * pow_base(n))
            == (base() * pow_base((m - 1) as nat)) * pow_base(n)) by (nonlinear_arith);
    }
}

/// Powers of the base never decrease as the exponent grows.
pub proof fn lemma_pow_base_increases(m: nat, n: nat)
    requires
        m <= n,
    ensures
        pow_base(m) <= pow_base(n),
    decreases n,
{
    if m < n {
        lemma_pow_base_increases(m, (n - 1) as nat);
        assert(base() * pow_base((n - 1) as nat) >= pow_base((n - 1) as nat))
            by (nonlinear_arith)
            requires
                pow_base((n - 1) as nat) >= 0,
        ;
    }
}

/// Positional split: the value of a sequence is the value of its first `i`
/// digits plus `pow_base(i)` times the value of the rest.
pub proof fn lemma_to_nat_split(s: Seq<u64>, i: int)
    requires
        0 <= i <= s.len(),
    ensures
        to_nat(s) == to_nat(s.take(i)) + pow_base(i as nat) * to_nat(s.skip(i)),
    decreases i,
{
    if i == 0 {
        assert(s.take(0) =~= Seq::<u64>::empty());
        assert(s.skip(0) =~= s);
        assert(to_nat(s) == to_nat(s.take(0)) + 1 * to_nat(s.skip(0))) by (nonlinear_arith)
            requires
                to_nat(s.take(0)) == 0,
                to_nat(s.skip(0)) == to_nat(s),
        ;
    } else {
        let t = s.skip(1);
        lemma_to_nat_split(t, i - 1);
        assert(t.skip(i - 1) =~= s.skip(i));
        assert(s.take(i).skip(1) =~= t.take(i - 1));
        assert(s.take(i)[0] == s[0]);
        assert(to_nat(s.take(i)) == s[0] as nat + base() * to_nat(t.take(i - 1)));
        assert(base() * (to_nat(t.take(i - 1)) + pow_base((i - 1) as nat) * to_nat(s.skip(i)))
            == base() * to_nat(t.take(i - 1))
                + (base() * pow_base((i - 1) as nat)) * to_nat(s.skip(i))) by (nonlinear_arith);
        assert(pow_base(i as nat) == base() * pow_base((i - 1) as nat));
    }
}

/// Taking one more digit adds that digit at its positional weight.
pub proof fn lemma_to_nat_take_succ(s: Seq<u64>, i: int)
    requires
        0 <= i < s.len(),
    ensures
        to_nat(s.take(i + 1)) == to_nat(s.take(i)) + pow_base(i as nat) * s[i],
{
    let u = s.take(i + 1);
    lemma_to_nat_split(u, i);
    assert(u.take(i) =~= s.take(i));
    assert(u.skip(i) =~= seq![s[i]]);
    lemma_to_nat_singleton(s[i]);
}

/// The clamped-prefix analogue of `lemma_to_nat_take_succ`: one more digit
/// adds `digit_at` at its positional weight, also past the stored length.
pub proof fn lemma_takep_succ(s: Seq<u64>, i: int)
    requires
        0 <= i,
    ensures
        to_nat(takep(s, i + 1)) == to_nat(takep(s, i)) + pow_base(i as nat) * digit_at(s, i),
{
    if i < s.len() {
        lemma_to_nat_take_succ(s, i);
    } else {
        if i == s.len() {
            assert(s.take(i) =~= s);
        }
        assert(pow_base(i as nat) * 0 == 0) by (nonlinear_arith);
    }
}

/// Appending a digit adds it at the weight of the old length.
pub proof fn lemma_to_nat_push(s: Seq<u64>, d: u64)
    ensures
        to_nat(s.push(d)) == to_nat(s) + pow_base(s.len()) * d,
{
    let u = s.push(d);
    lemma_to_nat_take_succ(u, s.len() as int);
    assert(u.take(s.len() as int) =~= s);
    assert(u.take(s.len() as int + 1) =~= u);
}

/// A sequence of `n` digits is worth less than `pow_base(n)`.
pub proof fn lemma_to_nat_bound(s: Seq<u64>)
    ensures
        to_nat(s) < pow_base(s.len()),
    decreases s.len(),
{
    if s.len() == 0 {
    } else {
        let t = s.skip(1);
        lemma_to_nat_bound(t);
        assert(base() * to_nat(t) + base() <= base() * pow_base(t.len()))
            by (nonlinear_arith)
            requires
                to_nat(t) < pow_base(t.len()),
        ;
        assert(pow_base(s.len()) == base() * pow_base(t.len()));
    }
}

/// A non-zero canonical sequence is worth at least the weight of its
/// most-significant digit's position.
pub proof fn lemma_canonical_lower_bound(s: Seq<u64>)
    requires
        is_canonical(s),
        s.len() > 0,
    ensures
        to_nat(s) >= pow_base((s.len() - 1) as nat),
{
    let i = s.len() - 1;
    lemma_to_nat_split(s, i as int);
    assert(s.skip(i as int) =~= seq![s.last()]);
    lemma_to_nat_singleton(s.last());
    assert(pow_base(i as nat) * to_nat(s.skip(i as int)) >= pow_base(i as nat))
        by (nonlinear_arith)
        requires
            to_nat(s.skip(i as int)) >= 1,
            pow_base(i as nat) >= 0,
    ;
}

/// A digit and a quotient are determined by their base-weighted sum.
proof fn lemma_digit_decompose_unique(x1: nat, y1: nat, x2: nat, y2: nat)
    by (nonlinear_arith)
    requires
        x1 < base(),
        x2 < base(),
        x1 + base() * y1 == x2 + base() * y2,
    ensures
        x1 == x2,
        y1 == y2,
{
}

/// Canonical representations are unique: two canonical digit sequences with
/// the same numeric value are the same sequence.
pub proof fn lemma_canonical_unique(s1: Seq<u64>, s2: Seq<u64>)
    requires
        is_canonical(s1),
        is_canonical(s2),
        to_nat(s1) == to_nat(s2),
    ensures
        s1 == s2,
    decreases s1.len(),
{
    if s1.len() == 0 {
        if s2.len() > 0 {
            lemma_canonical_lower_bound(s2);
            lemma_pow_base_pos((s2.len() - 1) as nat);
        }
        assert(s1 =~= s2);
    } else if s2.len() == 0 {
        lemma_canonical_lower_bound(s1);
        lemma_pow_base_pos((s1.len() - 1) as nat);
    } else {
        let t1 = s1.skip(1);
        let t2 = s2.skip(1);
        lemma_digit_decompose_unique(s1[0] as nat, to_nat(t1), s2[0] as nat, to_nat(t2));
        if s1.len() > 1 {
            assert(t1.last() == s1.last());
        }
        if s2.len() > 1 {
            assert(t2.last() == s2.last());
        }
        lemma_canonical_unique(t1, t2);
        assert forall|i: int| 0 <= i < s1.len() implies s1[i] == s2[i] by {
            if i > 0 {
                assert(t1[i - 1] == s1[i]);
                assert(t2[i - 1] == s2[i]);
            }
        }
        assert(s1 =~= s2);
    }
}

/// Dropping a most-significant zero digit keeps the value.
proof fn lemma_to_nat_drop_last_zero(s: Seq<u64>)
    requires
        s.len() > 0,
        s.last() == 0,
    ensures
        to_nat(s.drop_last()) == to_nat(s),
{
    lemma_to_nat_take_succ(s, s.len() - 1);
    assert(s.take(s.len() as int) =~= s);
    assert(s.take(s.len() - 1) =~= s.drop_last());
}

/// Stripping trailing zeros yields the canonical form of the same value,
/// and never lengthens the sequence.
pub proof fn lemma_strip_properties(s: Seq<u64>)
    ensures
        is_canonical(strip(s)),
        to_nat(strip(s)) == to_nat(s),
        strip(s).len() <= s.len(),
    decreases s.len(),
{
    if s.len() > 0 && s.last() == 0 {
        lemma_to_nat_drop_last_zero(s);
        lemma_strip_properties(s.drop_last());
    }
}

} // verus!
