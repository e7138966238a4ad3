//! Schoolbook arithmetic on `BigInt`: comparison, addition, subtraction and
//! multiplication, each proved against the numeric value of the digits.

use vstd::prelude::*;

use crate::bigint::BigInt;
use crate::bigint::BigIntError;
use crate::digits::BASE;
use crate::digits::base;
use crate::digits::digit_at;
use crate::digits::is_canonical;
use crate::digits::lemma_canonical_lower_bound;
use crate::digits::lemma_mul_zero;
use crate::digits::lemma_pow_base_add;
use crate::digits::lemma_pow_base_increases;
use crate::digits::lemma_takep_succ;
use crate::digits::lemma_to_nat_bound;
use crate::digits::lemma_to_nat_push;
use crate::digits::lemma_to_nat_split;
use crate::digits::lemma_to_nat_take_succ;
use crate::digits::pow_base;
use crate::digits::takep;
use crate::digits::to_nat;

verus! {

/// The outcome of comparing two big integers by numeric value.
#[derive(Clone, Copy, PartialEq, Eq, Structural, Debug)]
pub enum Comparison {
    Less,
    Equal,
    Greater,
}

/// The comparison outcome dictated by the numeric values of two digit
/// sequences.
pub open spec fn cmp_spec(a: Seq<u64>, b: Seq<u64>) -> Comparison {
    if to_nat(a) < to_nat(b) {
        Comparison::Less
    } else if to_nat(a) == to_nat(b) {
        Comparison::Equal
    } else {
        Comparison::Greater
    }
}

/// Of two canonical sequences, the one with fewer digits is numerically
/// smaller.
proof fn lemma_shorter_canonical_lt(a: Seq<u64>, b: Seq<u64>)
    requires
        is_canonical(a),
        is_canonical(b),
        a.len() < b.len(),
    ensures
        to_nat(a) < to_nat(b),
{
    lemma_to_nat_bound(a);
    lemma_pow_base_increases(a.len(), (b.len() - 1) as nat);
    lemma_canonical_lower_bound(b);
}

/// Equal-length sequences compare by their highest differing digit.
proof fn lemma_lex_lt(a: Seq<u64>, b: Seq<u64>, j: int)
    requires
        a.len() == b.len(),
        0 <= j < a.len(),
        a[j] < b[j],
        forall|k: int| j < k < a.len() ==> a[k] == b[k],
    ensures
        to_nat(a) < to_nat(b),
{
    lemma_to_nat_split(a, j + 1);
    lemma_to_nat_split(b, j + 1);
    assert(a.skip(j + 1) =~= b.skip(j + 1));
    lemma_to_nat_take_succ(a, j);
    lemma_to_nat_take_succ(b, j);
    lemma_to_nat_bound(a.take(j));
    assert(pow_base(j as nat) + pow_base(j as nat) * a[j] <= pow_base(j as nat) * b[j])
        by (nonlinear_arith)
        requires
            a[j] < b[j],
            pow_base(j as nat) >= 0,
    ;
}

/// One column of carry propagation, lifted to the positional weight `p`.
proof fn lemma_add_step(p: nat, d: nat, c: nat, xd: nat, yd: nat, carry: nat)
    by (nonlinear_arith)
    requires
        d + base() * c == xd + yd + carry,
    ensures
        p * d + (base() * p) * c == p * xd + p * yd + p * carry,
{
}

/// Schoolbook addition of two digit sequences; the result is not
/// necessarily canonical.
fn raw_add(x: &Vec<u64>, y: &Vec<u64>) -> (r: Vec<u64>)
    ensures
        to_nat(r@) == to_nat(x@) + to_nat(y@),
{
    let n = if x.len() >= y.len() {
        x.len()
    } else {
        y.len()
    };
    let mut out: Vec<u64> = Vec::new();
    let mut carry: u64 = 0;
    let mut i: usize = 0;
    while i < n
        invariant
            i <= n,
            x@.len() <= n,
            y@.len() <= n,
            carry <= 1,
            out@.len() == i,
            to_nat(out@) + pow_base(i as nat) * carry == to_nat(takep(x@, i as int)) + to_nat(
                takep(y@, i as int),
            ),
        decreases n - i,
    {
        let xd: u64 = if i < x.len() {
            x[i]
        } else {
            0
        };
        let yd: u64 = if i < y.len() {
            y[i]
        } else {
            0
        };
        let sum: u128 = xd as u128 + yd as u128 + carry as u128;
        let d: u64 = (sum % BASE) as u64;
        let c: u64 = (sum / BASE) as u64;
        proof {
            lemma_to_nat_push(out@, d);
            lemma_takep_succ(x@, i as int);
            lemma_takep_succ(y@, i as int);
            assert(xd == digit_at(x@, i as int));
            assert(yd == digit_at(y@, i as int));
            vstd::arithmetic::div_mod::lemma_fundamental_div_mod(sum as int, BASE as int);
            assert(d as nat + base() * (c as nat) == xd as nat + yd as nat + carry as nat);
            lemma_add_step(
                pow_base(i as nat),
                d as nat,
                c as nat,
                xd as nat,
                yd as nat,
                carry as nat,
            );
        }
        out.push(d);
        carry = c;
        i = i + 1;
    }
    proof {
        assert(takep(x@, n as int) =~= x@);
        assert(takep(y@, n as int) =~= y@);
    }
    if carry > 0 {
        proof {
            lemma_to_nat_push(out@, carry);
        }
        out.push(carry);
    } else {
        proof {
            lemma_mul_zero(pow_base(n as nat), carry as nat);
        }
    }
    out
}

/// One column of borrow propagation, lifted to the positional weight `p`.
proof fn lemma_sub_step(p: nat, d: nat, b2: nat, xd: nat, yd: nat, borrow: nat)
    by (nonlinear_arith)
    requires
        d + yd + borrow == xd + base() * b2,
    ensures
        p * d + p * yd + p * borrow == p * xd + (base() * p) * b2,
{
}

/// Schoolbook subtraction of digit sequences; the minuend must dominate.
fn raw_sub(x: &Vec<u64>, y: &Vec<u64>) -> (r: Vec<u64>)
    requires
        y@.len() <= x@.len(),
        to_nat(y@) <= to_nat(x@),
    ensures
        to_nat(r@) == to_nat(x@) - to_nat(y@),
{
    let mut out: Vec<u64> = Vec::new();
    let mut borrow: u64 = 0;
    let mut i: usize = 0;
    while i < x.len()
        invariant
            i <= x@.len(),
            y@.len() <= x@.len(),
            borrow <= 1,
            out@.len() == i,
            to_nat(out@) + to_nat(takep(y@, i as int)) == to_nat(x@.take(i as int)) + pow_base(
                i as nat,
            ) * borrow,
        decreases x@.len() - i,
    {
        let xd: u64 = x[i];
        let yd: u64 = if i < y.len() {
            y[i]
        } else {
            0
        };
        let diff: u128 = BASE + xd as u128 - yd as u128 - borrow as u128;
        let d: u64 = (diff % BASE) as u64;
        let b2: u64 = if diff < BASE {
            1
        } else {
            0
        };
        proof {
            lemma_to_nat_push(out@, d);
            lemma_to_nat_take_succ(x@, i as int);
            lemma_takep_succ(y@, i as int);
            assert(yd == digit_at(y@, i as int));
            vstd::arithmetic::div_mod::lemma_fundamental_div_mod(diff as int, BASE as int);
            assert(d as nat + yd as nat + borrow as nat == xd as nat + base() * (b2 as nat));
            lemma_sub_step(
                pow_base(i as nat),
                d as nat,
                b2 as nat,
                xd as nat,
                yd as nat,
                borrow as nat,
            );
        }
        out.push(d);
        borrow = b2;
        i = i + 1;
    }
    proof {
        assert(x@.take(x@.len() as int) =~= x@);
        assert(takep(y@, x@.len() as int) =~= y@);
        if borrow == 1 {
            lemma_to_nat_bound(out@);
            assert(false);
        }
    }
    out
}

/// One column of single-digit multiplication, lifted to the weight `p`.
proof fn lemma_mul_digit_step(p: nat, t: nat, xd: nat, d: nat, dig: nat, c1: nat, c2: nat)
    by (nonlinear_arith)
    requires
        dig + base() * c2 == xd * d + c1,
    ensures
        t * d + p * dig + (base() * p) * c2 == (t + p * xd) * d + p * c1,
{
}

/// Multiplies a digit sequence by a single digit.
fn mul_digit(x: &Vec<u64>, d: u64) -> (r: Vec<u64>)
    ensures
        to_nat(r@) == to_nat(x@) * d,
{
    let mut out: Vec<u64> = Vec::new();
    let mut carry: u64 = 0;
    let mut i: usize = 0;
    proof {
        assert(x@.take(0) =~= Seq::<u64>::empty());
        lemma_mul_zero(to_nat(x@.take(0)), d as nat);
    }
    while i < x.len()
        invariant
            i <= x@.len(),
            out@.len() == i,
            to_nat(out@) + pow_base(i as nat) * carry == to_nat(x@.take(i as int)) * d,
        decreases x@.len() - i,
    {
        let xd: u64 = x[i];
        proof {
            assert((xd as u128) * (d as u128) <= (BASE - 1) * (BASE - 1)) by (nonlinear_arith)
                requires
                    xd as u128 <= BASE - 1,
                    d as u128 <= BASE - 1,
            ;
        }
        let prod: u128 = xd as u128 * d as u128 + carry as u128;
        let dig: u64 = (prod % BASE) as u64;
        let c2: u64 = (prod / BASE) as u64;
        proof {
            lemma_to_nat_push(out@, dig);
            lemma_to_nat_take_succ(x@, i as int);
            vstd::arithmetic::div_mod::lemma_fundamental_div_mod(prod as int, BASE as int);
            assert(dig as nat + base() * (c2 as nat) == (xd as nat) * (d as nat) + carry as nat);
            lemma_mul_digit_step(
                pow_base(i as nat),
                to_nat(x@.take(i as int)),
                xd as nat,
                d as nat,
                dig as nat,
                carry as nat,
                c2 as nat,
            );
        }
        out.push(dig);
        carry = c2;
        i = i + 1;
    }
    proof {
        assert(x@.take(x@.len() as int) =~= x@);
        lemma_to_nat_push(out@, carry);
    }
    out.push(carry);
    out
}

/// Lifting a digit's positional weight across a shift.
proof fn lemma_shift_step(pk: nat, pj: nat, t: nat, xd: nat)
    by (nonlinear_arith)
    ensures
        pk * (t + pj * xd) == pk * t + (pk * pj) * xd,
{
}

/// Prepends `k` zero digits, scaling the value by `pow_base(k)`.
fn shift_up(x: &Vec<u64>, k: usize) -> (r: Vec<u64>)
    ensures
        to_nat(r@) == pow_base(k as nat) * to_nat(x@),
{
    let mut out: Vec<u64> = Vec::new();
    let mut i: usize = 0;
    while i < k
        invariant
            i <= k,
            out@.len() == i,
            to_nat(out@) == 0,
        decreases k - i,
    {
        proof {
            lemma_to_nat_push(out@, 0);
        }
        out.push(0);
        i = i + 1;
    }
    let mut j: usize = 0;
    proof {
        assert(x@.take(0) =~= Seq::<u64>::empty());
        lemma_mul_zero(pow_base(k as nat), to_nat(x@.take(0)));
    }
    while j < x.len()
        invariant
            j <= x@.len(),
            out@.len() == k + j,
            to_nat(out@) == pow_base(k as nat) * to_nat(x@.take(j as int)),
        decreases x@.len() - j,
    {
        proof {
            lemma_to_nat_push(out@, x@[j as int]);
            lemma_to_nat_take_succ(x@, j as int);
            lemma_pow_base_add(k as nat, j as nat);
            lemma_shift_step(
                pow_base(k as nat),
                pow_base(j as nat),
                to_nat(x@.take(j as int)),
                x@[j as int] as nat,
            );
        }
        out.push(x[j]);
        j = j + 1;
    }
    proof {
        assert(x@.take(x@.len() as int) =~= x@);
    }
    out
}

/// The distributivity step of long multiplication.
proof fn lemma_mul_row_step(a: nat, t: nat, p: nat, bd: nat)
    by (nonlinear_arith)
    ensures
        a * (t + p * bd) == a * t + p * (a * bd),
{
}

impl BigInt {
    /// Compares two values numerically: a longer canonical sequence is
    /// greater, equal-length sequences compare from the most-significant
    /// digit down.
    pub fn compare(&self, other: &BigInt) -> (r: Comparison)
        requires
            self.well_formed(),
            other.well_formed(),
        ensures
            r == cmp_spec(self@, other@),
            r == Comparison::Less <==> to_nat(self@) < to_nat(other@),
            r == Comparison::Equal <==> to_nat(self@) == to_nat(other@),
            r == Comparison::Greater <==> to_nat(self@) > to_nat(other@),
    {
        if self.data.len() < other.data.len() {
            proof {
                lemma_shorter_canonical_lt(self@, other@);
            }
            return Comparison::Less;
        }
        if self.data.len() > other.data.len() {
            proof {
                lemma_shorter_canonical_lt(other@, self@);
            }
            return Comparison::Greater;
        }
        let mut j = self.data.len();
        while j > 0
            invariant
                j <= self@.len(),
                self@.len() == other@.len(),
                forall|k: int| j <= k < self@.len() ==> self@[k] == other@[k],
            decreases j,
        {
            j = j - 1;
            if self.data[j] < other.data[j] {
                proof {
                    lemma_lex_lt(self@, other@, j as int);
                }
                return Comparison::Less;
            }
            if self.data[j] > other.data[j] {
                proof {
                    lemma_lex_lt(other@, self@, j as int);
                }
                return Comparison::Greater;
            }
        }
        proof {
            assert(self@ =~= other@);
        }
        Comparison::Equal
    }

    /// Addition: the result is canonical and worth the sum of the operands.
    pub fn add(&self, other: &BigInt) -> (r: BigInt)
        ensures
            r.well_formed(),
            to_nat(r@) == to_nat(self@) + to_nat(other@),
    {
        let s = raw_add(&self.data, &other.data);
        BigInt::from_vec(s)
    }

    /// Subtraction: returns the canonical difference when the minuend is at
    /// least the subtrahend, and fails with `NegativeResult` exactly when it
    /// is smaller. No wraparound is possible.
    pub fn subtract(&self, other: &BigInt) -> (r: Result<BigInt, BigIntError>)
        requires
            self.well_formed(),
            other.well_formed(),
        ensures
            to_nat(other@) <= to_nat(self@) <==> r is Ok,
            r matches Ok(d) ==> d.well_formed() && to_nat(d@) == to_nat(self@) - to_nat(other@),
            to_nat(self@) < to_nat(other@) ==> r == Err::<BigInt, BigIntError>(
                BigIntError::NegativeResult,
            ),
    {
        let c = self.compare(other);
        if c == Comparison::Less {
            return Err(BigIntError::NegativeResult);
        }
        proof {
            if other@.len() > self@.len() {
                lemma_shorter_canonical_lt(self@, other@);
            }
        }
        let diff = raw_sub(&self.data, &other.data);
        Ok(BigInt::from_vec(diff))
    }

    /// Multiplication: the result is canonical and worth the product of the
    /// operands.
    pub fn multiply(&self, other: &BigInt) -> (r: BigInt)
        ensures
            r.well_formed(),
            to_nat(r@) == to_nat(self@) * to_nat(other@),
    {
        let mut acc: Vec<u64> = Vec::new();
        let mut i: usize = 0;
        proof {
            assert(other@.take(0) =~= Seq::<u64>::empty());
            lemma_mul_zero(to_nat(self@), to_nat(other@.take(0)));
        }
        while i < other.data.len()
            invariant
                i <= other@.len(),
                to_nat(acc@) == to_nat(self@) * to_nat(other@.take(i as int)),
            decreases other@.len() - i,
        {
            let row = mul_digit(&self.data, other.data[i]);
            let shifted = shift_up(&row, i);
            let next = raw_add(&acc, &shifted);
            proof {
                lemma_to_nat_take_succ(other@, i as int);
                lemma_mul_row_step(
                    to_nat(self@),
                    to_nat(other@.take(i as int)),
                    pow_base(i as nat),
                    other@[i as int] as nat,
                );
            }
            acc = next;
            i = i + 1;
        }
        proof {
            assert(other@.take(other@.len() as int) =~= other@);
        }
        BigInt::from_vec(acc)
    }
}

} // verus!
