//! The `BigInt` value type: construction, normalization and digit
//! inspection.

use vstd::prelude::*;

use crate::digits::count_nonzero;
use crate::digits::is_canonical;
use crate::digits::lemma_strip_properties;
use crate::digits::lemma_to_nat_singleton;
use crate::digits::strip;
use crate::digits::to_nat;

verus! {

/// Failures of digit inspection and subtraction.
#[derive(Clone, Copy, PartialEq, Eq, Structural, Debug)]
pub enum BigIntError {
    /// A digit extremum was asked of the zero value, which stores no digits.
    EmptySequence,
    /// Subtraction was asked for a minuend smaller than the subtrahend.
    NegativeResult,
}

/// An arbitrary-precision non-negative integer: little-endian base-2^64
/// digits with no trailing zero digit (the empty sequence is zero). Values
/// are immutable once constructed; operations return new values.
#[derive(Clone, Debug)]
pub struct BigInt {
    pub data: Vec<u64>,
}

impl View for BigInt {
    type V = Seq<u64>;

    open spec fn view(&self) -> Seq<u64> {
        self.data@
    }
}

impl BigInt {
    /// The representation invariant: the stored digits are in canonical form.
    pub open spec fn well_formed(&self) -> bool {
        is_canonical(self@)
    }

    /// The canonical value of a single machine word: zero stores no digits,
    /// anything else stores exactly one.
    pub fn new(x: u64) -> (r: Self)
        ensures
            r.well_formed(),
            r@ == (if x == 0 { Seq::<u64>::empty() } else { seq![x] }),
            to_nat(r@) == x as nat,
    {
        if x == 0 {
            let v: Vec<u64> = Vec::new();
            BigInt { data: v }
        } else {
            let mut v: Vec<u64> = Vec::new();
            v.push(x);
            proof {
                assert(v@ =~= seq![x]);
                lemma_to_nat_singleton(x);
            }
            BigInt { data: v }
        }
    }

    /// Whether the stored sequence is in canonical form. True for every
    /// properly constructed value; meant for tests and assertions.
    pub fn test_invariant(&self) -> (r: bool)
        ensures
            r == is_canonical(self@),
    {
        if self.data.len() == 0 {
            true
        } else {
            self.data[self.data.len() - 1] != 0
        }
    }

    /// Builds the canonical value of an arbitrary little-endian digit
    /// sequence by stripping its trailing zero digits. This is the single
    /// normalization boundary all other constructors reduce to.
    pub fn from_vec(v: Vec<u64>) -> (r: Self)
        ensures
            r.well_formed(),
            r@ == strip(v@),
            to_nat(r@) == to_nat(v@),
    {
        let ghost orig = v@;
        let mut w = v;
        while w.len() > 0 && w[w.len() - 1] == 0
            invariant
                strip(w@) == strip(orig),
            decreases w.len(),
        {
            w.pop();
        }
        proof {
            lemma_strip_properties(orig);
        }
        BigInt { data: w }
    }

    /// The number of stored digits; zero for the zero value.
    pub fn number_of_digits(&self) -> (r: usize)
        ensures
            r == self@.len(),
    {
        self.data.len()
    }

    /// How many stored digits are non-zero.
    pub fn number_of_non_zero_digits(&self) -> (r: u64)
        ensures
            r == count_nonzero(self@),
    {
        let mut sum: u64 = 0;
        let mut i: usize = 0;
        while i < self.data.len()
            invariant
                i <= self@.len(),
                sum <= i,
                sum == count_nonzero(self@.take(i as int)),
            decreases self@.len() - i,
        {
            proof {
                assert(self@.take(i as int + 1).drop_last() =~= self@.take(i as int));
                assert(self@.take(i as int + 1).last() == self@[i as int]);
            }
            if self.data[i] != 0 {
                sum = sum + 1;
            }
            i = i + 1;
        }
        proof {
            assert(self@.take(self@.len() as int) =~= self@);
        }
        sum
    }

    /// The minimum stored digit, or `EmptySequence` for the zero value.
    pub fn smallest_digit(&self) -> (r: Result<u64, BigIntError>)
        ensures
            self@.len() == 0 ==> r == Err::<u64, BigIntError>(BigIntError::EmptySequence),
            self@.len() > 0 ==> (r matches Ok(m) && self@.contains(m) && forall|k: int|
                0 <= k < self@.len() ==> m <= self@[k]),
    {
        if self.data.len() == 0 {
            return Err(BigIntError::EmptySequence);
        }
        let mut smallest: u64 = self.data[0];
        let mut i: usize = 1;
        while i < self.data.len()
            invariant
                1 <= i <= self@.len(),
                exists|k: int| 0 <= k < i && self@[k] == smallest,
                forall|k: int| 0 <= k < i ==> smallest <= self@[k],
            decreases self@.len() - i,
        {
            if self.data[i] < smallest {
                smallest = self.data[i];
            }
            i = i + 1;
        }
        Ok(smallest)
    }

    /// The maximum stored digit, or `EmptySequence` for the zero value.
    pub fn biggest_digit(&self) -> (r: Result<u64, BigIntError>)
        ensures
            self@.len() == 0 ==> r == Err::<u64, BigIntError>(BigIntError::EmptySequence),
            self@.len() > 0 ==> (r matches Ok(m) && self@.contains(m) && forall|k: int|
                0 <= k < self@.len() ==> self@[k] <= m),
    {
        if self.data.len() == 0 {
            return Err(BigIntError::EmptySequence);
        }
        let mut biggest: u64 = self.data[0];
        let mut i: usize = 1;
        while i < self.data.len()
            invariant
                1 <= i <= self@.len(),
                exists|k: int| 0 <= k < i && self@[k] == biggest,
                forall|k: int| 0 <= k < i ==> self@[k] <= biggest,
            decreases self@.len() - i,
        {
            if self.data[i] > biggest {
                biggest = self.data[i];
            }
            i = i + 1;
        }
        Ok(biggest)
    }

    /// The stored digit sequence, least-significant digit first, as a fresh
    /// vector; feeding it back to `from_vec` rebuilds an equal value.
    pub fn to_digits(&self) -> (r: Vec<u64>)
        ensures
            r@ == self@,
    {
        let mut out: Vec<u64> = Vec::new();
        let mut i: usize = 0;
        while i < self.data.len()
            invariant
                i <= self@.len(),
                out@ == self@.take(i as int),
            decreases self@.len() - i,
        {
            proof {
                assert(self@.take(i as int + 1) =~= self@.take(i as int).push(self@[i as int]));
            }
            out.push(self.data[i]);
            i = i + 1;
        }
        proof {
            assert(self@.take(self@.len() as int) =~= self@);
        }
        out
    }
}

} // verus!
