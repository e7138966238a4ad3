//! Base-10 rendering of a `BigInt`: repeated division by ten over the digit
//! sequence, emitting remainders most-significant-first, with `"0"` for the
//! zero value.

use vstd::prelude::*;

use crate::bigint::BigInt;
use crate::digits::BASE;
use crate::digits::is_canonical;
use crate::digits::lemma_canonical_lower_bound;
use crate::digits::to_nat;

verus! {

/// The ASCII bytes of the decimal numeral of `n`, most-significant first,
/// with no leading zeros (`0` itself is the single byte `"0"`).
pub open spec fn dec_bytes(n: nat) -> Seq<u8>
    decreases n,
{
    if n < 10 {
        seq![(0x30 + n) as u8]
    } else {
        dec_bytes(n / 10).push((0x30 + n % 10) as u8)
    }
}

/// The decimal numeral of `n` as characters.
pub open spec fn dec_chars(n: nat) -> Seq<char> {
    dec_bytes(n).map_values(|b: u8| b as char)
}

/// Relies on `String::from_utf8`: a vector of ASCII bytes decodes to the
/// string of exactly those characters.
#[verifier::external_body]
fn ascii_to_string(bytes: Vec<u8>) -> (r: String)
    requires
        forall|k: int| 0 <= k < bytes@.len() ==> bytes@[k] < 0x80,
    ensures
        r@ == bytes@.map_values(|b: u8| b as char),
{
    match String::from_utf8(bytes) {
        Ok(s) => s,
        Err(_) => String::new(),
    }
}

/// Long division of a digit sequence by ten, most-significant digit first:
/// returns the quotient digits (same length, possibly with a trailing zero)
/// and the remainder.
fn div_rem_ten(x: &Vec<u64>) -> (res: (Vec<u64>, u64))
    ensures
        res.0@.len() == x@.len(),
        to_nat(res.0@) == to_nat(x@) / 10,
        res.1 == to_nat(x@) % 10,
{
    let mut q: Vec<u64> = Vec::new();
    let mut j: usize = 0;
    while j < x.len()
        invariant
            j <= x@.len(),
            q@.len() == j,
        decreases x@.len() - j,
    {
        q.push(0);
        j = j + 1;
    }
    let mut rem: u64 = 0;
    let mut i: usize = x.len();
    proof {
        assert(x@.skip(x@.len() as int) =~= Seq::<u64>::empty());
        assert(q@.skip(x@.len() as int) =~= Seq::<u64>::empty());
    }
    while i > 0
        invariant
            i <= x@.len(),
            q@.len() == x@.len(),
            rem < 10,
            to_nat(x@.skip(i as int)) == 10 * to_nat(q@.skip(i as int)) + rem,
        decreases i,
    {
        i = i - 1;
        let cur: u128 = rem as u128 * BASE + x[i] as u128;
        let qd: u64 = (cur / 10) as u64;
        let r2: u64 = (cur % 10) as u64;
        let ghost qold = q@;
        q[i] = qd;
        proof {
            vstd::arithmetic::div_mod::lemma_fundamental_div_mod(cur as int, 10);
            assert(x@.skip(i as int)[0] == x@[i as int]);
            assert(x@.skip(i as int).skip(1) =~= x@.skip(i as int + 1));
            assert(q@.skip(i as int)[0] == qd);
            assert(q@.skip(i as int).skip(1) =~= qold.skip(i as int + 1));
        }
        rem = r2;
    }
    proof {
        assert(x@.skip(0) =~= x@);
        assert(q@.skip(0) =~= q@);
        vstd::arithmetic::div_mod::lemma_fundamental_div_mod_converse(
            to_nat(x@) as int,
            10,
            to_nat(q@) as int,
            rem as int,
        );
    }
    (q, rem)
}

impl BigInt {
    /// The decimal numeral of the value, computed by repeated division by
    /// ten with the remainders emitted most-significant-first; the zero
    /// value renders as `"0"`.
    pub fn to_decimal_string(&self) -> (r: String)
        requires
            self.well_formed(),
        ensures
            r@ == dec_chars(to_nat(self@)),
    {
        let mut bytes: Vec<u8> = Vec::new();
        if self.data.len() == 0 {
            bytes.push(0x30);
            proof {
                assert(bytes@ =~= dec_bytes(0));
            }
            return ascii_to_string(bytes);
        }
        let mut q: Vec<u64> = self.to_digits();
        while q.len() > 0
            invariant
                is_canonical(q@),
                forall|k: int| 0 <= k < bytes@.len() ==> bytes@[k] < 0x80,
                (if q@.len() > 0 {
                    dec_bytes(to_nat(self@)) == dec_bytes(to_nat(q@)) + bytes@
                } else {
                    dec_bytes(to_nat(self@)) == bytes@
                }),
            decreases to_nat(q@),
        {
            let ghost v = to_nat(q@);
            proof {
                lemma_canonical_lower_bound(q@);
                crate::digits::lemma_pow_base_increases(0, (q@.len() - 1) as nat);
            }
            let (qq, r) = div_rem_ten(&q);
            let next = BigInt::from_vec(qq);
            let b: u8 = 0x30 + (r as u8);
            let ghost oldbytes = bytes@;
            bytes.insert(0, b);
            proof {
                assert(bytes@ =~= seq![b] + oldbytes);
                if v < 10 {
                    assert(to_nat(next@) == 0);
                    if next@.len() > 0 {
                        lemma_canonical_lower_bound(next@);
                        crate::digits::lemma_pow_base_increases(0, (next@.len() - 1) as nat);
                    }
                    assert(dec_bytes(v) == seq![(0x30 + v) as u8]);
                    assert(r == v % 10 == v);
                    assert(dec_bytes(v) + oldbytes =~= seq![b] + oldbytes);
                } else {
                    assert(dec_bytes(v) == dec_bytes(v / 10).push((0x30 + v % 10) as u8));
                    assert(dec_bytes(v / 10).push(b) + oldbytes =~= dec_bytes(v / 10) + (seq![b]
                        + oldbytes));
                    assert(to_nat(next@) >= 1);
                    if next@.len() == 0 {
                        assert(false);
                    }
                }
            }
            q = next.data;
        }
        ascii_to_string(bytes)
    }
}

} // verus!
