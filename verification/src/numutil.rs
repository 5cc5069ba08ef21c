//! Small numeric helpers: sorting for sample windows and an integer square
//! root for the quadratic-mean aggregation.

use vstd::prelude::*;

verus! {

use vstd::seq_lib::{to_multiset_insert, group_to_multiset_ensures};

pub open spec fn sorted_u128(s: Seq<u128>) -> bool {
    forall|i: int, j: int| 0 <= i < j < s.len() ==> s[i] <= s[j]
}

pub open spec fn sorted_i64(s: Seq<i64>) -> bool {
    forall|i: int, j: int| 0 <= i < j < s.len() ==> s[i] <= s[j]
}

/// Sorts ascending; the result holds the same values.
pub fn sort_u128(input: &Vec<u128>) -> (r: Vec<u128>)
    ensures
        sorted_u128(r@),
        r@.to_multiset() == input@.to_multiset(),
        r@.len() == input@.len(),
{
    broadcast use group_to_multiset_ensures, to_multiset_insert;

    let mut out: Vec<u128> = Vec::new();
    let mut i: usize = 0;
    while i < input.len()
        invariant
            i <= input@.len(),
            sorted_u128(out@),
            out@.to_multiset() == input@.take(i as int).to_multiset(),
            out@.len() == i,
        decreases input@.len() - i,
    {
        broadcast use group_to_multiset_ensures, to_multiset_insert;

        let x = input[i];
        let mut k: usize = 0;
        while k < out.len() && out[k] <= x
            invariant
                k <= out@.len(),
                forall|j: int| 0 <= j < k ==> out@[j] <= x,
            decreases out@.len() - k,
        {
            k += 1;
        }
        out.insert(k, x);
        proof {
            assert(input@.take(i + 1) =~= input@.take(i as int).push(x));
            assert(sorted_u128(out@)) by {
                assert(forall|a: int, b: int|
                    0 <= a < b < out@.len() ==> out@[a] <= out@[b]) by {
                    assert forall|a: int, b: int|
                        0 <= a < b < out@.len() implies out@[a] <= out@[b] by {}
                }
            }
        }
        i += 1;
    }
    proof {
        assert(input@.take(input@.len() as int) =~= input@);
    }
    out
}

/// Sorts ascending; the result holds the same values.
pub fn sort_i64(input: &Vec<i64>) -> (r: Vec<i64>)
    ensures
        sorted_i64(r@),
        r@.to_multiset() == input@.to_multiset(),
        r@.len() == input@.len(),
{
    broadcast use group_to_multiset_ensures, to_multiset_insert;

    let mut out: Vec<i64> = Vec::new();
    let mut i: usize = 0;
    while i < input.len()
        invariant
            i <= input@.len(),
            sorted_i64(out@),
            out@.to_multiset() == input@.take(i as int).to_multiset(),
            out@.len() == i,
        decreases input@.len() - i,
    {
        broadcast use group_to_multiset_ensures, to_multiset_insert;

        let x = input[i];
        let mut k: usize = 0;
        while k < out.len() && out[k] <= x
            invariant
                k <= out@.len(),
                forall|j: int| 0 <= j < k ==> out@[j] <= x,
            decreases out@.len() - k,
        {
            k += 1;
        }
        out.insert(k, x);
        proof {
            assert(input@.take(i + 1) =~= input@.take(i as int).push(x));
        }
        i += 1;
    }
    proof {
        assert(input@.take(input@.len() as int) =~= input@);
    }
    out
}

/// Floor of the square root.
pub fn isqrt_u128(n: u128) -> (r: u64)
    ensures
        (r as int) * (r as int) <= n,
        n < (r as int + 1) * (r as int + 1),
{
    if n == 0 {
        return 0;
    }
    let mut lo: u128 = 0;
    let mut hi: u128 = 0x10000000000000000;
    while hi - lo > 1
        invariant
            lo < hi,
            hi <= 0x10000000000000000,
            (lo as int) * (lo as int) <= n,
            n < (hi as int) * (hi as int),
        decreases hi - lo,
    {
        let mid = lo + (hi - lo) / 2;
        proof {
            assert(lo < mid < hi);
            assert((mid as int) * (mid as int) <= 0xffffffffffffffff * 0xffffffffffffffff)
                by (nonlinear_arith)
                requires
                    0 <= mid <= 0xffffffffffffffff,
            ;
        }
        if mid * mid <= n {
            lo = mid;
        } else {
            hi = mid;
        }
    }
    proof {
        assert(hi == lo + 1);
        assert(lo < 0x10000000000000000);
    }
    lo as u64
}

} // verus!
