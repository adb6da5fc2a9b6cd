//! Statistical estimators over a network's architecture.

use vstd::prelude::*;
use vstd::arithmetic::mul::{lemma_mul_nonnegative, lemma_mul_ordering};

verus! {

/// Number of free parameters Widrow's rule of thumb counts for an
/// architecture: `a[0] * (a[0] + 1)` for the head entry, then
/// `a[i] * a[i-1] + a[i]` for each later layer.
pub open spec fn spec_widrows_params(arch: Seq<u64>) -> int
    decreases arch.len(),
{
    if arch.len() == 0 {
        0
    } else if arch.len() == 1 {
        arch[0] * (arch[0] + 1)
    } else {
        spec_widrows_params(arch.drop_last()) + arch.last() * arch[arch.len() - 2] + arch.last()
    }
}

/// # Widrow's rule of thumb
/// Counts the free parameters of an architecture.  The rule estimates the
/// training-sample size needed for good generalization as this count divided
/// by the allowed error: for architecture `[2, 1]` and allowed error `0.1`
/// the sample must exceed `9 / 0.1 = 90` examples.  The division is numeric
/// and is left to the caller; this function returns the exact count.
pub fn widrows(architecture: &Vec<u64>) -> (r: u64)
    requires
        architecture@.len() >= 1,
        spec_widrows_params(architecture@) <= u64::MAX,
    ensures
        r == spec_widrows_params(architecture@),
{
    let ghost arch = architecture@;
    let a0 = architecture[0];
    proof {
        lemma_widrows_params_monotone(arch, 1);
        assert(arch.take(1).len() == 1);
        assert(arch.take(1)[0] == arch[0]);
        lemma_mul_nonnegative(a0 as int, a0 as int + 1);
        if a0 >= 1 {
            lemma_mul_ordering(a0 as int, a0 as int + 1);
        }
    }
    let t = a0 + 1;
    let mut s: u64 = a0 * t;
    let mut i: usize = 1;
    while i < architecture.len()
        invariant
            1 <= i <= arch.len(),
            arch == architecture@,
            spec_widrows_params(arch) <= u64::MAX,
            s == spec_widrows_params(arch.take(i as int)),
        decreases arch.len() - i,
    {
        proof {
            lemma_widrows_params_monotone(arch, i + 1);
            assert(arch.take(i + 1).drop_last() =~= arch.take(i as int));
            assert(arch.take(i + 1).last() == arch[i as int]);
            assert(arch.take(i + 1)[i - 1] == arch[i - 1]);
            assert(spec_widrows_params(arch.take(i + 1)) == s + arch[i as int] * arch[i - 1]
                + arch[i as int]);
            lemma_mul_nonnegative(arch[i as int] as int, arch[i - 1] as int);
        }
        let p = architecture[i] * architecture[i - 1];
        s = s + p;
        s = s + architecture[i];
        i = i + 1;
    }
    proof {
        assert(arch.take(i as int) =~= arch);
    }
    s
}

/// Like [`widrows`], for callers that cannot bound the count beforehand:
/// yields the count where it fits a word, and nothing exactly where it
/// overflows one.
pub fn widrows_checked(architecture: &Vec<u64>) -> (r: Option<u64>)
    requires
        architecture@.len() >= 1,
    ensures
        match r {
            Some(c) => spec_widrows_params(architecture@) <= u64::MAX && c == spec_widrows_params(
                architecture@,
            ),
            None => spec_widrows_params(architecture@) > u64::MAX,
        },
{
    let ghost arch = architecture@;
    proof {
        lemma_widrows_params_monotone(arch, 1);
        assert(arch.take(1).len() == 1);
        assert(arch.take(1)[0] == arch[0]);
    }
    let a0 = architecture[0];
    let t = match a0.checked_add(1) {
        None => {
            proof {
                lemma_mul_ordering(a0 as int, a0 as int + 1);
            }
            return None;
        },
        Some(t) => t,
    };
    let mut s: u64 = match a0.checked_mul(t) {
        None => {
            return None;
        },
        Some(p) => p,
    };
    let mut i: usize = 1;
    while i < architecture.len()
        invariant
            1 <= i <= arch.len(),
            arch == architecture@,
            s == spec_widrows_params(arch.take(i as int)),
        decreases arch.len() - i,
    {
        proof {
            lemma_widrows_params_monotone(arch, i as int);
            lemma_widrows_params_monotone(arch, i + 1);
            assert(arch.take(i + 1).drop_last() =~= arch.take(i as int));
            assert(arch.take(i + 1).last() == arch[i as int]);
            assert(arch.take(i + 1)[i - 1] == arch[i - 1]);
            assert(spec_widrows_params(arch.take(i + 1)) == s + arch[i as int] * arch[i - 1]
                + arch[i as int]);
            lemma_mul_nonnegative(arch[i as int] as int, arch[i - 1] as int);
        }
        let p = match architecture[i].checked_mul(architecture[i - 1]) {
            None => {
                return None;
            },
            Some(p) => p,
        };
        s = match s.checked_add(p) {
            None => {
                return None;
            },
            Some(q) => q,
        };
        s = match s.checked_add(architecture[i]) {
            None => {
                return None;
            },
            Some(q) => q,
        };
        i = i + 1;
    }
    proof {
        assert(arch.take(i as int) =~= arch);
    }
    Some(s)
}

/// Every prefix of an architecture counts at most as many parameters as the
/// whole, and no prefix counts a negative number.
proof fn lemma_widrows_params_monotone(arch: Seq<u64>, n: int)
    requires
        0 <= n <= arch.len(),
    ensures
        0 <= spec_widrows_params(arch.take(n)),
        spec_widrows_params(arch.take(n)) <= spec_widrows_params(arch),
    decreases arch.len() - n,
{
    lemma_widrows_params_nonneg(arch.take(n));
    if n == arch.len() {
        assert(arch.take(n) =~= arch);
    } else {
        lemma_widrows_params_monotone(arch, n + 1);
        if n == 0 {
            lemma_widrows_params_nonneg(arch.take(1));
        } else {
            assert(arch.take(n + 1).drop_last() =~= arch.take(n));
            assert(arch.take(n + 1).last() == arch[n]);
            assert(arch.take(n + 1)[n - 1] == arch[n - 1]);
            assert(spec_widrows_params(arch.take(n + 1)) == spec_widrows_params(arch.take(n))
                + arch[n] * arch[n - 1] + arch[n]);
            lemma_mul_nonnegative(arch[n] as int, arch[n - 1] as int);
        }
    }
}

/// The parameter count is never negative.
proof fn lemma_widrows_params_nonneg(arch: Seq<u64>)
    ensures
        spec_widrows_params(arch) >= 0,
    decreases arch.len(),
{
    if arch.len() == 0 {
    } else if arch.len() == 1 {
        lemma_mul_nonnegative(arch[0] as int, arch[0] as int + 1);
    } else {
        lemma_widrows_params_nonneg(arch.drop_last());
        lemma_mul_nonnegative(arch.last() as int, arch[arch.len() - 2] as int);
    }
}

} // verus!
