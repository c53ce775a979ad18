//! Sample indexing of the Kaldi filter-bank front end.
use vstd::prelude::*;

verus! {

/// Where index `i` lands in a signal of `n` samples extended by mirror
/// reflection without repeating the edge sample ("symmetric" padding):
/// the pattern repeats every `2n` indices.
pub open spec fn spec_reflect(i: int, n: int) -> int
    recommends
        n > 0,
{
    let m = i % (2 * n);
    if m < n {
        m
    } else {
        2 * n - 1 - m
    }
}

proof fn lemma_reflect_steps(i: int, n: int)
    requires
        n > 0,
    ensures
        spec_reflect(-i - 1, n) == spec_reflect(i, n),
        spec_reflect(2 * n - 1 - i, n) == spec_reflect(i, n),
        0 <= spec_reflect(i, n) < n,
{
    let p = 2 * n;
    let m = i % p;
    let q = i / p;
    assert(i == q * p + m && 0 <= m < p) by {
        vstd::arithmetic::div_mod::lemma_fundamental_div_mod(i, p);
    }
    assert((-i - 1) % p == p - 1 - m) by {
        assert(-i - 1 == (-q - 1) * p + (p - 1 - m)) by (nonlinear_arith)
            requires
                i == q * p + m,
        ;
        vstd::arithmetic::div_mod::lemma_fundamental_div_mod_converse(-i - 1, p, -q - 1, p - 1 - m);
    }
    assert((2 * n - 1 - i) % p == p - 1 - m) by {
        assert(2 * n - 1 - i == (-q) * p + (p - 1 - m)) by (nonlinear_arith)
            requires
                i == q * p + m,
                p == 2 * n,
        ;
        vstd::arithmetic::div_mod::lemma_fundamental_div_mod_converse(2 * n - 1 - i, p, -q, p - 1 - m);
    }
}

/// Mirror-reflected sample index for frames that extend past either edge.
pub fn reflect_index(index: isize, sample_count: usize) -> (r: usize)
    requires
        0 < sample_count <= isize::MAX,
    ensures
        r < sample_count,
        r as int == spec_reflect(index as int, sample_count as int),
{
    let n = sample_count as isize;
    let mut index = index;
    let ghost original = index as int;
    proof {
        lemma_reflect_steps(original, n as int);
    }
    while index < 0 || index >= n
        invariant
            n == sample_count,
            0 < n,
            spec_reflect(index as int, n as int) == spec_reflect(original, n as int),
        decreases (if index < 0 { -(index as int) } else { index as int }),
    {
        proof {
            lemma_reflect_steps(index as int, n as int);
        }
        index = if index < 0 {
            -(index + 1)
        } else {
            (n - 1) - (index - n)
        };
    }
    proof {
        assert((index as int) % (2 * (n as int)) == index as int) by {
            vstd::arithmetic::div_mod::lemma_small_mod(index as nat, (2 * n) as nat);
        }
    }
    index as usize
}

/// Indices inside the signal are left unchanged.
pub proof fn lemma_reflect_inside_is_identity(i: int, n: int)
    requires
        0 <= i < n,
    ensures
        spec_reflect(i, n) == i,
{
    vstd::arithmetic::div_mod::lemma_small_mod(i as nat, (2 * n) as nat);
}

/// Reflection is symmetric about the signal's start: index `-1 - i` reads the
/// same sample as index `i`.
pub proof fn lemma_reflect_mirror_at_start(i: int, n: int)
    requires
        n > 0,
    ensures
        spec_reflect(-1 - i, n) == spec_reflect(i, n),
{
    lemma_reflect_steps(i, n);
}

/// Feature frames of `sample_count` samples: one per 160-sample shift,
/// rounding to the nearest frame.
pub fn kaldi_frame_count(sample_count: usize) -> (r: usize)
    ensures
        r == (sample_count + 80) / 160,
{
    sample_count / 160 + (sample_count % 160 + 80) / 160
}

} // verus!
