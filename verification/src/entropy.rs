//! The entropy scorer: Shannon entropy of a byte buffer's histogram, as an
//! exact integer.
//!
//! The score of a buffer of length n is the sum, over the byte values v whose
//! count f is nonzero, of `f * (log2_scaled(n) - log2_scaled(f))`.  That is
//! the empirical Shannon entropy in bits scaled by `65536 * n` (up to the
//! fixed-point rounding inside `log2_scaled`), so comparing scores of
//! equal-length buffers compares their entropies.  Everything is integer
//! arithmetic: scoring is deterministic and its properties are proved.

use vstd::prelude::*;
use vstd::arithmetic::power2::{pow2, lemma2_to64};
use vstd::arithmetic::mul::{
    lemma_mul_inequality, lemma_mul_upper_bound, lemma_mul_nonnegative, lemma_mul_basics,
    lemma_mul_left_inequality,
};
use vstd::arithmetic::div_mod::{lemma_div_is_ordered, lemma_div_multiples_vanish};
use crate::fixedlog::{
    log2_scaled, log2_fixed, lemma_log2_scaled_mono, lemma_log2_scaled_bound,
    lemma_log2_scaled_double, lemma_log2_scaled_pow2_mul,
};
use crate::xor::xor_seq;

verus! {

/// How often byte value v occurs in s.
pub open spec fn occurrences(s: Seq<u8>, v: u8) -> nat
    decreases s.len(),
{
    if s.len() == 0 {
        0
    } else {
        occurrences(s.drop_last(), v) + if s.last() == v {
            1nat
        } else {
            0nat
        }
    }
}

/// The histogram bin of value v contributes f * (log2(n) - log2(f)) to the
/// score, in fixed point, where f is the count of v and n the buffer length.
/// Empty bins contribute nothing.
pub open spec fn bin_term(s: Seq<u8>, v: u8) -> int {
    if occurrences(s, v) > 0 {
        (occurrences(s, v) as int) * ((log2_scaled(s.len()) as int) - (log2_scaled(
            occurrences(s, v),
        ) as int))
    } else {
        0
    }
}

/// Sum of the bin terms of the byte values below m.
pub open spec fn score_upto(s: Seq<u8>, m: int) -> int
    decreases m,
{
    if m <= 0 {
        0
    } else {
        score_upto(s, m - 1) + bin_term(s, (m - 1) as u8)
    }
}

/// The entropy score of s: its empirical Shannon entropy in bits, scaled by
/// 65536 * s.len(), summed over all 256 histogram bins.
pub open spec fn entropy_score_spec(s: Seq<u8>) -> int {
    score_upto(s, 256)
}

/// A value cannot occur more often than the buffer is long.
pub proof fn lemma_occurrences_le_len(s: Seq<u8>, v: u8)
    ensures
        occurrences(s, v) <= s.len(),
    decreases s.len(),
{
    if s.len() > 0 {
        lemma_occurrences_le_len(s.drop_last(), v);
    }
}

/// Appending x increments exactly the bin of x.
pub proof fn lemma_occurrences_push(s: Seq<u8>, x: u8)
    ensures
        forall|v: u8|
            occurrences(s.push(x), v) == occurrences(s, v) + if x == v {
                1nat
            } else {
                0nat
            },
{
    assert forall|v: u8|
        occurrences(s.push(x), v) == occurrences(s, v) + if x == v {
            1nat
        } else {
            0nat
        } by {
        assert(s.push(x).drop_last() =~= s);
        assert(s.push(x).last() == x);
    }
}

/// An empty buffer scores zero over every bin range.
pub proof fn lemma_score_upto_empty(s: Seq<u8>, m: int)
    requires
        s.len() == 0,
    ensures
        score_upto(s, m) == 0,
    decreases m,
{
    if m > 0 {
        lemma_score_upto_empty(s, m - 1);
    }
}

/// Each bin term is nonnegative and at most len * 4194304 for buffers whose
/// length fits in 64 bits.
proof fn lemma_bin_term_bounds(s: Seq<u8>, v: u8)
    requires
        s.len() < pow2(64),
    ensures
        0 <= bin_term(s, v),
        bin_term(s, v) <= (s.len() as int) * 4194304,
{
    let f = occurrences(s, v);
    lemma_occurrences_le_len(s, v);
    if f > 0 {
        lemma_log2_scaled_mono(f, s.len());
        lemma_log2_scaled_bound(s.len());
        let d = (log2_scaled(s.len()) as int) - (log2_scaled(f) as int);
        lemma_mul_nonnegative(f as int, d);
        lemma_mul_upper_bound(f as int, s.len() as int, d, 4194304);
    }
}

/// Partial scores are nonnegative and bounded by m * len * 4194304.
pub proof fn lemma_score_upto_bounds(s: Seq<u8>, m: int)
    requires
        s.len() < pow2(64),
        0 <= m,
    ensures
        0 <= score_upto(s, m),
        score_upto(s, m) <= m * ((s.len() as int) * 4194304),
    decreases m,
{
    if m > 0 {
        lemma_score_upto_bounds(s, m - 1);
        lemma_bin_term_bounds(s, (m - 1) as u8);
        let c = (s.len() as int) * 4194304;
        assert(m * c == (m - 1) * c + c) by (nonlinear_arith);
        lemma_mul_nonnegative(m, c);
    }
}

proof fn lemma_score_upto_nonneg(s: Seq<u8>, m: int)
    ensures
        0 <= score_upto(s, m),
    decreases m,
{
    if m > 0 {
        lemma_score_upto_nonneg(s, m - 1);
        let v = (m - 1) as u8;
        let f = occurrences(s, v);
        lemma_occurrences_le_len(s, v);
        if f > 0 {
            lemma_log2_scaled_mono(f, s.len());
            lemma_mul_nonnegative(
                f as int,
                (log2_scaled(s.len()) as int) - (log2_scaled(f) as int),
            );
        }
    }
}

/// The entropy score is never negative.
pub proof fn lemma_entropy_score_nonneg(s: Seq<u8>)
    ensures
        entropy_score_spec(s) >= 0,
{
    lemma_score_upto_nonneg(s, 256);
}

/// The entropy score of data, computed exactly: build the 256-bin histogram,
/// then sum f * (log2_scaled(n) - log2_scaled(f)) over the nonzero bins f.
pub fn entropy_score(data: &Vec<u8>) -> (r: u128)
    ensures
        r == entropy_score_spec(data@),
{
    proof {
        lemma2_to64();
    }
    if data.len() == 0 {
        proof {
            lemma_score_upto_empty(data@, 256);
        }
        return 0;
    }
    let ghost s = data@;
    let mut hist: Vec<u64> = Vec::new();
    let mut v: usize = 0;
    while v < 256
        invariant
            hist@.len() == v,
            v <= 256,
            forall|t: int| 0 <= t < v ==> hist@[t] == 0,
        decreases 256 - v,
    {
        hist.push(0);
        v = v + 1;
    }
    assert(forall|t: int| 0 <= t < 256 ==> #[trigger] occurrences(s.take(0), (t as u8)) == 0);

    let mut i: usize = 0;
    while i < data.len()
        invariant
            i <= data@.len(),
            data@ == s,
            hist@.len() == 256,
            forall|t: int| 0 <= t < 256 ==> hist@[t] == occurrences(s.take(i as int), (t as u8)),
        decreases data@.len() - i,
    {
        let b = data[i];
        proof {
            lemma_occurrences_le_len(s.take(i as int), b);
            assert(s.take(i as int).len() == i);
        }
        let c = hist[b as usize];
        assert(c == occurrences(s.take(i as int), b));
        hist[b as usize] = c + 1;
        proof {
            assert(s.take(i as int + 1) =~= s.take(i as int).push(s[i as int]));
            lemma_occurrences_push(s.take(i as int), b);
        }
        i = i + 1;
    }
    proof {
        assert(s.take(data@.len() as int) =~= s);
    }

    let n64: u64 = data.len() as u64;
    assert(n64 == s.len());
    let lgn = log2_fixed(n64);
    let mut acc: u128 = 0;
    let mut w: usize = 0;
    while w < 256
        invariant
            w <= 256,
            data@ == s,
            hist@.len() == 256,
            1 <= s.len(),
            s.len() < pow2(64),
            pow2(64) == 18446744073709551616,
            n64 == s.len(),
            lgn == log2_scaled(s.len()),
            lgn < 4194304,
            forall|t: int| 0 <= t < 256 ==> hist@[t] == occurrences(s, (t as u8)),
            acc == score_upto(s, w as int),
        decreases 256 - w,
    {
        let f = hist[w];
        proof {
            lemma_occurrences_le_len(s, w as u8);
            lemma_score_upto_bounds(s, w as int);
            lemma_bin_term_bounds(s, w as u8);
            let c = (s.len() as int) * 4194304;
            lemma_mul_upper_bound(s.len() as int, 18446744073709551615, 4194304, 4194304);
            lemma_mul_inequality(w as int, 256, c);
            lemma_mul_nonnegative(w as int, c);
        }
        if f > 0 {
            let lgf = log2_fixed(f);
            proof {
                lemma_log2_scaled_mono(f as nat, s.len());
            }
            let d = lgn - lgf;
            proof {
                lemma_mul_upper_bound(f as int, 18446744073709551615, d as int, 4194303);
            }
            acc = acc + (f as u128) * (d as u128);
            assert(acc == score_upto(s, w as int) + bin_term(s, w as u8));
        } else {
            assert(bin_term(s, w as u8) == 0);
        }
        w = w + 1;
        assert(acc == score_upto(s, w as int));
    }
    acc
}

/// Shannon entropy of data in bits, in fixed point with 16 fractional bits
/// (scaled by 65536), rounded down; an empty buffer carries no information
/// and scores 0.
pub fn entropy_bits(data: &Vec<u8>) -> (r: u64)
    ensures
        data@.len() == 0 ==> r == 0,
        data@.len() > 0 ==> r == entropy_score_spec(data@) / (data@.len() as int),
{
    if data.len() == 0 {
        return 0;
    }
    let total = entropy_score(data);
    let n: u128 = data.len() as u128;
    proof {
        lemma2_to64();
        lemma_score_upto_bounds(data@, 256);
        let len = data@.len() as int;
        let c = len * 4194304;
        assert(256 * (len * 4194304) == len * 1073741824) by (nonlinear_arith);
        lemma_mul_inequality(256, 256, c);
        lemma_mul_nonnegative(256, c);
        lemma_div_is_ordered(total as int, len * 1073741824, len);
        lemma_div_multiples_vanish(1073741824, len);
    }
    (total / n) as u64
}

/// XOR-ing a buffer with k permutes its histogram: value v occurs in the
/// transformed buffer as often as v ^ k occurs in the original.
pub proof fn lemma_occurrences_xor(s: Seq<u8>, k: u8)
    ensures
        forall|v: u8| #[trigger] occurrences(xor_seq(s, k), v) == occurrences(s, v ^ k),
    decreases s.len(),
{
    if s.len() == 0 {
        assert(xor_seq(s, k).len() == 0);
    } else {
        lemma_occurrences_xor(s.drop_last(), k);
        assert(xor_seq(s, k).drop_last() =~= xor_seq(s.drop_last(), k));
        assert(xor_seq(s, k).last() == s.last() ^ k);
        assert forall|v: u8| #[trigger] occurrences(xor_seq(s, k), v) == occurrences(
            s,
            v ^ k,
        ) by {
            let b = s.last();
            assert((b ^ k == v) == (b == v ^ k)) by (bit_vector);
            assert(occurrences(xor_seq(s, k), v) == occurrences(xor_seq(s.drop_last(), k), v)
                + if b ^ k == v {
                1nat
            } else {
                0nat
            });
            assert(occurrences(xor_seq(s.drop_last(), k), v) == occurrences(s.drop_last(), v ^ k));
            assert(occurrences(s, v ^ k) == occurrences(s.drop_last(), v ^ k) + if b == v ^ k {
                1nat
            } else {
                0nat
            });
        }
    }
}

/// The per-position contribution of a byte of value v to the score of t.
spec fn pos_term(t: Seq<u8>, v: u8) -> int {
    (log2_scaled(t.len()) as int) - (log2_scaled(occurrences(t, v)) as int)
}

/// Sum, over the positions of s, of the pos_term in t of the byte there.
spec fn psum(t: Seq<u8>, s: Seq<u8>) -> int
    decreases s.len(),
{
    if s.len() == 0 {
        0
    } else {
        psum(t, s.drop_last()) + pos_term(t, s.last())
    }
}

/// Sum, over the byte values below m, of count-in-s times pos_term-in-t.
spec fn bsum(t: Seq<u8>, s: Seq<u8>, m: int) -> int
    decreases m,
{
    if m <= 0 {
        0
    } else {
        bsum(t, s, m - 1) + (occurrences(s, (m - 1) as u8) as int) * pos_term(t, (m - 1) as u8)
    }
}

proof fn lemma_bsum_zero(t: Seq<u8>, s: Seq<u8>, m: int)
    requires
        s.len() == 0,
    ensures
        bsum(t, s, m) == 0,
    decreases m,
{
    if m > 0 {
        lemma_bsum_zero(t, s, m - 1);
        lemma_mul_basics(pos_term(t, (m - 1) as u8));
    }
}

proof fn lemma_bsum_push(t: Seq<u8>, s: Seq<u8>, x: u8, m: int)
    requires
        m <= 256,
    ensures
        bsum(t, s.push(x), m) == bsum(t, s, m) + if (x as int) < m {
            pos_term(t, x)
        } else {
            0
        },
    decreases m,
{
    lemma_occurrences_push(s, x);
    if m > 0 {
        lemma_bsum_push(t, s, x, m - 1);
        let v = (m - 1) as u8;
        if x == v {
            assert(((occurrences(s, v) as int) + 1) * pos_term(t, v) == (occurrences(
                s,
                v,
            ) as int) * pos_term(t, v) + pos_term(t, v)) by (nonlinear_arith);
        }
    }
}

proof fn lemma_psum_eq_bsum(t: Seq<u8>, s: Seq<u8>)
    ensures
        psum(t, s) == bsum(t, s, 256),
    decreases s.len(),
{
    if s.len() == 0 {
        lemma_bsum_zero(t, s, 256);
    } else {
        let s0 = s.drop_last();
        let x = s.last();
        lemma_psum_eq_bsum(t, s0);
        lemma_bsum_push(t, s0, x, 256);
        assert(s0.push(x) =~= s);
    }
}

proof fn lemma_bsum_eq_score(t: Seq<u8>, m: int)
    ensures
        bsum(t, t, m) == score_upto(t, m),
    decreases m,
{
    if m > 0 {
        lemma_bsum_eq_score(t, m - 1);
        let v = (m - 1) as u8;
        if occurrences(t, v) == 0 {
            lemma_mul_basics(pos_term(t, v));
        }
    }
}

/// The bin sum equals the position sum: each of the f bytes of a value
/// contributes one pos_term, f in all.
proof fn lemma_score_eq_psum(t: Seq<u8>)
    ensures
        entropy_score_spec(t) == psum(t, t),
{
    lemma_psum_eq_bsum(t, t);
    lemma_bsum_eq_score(t, 256);
}

proof fn lemma_psum_xor(t: Seq<u8>, k: u8, s: Seq<u8>)
    ensures
        psum(xor_seq(t, k), xor_seq(s, k)) == psum(t, s),
    decreases s.len(),
{
    lemma_occurrences_xor(t, k);
    if s.len() == 0 {
        assert(xor_seq(s, k).len() == 0);
    } else {
        lemma_psum_xor(t, k, s.drop_last());
        assert(xor_seq(s, k).drop_last() =~= xor_seq(s.drop_last(), k));
        assert(xor_seq(s, k).last() == s.last() ^ k);
        let b = s.last();
        assert(((b ^ k) ^ k) == b) by (bit_vector);
        assert(xor_seq(t, k).len() == t.len());
        assert(occurrences(xor_seq(t, k), b ^ k) == occurrences(t, b));
    }
}

/// XOR with any key relabels the byte values bijectively, so it never
/// changes the entropy score.
pub proof fn lemma_entropy_xor_invariant(s: Seq<u8>, k: u8)
    ensures
        entropy_score_spec(xor_seq(s, k)) == entropy_score_spec(s),
{
    lemma_score_eq_psum(s);
    lemma_score_eq_psum(xor_seq(s, k));
    lemma_psum_xor(s, k, s);
}

/// Sum of the counts of the byte values below m.
spec fn occ_sum(s: Seq<u8>, m: int) -> int
    decreases m,
{
    if m <= 0 {
        0
    } else {
        occ_sum(s, m - 1) + occurrences(s, (m - 1) as u8)
    }
}

proof fn lemma_occ_sum_zero(s: Seq<u8>, m: int)
    requires
        s.len() == 0,
    ensures
        occ_sum(s, m) == 0,
    decreases m,
{
    if m > 0 {
        lemma_occ_sum_zero(s, m - 1);
    }
}

proof fn lemma_occ_sum_push(s: Seq<u8>, x: u8, m: int)
    requires
        m <= 256,
    ensures
        occ_sum(s.push(x), m) == occ_sum(s, m) + if (x as int) < m {
            1int
        } else {
            0int
        },
    decreases m,
{
    lemma_occurrences_push(s, x);
    if m > 0 {
        lemma_occ_sum_push(s, x, m - 1);
    }
}

/// Every byte lands in exactly one bin: the counts sum to the length.
proof fn lemma_occ_sum_total(s: Seq<u8>)
    ensures
        occ_sum(s, 256) == s.len(),
    decreases s.len(),
{
    if s.len() == 0 {
        lemma_occ_sum_zero(s, 256);
    } else {
        lemma_occ_sum_total(s.drop_last());
        lemma_occ_sum_push(s.drop_last(), s.last(), 256);
        assert(s.drop_last().push(s.last()) =~= s);
    }
}

proof fn lemma_equal_bins_upto(s: Seq<u8>, f: nat, m: int)
    requires
        f >= 1,
        forall|v: u8| occurrences(s, v) == 0 || #[trigger] occurrences(s, v) == f,
    ensures
        score_upto(s, m) == occ_sum(s, m) * ((log2_scaled(s.len()) as int) - (log2_scaled(
            f,
        ) as int)),
    decreases m,
{
    let d = (log2_scaled(s.len()) as int) - (log2_scaled(f) as int);
    if m <= 0 {
        lemma_mul_basics(d);
    } else {
        lemma_equal_bins_upto(s, f, m - 1);
        let v = (m - 1) as u8;
        if occurrences(s, v) == 0 {
        } else {
            assert(occurrences(s, v) == f);
            assert((occ_sum(s, m - 1) + (f as int)) * d == occ_sum(s, m - 1) * d + (
            f as int) * d) by (nonlinear_arith);
        }
    }
}

/// A buffer whose byte values each occur exactly f times has entropy
/// log2(n) - log2(f) bits per byte (which is log2 of the number of distinct
/// values): the score is n times that, exactly.
pub proof fn lemma_entropy_equal_bins(s: Seq<u8>, f: nat)
    requires
        f >= 1,
        forall|v: u8| occurrences(s, v) == 0 || #[trigger] occurrences(s, v) == f,
    ensures
        entropy_score_spec(s) == (s.len() as int) * ((log2_scaled(s.len()) as int) - (
        log2_scaled(f) as int)),
{
    lemma_equal_bins_upto(s, f, 256);
    lemma_occ_sum_total(s);
}

proof fn lemma_occurrences_constant(s: Seq<u8>, c: u8)
    requires
        forall|i: int| 0 <= i < s.len() ==> s[i] == c,
    ensures
        occurrences(s, c) == s.len(),
        forall|v: u8| v != c ==> #[trigger] occurrences(s, v) == 0,
    decreases s.len(),
{
    if s.len() > 0 {
        lemma_occurrences_constant(s.drop_last(), c);
        assert(s.last() == c);
        assert forall|v: u8| v != c implies #[trigger] occurrences(s, v) == 0 by {
            assert(occurrences(s.drop_last(), v) == 0);
        }
    }
}

/// A buffer with all bytes equal carries no information: its score is zero.
pub proof fn lemma_entropy_constant(s: Seq<u8>, c: u8)
    requires
        forall|i: int| 0 <= i < s.len() ==> s[i] == c,
    ensures
        entropy_score_spec(s) == 0,
{
    if s.len() == 0 {
        lemma_score_upto_empty(s, 256);
    } else {
        lemma_occurrences_constant(s, c);
        lemma_entropy_equal_bins(s, s.len());
        lemma_mul_basics(s.len() as int);
    }
}

/// Two byte values sharing a buffer half and half score exactly one bit per
/// byte: the score is 65536 * n.
pub proof fn lemma_entropy_two_halves(s: Seq<u8>, a: u8, b: u8)
    requires
        a != b,
        occurrences(s, a) >= 1,
        occurrences(s, a) == occurrences(s, b),
        s.len() == 2 * occurrences(s, a),
        forall|v: u8| v != a && v != b ==> #[trigger] occurrences(s, v) == 0,
    ensures
        entropy_score_spec(s) == (s.len() as int) * 65536,
{
    let f = occurrences(s, a);
    lemma_entropy_equal_bins(s, f);
    lemma_log2_scaled_double(f);
}

/// 2^j byte values in exactly equal proportions score exactly j bits per
/// byte: for n == 2^j * f the score is n * (j * 65536).
pub proof fn lemma_entropy_pow2_bins(s: Seq<u8>, f: nat, j: nat)
    requires
        f >= 1,
        s.len() == pow2(j) * f,
        forall|v: u8| occurrences(s, v) == 0 || #[trigger] occurrences(s, v) == f,
    ensures
        entropy_score_spec(s) == (s.len() as int) * ((j * 65536) as int),
{
    lemma_entropy_equal_bins(s, f);
    lemma_log2_scaled_pow2_mul(j, f);
}

proof fn lemma_le_lg_upto(s: Seq<u8>, m: int)
    ensures
        score_upto(s, m) <= occ_sum(s, m) * (log2_scaled(s.len()) as int),
    decreases m,
{
    let lgn = log2_scaled(s.len()) as int;
    if m <= 0 {
        lemma_mul_basics(lgn);
    } else {
        lemma_le_lg_upto(s, m - 1);
        let v = (m - 1) as u8;
        let f = occurrences(s, v) as int;
        if f > 0 {
            let lgf = log2_scaled(occurrences(s, v)) as int;
            lemma_mul_left_inequality(f, lgn - lgf, lgn);
            assert((occ_sum(s, m - 1) + f) * lgn == occ_sum(s, m - 1) * lgn + f * lgn)
                by (nonlinear_arith);
        }
    }
}

/// The entropy of a buffer never exceeds log2 of its length: the score is at
/// most n * log2_scaled(n).  (Reaching it would take n distinct byte values.)
pub proof fn lemma_entropy_le_log2_len(s: Seq<u8>)
    ensures
        entropy_score_spec(s) <= (s.len() as int) * (log2_scaled(s.len()) as int),
{
    lemma_le_lg_upto(s, 256);
    lemma_occ_sum_total(s);
}

} // verus!
