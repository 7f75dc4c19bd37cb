//! Descriptive statistics over sequences of binary64 bit patterns.
//!
//! Four of the six functions share one policy: non-finite entries (NaN and
//! the infinities) are dropped before anything is computed.  The extremum
//! functions deliberately do not filter; a comparison that involves NaN is
//! treated as a tie, and ties keep the earlier occurrence.  Absence of a
//! result is an explicit `None`, except for `calculate_average`, which
//! returns the bit pattern of `0.0` as a documented neutral baseline.

use vstd::prelude::*;
use vstd::relations::sorted_by;
use vstd::seq_lib::lemma_sorted_unique;

use crate::arith::TWO_BITS;
use crate::arith::add_bits;
use crate::arith::add_of;
use crate::arith::div_bits;
use crate::arith::div_of;
use crate::arith::mul_bits;
use crate::arith::mul_of;
use crate::arith::of_u64;
use crate::arith::sqrt_bits;
use crate::arith::sqrt_of;
use crate::arith::sub_bits;
use crate::arith::sub_of;
use crate::arith::u64_to_bits;
use crate::bits::is_finite;
use crate::bits::is_finite_bits;
use crate::bits::le_sort;
use crate::bits::le_sorted;
use crate::bits::lemma_sort_leq_total;
use crate::bits::lt;
use crate::bits::lt_bits;
use crate::bits::sort_leq;

verus! {

/// The subsequence of finite patterns, in input order.
pub open spec fn finite_seq(s: Seq<u64>) -> Seq<u64>
    decreases s.len(),
{
    if s.len() == 0 {
        Seq::empty()
    } else if is_finite_bits(s.last()) {
        finite_seq(s.drop_last()).push(s.last())
    } else {
        finite_seq(s.drop_last())
    }
}

/// The left-to-right rounding sum of a sequence of patterns, starting from
/// `+0.0`, as an iterator sum computes it.
pub open spec fn sum_bits(s: Seq<u64>) -> u64
    decreases s.len(),
{
    if s.len() == 0 {
        0u64
    } else {
        add_of(sum_bits(s.drop_last()), s.last())
    }
}

/// The rounding mean of an already filtered sequence.
pub open spec fn mean_of_finite(f: Seq<u64>) -> u64 {
    div_of(sum_bits(f), of_u64(f.len() as u64))
}

/// What `calculate_average` returns: the mean of the finite entries, or
/// the pattern of `0.0` when none remain.
pub open spec fn average_spec(s: Seq<u64>) -> u64 {
    if finite_seq(s).len() == 0 {
        0u64
    } else {
        mean_of_finite(finite_seq(s))
    }
}

/// The left-to-right rounding sum of the squared deviations from `m`.
pub open spec fn sq_dev_sum(f: Seq<u64>, m: u64) -> u64
    decreases f.len(),
{
    if f.len() == 0 {
        0u64
    } else {
        add_of(
            sq_dev_sum(f.drop_last(), m),
            mul_of(sub_of(f.last(), m), sub_of(f.last(), m)),
        )
    }
}

/// What `calculate_variance` returns: the population variance of the
/// finite entries (divisor is the count), or `None` when none remain.
pub open spec fn variance_spec(s: Seq<u64>) -> Option<u64> {
    let f = finite_seq(s);
    if f.len() == 0 {
        None
    } else {
        Some(div_of(sq_dev_sum(f, mean_of_finite(f)), of_u64(f.len() as u64)))
    }
}

/// What `calculate_std_deviation` returns: the square root of the
/// variance, with absence propagated unchanged.
pub open spec fn std_deviation_spec(s: Seq<u64>) -> Option<u64> {
    match variance_spec(s) {
        None => None,
        Some(v) => Some(sqrt_of(v)),
    }
}

/// What `calculate_median` returns: the middle of the sorted finite
/// entries for an odd count, the rounding half-sum of the two central ones
/// for an even count, `None` when no finite entry remains.
pub open spec fn median_spec(s: Seq<u64>) -> Option<u64> {
    let f = finite_seq(s).sort_by(sort_leq());
    if f.len() == 0 {
        None
    } else if f.len() % 2 == 1 {
        Some(f[(f.len() / 2) as int])
    } else {
        Some(div_of(add_of(f[(f.len() / 2 - 1) as int], f[(f.len() / 2) as int]), TWO_BITS))
    }
}

/// The left fold that `find_min` computes: the first occurrence of the
/// least element under the tie-tolerant numeric order.
pub open spec fn min_fold(s: Seq<u64>) -> u64
    recommends
        s.len() > 0,
    decreases s.len(),
{
    if s.len() <= 1 {
        s[0]
    } else {
        let m = min_fold(s.drop_last());
        if lt_bits(s.last(), m) {
            s.last()
        } else {
            m
        }
    }
}

/// The left fold that `find_max` computes: the first occurrence of the
/// greatest element under the tie-tolerant numeric order.
pub open spec fn max_fold(s: Seq<u64>) -> u64
    recommends
        s.len() > 0,
    decreases s.len(),
{
    if s.len() <= 1 {
        s[0]
    } else {
        let m = max_fold(s.drop_last());
        if lt_bits(m, s.last()) {
            s.last()
        } else {
            m
        }
    }
}

proof fn lemma_finite_seq_take_step(s: Seq<u64>, i: int)
    requires
        0 <= i < s.len(),
    ensures
        finite_seq(s.take(i + 1)) == if is_finite_bits(s[i]) {
            finite_seq(s.take(i)).push(s[i])
        } else {
            finite_seq(s.take(i))
        },
{
    assert(s.take(i + 1).drop_last() =~= s.take(i));
    assert(s.take(i + 1).last() == s[i]);
}

/// Every entry of the filtered sequence is finite.
pub proof fn lemma_finite_seq_all_finite(s: Seq<u64>)
    ensures
        forall|i: int|
            0 <= i < finite_seq(s).len() ==> is_finite_bits(#[trigger] finite_seq(s)[i]),
    decreases s.len(),
{
    if s.len() > 0 {
        lemma_finite_seq_all_finite(s.drop_last());
        let f = finite_seq(s.drop_last());
        assert forall|i: int|
            0 <= i < finite_seq(s).len() implies is_finite_bits(#[trigger] finite_seq(s)[i]) by {
            if is_finite_bits(s.last()) {
                if i < f.len() {
                    assert(finite_seq(s)[i] == f[i]);
                } else {
                    assert(finite_seq(s)[i] == s.last());
                }
            } else {
                assert(finite_seq(s)[i] == f[i]);
            }
        }
    }
}

/// Filtering a sequence whose entries are all finite changes nothing.
pub proof fn lemma_finite_seq_of_all_finite(s: Seq<u64>)
    requires
        forall|i: int| 0 <= i < s.len() ==> is_finite_bits(#[trigger] s[i]),
    ensures
        finite_seq(s) == s,
    decreases s.len(),
{
    if s.len() > 0 {
        lemma_finite_seq_of_all_finite(s.drop_last());
        assert(finite_seq(s) =~= s);
    }
}

/// Filtering is idempotent: the finite entries of the filtered sequence
/// are the filtered sequence itself.
pub proof fn lemma_finite_seq_idempotent(s: Seq<u64>)
    ensures
        finite_seq(finite_seq(s)) == finite_seq(s),
{
    lemma_finite_seq_all_finite(s);
    lemma_finite_seq_of_all_finite(finite_seq(s));
}

/// The filtering statistics ignore non-finite entries: each of them gives
/// the same answer on a sequence and on its finite subsequence.
pub proof fn lemma_stats_ignore_non_finite(s: Seq<u64>)
    ensures
        average_spec(s) == average_spec(finite_seq(s)),
        median_spec(s) == median_spec(finite_seq(s)),
        variance_spec(s) == variance_spec(finite_seq(s)),
        std_deviation_spec(s) == std_deviation_spec(finite_seq(s)),
{
    lemma_finite_seq_idempotent(s);
}

/// The average of a sequence without finite entries is exactly the
/// pattern of `0.0`.
pub proof fn lemma_average_empty_is_zero(s: Seq<u64>)
    requires
        finite_seq(s).len() == 0,
    ensures
        average_spec(s) == 0u64,
{
}

/// The median is absent exactly when no finite entry remains.
pub proof fn lemma_median_absent_iff_no_finite(s: Seq<u64>)
    ensures
        median_spec(s) is None <==> finite_seq(s).len() == 0,
{
    lemma_sort_leq_total();
    let f = finite_seq(s);
    let g = f.sort_by(sort_leq());
    f.lemma_sort_by_ensures(sort_leq());
    proof_multiset_len(f);
    proof_multiset_len(g);
    assert(f.to_multiset().len() == g.to_multiset().len());
}

proof fn proof_multiset_len(s: Seq<u64>)
    ensures
        s.len() == s.to_multiset().len(),
{
    s.to_multiset_ensures();
}

/// The standard deviation is the square root of the variance, with
/// absence propagated unchanged.
pub proof fn lemma_std_deviation_is_sqrt_of_variance(s: Seq<u64>)
    ensures
        variance_spec(s) is None ==> std_deviation_spec(s) is None,
        variance_spec(s) matches Some(v) ==> std_deviation_spec(s) == Some(sqrt_of(v)),
{
}

/// The minimum is one of the entries, and no entry is strictly below it.
pub proof fn lemma_min_fold_properties(s: Seq<u64>)
    requires
        s.len() > 0,
    ensures
        exists|i: int| 0 <= i < s.len() && s[i] == min_fold(s),
        forall|i: int| 0 <= i < s.len() ==> !lt_bits(#[trigger] s[i], min_fold(s)),
    decreases s.len(),
{
    if s.len() == 1 {
        assert(s[0] == min_fold(s));
    } else {
        lemma_min_fold_properties(s.drop_last());
        let m = min_fold(s.drop_last());
        if lt_bits(s.last(), m) {
            assert(s[s.len() - 1] == min_fold(s));
        } else {
            let i = choose|i: int| 0 <= i < s.drop_last().len() && s.drop_last()[i] == m;
            assert(s[i] == min_fold(s));
        }
        assert forall|i: int| 0 <= i < s.len() implies !lt_bits(#[trigger] s[i], min_fold(s)) by {
            if i < s.len() - 1 {
                assert(!lt_bits(s.drop_last()[i], m));
            }
        }
    }
}

/// The maximum is one of the entries, and no entry is strictly above it.
pub proof fn lemma_max_fold_properties(s: Seq<u64>)
    requires
        s.len() > 0,
    ensures
        exists|i: int| 0 <= i < s.len() && s[i] == max_fold(s),
        forall|i: int| 0 <= i < s.len() ==> !lt_bits(max_fold(s), #[trigger] s[i]),
    decreases s.len(),
{
    if s.len() == 1 {
        assert(s[0] == max_fold(s));
    } else {
        lemma_max_fold_properties(s.drop_last());
        let m = max_fold(s.drop_last());
        if lt_bits(m, s.last()) {
            assert(s[s.len() - 1] == max_fold(s));
        } else {
            let i = choose|i: int| 0 <= i < s.drop_last().len() && s.drop_last()[i] == m;
            assert(s[i] == max_fold(s));
        }
        assert forall|i: int| 0 <= i < s.len() implies !lt_bits(max_fold(s), #[trigger] s[i]) by {
            if i < s.len() - 1 {
                assert(!lt_bits(m, s.drop_last()[i]));
            }
        }
    }
}

fn collect_finite(values: &Vec<u64>) -> (r: Vec<u64>)
    ensures
        r@ == finite_seq(values@),
{
    let mut out: Vec<u64> = Vec::new();
    let mut i: usize = 0;
    while i < values.len()
        invariant
            i <= values@.len(),
            out@ == finite_seq(values@.take(i as int)),
        decreases values@.len() - i,
    {
        let x: u64 = values[i];
        proof {
            lemma_finite_seq_take_step(values@, i as int);
        }
        if is_finite(x) {
            out.push(x);
        }
        i = i + 1;
    }
    proof {
        assert(values@.take(values@.len() as int) =~= values@);
    }
    out
}

/// The arithmetic mean of the finite entries; the pattern of `0.0` when
/// no finite entry remains, a documented neutral baseline.
pub fn calculate_average(values: &Vec<u64>) -> (r: u64)
    ensures
        r == average_spec(values@),
{
    let f = collect_finite(values);
    if f.len() == 0 {
        return 0;
    }
    let mut acc: u64 = 0;
    let mut i: usize = 0;
    while i < f.len()
        invariant
            i <= f@.len(),
            acc == sum_bits(f@.take(i as int)),
        decreases f@.len() - i,
    {
        proof {
            assert(f@.take(i + 1).drop_last() =~= f@.take(i as int));
            assert(f@.take(i + 1).last() == f@[i as int]);
        }
        acc = add_bits(acc, f[i]);
        i = i + 1;
    }
    proof {
        assert(f@.take(f@.len() as int) =~= f@);
    }
    div_bits(acc, u64_to_bits(f.len() as u64))
}

proof fn lemma_seq_insert_multiset(s: Seq<u64>, j: int, x: u64)
    requires
        0 <= j <= s.len(),
    ensures
        s.insert(j, x).to_multiset() == s.to_multiset().insert(x),
{
    broadcast use vstd::seq_lib::group_to_multiset_ensures;
    broadcast use vstd::multiset::group_multiset_axioms;

    let t = s.insert(j, x);
    assert(t.remove(j) =~= s);
    assert(t[j] == x);
    assert(t.remove(j).to_multiset() =~= t.to_multiset().remove(t[j]));
    assert(t.to_multiset().contains(x));
    assert(t.to_multiset() =~= s.to_multiset().insert(x));
}

fn sorted_copy(v: &Vec<u64>) -> (r: Vec<u64>)
    ensures
        r@ == v@.sort_by(sort_leq()),
        r@.len() == v@.len(),
{
    let mut out: Vec<u64> = Vec::new();
    let mut i: usize = 0;
    proof {
        assert(out@ =~= v@.take(0));
    }
    while i < v.len()
        invariant
            i <= v@.len(),
            out@.len() == i,
            forall|p: int, q: int|
                0 <= p < q < out@.len() ==> le_sort(#[trigger] out@[p], #[trigger] out@[q]),
            out@.to_multiset() == v@.take(i as int).to_multiset(),
        decreases v@.len() - i,
    {
        let x: u64 = v[i];
        let ghost pre = out@;
        let mut j: usize = 0;
        while j < out.len() && le_sorted(out[j], x)
            invariant
                j <= out@.len(),
                out@ == pre,
                forall|k: int| 0 <= k < j ==> le_sort(#[trigger] out@[k], x),
            decreases out@.len() - j,
        {
            j = j + 1;
        }
        proof {
            lemma_sort_leq_total();
            if j < out@.len() {
                assert(!le_sort(out@[j as int], x));
                assert(sort_leq()(out@[j as int], x) == le_sort(out@[j as int], x));
                assert(sort_leq()(x, out@[j as int]) == le_sort(x, out@[j as int]));
                assert(le_sort(x, out@[j as int]));
            }
        }
        out.insert(j, x);
        proof {
            lemma_seq_insert_multiset(pre, j as int, x);
            assert forall|a: int, b: int| 0 <= a < b < out@.len() implies le_sort(
                #[trigger] out@[a],
                #[trigger] out@[b],
            ) by {
                if b < j {
                    assert(out@[a] == pre[a] && out@[b] == pre[b]);
                } else if b == j {
                    assert(out@[a] == pre[a] && out@[b] == x);
                } else if a == j {
                    assert(out@[a] == x && out@[b] == pre[b - 1]);
                    assert(le_sort(x, pre[j as int]) || j as int == b - 1);
                } else if a < j {
                    assert(out@[a] == pre[a] && out@[b] == pre[b - 1]);
                } else {
                    assert(out@[a] == pre[a - 1] && out@[b] == pre[b - 1]);
                }
            }
            assert(v@.take(i + 1).drop_last() =~= v@.take(i as int));
            assert(v@.take(i + 1) =~= v@.take(i as int).push(x));
            lemma_push_multiset(v@.take(i as int), x);
        }
        i = i + 1;
    }
    proof {
        assert(v@.take(v@.len() as int) =~= v@);
        lemma_sort_leq_total();
        v@.lemma_sort_by_ensures(sort_leq());
        assert(sorted_by(out@, sort_leq())) by {
            assert forall|p: int, q: int| 0 <= p < q < out@.len() implies #[trigger] sort_leq()(
                out@[p],
                out@[q],
            ) by {
                assert(le_sort(out@[p], out@[q]));
            }
        }
        lemma_sorted_unique(out@, v@.sort_by(sort_leq()), sort_leq());
        proof_multiset_len(out@);
        proof_multiset_len(v@);
    }
    out
}

proof fn lemma_push_multiset(s: Seq<u64>, x: u64)
    ensures
        s.push(x).to_multiset() == s.to_multiset().insert(x),
{
    s.to_multiset_ensures();
}

/// The median of the finite entries: the input is filtered, a sorted copy
/// is taken (the input itself is left untouched), and the middle entry, or
/// the rounding half-sum of the two central entries, is returned.
pub fn calculate_median(values: &Vec<u64>) -> (r: Option<u64>)
    ensures
        r == median_spec(values@),
{
    proof {
        lemma_median_absent_iff_no_finite(values@);
    }
    let f = collect_finite(values);
    if f.len() == 0 {
        return None;
    }
    let s = sorted_copy(&f);
    let mid: usize = s.len() / 2;
    if s.len() % 2 == 1 {
        Some(s[mid])
    } else {
        Some(div_bits(add_bits(s[mid - 1], s[mid]), TWO_BITS))
    }
}

/// The population variance of the finite entries: the mean of the squared
/// deviations from their mean, with the count as divisor.
pub fn calculate_variance(values: &Vec<u64>) -> (r: Option<u64>)
    ensures
        r == variance_spec(values@),
{
    let f = collect_finite(values);
    if f.len() == 0 {
        return None;
    }
    let mean = calculate_average(&f);
    proof {
        lemma_finite_seq_idempotent(values@);
    }
    let mut acc: u64 = 0;
    let mut i: usize = 0;
    while i < f.len()
        invariant
            i <= f@.len(),
            mean == mean_of_finite(f@),
            acc == sq_dev_sum(f@.take(i as int), mean),
        decreases f@.len() - i,
    {
        proof {
            assert(f@.take(i + 1).drop_last() =~= f@.take(i as int));
            assert(f@.take(i + 1).last() == f@[i as int]);
        }
        let d: u64 = sub_bits(f[i], mean);
        acc = add_bits(acc, mul_bits(d, d));
        i = i + 1;
    }
    proof {
        assert(f@.take(f@.len() as int) =~= f@);
    }
    Some(div_bits(acc, u64_to_bits(f.len() as u64)))
}

/// The square root of the variance; absence is propagated unchanged.
pub fn calculate_std_deviation(values: &Vec<u64>) -> (r: Option<u64>)
    ensures
        r == std_deviation_spec(values@),
{
    match calculate_variance(values) {
        None => None,
        Some(v) => Some(sqrt_bits(v)),
    }
}

/// The least entry under the tie-tolerant numeric order, first occurrence
/// on ties; `None` for an empty input.  Non-finite entries are not
/// filtered here: this asymmetry with the other statistics is deliberate.
pub fn find_min(values: &Vec<u64>) -> (r: Option<u64>)
    ensures
        values@.len() == 0 ==> r is None,
        values@.len() > 0 ==> r == Some(min_fold(values@)),
{
    if values.len() == 0 {
        return None;
    }
    let mut acc: u64 = values[0];
    let mut i: usize = 1;
    while i < values.len()
        invariant
            1 <= i <= values@.len(),
            acc == min_fold(values@.take(i as int)),
        decreases values@.len() - i,
    {
        proof {
            assert(values@.take(i + 1).drop_last() =~= values@.take(i as int));
            assert(values@.take(i + 1).last() == values@[i as int]);
        }
        let x: u64 = values[i];
        if lt(x, acc) {
            acc = x;
        }
        i = i + 1;
    }
    proof {
        assert(values@.take(values@.len() as int) =~= values@);
    }
    Some(acc)
}

/// The greatest entry under the tie-tolerant numeric order, first
/// occurrence on ties; `None` for an empty input.  Non-finite entries are
/// not filtered here either.
pub fn find_max(values: &Vec<u64>) -> (r: Option<u64>)
    ensures
        values@.len() == 0 ==> r is None,
        values@.len() > 0 ==> r == Some(max_fold(values@)),
{
    if values.len() == 0 {
        return None;
    }
    let mut acc: u64 = values[0];
    let mut i: usize = 1;
    while i < values.len()
        invariant
            1 <= i <= values@.len(),
            acc == max_fold(values@.take(i as int)),
        decreases values@.len() - i,
    {
        proof {
            assert(values@.take(i + 1).drop_last() =~= values@.take(i as int));
            assert(values@.take(i + 1).last() == values@[i as int]);
        }
        let x: u64 = values[i];
        if lt(acc, x) {
            acc = x;
        }
        i = i + 1;
    }
    proof {
        assert(values@.take(values@.len() as int) =~= values@);
    }
    Some(acc)
}

} // verus!
