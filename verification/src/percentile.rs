//! Order statistics over latency samples.

use vstd::multiset::Multiset;
use vstd::prelude::*;
use vstd::relations::{sorted_by, total_ordering};
use vstd::seq_lib::lemma_sorted_unique;

verus! {

/// The samples in ascending order.
pub open spec fn ascending(samples: Seq<u128>) -> Seq<u128> {
    samples.sort_by(|a: u128, b: u128| a <= b)
}

/// Sorts in place, as the standard library's `sort_unstable` on a slice does: afterwards
/// the entries are in ascending order, and they are the same entries, each as often as
/// before.
#[verifier::external_body]
fn sort_unstable(v: &mut Vec<u128>)
    ensures
        sorted_by(final(v)@, |a: u128, b: u128| a <= b),
        final(v)@.to_multiset() == old(v)@.to_multiset(),
{
    v.sort_unstable();
}

/// Sorts in place.
pub fn sort(v: &mut Vec<u128>)
    ensures
        final(v)@ == ascending(old(v)@),
        final(v)@.len() == old(v)@.len(),
{
    let ghost before = v@;
    sort_unstable(v);
    proof {
        let leq = |a: u128, b: u128| a <= b;
        assert(total_ordering(leq));
        before.lemma_sort_by_ensures(leq);
        lemma_sorted_unique(v@, ascending(before), leq);
        vstd::seq_lib::to_multiset_len(v@);
        vstd::seq_lib::to_multiset_len(before);
    }
}

/// The nearest rank for `per_mille` thousandths of `n` samples: the least whole number
/// that is no less than that share of `n`.
pub open spec fn nearest_rank(n: nat, per_mille: nat) -> nat {
    (per_mille * n + 999) / 1000
}

/// The position of the nearest rank, kept inside the samples.
pub open spec fn rank_index(n: nat, per_mille: nat) -> nat {
    let rank = nearest_rank(n, per_mille);
    if n == 0 || rank == 0 {
        0
    } else if rank - 1 < n - 1 {
        (rank - 1) as nat
    } else {
        (n - 1) as nat
    }
}

/// Nearest-rank index into a sorted slice of length `n`, for a percentile in thousandths.
/// The one definition that every latency consumer shares.
pub fn percentile_index(n: usize, per_mille: u64) -> (r: usize)
    ensures
        r == rank_index(n as nat, per_mille as nat),
        n > 0 ==> r < n,
{
    if n == 0 {
        return 0;
    }
    assert(per_mille * n <= 0xFFFF_FFFF_FFFF_FFFF * 0xFFFF_FFFF_FFFF_FFFF) by (nonlinear_arith)
        requires
            0 <= per_mille <= 0xFFFF_FFFF_FFFF_FFFF,
            0 <= n <= 0xFFFF_FFFF_FFFF_FFFF,
    ;
    let rank: u128 = (per_mille as u128 * n as u128 + 999) / 1000;
    if rank == 0 {
        0
    } else if rank - 1 < (n - 1) as u128 {
        (rank - 1) as usize
    } else {
        n - 1
    }
}

/// At least the asked share of the samples is no greater than the percentile, and fewer
/// than that share are at earlier positions.
pub proof fn law_nearest_rank_covers(n: nat, per_mille: nat)
    requires
        n > 0,
        0 < per_mille <= 1000,
    ensures
        1000 * (rank_index(n, per_mille) + 1) >= per_mille * n,
        1000 * rank_index(n, per_mille) < per_mille * n,
{
    assert(per_mille * n > 0) by (nonlinear_arith)
        requires
            n > 0,
            per_mille > 0,
    ;
    assert(per_mille * n <= 1000 * n) by (nonlinear_arith)
        requires
            per_mille <= 1000,
    ;
}

/// A higher percentile is never a smaller sample.
pub proof fn law_percentiles_are_ordered(samples: Seq<u128>, p: nat, q: nat)
    requires
        samples.len() > 0,
        p <= q,
    ensures
        rank_index(samples.len(), p) <= rank_index(samples.len(), q),
        ascending(samples)[rank_index(samples.len(), p) as int] <= ascending(
            samples,
        )[rank_index(samples.len(), q) as int],
{
    let n = samples.len();
    assert(p * n <= q * n) by (nonlinear_arith)
        requires
            p <= q,
    ;
    let leq = |a: u128, b: u128| a <= b;
    assert(total_ordering(leq));
    samples.lemma_sort_by_ensures(leq);
    let s = ascending(samples);
    vstd::seq_lib::to_multiset_len(s);
    vstd::seq_lib::to_multiset_len(samples);
    let i = rank_index(n, p) as int;
    let j = rank_index(n, q) as int;
    if i < j {
        assert(leq(s[i], s[j]));
    }
}

/// How many of the samples are no greater than `x`.
pub open spec fn at_most(samples: Seq<u128>, x: u128) -> nat
    decreases samples.len(),
{
    if samples.len() == 0 {
        0
    } else {
        at_most(samples.drop_last(), x) + if samples.last() <= x {
            1nat
        } else {
            0nat
        }
    }
}

/// How many of the samples are less than `x`.
pub open spec fn less_than(samples: Seq<u128>, x: u128) -> nat
    decreases samples.len(),
{
    if samples.len() == 0 {
        0
    } else {
        less_than(samples.drop_last(), x) + if samples.last() < x {
            1nat
        } else {
            0nat
        }
    }
}

proof fn lemma_counts_of_multiset(s: Seq<u128>, x: u128)
    ensures
        at_most(s, x) == s.to_multiset().filter(|y: u128| y <= x).len(),
        less_than(s, x) == s.to_multiset().filter(|y: u128| y < x).len(),
    decreases s.len(),
{
    broadcast use vstd::multiset::group_multiset_axioms;
    broadcast use vstd::seq_lib::group_to_multiset_ensures;

    let le = |y: u128| y <= x;
    let lt = |y: u128| y < x;
    if s.len() == 0 {
        assert(s.to_multiset() =~= Multiset::empty());
        assert(s.to_multiset().filter(le) =~= Multiset::empty());
        assert(s.to_multiset().filter(lt) =~= Multiset::empty());
    } else {
        let front = s.drop_last();
        let last = s.last();
        lemma_counts_of_multiset(front, x);
        assert(s =~= front.push(last));
        let m = front.to_multiset();
        assert(s.to_multiset() =~= m.insert(last));
        assert(m.insert(last).filter(le) =~= if le(last) {
            m.filter(le).insert(last)
        } else {
            m.filter(le)
        });
        assert(m.insert(last).filter(lt) =~= if lt(last) {
            m.filter(lt).insert(last)
        } else {
            m.filter(lt)
        });
    }
}

proof fn lemma_counts_in_order(s: Seq<u128>, r: int, k: int)
    requires
        forall|i: int, j: int| 0 <= i <= j < s.len() ==> s[i] <= s[j],
        0 <= r < s.len(),
        0 <= k <= s.len(),
    ensures
        at_most(s.take(k), s[r]) >= if k <= r + 1 {
            k
        } else {
            r + 1
        },
        less_than(s.take(k), s[r]) <= r,
        less_than(s.take(k), s[r]) <= k,
    decreases k,
{
    if k > 0 {
        lemma_counts_in_order(s, r, k - 1);
        assert(s.take(k).drop_last() =~= s.take(k - 1));
        assert(s.take(k).last() == s[k - 1]);
        if k - 1 <= r {
            assert(s[k - 1] <= s[r]);
        } else {
            assert(s[r] <= s[k - 1]);
        }
    }
}

/// What a nearest-rank percentile is: one of the samples, such that at least the asked share
/// of them is no greater and less than that share is smaller.
pub proof fn law_percentiles_split_the_samples(samples: Seq<u128>, per_mille: nat)
    requires
        samples.len() > 0,
        0 < per_mille <= 1000,
    ensures
        ({
            let n = samples.len();
            let x = ascending(samples)[rank_index(n, per_mille) as int];
            &&& samples.contains(x)
            &&& 1000 * at_most(samples, x) >= per_mille * n
            &&& 1000 * less_than(samples, x) < per_mille * n
        }),
{
    let n = samples.len();
    let r = rank_index(n, per_mille) as int;
    let s = ascending(samples);
    law_nearest_rank_covers(n, per_mille);
    lemma_ascending(samples);
    lemma_counts_in_order(s, r, n as int);
    assert(s.take(n as int) =~= s);
    lemma_counts_of_multiset(s, s[r]);
    lemma_counts_of_multiset(samples, s[r]);
}

/// The samples in ascending order are the same samples, each as often.
pub proof fn lemma_ascending(samples: Seq<u128>)
    ensures
        ascending(samples).len() == samples.len(),
        ascending(samples).to_multiset() == samples.to_multiset(),
        forall|i: int, j: int|
            0 <= i <= j < samples.len() ==> ascending(samples)[i] <= ascending(samples)[j],
        forall|i: int| 0 <= i < samples.len() ==> samples.contains(#[trigger] ascending(samples)[i]),
        forall|x: u128| samples.contains(x) ==> ascending(samples).contains(x),
{
    let leq = |a: u128, b: u128| a <= b;
    let s = ascending(samples);
    assert(total_ordering(leq));
    samples.lemma_sort_by_ensures(leq);
    vstd::seq_lib::to_multiset_len(s);
    vstd::seq_lib::to_multiset_len(samples);
    assert forall|i: int, j: int| 0 <= i <= j < samples.len() implies s[i] <= s[j] by {
        if i < j {
            assert(leq(s[i], s[j]));
        }
    }
    assert forall|i: int| 0 <= i < samples.len() implies samples.contains(#[trigger] s[i]) by {
        vstd::seq_lib::to_multiset_contains(s, s[i]);
        vstd::seq_lib::to_multiset_contains(samples, s[i]);
        assert(s.contains(s[i]));
    }
    assert forall|x: u128| samples.contains(x) implies s.contains(x) by {
        vstd::seq_lib::to_multiset_contains(s, x);
        vstd::seq_lib::to_multiset_contains(samples, x);
    }
}

/// The first and the last sample in ascending order are the least and the greatest.
pub proof fn law_ends_are_the_extremes(samples: Seq<u128>)
    requires
        samples.len() > 0,
    ensures
        ({
            let least = ascending(samples)[0];
            let most = ascending(samples)[samples.len() - 1];
            &&& samples.contains(least) && samples.contains(most)
            &&& forall|i: int|
                0 <= i < samples.len() ==> least <= #[trigger] samples[i] <= most
        }),
{
    let s = ascending(samples);
    lemma_ascending(samples);
    assert forall|i: int| 0 <= i < samples.len() implies s[0] <= #[trigger] samples[i]
        <= s[samples.len() - 1] by {
        assert(samples.contains(samples[i]));
        assert(s.contains(samples[i]));
        let k = s.index_of(samples[i]);
        assert(s[0] <= s[k] && s[k] <= s[samples.len() - 1]);
    }
}

/// Shares outside the range give the ends: nothing the first sample, all and more the last.
pub proof fn law_shares_beyond_the_ends(n: nat, per_mille: nat)
    requires
        n > 0,
    ensures
        rank_index(n, 0) == 0,
        per_mille >= 1000 ==> rank_index(n, per_mille) == n - 1,
{
    assert(per_mille >= 1000 ==> per_mille * n >= 1000 * n) by (nonlinear_arith);
    assert(0 * n == 0) by (nonlinear_arith);
}

} // verus!
