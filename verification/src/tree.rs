//! Encode Tree Builder: from symbol frequency counts to length-limited
//! canonical Huffman codes.
//!
//! The pipeline merges the two lowest-weight nodes until one tree remains,
//! histograms the leaf depths clamped at the length limit, repairs the
//! histogram until the Kraft sum is exactly complete, deals the lengths out
//! to the symbols in decreasing frequency order, and assigns canonical codes.

use vstd::prelude::*;
use crate::kraft::two_pow;
use crate::kraft::count_len;
use crate::kraft::kraft_at;
use crate::kraft::code_of;
use crate::kraft::live_count;
use crate::kraft::subsum;
use crate::kraft::sumc;
use crate::kraft::gen_codes;
use crate::kraft::pow2e;
use crate::kraft::lemma_two_pow_pos;
use crate::kraft::lemma_two_pow_mono;
use crate::kraft::lemma_two_pow_adds;
use crate::kraft::lemma_two_pow_15;
use crate::kraft::lemma_subsum_update;
use crate::kraft::lemma_subsum_zeros;
use crate::kraft::lemma_subsum_tail_empty;
use crate::kraft::lemma_subsum_bound;
use crate::kraft::lemma_subsum_matches;
use crate::kraft::lemma_subsum_nonneg;
use crate::kraft::lemma_sumc_update;
use crate::kraft::lemma_sumc_mono;
use crate::kraft::lemma_sumc_member;
use crate::kraft::lemma_sumc_flat;
use crate::kraft::lemma_count_len_update;
use crate::kraft::lemma_count_len_absent;
use crate::kraft::lemma_live_count_take_step;
use crate::kraft::lemma_live_count_bounds;
use crate::types::HuffError;
use crate::types::CtData;
use crate::types::TreeDesc;

verus! {

/// Repair a depth histogram so that the Kraft sum at precision `max` is
/// exactly complete, keeping the total number of codes unchanged.
///
/// First over-full levels are relieved by pushing one code at a time one
/// level deeper; then the remaining slack is absorbed by pulling the deepest
/// codes one level shallower, which always lands exactly because the gap
/// stays divisible by the weight of the deepest occupied level.
#[verifier::loop_isolation(false)]
#[verifier::rlimit(60)]
pub fn repair_counts(counts: &mut Vec<usize>, max: usize, live: usize)
    requires
        1 <= max <= 15,
        old(counts)@.len() == max + 1,
        old(counts)@[0] == 0,
        sumc(old(counts)@, max as int) == live,
        2 <= live,
        live as int <= two_pow(max as nat),
    ensures
        final(counts)@.len() == max + 1,
        final(counts)@[0] == 0,
        sumc(final(counts)@, max as int) == live,
        subsum(final(counts)@, max as int) == two_pow(max as nat),
{
    let limit = pow2e(max);
    proof {
        lemma_two_pow_15();
        lemma_two_pow_mono(max as nat, 15);
    }
    // Horner evaluation of the Kraft sum.
    let mut total: usize = 0;
    let mut l: usize = 1;
    while l <= max
        invariant
            1 <= l <= max + 1,
            total == subsum(counts@, l - 1),
            total <= 0x7FFF0000,
        decreases max + 1 - l,
    {
        proof {
            lemma_live_le(live as int, max as nat);
            assert forall|j: int| 1 <= j <= l implies counts@[j] as int <= live by {
                lemma_sumc_member(counts@, j, max as int);
            }
            lemma_subsum_bound(counts@, l as int, live as int);
            lemma_two_pow_mono((l + 1) as nat, 16);
            assert(two_pow(16) == 0x10000) by {
                reveal_with_fuel(two_pow, 18);
            }
            assert(two_pow(0) == 1);
            assert(two_pow(1) == 2);
            lemma_two_pow_mono(1, (l + 1) as nat);
            assert(live * (two_pow((l + 1) as nat) - 2) <= 0x8000 * (0x10000 - 2))
                by (nonlinear_arith)
                requires
                    live <= 0x8000,
                    2 <= two_pow((l + 1) as nat) <= 0x10000,
            ;
            lemma_subsum_nonneg(counts@, l - 1);
            assert(subsum(counts@, l as int) == 2 * subsum(counts@, l - 1) + counts@[l as int]);
        }
        total = 2 * total + counts[l];
        l = l + 1;
    }
    // Phase one: push codes deeper while the space is over-full.
    while total > limit
        invariant
            counts@.len() == max + 1,
            counts@[0] == 0,
            sumc(counts@, max as int) == live,
            total == subsum(counts@, max as int),
            limit == two_pow(max as nat),
        decreases total,
    {
        // Find an occupied level strictly above the deepest.
        let mut l2: usize = max - 1;
        while l2 >= 1 && counts[l2] == 0
            invariant
                0 <= l2 <= max - 1,
                forall|j: int| l2 < j < max ==> counts@[j] as int == 0,
            decreases l2,
        {
            l2 = l2 - 1;
        }
        proof {
            if l2 == 0 || counts@[l2 as int] == 0 {
                assert(forall|j: int| 1 <= j < max ==> counts@[j] as int == 0);
                lemma_subsum_tail_empty(counts@, 0, (max - 1) as int);
                assert(subsum(counts@, (max - 1) as int) == 0);
                assert(sumc(counts@, (max - 1) as int) == 0);
                assert(total == counts@[max as int]);
                assert(live == counts@[max as int]);
                assert(false);
            }
        }
        let cl = counts[l2];
        let cn = counts[l2 + 1];
        proof {
            lemma_sumc_member(counts@, l2 + 1, max as int);
        }
        let ghost c0 = counts@;
        counts[l2] = cl - 1;
        counts[l2 + 1] = cn + 1;
        let d = pow2e(max - l2 - 1);
        proof {
            let ghost mid = c0.update(l2 as int, (cl - 1) as usize);
            lemma_subsum_update(c0, l2 as int, (cl - 1) as usize, max as int);
            lemma_sumc_update(c0, l2 as int, (cl - 1) as usize, max as int);
            lemma_subsum_update(mid, l2 + 1, (cn + 1) as usize, max as int);
            lemma_sumc_update(mid, l2 + 1, (cn + 1) as usize, max as int);
            lemma_two_pow_pos(((max - l2) - 1) as nat);
            lemma_two_pow_mono(((max - l2) - 1) as nat, max as nat);
            assert(two_pow(0) == 1);
            assert(two_pow(1) == 2);
            lemma_two_pow_adds(((max - l2) - 1) as nat, 1);
            assert(two_pow((max - l2) as nat) == 2 * two_pow(((max - l2) - 1) as nat));
            assert(counts@ == mid.update(l2 + 1, (cn + 1) as usize));
            assert(subsum(mid, max as int) == subsum(c0, max as int) + ((cl - 1) - cl) * two_pow(
                (max - l2) as nat,
            ));
            assert(subsum(counts@, max as int) == subsum(mid, max as int) + ((cn + 1) - cn)
                * two_pow((max - l2 - 1) as nat));
            assert(d == two_pow((max - l2 - 1) as nat));
            assert(total == subsum(c0, max as int));
            assert(subsum(counts@, max as int) == subsum(c0, max as int) - two_pow(
                ((max - l2) - 1) as nat,
            )) by (nonlinear_arith)
                requires
                    subsum(mid, max as int) == subsum(c0, max as int) + ((cl - 1) - cl) * two_pow(
                        (max - l2) as nat,
                    ),
                    subsum(counts@, max as int) == subsum(mid, max as int) + ((cn + 1) - cn)
                        * two_pow((max - l2 - 1) as nat),
                    two_pow((max - l2) as nat) == 2 * two_pow(((max - l2) - 1) as nat),
            ;
            assert(subsum(counts@, max as int) == total - d);
        }
        total = total - d;
    }
    // Phase two: pull the deepest codes shallower until the space is full.
    while total < limit
        invariant
            counts@.len() == max + 1,
            counts@[0] == 0,
            sumc(counts@, max as int) == live,
            total == subsum(counts@, max as int),
            limit == two_pow(max as nat),
            total <= limit,
        decreases limit - total,
    {
        // Find the deepest occupied level.
        let mut l2: usize = max;
        while l2 >= 1 && counts[l2] == 0
            invariant
                0 <= l2 <= max,
                forall|j: int| l2 < j <= max ==> counts@[j] as int == 0,
            decreases l2,
        {
            l2 = l2 - 1;
        }
        proof {
            if l2 == 0 || counts@[l2 as int] == 0 {
                assert(forall|j: int| 1 <= j <= max ==> counts@[j] as int == 0);
                lemma_subsum_zeros(counts@, max as int);
                assert(false);
            }
            if l2 == 1 {
                lemma_subsum_tail_empty(counts@, 1, max as int);
                assert(subsum(counts@, 0) == 0);
                assert(sumc(counts@, 0) == 0);
                assert(subsum(counts@, 1) == counts@[1] as int);
                assert(sumc(counts@, 1) == counts@[1] as int);
                assert(total == counts@[1] as int * two_pow((max - 1) as nat));
                assert(live * two_pow((max - 1) as nat) >= 2 * two_pow((max - 1) as nat))
                    by (nonlinear_arith)
                    requires
                        live >= 2,
                        two_pow((max - 1) as nat) >= 1,
                ;
                lemma_two_pow_pos((max - 1) as nat);
                lemma_two_pow_adds(1, (max - 1) as nat);
                assert(false);
            }
            assert(l2 >= 2);
        }
        let cl = counts[l2];
        let cp = counts[l2 - 1];
        // The gap is a positive multiple of this level's weight, so the pull
        // lands within the budget.
        proof {
            lemma_subsum_tail_empty(counts@, l2 as int, max as int);
            lemma_two_pow_adds(l2 as nat, (max - l2) as nat);
            let s = subsum(counts@, l2 as int);
            let t = two_pow((max - l2) as nat) as int;
            let p = two_pow(l2 as nat) as int;
            lemma_two_pow_pos((max - l2) as nat);
            assert(s * t < p * t ==> s < p) by (nonlinear_arith)
                requires
                    t >= 1,
            ;
            assert(s <= p - 1);
            assert(s * t <= (p - 1) * t && (p - 1) * t == p * t - t) by (nonlinear_arith)
                requires
                    s <= p - 1,
                    t >= 1,
            ;
            lemma_sumc_member(counts@, l2 - 1, max as int);
        }
        let ghost c0 = counts@;
        counts[l2] = cl - 1;
        counts[l2 - 1] = cp + 1;
        let d = pow2e(max - l2);
        proof {
            let ghost mid = c0.update(l2 as int, (cl - 1) as usize);
            lemma_subsum_update(c0, l2 as int, (cl - 1) as usize, max as int);
            lemma_sumc_update(c0, l2 as int, (cl - 1) as usize, max as int);
            lemma_subsum_update(mid, l2 - 1, (cp + 1) as usize, max as int);
            lemma_sumc_update(mid, l2 - 1, (cp + 1) as usize, max as int);
            assert(two_pow(0) == 1);
            assert(two_pow(1) == 2);
            lemma_two_pow_adds((max - l2) as nat, 1);
            assert(two_pow((max - l2 + 1) as nat) == 2 * two_pow((max - l2) as nat));
            assert(counts@ == mid.update(l2 - 1, (cp + 1) as usize));
            assert(subsum(mid, max as int) == subsum(c0, max as int) + ((cl - 1) - cl) * two_pow(
                (max - l2) as nat,
            ));
            assert(subsum(counts@, max as int) == subsum(mid, max as int) + ((cp + 1) - cp)
                * two_pow((max - l2 + 1) as nat));
            assert(d == two_pow((max - l2) as nat));
            assert(total == subsum(c0, max as int));
            assert(subsum(counts@, max as int) == subsum(c0, max as int) + two_pow(
                (max - l2) as nat,
            )) by (nonlinear_arith)
                requires
                    subsum(mid, max as int) == subsum(c0, max as int) + ((cl - 1) - cl) * two_pow(
                        (max - l2) as nat,
                    ),
                    subsum(counts@, max as int) == subsum(mid, max as int) + ((cp + 1) - cp)
                        * two_pow((max - l2 + 1) as nat),
                    two_pow((max - l2 + 1) as nat) == 2 * two_pow((max - l2) as nat),
            ;
            assert(subsum(counts@, max as int) == total + d);
        }
        total = total + d;
    }
}

proof fn lemma_live_le(live: int, max: nat)
    requires
        live <= two_pow(max),
        max <= 15,
    ensures
        live <= 0x8000,
{
    lemma_two_pow_mono(max, 15);
    lemma_two_pow_15();
}

/// Number of `true` entries.
pub open spec fn count_true(s: Seq<bool>) -> int
    decreases s.len(),
{
    if s.len() == 0 {
        0
    } else {
        count_true(s.drop_last()) + if s.last() {
            1int
        } else {
            0int
        }
    }
}

proof fn lemma_count_true_all(s: Seq<bool>)
    requires
        forall|k: int| 0 <= k < s.len() ==> s[k],
    ensures
        count_true(s) == s.len(),
    decreases s.len(),
{
    if s.len() > 0 {
        lemma_count_true_all(s.drop_last());
    }
}

proof fn lemma_count_true_update(s: Seq<bool>, i: int, v: bool)
    requires
        0 <= i < s.len(),
    ensures
        count_true(s.update(i, v)) == count_true(s) - (if s[i] {
            1int
        } else {
            0int
        }) + (if v {
            1int
        } else {
            0int
        }),
    decreases s.len(),
{
    if i == s.len() - 1 {
        assert(s.update(i, v).drop_last() =~= s.drop_last());
    } else {
        assert(s.update(i, v).drop_last() =~= s.drop_last().update(i, v));
        lemma_count_true_update(s.drop_last(), i, v);
    }
}

proof fn lemma_count_true_exists(s: Seq<bool>)
    requires
        count_true(s) > 0,
    ensures
        exists|i: int| 0 <= i < s.len() && s[i],
    decreases s.len(),
{
    if s.len() > 0 {
        if s.last() {
            assert(s[s.len() - 1]);
        } else {
            lemma_count_true_exists(s.drop_last());
            let i = choose|i: int| 0 <= i < s.len() - 1 && s.drop_last()[i];
            assert(s[i]);
        }
    }
}

proof fn lemma_count_true_two(s: Seq<bool>, i: int, j: int)
    requires
        0 <= i < j < s.len(),
        s[i],
        s[j],
    ensures
        count_true(s) >= 2,
    decreases s.len(),
{
    if j == s.len() - 1 {
        lemma_count_true_one(s.drop_last(), i);
    } else {
        lemma_count_true_two(s.drop_last(), i, j);
    }
}

proof fn lemma_count_true_one(s: Seq<bool>, i: int)
    requires
        0 <= i < s.len(),
        s[i],
    ensures
        count_true(s) >= 1,
    decreases s.len(),
{
    if i < s.len() - 1 {
        lemma_count_true_one(s.drop_last(), i);
    } else {
        lemma_count_true_nonneg(s.drop_last());
    }
}

proof fn lemma_count_true_nonneg(s: Seq<bool>)
    ensures
        count_true(s) >= 0,
    decreases s.len(),
{
    if s.len() > 0 {
        lemma_count_true_nonneg(s.drop_last());
    }
}

/// Number of symbols that are live (nonzero frequency) and not yet marked.
pub open spec fn live_unused(freqs: Seq<u16>, used: Seq<bool>) -> int
    decreases freqs.len(),
{
    if freqs.len() == 0 {
        0
    } else {
        live_unused(freqs.drop_last(), used.drop_last()) + if freqs.last() != 0 && !(
        used.len() == 0 || used.last()) {
            1int
        } else {
            0int
        }
    }
}

proof fn lemma_live_unused_all_false(freqs: Seq<u16>, used: Seq<bool>)
    requires
        used.len() == freqs.len(),
        forall|k: int| 0 <= k < used.len() ==> !used[k],
    ensures
        live_unused(freqs, used) == live_count(freqs),
    decreases freqs.len(),
{
    if freqs.len() > 0 {
        lemma_live_unused_all_false(freqs.drop_last(), used.drop_last());
    }
}

proof fn lemma_live_unused_update(freqs: Seq<u16>, used: Seq<bool>, i: int)
    requires
        used.len() == freqs.len(),
        0 <= i < freqs.len(),
        freqs[i] != 0,
        !used[i],
    ensures
        live_unused(freqs, used.update(i, true)) == live_unused(freqs, used) - 1,
    decreases freqs.len(),
{
    if i == freqs.len() - 1 {
        assert(used.update(i, true).drop_last() =~= used.drop_last());
    } else {
        assert(used.update(i, true).drop_last() =~= used.drop_last().update(i, true));
        lemma_live_unused_update(freqs.drop_last(), used.drop_last(), i);
    }
}

proof fn lemma_live_unused_exists(freqs: Seq<u16>, used: Seq<bool>)
    requires
        used.len() == freqs.len(),
        live_unused(freqs, used) > 0,
    ensures
        exists|i: int| 0 <= i < freqs.len() && freqs[i] != 0 && !used[i],
    decreases freqs.len(),
{
    let m = freqs.len();
    if m > 0 {
        if freqs.last() != 0 && !used.last() {
            assert(freqs[m - 1] != 0 && !used[m - 1]);
        } else {
            lemma_live_unused_exists(freqs.drop_last(), used.drop_last());
            let i = choose|i: int|
                0 <= i < m - 1 && freqs.drop_last()[i] != 0 && !used.drop_last()[i];
            assert(freqs[i] != 0 && !used[i]);
        }
    }
}

proof fn lemma_live_unused_zero(freqs: Seq<u16>, used: Seq<bool>, i: int)
    requires
        used.len() == freqs.len(),
        live_unused(freqs, used) == 0,
        0 <= i < freqs.len(),
        freqs[i] != 0,
    ensures
        used[i],
    decreases freqs.len(),
{
    lemma_live_unused_nonneg(freqs.drop_last(), used.drop_last());
    if i < freqs.len() - 1 {
        lemma_live_unused_zero(freqs.drop_last(), used.drop_last(), i);
    }
}

proof fn lemma_live_unused_nonneg(freqs: Seq<u16>, used: Seq<bool>)
    ensures
        live_unused(freqs, used) >= 0,
    decreases freqs.len(),
{
    if freqs.len() > 0 {
        lemma_live_unused_nonneg(freqs.drop_last(), used.drop_last());
    }
}

/// Exactly one live symbol: every other frequency is zero.
proof fn lemma_live_count_one(freqs: Seq<u16>, i: int, j: int)
    requires
        live_count(freqs) == 1,
        0 <= i < freqs.len(),
        0 <= j < freqs.len(),
        i != j,
        freqs[i] != 0,
    ensures
        freqs[j] == 0,
{
    if freqs[j] != 0 {
        if i < j {
            lemma_live_count_two(freqs, i, j);
        } else {
            lemma_live_count_two(freqs, j, i);
        }
    }
}

proof fn lemma_live_count_two(freqs: Seq<u16>, i: int, j: int)
    requires
        0 <= i < j < freqs.len(),
        freqs[i] != 0,
        freqs[j] != 0,
    ensures
        live_count(freqs) >= 2,
    decreases freqs.len(),
{
    if j == freqs.len() - 1 {
        lemma_live_count_one_lb(freqs.drop_last(), i);
    } else {
        lemma_live_count_two(freqs.drop_last(), i, j);
    }
}

proof fn lemma_live_count_one_lb(freqs: Seq<u16>, i: int)
    requires
        0 <= i < freqs.len(),
        freqs[i] != 0,
    ensures
        live_count(freqs) >= 1,
    decreases freqs.len(),
{
    if i < freqs.len() - 1 {
        lemma_live_count_one_lb(freqs.drop_last(), i);
    } else {
        lemma_live_count_bounds(freqs.drop_last());
    }
}

/// Index of the lowest-weight active node; ties go to the smallest index,
/// so the choice is deterministic.
#[verifier::loop_isolation(false)]
fn find_min(weight: &Vec<u64>, act: &Vec<bool>) -> (r: usize)
    requires
        weight@.len() == act@.len(),
        count_true(act@) >= 1,
    ensures
        r < act@.len(),
        act@[r as int],
{
    let n = act.len();
    let mut best: usize = n;
    let mut k: usize = 0;
    while k < n
        invariant
            k <= n,
            best == n || (best < n && act@[best as int]),
            best == n ==> forall|j: int| 0 <= j < k ==> !act@[j],
        decreases n - k,
    {
        if act[k] && (best == n || weight[k] < weight[best]) {
            best = k;
        }
        k = k + 1;
    }
    proof {
        if best == n {
            lemma_count_true_exists(act@);
            assert(false);
        }
    }
    best
}

/// Index of the highest-frequency live unmarked symbol; ties go to the
/// smallest index.
#[verifier::loop_isolation(false)]
fn pick_max(freqs: &Vec<u16>, used: &Vec<bool>) -> (r: usize)
    requires
        freqs@.len() == used@.len(),
        live_unused(freqs@, used@) >= 1,
    ensures
        r < freqs@.len(),
        freqs@[r as int] != 0,
        !used@[r as int],
        forall|j: int|
            0 <= j < freqs@.len() && freqs@[j] != 0 && !used@[j] ==> freqs@[j] <= freqs@[r as int],
{
    let n = freqs.len();
    let mut best: usize = n;
    let mut k: usize = 0;
    while k < n
        invariant
            k <= n,
            best == n || (best < n && freqs@[best as int] != 0 && !used@[best as int]),
            best == n ==> forall|j: int| 0 <= j < k ==> !(freqs@[j] != 0 && !used@[j]),
            best < n ==> forall|j: int|
                0 <= j < k && freqs@[j] != 0 && !used@[j] ==> freqs@[j] <= freqs@[best as int],
        decreases n - k,
    {
        if freqs[k] > 0 && !used[k] && (best == n || freqs[k] > freqs[best]) {
            best = k;
        }
        k = k + 1;
    }
    proof {
        if best == n {
            lemma_live_unused_exists(freqs@, used@);
            assert(false);
        }
    }
    best
}

/// Build the depth histogram of a Huffman tree over the live symbols:
/// repeatedly merge the two lowest-weight nodes (ties broken by smallest
/// index) until one root remains, then histogram the leaf depths, clamping
/// any depth beyond `max` at `max`.
#[verifier::loop_isolation(false)]
#[verifier::rlimit(60)]
fn natural_histogram(freqs: &Vec<u16>, max: usize, live: usize) -> (counts: Vec<usize>)
    requires
        1 <= max <= 15,
        freqs@.len() <= 0x8000,
        live as int == live_count(freqs@),
        live >= 2,
    ensures
        counts@.len() == max + 1,
        counts@[0] == 0,
        sumc(counts@, max as int) == live as int,
{
    let n = freqs.len();
    let mut weight: Vec<u64> = Vec::new();
    let mut parent: Vec<usize> = Vec::new();
    let mut act: Vec<bool> = Vec::new();
    let mut i: usize = 0;
    while i < n
        invariant
            i <= n,
            weight@.len() == live_count(freqs@.take(i as int)),
            parent@.len() == weight@.len(),
            act@.len() == weight@.len(),
            forall|k: int| 0 <= k < act@.len() ==> act@[k],
            forall|k: int| 0 <= k < weight@.len() ==> weight@[k] <= 0x7FFFFFFFFFFFFFFF,
        decreases n - i,
    {
        proof {
            lemma_live_count_take_step(freqs@, i as int);
        }
        if freqs[i] > 0 {
            weight.push(freqs[i] as u64);
            parent.push(0);
            act.push(true);
        }
        i = i + 1;
    }
    proof {
        assert(freqs@.take(n as int) =~= freqs@);
        lemma_count_true_all(act@);
    }
    let mut rem: usize = live;
    while rem >= 2
        invariant
            1 <= rem <= live,
            parent@.len() == weight@.len(),
            act@.len() == weight@.len(),
            weight@.len() == live + live - rem,
            rem as int == count_true(act@),
            act@[act@.len() - 1],
            forall|k: int| 0 <= k < act@.len() ==> !act@[k] ==> parent@[k] > k && parent@[k]
                < weight@.len(),
            forall|k: int| 0 <= k < weight@.len() ==> weight@[k] <= 0x7FFFFFFFFFFFFFFF,
        decreases rem,
    {
        let a = find_min(&weight, &act);
        let ghost act0 = act@;
        act[a] = false;
        proof {
            lemma_count_true_update(act0, a as int, false);
        }
        let b = find_min(&weight, &act);
        let ghost act1 = act@;
        act[b] = false;
        proof {
            lemma_count_true_update(act1, b as int, false);
        }
        let idx = weight.len();
        let wa = weight[a];
        let wb = weight[b];
        let nw: u64 = if wa > 0x7FFFFFFFFFFFFFFF - wb {
            0x7FFFFFFFFFFFFFFF
        } else {
            wa + wb
        };
        parent[a] = idx;
        parent[b] = idx;
        weight.push(nw);
        parent.push(0);
        let ghost act2 = act@;
        act.push(true);
        proof {
            assert(act@.drop_last() =~= act2);
        }
        rem = rem - 1;
    }
    // Exactly the root is still active, and it is the last node.
    let total = weight.len();
    proof {
        assert forall|k: int| 0 <= k < total - 1 implies !act@[k] by {
            if act@[k] {
                lemma_count_true_two(act@, k, total - 1);
            }
        }
    }
    // Depths, from the root down: every non-root node's parent lies above it.
    let mut depth: Vec<u16> = Vec::new();
    let mut z: usize = 0;
    while z < total
        invariant
            z <= total,
            depth@.len() == z,
            forall|j: int| 0 <= j < z ==> depth@[j] == 0,
        decreases total - z,
    {
        depth.push(0);
        z = z + 1;
    }
    proof {
        assert forall|k: int| 0 <= k < total - 1 implies parent@[k] > k && parent@[k]
            < total by {
            assert(!act@[k]);
        }
    }
    proof {
        lemma_live_count_bounds(freqs@);
    }
    let mut idx2: usize = total - 1;
    while idx2 >= 1
        invariant
            0 <= idx2 <= total - 1,
            depth@.len() == total,
            total == weight@.len(),
            parent@.len() == total,
            total <= 0xFFFF,
            forall|k: int| 0 <= k < total - 1 ==> parent@[k] > k && parent@[k] < total,
            forall|j: int| idx2 <= j < total ==> depth@[j] as int <= total - 1 - j,
            forall|j: int| idx2 <= j < total - 1 ==> depth@[j] >= 1,
        decreases idx2,
    {
        idx2 = idx2 - 1;
        let p = parent[idx2];
        let dp = depth[p];
        depth[idx2] = dp + 1;
    }
    // Histogram of the live leaves, which are the first `live` nodes.
    let mut counts: Vec<usize> = Vec::new();
    let mut l: usize = 0;
    while l < max + 1
        invariant
            counts@.len() == l <= max + 1,
            forall|j: int| 0 <= j < l ==> counts@[j] == 0,
        decreases max + 1 - l,
    {
        counts.push(0);
        l = l + 1;
    }
    proof {
        lemma_subsum_zeros(counts@, max as int);
    }
    let mut k: usize = 0;
    while k < live
        invariant
            k <= live,
            counts@.len() == max + 1,
            counts@[0] == 0,
            sumc(counts@, max as int) == k,
            depth@.len() == total,
            live <= total - 1,
        decreases live - k,
    {
        let dk = depth[k];
        let lv: usize = if dk as usize > max {
            max
        } else {
            dk as usize
        };
        proof {
            assert(depth@[k as int] >= 1);
            lemma_sumc_member(counts@, lv as int, max as int);
            lemma_sumc_update(counts@, lv as int, (counts@[lv as int] + 1) as usize, max as int);
        }
        let c = counts[lv];
        counts[lv] = c + 1;
        k = k + 1;
    }
    counts
}

/// Deal the repaired histogram's lengths out to the live symbols in order
/// of decreasing frequency (ties by smallest index), shortest lengths to
/// the most frequent symbols. Realizes exactly the histogram, and keeps
/// the rule that a higher frequency never gets a longer code.
#[verifier::loop_isolation(false)]
#[verifier::rlimit(100)]
fn assign_lengths(freqs: &Vec<u16>, counts: &Vec<usize>, max: usize, live: usize) -> (lens: Vec<
    u8,
>)
    requires
        1 <= max <= 15,
        freqs@.len() <= 0x8000,
        live as int == live_count(freqs@),
        live >= 1,
        counts@.len() == max + 1,
        counts@[0] == 0,
        sumc(counts@, max as int) == live as int,
    ensures
        lens@.len() == freqs@.len(),
        forall|i: int| 0 <= i < freqs@.len() ==> ((freqs@[i] == 0) <==> (lens@[i] == 0)),
        forall|i: int| 0 <= i < freqs@.len() ==> (freqs@[i] != 0 ==> 1 <= lens@[i] as int <= max),
        forall|i: int, j: int|
            0 <= i < freqs@.len() && 0 <= j < freqs@.len() && freqs@[i] > freqs@[j] && freqs@[j]
                != 0 ==> lens@[i] <= lens@[j],
        forall|l: int| 1 <= l <= max ==> count_len(lens@, l) == counts@[l] as int,
{
    let n = freqs.len();
    let mut lens: Vec<u8> = Vec::new();
    let mut used: Vec<bool> = Vec::new();
    let mut z: usize = 0;
    while z < n
        invariant
            z <= n,
            lens@.len() == z,
            used@.len() == z,
            forall|j: int| 0 <= j < z ==> lens@[j] == 0,
            forall|j: int| 0 <= j < z ==> !used@[j],
        decreases n - z,
    {
        lens.push(0);
        used.push(false);
        z = z + 1;
    }
    proof {
        lemma_live_unused_all_false(freqs@, used@);
        assert forall|l: int| 1 <= l <= 255 implies count_len(lens@, l) == 0 by {
            lemma_count_len_absent(lens@, l);
        }
    }
    let mut cur_l: usize = 1;
    let mut dealt: usize = 0;
    let mut k: usize = 0;
    while k < live
        invariant
            k <= live,
            lens@.len() == n,
            used@.len() == n,
            1 <= cur_l <= max + 1,
            live_unused(freqs@, used@) == live - k,
            k as int == sumc(counts@, cur_l - 1) + dealt,
            cur_l <= max ==> dealt <= counts@[cur_l as int],
            cur_l == max + 1 ==> dealt == 0,
            forall|l: int| 1 <= l < cur_l ==> count_len(lens@, l) == counts@[l] as int,
            cur_l <= max ==> count_len(lens@, cur_l as int) == dealt,
            forall|i: int| 0 <= i < n ==> lens@[i] as int <= cur_l,
            forall|i: int| 0 <= i < n ==> (used@[i] ==> freqs@[i] != 0 && 1 <= lens@[i] as int
                <= max && lens@[i] as int <= cur_l),
            forall|i: int| 0 <= i < n ==> (!used@[i] ==> lens@[i] == 0),
            forall|i: int, j: int|
                0 <= i < n && 0 <= j < n && used@[i] && used@[j] && freqs@[i] > freqs@[j]
                    ==> lens@[i] <= lens@[j],
            forall|i: int, j: int|
                0 <= i < n && 0 <= j < n && used@[i] && !used@[j] && freqs@[j] != 0 ==> freqs@[j]
                    <= freqs@[i],
        decreases live - k,
    {
        while cur_l <= max && dealt == counts[cur_l]
            invariant
                1 <= cur_l <= max + 1,
                k as int == sumc(counts@, cur_l - 1) + dealt,
                cur_l <= max ==> dealt <= counts@[cur_l as int],
                cur_l == max + 1 ==> dealt == 0,
                forall|l: int| 1 <= l < cur_l ==> count_len(lens@, l) == counts@[l] as int,
                cur_l <= max ==> count_len(lens@, cur_l as int) == dealt,
                forall|i: int| 0 <= i < n ==> lens@[i] as int <= cur_l,
            decreases max + 1 - cur_l,
        {
            proof {
                assert(sumc(counts@, cur_l as int) == sumc(counts@, cur_l - 1)
                    + counts@[cur_l as int]);
                if cur_l + 1 <= max {
                    assert forall|i: int| 0 <= i < n implies lens@[i] as int != cur_l + 1 by {}
                    lemma_count_len_absent(lens@, cur_l + 1);
                }
            }
            cur_l = cur_l + 1;
            dealt = 0;
        }
        proof {
            if cur_l == max + 1 {
                assert(k as int == sumc(counts@, max as int));
                assert(false);
            }
            lemma_live_unused_nonneg(freqs@, used@);
        }
        let p = pick_max(freqs, &used);
        let ghost lens0 = lens@;
        let ghost used0 = used@;
        lens[p] = cur_l as u8;
        used[p] = true;
        proof {
            lemma_live_unused_update(freqs@, used0, p as int);
            assert forall|l: int| 1 <= l <= max + 1 implies count_len(lens@, l) == count_len(
                lens0,
                l,
            ) + (if l == cur_l {
                1int
            } else {
                0int
            }) by {
                lemma_count_len_update(lens0, p as int, cur_l as u8, l);
            }
        }
        dealt = dealt + 1;
        k = k + 1;
    }
    proof {
        // All live symbols are marked, and the histogram is fully realized.
        assert forall|i: int| 0 <= i < n && freqs@[i] != 0 implies used@[i] by {
            lemma_live_unused_zero(freqs@, used@, i);
        }
        if cur_l <= max {
            lemma_sumc_mono(counts@, cur_l as int, max as int);
            lemma_sumc_mono(counts@, cur_l - 1, cur_l as int);
            assert(sumc(counts@, cur_l as int) == sumc(counts@, cur_l - 1)
                + counts@[cur_l as int]);
            assert(dealt == counts@[cur_l as int]);
            assert forall|l: int| cur_l < l <= max implies counts@[l] as int == 0 by {
                lemma_sumc_flat(counts@, cur_l as int, max as int, l);
            }
            assert forall|l: int| cur_l < l <= max implies count_len(lens@, l) == 0 by {
                lemma_count_len_absent(lens@, l);
            }
        }
    }
    lens
}

/// Build a length-limited canonical Huffman code for a frequency table.
///
/// Fails with `LengthLimitExceeded` exactly when more symbols are live than
/// `max_length`-bit codes exist. Otherwise every live symbol gets a length
/// between 1 and `max_length`, a more frequent symbol never gets a longer
/// code than a less frequent one, the lengths form a complete code whenever
/// two or more symbols are live, a single live symbol gets length 1, and
/// the code words are the canonical assignment determined by the lengths.
#[verifier::loop_isolation(false)]
pub fn build_tree(freqs: &Vec<u16>, max_length: usize) -> (r: Result<
    (Vec<u16>, Vec<u8>),
    HuffError,
>)
    requires
        1 <= max_length <= 15,
        freqs@.len() <= 0x8000,
    ensures
        match r {
            Result::Err(e) => e == HuffError::LengthLimitExceeded && live_count(freqs@) > two_pow(
                max_length as nat,
            ),
            Result::Ok(p) => {
                &&& live_count(freqs@) <= two_pow(max_length as nat)
                &&& p.0@.len() == freqs@.len()
                &&& p.1@.len() == freqs@.len()
                &&& forall|i: int|
                    0 <= i < freqs@.len() ==> ((freqs@[i] == 0) <==> (p.1@[i] == 0))
                &&& forall|i: int|
                    0 <= i < freqs@.len() ==> (freqs@[i] != 0 ==> 1 <= p.1@[i] as int
                        <= max_length)
                &&& forall|i: int, j: int|
                    0 <= i < freqs@.len() && 0 <= j < freqs@.len() && freqs@[i] > freqs@[j]
                        && freqs@[j] != 0 ==> p.1@[i] <= p.1@[j]
                &&& (live_count(freqs@) >= 2 ==> kraft_at(p.1@, max_length as int) == two_pow(
                    max_length as nat,
                ))
                &&& (live_count(freqs@) == 1 ==> forall|i: int|
                    0 <= i < freqs@.len() && freqs@[i] != 0 ==> p.1@[i] == 1)
                &&& forall|i: int|
                    0 <= i < freqs@.len() ==> if p.1@[i] > 0 {
                        p.0@[i] as int == code_of(p.1@, i)
                    } else {
                        p.0@[i] == 0
                    }
            },
        },
{
    let n = freqs.len();
    let mut live: usize = 0;
    let mut i: usize = 0;
    while i < n
        invariant
            i <= n,
            live as int == live_count(freqs@.take(i as int)),
            live <= i,
        decreases n - i,
    {
        proof {
            lemma_live_count_take_step(freqs@, i as int);
        }
        if freqs[i] > 0 {
            live = live + 1;
        }
        i = i + 1;
    }
    proof {
        assert(freqs@.take(n as int) =~= freqs@);
    }
    let limit = pow2e(max_length);
    if live > limit {
        return Result::Err(HuffError::LengthLimitExceeded);
    }
    if live == 0 {
        let mut codes: Vec<u16> = Vec::new();
        let mut lens: Vec<u8> = Vec::new();
        let mut z: usize = 0;
        while z < n
            invariant
                z <= n,
                codes@.len() == z,
                lens@.len() == z,
                forall|j: int| 0 <= j < z ==> codes@[j] == 0 && lens@[j] == 0,
            decreases n - z,
        {
            codes.push(0);
            lens.push(0);
            z = z + 1;
        }
        proof {
            assert forall|j: int| 0 <= j < n implies freqs@[j] == 0 by {
                lemma_live_count_one_lb_contra(freqs@, j);
            }
        }
        return Result::Ok((codes, lens));
    }
    if live == 1 {
        let mut codes: Vec<u16> = Vec::new();
        let mut lens: Vec<u8> = Vec::new();
        let mut z: usize = 0;
        while z < n
            invariant
                z <= n,
                codes@.len() == z,
                lens@.len() == z,
                forall|j: int| 0 <= j < z ==> codes@[j] == 0 && lens@[j] == 0,
            decreases n - z,
        {
            codes.push(0);
            lens.push(0);
            z = z + 1;
        }
        let mut idx: usize = 0;
        while idx < n && freqs[idx] == 0
            invariant
                idx <= n,
                forall|j: int| 0 <= j < idx ==> freqs@[j] == 0,
            decreases n - idx,
        {
            idx = idx + 1;
        }
        proof {
            if idx == n {
                lemma_live_count_absent(freqs@);
                assert(false);
            }
        }
        let ghost lens0 = lens@;
        lens[idx] = 1;
        proof {
            assert forall|j: int|
                0 <= j < n && j != idx implies freqs@[j] == 0 && lens@[j] == 0 by {
                lemma_live_count_one(freqs@, idx as int, j);
            }
            // The single code is the zero-bit-pattern code of length 1.
            lemma_count_len_absent(lens@.take(idx as int), 1);
            assert(kraft_at(lens@, 0) == 0);
            assert(code_of(lens@, idx as int) == 0);
        }
        return Result::Ok((codes, lens));
    }
    let mut counts = natural_histogram(freqs, max_length, live);
    repair_counts(&mut counts, max_length, live);
    let lens = assign_lengths(freqs, &counts, max_length, live);
    proof {
        lemma_subsum_matches(lens@, counts@, max_length as int);
    }
    let codes = gen_codes(&lens, max_length);
    Result::Ok((codes, lens))
}

/// A sequence with no live entry has live count zero.
proof fn lemma_live_count_absent(freqs: Seq<u16>)
    requires
        forall|k: int| 0 <= k < freqs.len() ==> freqs[k] == 0,
    ensures
        live_count(freqs) == 0,
    decreases freqs.len(),
{
    if freqs.len() > 0 {
        lemma_live_count_absent(freqs.drop_last());
    }
}

proof fn lemma_live_count_one_lb_contra(freqs: Seq<u16>, j: int)
    requires
        live_count(freqs) == 0,
        0 <= j < freqs.len(),
    ensures
        freqs[j] == 0,
{
    if freqs[j] != 0 {
        lemma_live_count_one_lb(freqs, j);
    }
}

/// Copy the frequency fields out of the working records.
#[verifier::loop_isolation(false)]
fn copy_freqs(tree: &Vec<CtData>) -> (freqs: Vec<u16>)
    ensures
        freqs@.len() == tree@.len(),
        forall|j: int| 0 <= j < tree@.len() ==> freqs@[j] == tree@[j].freq,
{
    let n = tree.len();
    let mut freqs: Vec<u16> = Vec::new();
    let mut i: usize = 0;
    while i < n
        invariant
            i <= n,
            n == tree@.len(),
            freqs@.len() == i,
            forall|j: int| 0 <= j < i ==> freqs@[j] == tree@[j].freq,
        decreases n - i,
    {
        let f = tree[i].freq;
        freqs.push(f);
        i = i + 1;
    }
    freqs
}

/// Write the computed codes and lengths back into the working records,
/// leaving frequencies and parent links untouched.
#[verifier::loop_isolation(false)]
fn write_back(tree: &mut Vec<CtData>, codes: &Vec<u16>, lens: &Vec<u8>)
    requires
        codes@.len() == old(tree)@.len(),
        lens@.len() == old(tree)@.len(),
    ensures
        final(tree)@.len() == old(tree)@.len(),
        forall|j: int|
            0 <= j < old(tree)@.len() ==> (#[trigger] final(tree)@[j]) == (CtData {
                freq: old(tree)@[j].freq,
                code: codes@[j],
                dad: old(tree)@[j].dad,
                len: lens@[j] as u16,
            }),
{
    let n = tree.len();
    let mut k: usize = 0;
    while k < n
        invariant
            k <= n,
            n == tree@.len(),
            codes@.len() == n,
            lens@.len() == n,
            forall|j: int| k <= j < n ==> (#[trigger] tree@[j]) == old(tree)@[j],
            forall|j: int|
                0 <= j < k ==> (#[trigger] tree@[j]) == (CtData {
                    freq: old(tree)@[j].freq,
                    code: codes@[j],
                    dad: old(tree)@[j].dad,
                    len: lens@[j] as u16,
                }),
        decreases n - k,
    {
        let rec = tree[k];
        let upd = CtData { freq: rec.freq, code: codes[k], dad: rec.dad, len: lens[k] as u16 };
        tree[k] = upd;
        k = k + 1;
    }
}

/// The code-length sequence held in a working array's `len` fields.
pub open spec fn len_seq(tree: Seq<CtData>) -> Seq<u8> {
    tree.map_values(|c: CtData| c.len as u8)
}

/// The frequency table held in a working array's `freq` fields.
pub open spec fn freq_seq(tree: Seq<CtData>) -> Seq<u16> {
    tree.map_values(|c: CtData| c.freq)
}

/// Run the tree builder over one alphabet's working records, as the block
/// encoder does: read each record's `freq`, and write its canonical `code`
/// and final `len`. Frequencies and parent links are left untouched.
#[verifier::loop_isolation(false)]
#[verifier::rlimit(100)]
#[verifier::spinoff_prover]
pub fn build_ct(tree: &mut Vec<CtData>, desc: &TreeDesc) -> (r: Result<(), HuffError>)
    requires
        1 <= desc.max_length <= 15,
        desc.elems as int == old(tree)@.len(),
        old(tree)@.len() <= 0x8000,
    ensures
        final(tree)@.len() == old(tree)@.len(),
        forall|i: int|
            0 <= i < old(tree)@.len() ==> (#[trigger] final(tree)@[i]).freq == old(tree)@[i].freq
                && final(tree)@[i].dad == old(tree)@[i].dad,
        r is Err <==> live_count(freq_seq(old(tree)@)) > two_pow(desc.max_length as nat),
        r is Err ==> r == Result::<(), HuffError>::Err(HuffError::LengthLimitExceeded),
        r is Ok ==> ({
            let ls = len_seq(final(tree)@);
            &&& forall|i: int|
                0 <= i < ls.len() ==> ((old(tree)@[i].freq == 0) <==> (ls[i] == 0))
            &&& forall|i: int|
                0 <= i < ls.len() ==> (old(tree)@[i].freq != 0 ==> 1 <= ls[i] as int
                    <= desc.max_length)
            &&& forall|i: int, j: int|
                0 <= i < ls.len() && 0 <= j < ls.len() && old(tree)@[i].freq > old(
                    tree,
                )@[j].freq && old(tree)@[j].freq != 0 ==> ls[i] <= ls[j]
            &&& forall|i: int|
                0 <= i < ls.len() ==> if ls[i] > 0 {
                    (#[trigger] final(tree)@[i]).code as int == code_of(ls, i)
                } else {
                    final(tree)@[i].code == 0
                }
        }),
{
    let freqs = copy_freqs(tree);
    proof {
        assert(freqs@ =~= freq_seq(tree@));
    }
    let built = build_tree(&freqs, desc.max_length as usize);
    match built {
        Result::Err(err) => {
            proof {
                assert(err == HuffError::LengthLimitExceeded);
                assert(live_count(freq_seq(old(tree)@)) > two_pow(desc.max_length as nat));
                assert(forall|i: int|
                    0 <= i < old(tree)@.len() ==> (#[trigger] tree@[i]).code == old(
                        tree,
                    )@[i].code && tree@[i].len == old(tree)@[i].len);
            }
            Result::Err(err)
        },
        Result::Ok(p) => {
            let (codes, lens) = p;
            proof {
                assert(live_count(freq_seq(old(tree)@)) <= two_pow(desc.max_length as nat));
                assert forall|j: int| 0 <= j < tree@.len() implies lens@[j] <= 15 by {
                    if freqs@[j] == 0 {
                        assert(lens@[j] == 0);
                    } else {
                        assert(1 <= lens@[j] as int <= desc.max_length);
                    }
                }
            }
            write_back(tree, &codes, &lens);
            proof {
                assert(len_seq(tree@) =~= lens@);
                let ls = len_seq(tree@);
                assert(ls == lens@);
                assert forall|q: int|
                    0 <= q < ls.len() implies ((old(tree)@[q].freq == 0) <==> (ls[q]
                    == 0)) by {
                    assert(freqs@[q] == old(tree)@[q].freq);
                }
                assert forall|q: int|
                    0 <= q < ls.len() implies (old(tree)@[q].freq != 0 ==> 1 <= ls[q] as int
                    <= desc.max_length) by {
                    assert(freqs@[q] == old(tree)@[q].freq);
                }
                assert forall|q: int, q2: int|
                    0 <= q < ls.len() && 0 <= q2 < ls.len() && old(tree)@[q].freq > old(
                        tree,
                    )@[q2].freq && old(tree)@[q2].freq != 0 implies ls[q] <= ls[q2] by {
                    assert(freqs@[q] == old(tree)@[q].freq);
                    assert(freqs@[q2] == old(tree)@[q2].freq);
                }
                assert forall|q: int|
                    0 <= q < ls.len() implies (if ls[q] > 0 {
                    (tree@[q]).code as int == code_of(ls, q)
                } else {
                    tree@[q].code == 0
                }) by {
                    assert(tree@[q].code == codes@[q]);
                    if ls[q] > 0 {
                        assert(codes@[q] as int == code_of(lens@, q));
                    }
                }
            }
            Result::Ok(())
        },
    }
}

/// No exchange of two live symbols' lengths reduces the total weighted
/// length: the builder never gives a more frequent symbol the longer code,
/// so swapping any two lengths can only keep or raise the cost.
pub proof fn lemma_no_exchange_improves(freqs: Seq<u16>, lens: Seq<u8>, i: int, j: int)
    requires
        0 <= i < freqs.len(),
        0 <= j < freqs.len(),
        lens.len() == freqs.len(),
        freqs[i] != 0,
        freqs[j] != 0,
        forall|a: int, b: int|
            0 <= a < freqs.len() && 0 <= b < freqs.len() && freqs[a] > freqs[b] && freqs[b] != 0
                ==> lens[a] <= lens[b],
    ensures
        freqs[i] * lens[i] + freqs[j] * lens[j] <= freqs[i] * lens[j] + freqs[j] * lens[i],
{
    let fi = freqs[i] as int;
    let fj = freqs[j] as int;
    let li = lens[i] as int;
    let lj = lens[j] as int;
    if freqs[i] > freqs[j] {
        assert(li <= lj);
        assert(fi * li + fj * lj <= fi * lj + fj * li) by (nonlinear_arith)
            requires
                fi >= fj,
                li <= lj,
        ;
    } else {
        assert(fj >= fi && (freqs[j] > freqs[i] ==> lj <= li));
        if freqs[j] > freqs[i] {
            assert(fi * li + fj * lj <= fi * lj + fj * li) by (nonlinear_arith)
                requires
                    fj >= fi,
                    lj <= li,
            ;
        }
    }
}

} // verus!
