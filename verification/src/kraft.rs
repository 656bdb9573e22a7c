//! Mathematical model shared by both builders: powers of two, code-length
//! histograms, and the Kraft sums that decide whether a set of code lengths
//! is over-subscribed, complete, or incomplete.

use vstd::prelude::*;

verus! {

/// 2^e over the naturals.
pub open spec fn two_pow(e: nat) -> nat
    decreases e,
{
    if e == 0 {
        1
    } else {
        2 * two_pow((e - 1) as nat)
    }
}

/// Number of entries of `lens` equal to `l`.
pub open spec fn count_len(lens: Seq<u8>, l: int) -> int
    decreases lens.len(),
{
    if lens.len() == 0 {
        0
    } else {
        count_len(lens.drop_last(), l) + if lens.last() == l {
            1int
        } else {
            0int
        }
    }
}

/// Number of nonzero entries of `lens`: the symbols that actually carry a code.
pub open spec fn count_live(lens: Seq<u8>) -> int
    decreases lens.len(),
{
    if lens.len() == 0 {
        0
    } else {
        count_live(lens.drop_last()) + if lens.last() != 0 {
            1int
        } else {
            0int
        }
    }
}

/// Largest entry of `lens` (0 when empty): the longest code length in use.
pub open spec fn max_len_of(lens: Seq<u8>) -> int
    decreases lens.len(),
{
    if lens.len() == 0 {
        0
    } else if lens.last() as int >= max_len_of(lens.drop_last()) {
        lens.last() as int
    } else {
        max_len_of(lens.drop_last())
    }
}

/// Kraft sum of the lengths at precision `l`, over the histogram:
/// `sum over 1 <= j <= l of count_len(lens, j) * 2^(l - j)`,
/// written with the Horner recurrence `K(l) = 2*K(l-1) + count_len(lens, l)`.
pub open spec fn kraft_at(lens: Seq<u8>, l: int) -> int
    decreases l,
{
    if l <= 0 {
        0
    } else {
        2 * kraft_at(lens, l - 1) + count_len(lens, l)
    }
}

/// The same Kraft sum written per symbol, as the completeness invariant
/// states it: `sum over symbols with nonzero length of 2^(max - length)`.
pub open spec fn sym_kraft(lens: Seq<u8>, max: int) -> int
    decreases lens.len(),
{
    if lens.len() == 0 {
        0
    } else {
        sym_kraft(lens.drop_last(), max) + if 0 < lens.last() && lens.last() <= max {
            two_pow((max - lens.last()) as nat) as int
        } else {
            0int
        }
    }
}

/// Kraft sum at precision `l` of an explicit histogram `counts`
/// (`counts[j]` = number of codes of length `j`; index 0 is ignored).
pub open spec fn subsum(counts: Seq<usize>, l: int) -> int
    decreases l,
{
    if l <= 0 {
        0
    } else {
        2 * subsum(counts, l - 1) + counts[l] as int
    }
}

/// Total number of codes of length 1 through `l` in the histogram.
pub open spec fn sumc(counts: Seq<usize>, l: int) -> int
    decreases l,
{
    if l <= 0 {
        0
    } else {
        sumc(counts, l - 1) + counts[l] as int
    }
}

pub proof fn lemma_two_pow_pos(e: nat)
    ensures
        two_pow(e) >= 1,
    decreases e,
{
    if e > 0 {
        lemma_two_pow_pos((e - 1) as nat);
    }
}

pub proof fn lemma_two_pow_adds(a: nat, b: nat)
    ensures
        two_pow(a + b) == two_pow(a) * two_pow(b),
    decreases a,
{
    if a == 0 {
        assert(two_pow(0) == 1);
        assert(1 * two_pow(b) == two_pow(b)) by (nonlinear_arith);
    } else {
        lemma_two_pow_adds((a - 1) as nat, b);
        let x = two_pow((a - 1) as nat);
        let y = two_pow(b);
        assert((a + b - 1) as nat == (a - 1) as nat + b);
        assert(two_pow(a + b) == 2 * two_pow((a - 1) as nat + b));
        assert(two_pow(a) == 2 * x);
        assert(2 * (x * y) == (2 * x) * y) by (nonlinear_arith);
    }
}

pub proof fn lemma_two_pow_mono(a: nat, b: nat)
    requires
        a <= b,
    ensures
        two_pow(a) <= two_pow(b),
    decreases b,
{
    if a < b {
        lemma_two_pow_mono(a, (b - 1) as nat);
        lemma_two_pow_pos((b - 1) as nat);
    }
}

pub proof fn lemma_count_len_bounds(lens: Seq<u8>, l: int)
    ensures
        0 <= count_len(lens, l) <= lens.len(),
    decreases lens.len(),
{
    if lens.len() > 0 {
        lemma_count_len_bounds(lens.drop_last(), l);
    }
}

pub proof fn lemma_count_live_bounds(lens: Seq<u8>)
    ensures
        0 <= count_live(lens) <= lens.len(),
    decreases lens.len(),
{
    if lens.len() > 0 {
        lemma_count_live_bounds(lens.drop_last());
    }
}

/// Extending a length sequence by one entry changes each histogram count
/// in the obvious way.
pub proof fn lemma_count_len_take_step(lens: Seq<u8>, l: int, i: int)
    requires
        0 <= i < lens.len(),
    ensures
        count_len(lens.take(i + 1), l) == count_len(lens.take(i), l) + if lens[i] == l {
            1int
        } else {
            0int
        },
        count_live(lens.take(i + 1)) == count_live(lens.take(i)) + if lens[i] != 0 {
            1int
        } else {
            0int
        },
{
    assert(lens.take(i + 1).drop_last() =~= lens.take(i));
    assert(lens.take(i + 1).last() == lens[i]);
}

pub proof fn lemma_count_len_update(lens: Seq<u8>, i: int, v: u8, l: int)
    requires
        0 <= i < lens.len(),
    ensures
        count_len(lens.update(i, v), l) == count_len(lens, l) - (if lens[i] == l {
            1int
        } else {
            0int
        }) + (if v == l {
            1int
        } else {
            0int
        }),
    decreases lens.len(),
{
    if i == lens.len() - 1 {
        assert(lens.update(i, v).drop_last() =~= lens.drop_last());
    } else {
        assert(lens.update(i, v).drop_last() =~= lens.drop_last().update(i, v));
        lemma_count_len_update(lens.drop_last(), i, v, l);
    }
}

/// The histogram-based Kraft sum agrees with any histogram sequence whose
/// entries match the counts of `lens`.
pub proof fn lemma_subsum_matches(lens: Seq<u8>, counts: Seq<usize>, l: int)
    requires
        l < counts.len(),
        forall|j: int| 1 <= j <= l ==> counts[j] as int == count_len(lens, j),
    ensures
        subsum(counts, l) == kraft_at(lens, l),
    decreases l,
{
    if l > 0 {
        lemma_subsum_matches(lens, counts, l - 1);
    }
}

/// Changing one histogram entry changes the Kraft sum linearly, with
/// coefficient `2^(l - k)`.
pub proof fn lemma_subsum_update(counts: Seq<usize>, k: int, v: usize, l: int)
    requires
        1 <= k < counts.len(),
        k <= l < counts.len(),
    ensures
        subsum(counts.update(k, v), l) == subsum(counts, l) + (v as int - counts[k] as int)
            * two_pow((l - k) as nat),
    decreases l,
{
    let d = v as int - counts[k] as int;
    if l == k {
        lemma_subsum_frame(counts, counts.update(k, v), l - 1);
        assert(two_pow(0) == 1);
        assert(d * 1 == d) by (nonlinear_arith);
    } else {
        lemma_subsum_update(counts, k, v, l - 1);
        let t = two_pow((l - 1 - k) as nat) as int;
        assert(((l - k) as nat - 1) as nat == (l - 1 - k) as nat);
        assert(two_pow((l - k) as nat) == 2 * t);
        assert(2 * (d * t) == d * (2 * t)) by (nonlinear_arith);
    }
}

/// The Kraft sum at precision `l` reads only histogram entries 1 through `l`.
pub proof fn lemma_subsum_frame(a: Seq<usize>, b: Seq<usize>, l: int)
    requires
        l < a.len(),
        l < b.len(),
        forall|j: int| 1 <= j <= l ==> a[j] == b[j],
    ensures
        subsum(a, l) == subsum(b, l),
    decreases l,
{
    if l > 0 {
        lemma_subsum_frame(a, b, l - 1);
    }
}

pub proof fn lemma_sumc_update(counts: Seq<usize>, k: int, v: usize, l: int)
    requires
        1 <= k < counts.len(),
        k <= l < counts.len(),
    ensures
        sumc(counts.update(k, v), l) == sumc(counts, l) + v as int - counts[k] as int,
    decreases l,
{
    if l == k {
        lemma_sumc_frame(counts, counts.update(k, v), l - 1);
    } else {
        lemma_sumc_update(counts, k, v, l - 1);
    }
}

pub proof fn lemma_sumc_frame(a: Seq<usize>, b: Seq<usize>, l: int)
    requires
        l < a.len(),
        l < b.len(),
        forall|j: int| 1 <= j <= l ==> a[j] == b[j],
    ensures
        sumc(a, l) == sumc(b, l),
    decreases l,
{
    if l > 0 {
        lemma_sumc_frame(a, b, l - 1);
    }
}

pub proof fn lemma_subsum_nonneg(counts: Seq<usize>, l: int)
    ensures
        subsum(counts, l) >= 0,
    decreases l,
{
    if l > 0 {
        lemma_subsum_nonneg(counts, l - 1);
    }
}

pub proof fn lemma_sumc_nonneg(counts: Seq<usize>, l: int)
    ensures
        sumc(counts, l) >= 0,
    decreases l,
{
    if l > 0 {
        lemma_sumc_nonneg(counts, l - 1);
    }
}

/// Every single histogram entry is bounded by the sum of all of them.
pub proof fn lemma_sumc_member(counts: Seq<usize>, k: int, l: int)
    requires
        1 <= k <= l,
        k < counts.len(),
    ensures
        counts[k] as int <= sumc(counts, l),
    decreases l,
{
    if l == k {
        lemma_sumc_nonneg(counts, l - 1);
    } else {
        lemma_sumc_member(counts, k, l - 1);
    }
}

/// The Kraft sum grows at least geometrically with the precision.
pub proof fn lemma_kraft_growth(lens: Seq<u8>, a: int, b: int)
    requires
        0 <= a <= b,
    ensures
        kraft_at(lens, b) >= kraft_at(lens, a) * two_pow((b - a) as nat),
    decreases b,
{
    if a == b {
        assert(two_pow(0) == 1);
        assert(kraft_at(lens, a) * 1 == kraft_at(lens, a)) by (nonlinear_arith);
    } else {
        lemma_kraft_growth(lens, a, b - 1);
        lemma_count_len_bounds(lens, b);
        let x = kraft_at(lens, a);
        let t = two_pow((b - 1 - a) as nat) as int;
        assert(((b - a) as nat - 1) as nat == (b - 1 - a) as nat);
        assert(two_pow((b - a) as nat) == 2 * t);
        assert(x * (2 * t) == 2 * (x * t)) by (nonlinear_arith);
        assert(kraft_at(lens, b) == 2 * kraft_at(lens, b - 1) + count_len(lens, b));
        assert(2 * kraft_at(lens, b - 1) >= 2 * (x * t));
    }
}

pub proof fn lemma_kraft_nonneg(lens: Seq<u8>, l: int)
    ensures
        kraft_at(lens, l) >= 0,
    decreases l,
{
    if l > 0 {
        lemma_kraft_nonneg(lens, l - 1);
        lemma_count_len_bounds(lens, l);
    }
}

/// If the Kraft sum is within budget at precision `b`, it is within budget
/// at every smaller precision.
pub proof fn lemma_kraft_prefix_ok(lens: Seq<u8>, a: int, b: int)
    requires
        0 <= a <= b,
        kraft_at(lens, b) <= two_pow(b as nat),
    ensures
        kraft_at(lens, a) <= two_pow(a as nat),
{
    lemma_kraft_growth(lens, a, b);
    lemma_two_pow_adds(a as nat, (b - a) as nat);
    lemma_two_pow_pos((b - a) as nat);
    if kraft_at(lens, a) > two_pow(a as nat) {
        let x = kraft_at(lens, a);
        let p = two_pow(a as nat) as int;
        let t = two_pow((b - a) as nat) as int;
        assert(x * t >= (p + 1) * t && (p + 1) * t == p * t + t) by (nonlinear_arith)
            requires
                x >= p + 1,
                t >= 1,
        ;
        assert(false);
    }
}

/// Appending one length to the sequence raises the Kraft sum by that
/// length's weight.
pub proof fn lemma_kraft_at_push(lens: Seq<u8>, v: u8, l: int)
    ensures
        kraft_at(lens.push(v), l) == kraft_at(lens, l) + if 0 < v && v <= l {
            two_pow((l - v) as nat) as int
        } else {
            0int
        },
    decreases l,
{
    if l <= 0 {
    } else {
        lemma_kraft_at_push(lens, v, l - 1);
        assert(lens.push(v).drop_last() =~= lens);
        assert(count_len(lens.push(v), l) == count_len(lens, l) + if v == l {
            1int
        } else {
            0int
        });
    }
}

/// The two phrasings of the Kraft sum agree: per histogram level and per
/// symbol.
pub proof fn lemma_sym_kraft_eq(lens: Seq<u8>, max: int)
    requires
        max >= 0,
    ensures
        sym_kraft(lens, max) == kraft_at(lens, max),
    decreases lens.len(),
{
    if lens.len() == 0 {
        lemma_kraft_empty(lens, max);
    } else {
        lemma_sym_kraft_eq(lens.drop_last(), max);
        assert(lens.drop_last().push(lens.last()) =~= lens);
        lemma_kraft_at_push(lens.drop_last(), lens.last(), max);
    }
}

pub proof fn lemma_kraft_empty(lens: Seq<u8>, l: int)
    requires
        lens.len() == 0,
    ensures
        kraft_at(lens, l) == 0,
    decreases l,
{
    if l > 0 {
        lemma_kraft_empty(lens, l - 1);
    }
}

/// A histogram entry bounded by the total count, with the Kraft sum bounded
/// in consequence: used to rule out arithmetic overflow.
pub proof fn lemma_subsum_bound(counts: Seq<usize>, l: int, bound: int)
    requires
        0 <= l < counts.len(),
        forall|j: int| 1 <= j <= l ==> counts[j] as int <= bound,
        bound >= 0,
    ensures
        subsum(counts, l) <= bound * (two_pow((l + 1) as nat) - 2),
    decreases l,
{
    if l == 0 {
        reveal_with_fuel(two_pow, 3);
        assert(bound * (two_pow(1) - 2) == 0) by (nonlinear_arith)
            requires
                two_pow(1) == 2,
        ;
    } else {
        lemma_subsum_bound(counts, l - 1, bound);
        lemma_two_pow_pos(l as nat);
        let t = two_pow(l as nat) as int;
        assert(((l + 1) as nat - 1) as nat == l as nat);
        assert(two_pow((l + 1) as nat) == 2 * t);
        assert(2 * (bound * (t - 2)) + bound <= bound * (2 * t - 2)) by (nonlinear_arith)
            requires
                bound >= 0,
                t >= 1,
        ;
    }
}

pub proof fn lemma_two_pow_15()
    ensures
        two_pow(15) == 0x8000,
{
    reveal_with_fuel(two_pow, 17);
}

pub proof fn lemma_two_pow_30()
    ensures
        two_pow(30) == 0x40000000,
{
    reveal_with_fuel(two_pow, 32);
}

/// Executable power of two.
#[verifier::loop_isolation(false)]
pub fn pow2e(e: usize) -> (r: usize)
    requires
        e <= 30,
    ensures
        r == two_pow(e as nat),
{
    let mut r: usize = 1;
    let mut i: usize = 0;
    while i < e
        invariant
            i <= e <= 30,
            r == two_pow(i as nat),
        decreases e - i,
    {
        proof {
            lemma_two_pow_mono((i + 1) as nat, 30);
            lemma_two_pow_30();
        }
        r = r * 2;
        i = i + 1;
    }
    r
}

/// Histogram of code lengths: `r[l]` is the number of symbols whose length
/// is exactly `l`, for `0 <= l <= max`.
#[verifier::loop_isolation(false)]
pub fn histogram(lens: &Vec<u8>, max: usize) -> (r: Vec<usize>)
    requires
        max <= 64,
        forall|i: int| 0 <= i < lens@.len() ==> lens@[i] as int <= max,
    ensures
        r@.len() == max + 1,
        forall|l: int| 0 <= l <= max ==> r@[l] as int == count_len(lens@, l),
{
    let n = lens.len();
    let mut r: Vec<usize> = Vec::new();
    let mut l: usize = 0;
    while l < max + 1
        invariant
            r@.len() == l <= max + 1,
            forall|j: int| 0 <= j < l ==> r@[j] == 0,
        decreases max + 1 - l,
    {
        r.push(0);
        l = l + 1;
    }
    proof {
        assert forall|j: int| 0 <= j <= max implies r@[j] as int == count_len(
            lens@.take(0),
            j,
        ) by {
            lemma_count_len_bounds(lens@.take(0), j);
        }
    }
    let mut i: usize = 0;
    while i < n
        invariant
            n == lens@.len(),
            i <= n,
            r@.len() == max + 1,
            forall|j: int| 0 <= j < lens@.len() ==> lens@[j] as int <= max,
            forall|l2: int| 0 <= l2 <= max ==> r@[l2] as int == count_len(lens@.take(i as int), l2),
        decreases n - i,
    {
        let li = lens[i] as usize;
        proof {
            lemma_count_len_bounds(lens@.take(i as int), li as int);
            assert(lens@.take(i as int).len() == i);
            assert forall|l2: int| 0 <= l2 <= max implies count_len(lens@.take(i + 1), l2)
                == count_len(lens@.take(i as int), l2) + (if lens@[i as int] == l2 {
                1int
            } else {
                0int
            }) by {
                lemma_count_len_take_step(lens@, l2, i as int);
            }
        }
        let cur = r[li];
        r[li] = cur + 1;
        i = i + 1;
    }
    proof {
        assert(lens@.take(n as int) =~= lens@);
    }
    r
}

/// Number of nonzero frequencies: the symbols that take part in the tree.
pub open spec fn live_count(freqs: Seq<u16>) -> int
    decreases freqs.len(),
{
    if freqs.len() == 0 {
        0
    } else {
        live_count(freqs.drop_last()) + if freqs.last() != 0 {
            1int
        } else {
            0int
        }
    }
}

pub proof fn lemma_live_count_bounds(freqs: Seq<u16>)
    ensures
        0 <= live_count(freqs) <= freqs.len(),
    decreases freqs.len(),
{
    if freqs.len() > 0 {
        lemma_live_count_bounds(freqs.drop_last());
    }
}

pub proof fn lemma_live_count_take_step(freqs: Seq<u16>, i: int)
    requires
        0 <= i < freqs.len(),
    ensures
        live_count(freqs.take(i + 1)) == live_count(freqs.take(i)) + if freqs[i] != 0 {
            1int
        } else {
            0int
        },
{
    assert(freqs.take(i + 1).drop_last() =~= freqs.take(i));
    assert(freqs.take(i + 1).last() == freqs[i]);
}

/// Counting over a prefix never exceeds counting over the whole.
pub proof fn lemma_count_len_take_le(lens: Seq<u8>, l: int, i: int)
    requires
        0 <= i <= lens.len(),
    ensures
        count_len(lens.take(i), l) <= count_len(lens, l),
    decreases lens.len() - i,
{
    if i == lens.len() {
        assert(lens.take(i) =~= lens);
    } else {
        lemma_count_len_take_le(lens, l, i + 1);
        lemma_count_len_take_step(lens, l, i);
    }
}

/// A value absent from the sequence has count zero.
pub proof fn lemma_count_len_absent(lens: Seq<u8>, l: int)
    requires
        forall|k: int| 0 <= k < lens.len() ==> lens[k] != l,
    ensures
        count_len(lens, l) == 0,
    decreases lens.len(),
{
    if lens.len() > 0 {
        lemma_count_len_absent(lens.drop_last(), l);
    }
}

pub proof fn lemma_sumc_mono(counts: Seq<usize>, a: int, b: int)
    requires
        a <= b,
    ensures
        sumc(counts, a) <= sumc(counts, b),
    decreases b,
{
    if a < b && b > 0 {
        lemma_sumc_mono(counts, a, b - 1);
    }
}

/// If the running total does not grow between two levels, every level in
/// between is empty.
pub proof fn lemma_sumc_flat(counts: Seq<usize>, a: int, b: int, j: int)
    requires
        0 <= a < j <= b,
        sumc(counts, a) == sumc(counts, b),
    ensures
        counts[j] as int == 0,
{
    lemma_sumc_mono(counts, a, j - 1);
    lemma_sumc_mono(counts, j, b);
    assert(sumc(counts, j) == sumc(counts, j - 1) + counts[j] as int);
}

/// A histogram that is empty through level `l` has zero sums.
pub proof fn lemma_subsum_zeros(counts: Seq<usize>, l: int)
    requires
        forall|j: int| 1 <= j <= l ==> counts[j] as int == 0,
    ensures
        subsum(counts, l) == 0,
        sumc(counts, l) == 0,
    decreases l,
{
    if l > 0 {
        lemma_subsum_zeros(counts, l - 1);
    }
}

/// With every level beyond `l` empty, the Kraft sum at precision `m` is the
/// Kraft sum at precision `l` scaled up, and the total count is unchanged.
pub proof fn lemma_subsum_tail_empty(counts: Seq<usize>, l: int, m: int)
    requires
        0 <= l <= m,
        forall|j: int| l < j <= m ==> counts[j] as int == 0,
    ensures
        subsum(counts, m) == subsum(counts, l) * two_pow((m - l) as nat),
        sumc(counts, m) == sumc(counts, l),
    decreases m - l,
{
    if m == l {
        assert(two_pow(0) == 1);
        assert(subsum(counts, l) * 1 == subsum(counts, l)) by (nonlinear_arith);
    } else {
        lemma_subsum_tail_empty(counts, l, m - 1);
        let s = subsum(counts, l);
        let t = two_pow((m - 1 - l) as nat) as int;
        assert(((m - l) as nat - 1) as nat == (m - 1 - l) as nat);
        assert(two_pow((m - l) as nat) == 2 * t);
        assert(2 * (s * t) == s * (2 * t)) by (nonlinear_arith);
    }
}

/// First code of each length under the canonical rule: the codes of length
/// `l` start right after the codes of all shorter lengths, left-shifted once.
pub open spec fn first_code(lens: Seq<u8>, l: int) -> int {
    2 * kraft_at(lens, l - 1)
}

/// The canonical code of symbol `i`: the first code of its length plus its
/// rank among same-length symbols in index order.
pub open spec fn code_of(lens: Seq<u8>, i: int) -> int {
    first_code(lens, lens[i] as int) + count_len(lens.take(i), lens[i] as int)
}

/// Canonical codes fit in their own bit length as long as the lengths are
/// not over-subscribed.
pub proof fn lemma_code_of_fits(lens: Seq<u8>, max: int, i: int)
    requires
        0 <= i < lens.len(),
        0 < lens[i] as int <= max,
        kraft_at(lens, max) <= two_pow(max as nat),
    ensures
        0 <= code_of(lens, i) < two_pow(lens[i] as nat),
{
    let l = lens[i] as int;
    lemma_kraft_prefix_ok(lens, l, max);
    lemma_count_len_take_le(lens, l, i);
    lemma_count_len_take_step(lens, l, i);
    lemma_count_len_take_le(lens, l, i + 1);
    lemma_kraft_nonneg(lens, l - 1);
    lemma_count_len_bounds(lens.take(i), l);
    assert(count_len(lens.take(i), l) < count_len(lens, l));
}

/// Assign canonical codes to a length sequence: symbols of equal length get
/// consecutive codes in index order, and each length's block of codes starts
/// where the canonical numbering rule places it.
#[verifier::loop_isolation(false)]
#[verifier::rlimit(60)]
pub fn gen_codes(lens: &Vec<u8>, max: usize) -> (codes: Vec<u16>)
    requires
        1 <= max <= 15,
        lens@.len() <= 0x8000,
        forall|i: int| 0 <= i < lens@.len() ==> lens@[i] as int <= max,
        kraft_at(lens@, max as int) <= two_pow(max as nat),
    ensures
        codes@.len() == lens@.len(),
        forall|i: int|
            0 <= i < lens@.len() ==> if lens@[i] > 0 {
                codes@[i] as int == code_of(lens@, i)
            } else {
                codes@[i] == 0
            },
{
    let n = lens.len();
    let counts = histogram(lens, max);
    let mut next: Vec<usize> = Vec::new();
    next.push(0);
    let mut code: usize = 0;
    let mut l: usize = 1;
    while l <= max
        invariant
            1 <= l <= max + 1,
            next@.len() == l,
            next@[0] == 0,
            counts@.len() == max + 1,
            forall|j: int| 0 <= j <= max ==> counts@[j] as int == count_len(lens@, j),
            l == 1 ==> code == 0,
            l >= 2 ==> code == first_code(lens@, l - 1),
            forall|j: int| 1 <= j < l ==> next@[j] as int == first_code(lens@, j),
            forall|j: int| 1 <= j < l ==> next@[j] as int + count_len(lens@, j) <= two_pow(
                j as nat,
            ),
        decreases max + 1 - l,
    {
        proof {
            lemma_kraft_prefix_ok(lens@, l as int, max as int);
            lemma_kraft_nonneg(lens@, l - 1);
            lemma_count_len_bounds(lens@, l as int);
            lemma_two_pow_mono(l as nat, 15);
            lemma_two_pow_30();
            lemma_two_pow_mono(15, 30);
        }
        let c_prev = if l >= 2 {
            counts[l - 1]
        } else {
            0
        };
        code = (code + c_prev) * 2;
        assert(code == first_code(lens@, l as int));
        next.push(code);
        l = l + 1;
    }
    let mut codes: Vec<u16> = Vec::new();
    let mut i: usize = 0;
    while i < n
        invariant
            i <= n,
            codes@.len() == i,
            next@.len() == max + 1,
            forall|j: int| 1 <= j <= max ==> next@[j] as int == first_code(lens@, j) + count_len(
                lens@.take(i as int),
                j,
            ),
            forall|j: int| 1 <= j <= max ==> first_code(lens@, j) + count_len(lens@, j) <= two_pow(
                j as nat,
            ),
            forall|k: int|
                0 <= k < i ==> if lens@[k] > 0 {
                    codes@[k] as int == code_of(lens@, k)
                } else {
                    codes@[k] == 0
                },
        decreases n - i,
    {
        let li = lens[i];
        proof {
            assert forall|j: int| 1 <= j <= max implies count_len(lens@.take(i + 1), j)
                == count_len(lens@.take(i as int), j) + (if lens@[i as int] == j {
                1int
            } else {
                0int
            }) by {
                lemma_count_len_take_step(lens@, j, i as int);
            }
            lemma_count_len_take_le(lens@, li as int, i as int);
            lemma_count_len_take_le(lens@, li as int, i + 1);
            lemma_two_pow_mono(li as nat, 15);
            lemma_two_pow_30();
            lemma_two_pow_mono(15, 30);
            lemma_count_len_bounds(lens@.take(i as int), li as int);
        }
        if li > 0 {
            let c = next[li as usize];
            proof {
                assert(next@[li as int] as int == first_code(lens@, li as int) + count_len(
                    lens@.take(i as int),
                    li as int,
                ));
                assert(first_code(lens@, li as int) + count_len(lens@, li as int) <= two_pow(
                    li as nat,
                ));
                assert(count_len(lens@.take(i as int), li as int) + 1 <= count_len(
                    lens@,
                    li as int,
                ));
                assert(c + 1 <= two_pow(li as nat));
                lemma_two_pow_mono(li as nat, 15);
                lemma_two_pow_15();
                assert(c < 0x8000);
            }
            codes.push(c as u16);
            next[li as usize] = c + 1;
            proof {
                assert(codes@[i as int] as int == code_of(lens@, i as int));
            }
        } else {
            codes.push(0);
        }
        i = i + 1;
    }
    proof {
        assert(lens@.take(n as int) =~= lens@);
    }
    codes
}

pub proof fn lemma_max_len_take_step(lens: Seq<u8>, i: int)
    requires
        0 <= i < lens.len(),
    ensures
        max_len_of(lens.take(i + 1)) == if lens[i] as int >= max_len_of(lens.take(i)) {
            lens[i] as int
        } else {
            max_len_of(lens.take(i))
        },
{
    assert(lens.take(i + 1).drop_last() =~= lens.take(i));
    assert(lens.take(i + 1).last() == lens[i]);
}

/// Every entry is bounded by the maximum.
pub proof fn lemma_max_len_ge(lens: Seq<u8>, i: int)
    requires
        0 <= i < lens.len(),
    ensures
        lens[i] as int <= max_len_of(lens),
    decreases lens.len(),
{
    if i < lens.len() - 1 {
        lemma_max_len_ge(lens.drop_last(), i);
    }
}

pub proof fn lemma_max_len_nonneg(lens: Seq<u8>)
    ensures
        max_len_of(lens) >= 0,
    decreases lens.len(),
{
    if lens.len() > 0 {
        lemma_max_len_nonneg(lens.drop_last());
    }
}

pub proof fn lemma_count_live_exists(lens: Seq<u8>)
    requires
        count_live(lens) > 0,
    ensures
        exists|i: int| 0 <= i < lens.len() && lens[i] != 0,
    decreases lens.len(),
{
    if lens.len() > 0 {
        if lens.last() != 0 {
            assert(lens[lens.len() - 1] != 0);
        } else {
            lemma_count_live_exists(lens.drop_last());
            let i = choose|i: int| 0 <= i < lens.len() - 1 && lens.drop_last()[i] != 0;
            assert(lens[i] != 0);
        }
    }
}

/// A live symbol forces a positive maximum length.
pub proof fn lemma_live_max_len(lens: Seq<u8>)
    requires
        count_live(lens) > 0,
    ensures
        max_len_of(lens) >= 1,
{
    lemma_count_live_exists(lens);
    let i = choose|i: int| 0 <= i < lens.len() && lens[i] != 0;
    lemma_max_len_ge(lens, i);
}

/// Lengths beyond the maximum in use never occur, so the histogram is empty
/// there and the Kraft sum at the maximum already counts every symbol.
pub proof fn lemma_count_len_above_max(lens: Seq<u8>, l: int)
    requires
        l > max_len_of(lens),
    ensures
        count_len(lens, l) == 0,
    decreases lens.len(),
{
    if lens.len() > 0 {
        lemma_count_len_above_max(lens.drop_last(), l);
    }
}

pub proof fn lemma_kraft_at_zero(lens: Seq<u8>, l: int)
    requires
        forall|j: int| 1 <= j <= l ==> count_len(lens, j) == 0,
    ensures
        kraft_at(lens, l) == 0,
    decreases l,
{
    if l > 0 {
        lemma_kraft_at_zero(lens, l - 1);
    }
}

pub proof fn lemma_count_live_from_len(lens: Seq<u8>, j: int)
    requires
        j != 0,
        count_len(lens, j) > 0,
    ensures
        count_live(lens) > 0,
    decreases lens.len(),
{
    if lens.len() > 0 {
        lemma_count_live_bounds(lens.drop_last());
        lemma_count_len_bounds(lens.drop_last(), j);
        if lens.last() != j {
            lemma_count_live_from_len(lens.drop_last(), j);
        }
    }
}

/// Prefix counts grow with the prefix.
pub proof fn lemma_count_len_take_mono(lens: Seq<u8>, l: int, a: int, b: int)
    requires
        0 <= a <= b <= lens.len(),
    ensures
        count_len(lens.take(a), l) <= count_len(lens.take(b), l),
    decreases b - a,
{
    if a < b {
        lemma_count_len_take_mono(lens, l, a + 1, b);
        lemma_count_len_take_step(lens, l, a);
    }
}

/// Canonical codes are prefix-free: two distinct live symbols' codes,
/// left-justified to the common precision `max`, occupy disjoint intervals,
/// so neither code is a prefix of the other and a bit stream of such codes
/// parses one way only.
pub proof fn lemma_canonical_prefix_free(lens: Seq<u8>, max: int, i: int, j: int)
    requires
        0 <= i < lens.len(),
        0 <= j < lens.len(),
        i != j,
        0 < lens[i] as int <= max,
        0 < lens[j] as int <= max,
        kraft_at(lens, max) <= two_pow(max as nat),
    ensures
        (code_of(lens, i) + 1) * two_pow((max - lens[i]) as nat) <= code_of(lens, j) * two_pow(
            (max - lens[j]) as nat,
        ) || (code_of(lens, j) + 1) * two_pow((max - lens[j]) as nat) <= code_of(lens, i)
            * two_pow((max - lens[i]) as nat),
{
    let li = lens[i] as int;
    let lj = lens[j] as int;
    if li == lj {
        lemma_canonical_same_length(lens, max, i, j);
    } else if li < lj {
        lemma_canonical_shorter_first(lens, max, i, j);
    } else {
        lemma_canonical_shorter_first(lens, max, j, i);
    }
}

/// Two distinct symbols of one length get codes at least one apart, so
/// their equal-width intervals are disjoint.
proof fn lemma_canonical_same_length(lens: Seq<u8>, max: int, i: int, j: int)
    requires
        0 <= i < lens.len(),
        0 <= j < lens.len(),
        i != j,
        0 < lens[i] as int <= max,
        lens[j] == lens[i],
    ensures
        (code_of(lens, i) + 1) * two_pow((max - lens[i]) as nat) <= code_of(lens, j) * two_pow(
            (max - lens[j]) as nat,
        ) || (code_of(lens, j) + 1) * two_pow((max - lens[j]) as nat) <= code_of(lens, i)
            * two_pow((max - lens[i]) as nat),
{
    let l = lens[i] as int;
    let t = two_pow((max - l) as nat) as int;
    lemma_two_pow_pos((max - l) as nat);
    if i < j {
        lemma_count_len_take_step(lens, l, i);
        lemma_count_len_take_mono(lens, l, i + 1, j);
        assert(code_of(lens, i) + 1 <= code_of(lens, j));
        assert((code_of(lens, i) + 1) * t <= code_of(lens, j) * t) by (nonlinear_arith)
            requires
                code_of(lens, i) + 1 <= code_of(lens, j),
                t >= 1,
        ;
    } else {
        lemma_count_len_take_step(lens, l, j);
        lemma_count_len_take_mono(lens, l, j + 1, i);
        assert(code_of(lens, j) + 1 <= code_of(lens, i));
        assert((code_of(lens, j) + 1) * t <= code_of(lens, i) * t) by (nonlinear_arith)
            requires
                code_of(lens, j) + 1 <= code_of(lens, i),
                t >= 1,
        ;
    }
}

/// A shorter code's interval ends before any longer code's interval begins:
/// every code of length `lj` starts at or after the end of the whole block
/// of codes of length `li < lj`.
proof fn lemma_canonical_shorter_first(lens: Seq<u8>, max: int, i: int, j: int)
    requires
        0 <= i < lens.len(),
        0 <= j < lens.len(),
        0 < lens[i] as int,
        lens[i] < lens[j],
        lens[j] as int <= max,
        kraft_at(lens, max) <= two_pow(max as nat),
    ensures
        (code_of(lens, i) + 1) * two_pow((max - lens[i]) as nat) <= code_of(lens, j) * two_pow(
            (max - lens[j]) as nat,
        ),
{
    let li = lens[i] as int;
    let lj = lens[j] as int;
    let ti = two_pow((max - li) as nat) as int;
    let tj = two_pow((max - lj) as nat) as int;
    lemma_two_pow_pos((max - li) as nat);
    lemma_two_pow_pos((max - lj) as nat);
    // End of the length-li block: code_of(i) + 1 <= kraft_at(lens, li).
    lemma_count_len_take_step(lens, li, i);
    lemma_count_len_take_le(lens, li, i + 1);
    lemma_kraft_nonneg(lens, li - 1);
    assert(code_of(lens, i) + 1 <= kraft_at(lens, li));
    // Start of the length-lj block: code_of(j) >= 2 * kraft_at(lens, lj - 1).
    lemma_count_len_bounds(lens.take(j), lj);
    assert(code_of(lens, j) >= 2 * kraft_at(lens, lj - 1));
    // The growth of the Kraft sum turns the block ordering into interval
    // ordering at precision max.
    lemma_kraft_growth(lens, li, lj - 1);
    let g = two_pow((lj - 1 - li) as nat) as int;
    assert(kraft_at(lens, lj - 1) >= kraft_at(lens, li) * g);
    lemma_two_pow_adds((lj - 1 - li) as nat, (max - lj + 1) as nat);
    lemma_two_pow_adds((max - lj) as nat, 1);
    assert(two_pow(0) == 1);
    assert(two_pow(1) == 2);
    assert(g * (2 * tj) == ti) by (nonlinear_arith)
        requires
            g * (2 * tj) == two_pow((lj - 1 - li) as nat + (max - lj + 1) as nat),
            ti == two_pow((max - li) as nat),
            (lj - 1 - li) as nat + (max - lj + 1) as nat == (max - li) as nat,
    ;
    let k = kraft_at(lens, li);
    assert(code_of(lens, j) * tj >= (2 * (k * g)) * tj && (2 * (k * g)) * tj == k * (g * (2
        * tj))) by (nonlinear_arith)
        requires
            code_of(lens, j) >= 2 * (k * g),
            tj >= 1,
            kraft_at(lens, lj - 1) >= k * g,
    ;
    assert((code_of(lens, i) + 1) * ti <= k * ti) by (nonlinear_arith)
        requires
            code_of(lens, i) + 1 <= k,
            ti >= 1,
    ;
    assert(k * (g * (2 * tj)) == k * ti) by (nonlinear_arith)
        requires
            g * (2 * tj) == ti,
    ;
}

/// The maximum is bounded by any pointwise bound.
pub proof fn lemma_max_len_le(lens: Seq<u8>, m: int)
    requires
        forall|i: int| 0 <= i < lens.len() ==> lens[i] as int <= m,
        m >= 0,
    ensures
        max_len_of(lens) <= m,
    decreases lens.len(),
{
    if lens.len() > 0 {
        lemma_max_len_le(lens.drop_last(), m);
    }
}

/// With no lengths beyond `a`, the Kraft sum at a higher precision is the
/// Kraft sum at `a` scaled up.
pub proof fn lemma_kraft_tail_scale(lens: Seq<u8>, a: int, b: int)
    requires
        0 <= a <= b,
        forall|l: int| a < l <= b ==> count_len(lens, l) == 0,
    ensures
        kraft_at(lens, b) == kraft_at(lens, a) * two_pow((b - a) as nat),
    decreases b - a,
{
    if b == a {
        assert(two_pow(0) == 1);
        assert(kraft_at(lens, a) * 1 == kraft_at(lens, a)) by (nonlinear_arith);
    } else {
        lemma_kraft_tail_scale(lens, a, b - 1);
        let s = kraft_at(lens, a);
        let t = two_pow((b - 1 - a) as nat) as int;
        assert(((b - a) as nat - 1) as nat == (b - 1 - a) as nat);
        assert(two_pow((b - a) as nat) == 2 * t);
        assert(2 * (s * t) == s * (2 * t)) by (nonlinear_arith);
    }
}

/// Round-trip acceptance: a length array that is Kraft-complete under its
/// length limit is complete at the longest length actually in use, which is
/// exactly the condition under which the decode table builder accepts it.
pub proof fn lemma_encoder_lengths_accepted(lens: Seq<u8>, max_length: int)
    requires
        max_length >= 0,
        forall|i: int| 0 <= i < lens.len() ==> lens[i] as int <= max_length,
        kraft_at(lens, max_length) == two_pow(max_length as nat),
    ensures
        kraft_at(lens, max_len_of(lens)) == two_pow(max_len_of(lens) as nat),
{
    let ml = max_len_of(lens);
    lemma_max_len_le(lens, max_length);
    lemma_max_len_nonneg(lens);
    assert forall|l: int| ml < l <= max_length implies count_len(lens, l) == 0 by {
        lemma_count_len_above_max(lens, l);
    }
    lemma_kraft_tail_scale(lens, ml, max_length);
    lemma_two_pow_adds(ml as nat, (max_length - ml) as nat);
    lemma_two_pow_pos((max_length - ml) as nat);
    let k = kraft_at(lens, ml);
    let p = two_pow(ml as nat) as int;
    let t = two_pow((max_length - ml) as nat) as int;
    assert(k * t == p * t ==> k == p) by (nonlinear_arith)
        requires
            t >= 1,
    ;
}

/// Canonical determinism of the code assignment: each code word is a
/// function of the length sequence alone, so any two assignments that are
/// canonical for the same lengths agree on every symbol.
pub proof fn lemma_canonical_codes_deterministic(lens: Seq<u8>, c1: Seq<u16>, c2: Seq<u16>)
    requires
        c1.len() == lens.len(),
        c2.len() == lens.len(),
        forall|i: int|
            0 <= i < lens.len() ==> if lens[i] > 0 {
                c1[i] as int == code_of(lens, i)
            } else {
                c1[i] == 0
            },
        forall|i: int|
            0 <= i < lens.len() ==> if lens[i] > 0 {
                c2[i] as int == code_of(lens, i)
            } else {
                c2[i] == 0
            },
    ensures
        c1 == c2,
{
    assert(c1 =~= c2);
}

/// Value of a bit string read most significant bit first.
pub open spec fn bits_val(bs: Seq<bool>) -> int
    decreases bs.len(),
{
    if bs.len() == 0 {
        0
    } else {
        2 * bits_val(bs.drop_last()) + if bs.last() {
            1int
        } else {
            0int
        }
    }
}

pub proof fn lemma_bits_val_bound(bs: Seq<bool>)
    ensures
        0 <= bits_val(bs) < two_pow(bs.len() as nat),
    decreases bs.len(),
{
    if bs.len() > 0 {
        lemma_bits_val_bound(bs.drop_last());
    }
}

/// Splitting a bit string splits its value: the head bits carry weight
/// `2^(length of the tail)`.
pub proof fn lemma_bits_val_split(bs: Seq<bool>, l: int)
    requires
        0 <= l <= bs.len(),
    ensures
        bits_val(bs) == bits_val(bs.take(l)) * two_pow((bs.len() - l) as nat) + bits_val(
            bs.skip(l),
        ),
    decreases bs.len() - l,
{
    if l == bs.len() {
        assert(bs.take(l) =~= bs);
        assert(bs.skip(l) =~= Seq::<bool>::empty());
        assert(two_pow(0) == 1);
        assert(bits_val(bs) * 1 == bits_val(bs)) by (nonlinear_arith);
    } else {
        lemma_bits_val_split(bs.drop_last(), l);
        assert(bs.drop_last().take(l) =~= bs.take(l));
        assert(bs.drop_last().skip(l) =~= bs.skip(l).drop_last());
        assert(bs.skip(l).len() > 0);
        assert(bs.skip(l).last() == bs.last());
        let h = bits_val(bs.take(l));
        let t = two_pow((bs.len() - 1 - l) as nat) as int;
        assert(((bs.len() - l) as nat - 1) as nat == (bs.len() - 1 - l) as nat);
        assert(two_pow((bs.len() - l) as nat) == 2 * t);
        assert(2 * (h * t) == h * (2 * t)) by (nonlinear_arith);
    }
}

/// Two arrays that agree on which positions are zero have the same number
/// of live entries.
pub proof fn lemma_live_matches(freqs: Seq<u16>, lens: Seq<u8>)
    requires
        lens.len() == freqs.len(),
        forall|i: int| 0 <= i < freqs.len() ==> ((freqs[i] == 0) <==> (lens[i] == 0)),
    ensures
        live_count(freqs) == count_live(lens),
    decreases freqs.len(),
{
    if freqs.len() > 0 {
        lemma_live_matches(freqs.drop_last(), lens.drop_last());
    }
}

/// A short code's root interval never contains the root prefix of a longer
/// code: scaling both to the common precision nests the prefix cell inside
/// the short interval and the long interval inside the prefix cell, which
/// the disjointness of canonical intervals forbids.
pub proof fn lemma_short_long_cell(lens: Seq<u8>, ml: int, w: int, i: int, j: int)
    requires
        0 <= i < lens.len(),
        0 <= j < lens.len(),
        0 < lens[i] as int <= w,
        w < lens[j] as int <= ml,
        kraft_at(lens, ml) <= two_pow(ml as nat),
    ensures
        !(code_of(lens, i) * two_pow((w - lens[i]) as nat) <= code_of(lens, j) / (two_pow(
            (lens[j] - w) as nat,
        ) as int) < (code_of(lens, i) + 1) * two_pow((w - lens[i]) as nat)),
{
    let li = lens[i] as int;
    let lj = lens[j] as int;
    let ci = code_of(lens, i);
    let cj = code_of(lens, j);
    let tl = two_pow((lj - w) as nat) as int;
    lemma_two_pow_pos((lj - w) as nat);
    lemma_code_of_fits(lens, ml, j);
    let p = cj / tl;
    assert(p == cj / (two_pow((lj - w) as nat) as int));
    let low = cj % tl;
    assert(cj == p * tl + low && 0 <= low < tl && p >= 0) by (nonlinear_arith)
        requires
            tl >= 1,
            cj >= 0,
            p == cj / tl,
            low == cj % tl,
    ;
    if ci * two_pow((w - li) as nat) <= p < (ci + 1) * two_pow((w - li) as nat) {
        lemma_canonical_prefix_free(lens, ml, i, j);
        let tw = two_pow((ml - w) as nat) as int;
        let ti = two_pow((ml - li) as nat) as int;
        let tj = two_pow((ml - lj) as nat) as int;
        lemma_two_pow_adds((w - li) as nat, (ml - w) as nat);
        lemma_two_pow_adds((lj - w) as nat, (ml - lj) as nat);
        lemma_two_pow_pos((ml - w) as nat);
        lemma_two_pow_pos((ml - lj) as nat);
        // The prefix cell sits inside the short symbol's interval.
        assert(ci * ti <= p * tw && (p + 1) * tw <= (ci + 1) * ti) by (nonlinear_arith)
            requires
                ci * two_pow((w - li) as nat) <= p,
                p + 1 <= (ci + 1) * two_pow((w - li) as nat),
                tw >= 1,
                ti == two_pow((w - li) as nat) * tw,
        ;
        // The long symbol's interval sits inside the prefix cell.
        assert(p * tw <= cj * tj && (cj + 1) * tj <= (p + 1) * tw) by (nonlinear_arith)
            requires
                cj == p * tl + low,
                0 <= low < tl,
                tj >= 1,
                tw == tl * tj,
        ;
        // So the long interval's start lies in both canonical intervals.
        assert(cj * tj < (cj + 1) * tj) by (nonlinear_arith)
            requires
                tj >= 1,
        ;
        assert(false);
    }
}


} // verus!
