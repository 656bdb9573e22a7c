//! Run-length description of a code-length sequence, as embedded in a
//! compressed block header: literal lengths, "repeat previous length" runs,
//! and short or long zero runs.

use vstd::prelude::*;
use crate::kraft::two_pow;
use crate::kraft::count_live;
use crate::kraft::kraft_at;
use crate::kraft::code_of;
use crate::kraft::lemma_live_count_bounds;
use crate::kraft::lemma_live_matches;
use crate::tree::build_tree;

verus! {

/// One token of the compressed description of a code-length sequence.
#[derive(Clone, Copy, PartialEq, Eq, Structural, Debug)]
pub enum RlToken {
    /// A single literal code length, 0 through 15.
    Lit(u8),
    /// Repeat the previous length; run of 3 through 6.
    Rep(u8),
    /// A run of zero lengths, 3 through 10.
    ZShort(u8),
    /// A run of zero lengths, 11 through 138.
    ZLong(u8),
}

/// The count ranges each token admits.
pub open spec fn token_wf(t: RlToken) -> bool {
    match t {
        RlToken::Lit(v) => v <= 15,
        RlToken::Rep(c) => 3 <= c <= 6,
        RlToken::ZShort(c) => 3 <= c <= 10,
        RlToken::ZLong(c) => 11 <= c <= 138,
    }
}

pub open spec fn is_rep(t: RlToken) -> bool {
    match t {
        RlToken::Rep(_) => true,
        _ => false,
    }
}

/// The lengths one token stands for, given the length preceding it.
pub open spec fn expand_token(t: RlToken, prev: u8) -> Seq<u8> {
    match t {
        RlToken::Lit(v) => seq![v],
        RlToken::Rep(c) => Seq::new(c as nat, |i: int| prev),
        RlToken::ZShort(c) => Seq::new(c as nat, |i: int| 0u8),
        RlToken::ZLong(c) => Seq::new(c as nat, |i: int| 0u8),
    }
}

/// The full length sequence a token sequence describes.
pub open spec fn rl_expand(ts: Seq<RlToken>) -> Seq<u8>
    decreases ts.len(),
{
    if ts.len() == 0 {
        Seq::empty()
    } else {
        let pre = rl_expand(ts.drop_last());
        pre + expand_token(
            ts.last(),
            if pre.len() == 0 {
                0u8
            } else {
                pre.last()
            },
        )
    }
}

pub proof fn lemma_rl_expand_push(ts: Seq<RlToken>, t: RlToken)
    ensures
        rl_expand(ts.push(t)) == rl_expand(ts) + expand_token(
            t,
            if rl_expand(ts).len() == 0 {
                0u8
            } else {
                rl_expand(ts).last()
            },
        ),
{
    assert(ts.push(t).drop_last() =~= ts);
    assert(ts.push(t).last() == t);
}


/// Length of the maximal run of equal values starting at `pos`, capped at
/// the longest run one token can carry.
pub open spec fn run_of(lens: Seq<u8>, pos: int) -> int
    decreases lens.len() - pos,
{
    if 0 <= pos && pos + 1 < lens.len() && lens[pos + 1] == lens[pos] {
        let r = 1 + run_of(lens, pos + 1);
        if r > 138 {
            138
        } else {
            r
        }
    } else {
        1
    }
}

proof fn lemma_run_of_bounds(lens: Seq<u8>, pos: int)
    requires
        0 <= pos < lens.len(),
    ensures
        1 <= run_of(lens, pos) <= 138,
        run_of(lens, pos) <= lens.len() - pos,
    decreases lens.len() - pos,
{
    if pos + 1 < lens.len() && lens[pos + 1] == lens[pos] {
        lemma_run_of_bounds(lens, pos + 1);
    }
}

/// The token the greedy description emits at `pos`.
pub open spec fn next_token(lens: Seq<u8>, pos: int) -> RlToken {
    let v = lens[pos];
    let run = run_of(lens, pos);
    if v == 0 {
        if run >= 11 {
            RlToken::ZLong(run as u8)
        } else if run >= 3 {
            RlToken::ZShort(run as u8)
        } else {
            RlToken::Lit(0)
        }
    } else {
        if pos > 0 && lens[pos - 1] == v && run >= 3 {
            RlToken::Rep(
                if run > 6 {
                    6u8
                } else {
                    run as u8
                },
            )
        } else {
            RlToken::Lit(v)
        }
    }
}

/// How many lengths one description token covers.
pub open spec fn token_span(t: RlToken) -> int {
    match t {
        RlToken::Lit(v) => 1,
        RlToken::Rep(c) => c as int,
        RlToken::ZShort(c) => c as int,
        RlToken::ZLong(c) => c as int,
    }
}

/// The greedy run-length description of `lens` from `pos` on: one token
/// per step, each covering `token_span` of the lengths.
pub open spec fn rl_tokens_from(lens: Seq<u8>, pos: int) -> Seq<RlToken>
    decreases lens.len() - pos,
    via rl_tokens_from_decreases
{
    if 0 <= pos < lens.len() {
        seq![next_token(lens, pos)] + rl_tokens_from(
            lens,
            pos + token_span(next_token(lens, pos)),
        )
    } else {
        Seq::empty()
    }
}

#[via_fn]
proof fn rl_tokens_from_decreases(lens: Seq<u8>, pos: int) {
    if 0 <= pos < lens.len() {
        lemma_run_of_bounds(lens, pos);
    }
}

/// A run of equal values of length `m` pushes the run count to at least
/// `m`, up to the cap.
proof fn lemma_run_of_lb(lens: Seq<u8>, pos: int, m: int)
    requires
        0 <= pos,
        1 <= m,
        pos + m <= lens.len(),
        forall|k: int| pos <= k < pos + m ==> lens[k] == lens[pos],
    ensures
        run_of(lens, pos) >= if m > 138 {
            138int
        } else {
            m
        },
    decreases m,
{
    lemma_run_of_bounds(lens, pos);
    if m > 1 {
        assert(lens[pos + 1] == lens[pos]);
        assert forall|k: int| pos + 1 <= k < pos + 1 + (m - 1) implies #[trigger] lens[k]
            == lens[pos + 1] by {
            assert(lens[k] == lens[pos]);
        }
        lemma_run_of_lb(lens, pos + 1, m - 1);
        assert(run_of(lens, pos) == if 1 + run_of(lens, pos + 1) > 138 {
            138int
        } else {
            1 + run_of(lens, pos + 1)
        });
    }
}

/// The scanned run equals the specification's run: the values from `pos`
/// to `j` agree, and `j` stops at a mismatch, the end, or the cap.
proof fn lemma_run_of_is(lens: Seq<u8>, pos: int, j: int)
    requires
        0 <= pos < j <= lens.len(),
        j - pos <= 138,
        forall|k: int| pos <= k < j ==> lens[k] == lens[pos],
        j == lens.len() || lens[j] != lens[pos] || j - pos == 138,
    ensures
        run_of(lens, pos) == j - pos,
    decreases j - pos,
{
    if pos + 1 < lens.len() && lens[pos + 1] == lens[pos] {
        if j == pos + 1 {
            assert(false);
        } else if j - pos == 138 {
            if j < lens.len() && lens[j] == lens[pos] {
                lemma_run_of_lb(lens, pos + 1, 138);
            } else {
                lemma_run_of_is(lens, pos + 1, j);
            }
        } else {
            lemma_run_of_is(lens, pos + 1, j);
        }
    } else {
        assert(j == pos + 1);
    }
}

/// Encode a length sequence as description tokens.
///
/// The round trip is part of the contract: expanding the returned tokens
/// yields exactly the input sequence. The token sequence itself is pinned
/// to the greedy description `rl_tokens_from`, so the description — and
/// with it the token count — is a function of the length sequence alone.
#[verifier::loop_isolation(false)]
pub fn rl_encode(lens: &Vec<u8>) -> (r: Vec<RlToken>)
    requires
        forall|i: int| 0 <= i < lens@.len() ==> lens@[i] <= 15,
    ensures
        rl_expand(r@) == lens@,
        r@ == rl_tokens_from(lens@, 0),
        forall|i: int| 0 <= i < r@.len() ==> token_wf(r@[i]),
        r@.len() > 0 ==> !is_rep(r@[0]),
{
    let n = lens.len();
    let mut r: Vec<RlToken> = Vec::new();
    let mut pos: usize = 0;
    while pos < n
        invariant
            pos <= n,
            rl_expand(r@) == lens@.take(pos as int),
            r@ + rl_tokens_from(lens@, pos as int) == rl_tokens_from(lens@, 0),
            forall|i: int| 0 <= i < r@.len() ==> token_wf(r@[i]),
            r@.len() > 0 ==> !is_rep(r@[0]),
            pos > 0 ==> r@.len() > 0,
        decreases n - pos,
    {
        let v = lens[pos];
        let mut j = pos + 1;
        while j < n && j - pos < 138 && lens[j] == v
            invariant
                pos < j <= n,
                j - pos <= 138,
                forall|k: int| pos <= k < j ==> lens@[k] == v,
            decreases n - j,
        {
            j = j + 1;
        }
        let run = j - pos;
        proof {
            assert(lens@[pos as int] == v);
            lemma_run_of_is(lens@, pos as int, j as int);
        }
        let ghost r0 = r@;
        let ghost done = lens@.take(pos as int);
        if v == 0 {
            if run >= 11 {
                r.push(RlToken::ZLong(run as u8));
                proof {
                    lemma_rl_expand_push(r0, RlToken::ZLong(run as u8));
                    assert(rl_expand(r@) =~= lens@.take((pos + run) as int));
                    assert(next_token(lens@, pos as int) == RlToken::ZLong(run as u8));
                    assert(rl_tokens_from(lens@, pos as int) == seq![
                        RlToken::ZLong(run as u8),
                    ] + rl_tokens_from(lens@, pos + run));
                    assert(r@ + rl_tokens_from(lens@, pos + run) =~= r0 + rl_tokens_from(
                        lens@,
                        pos as int,
                    ));
                }
                pos = j;
            } else if run >= 3 {
                r.push(RlToken::ZShort(run as u8));
                proof {
                    lemma_rl_expand_push(r0, RlToken::ZShort(run as u8));
                    assert(rl_expand(r@) =~= lens@.take((pos + run) as int));
                    assert(next_token(lens@, pos as int) == RlToken::ZShort(run as u8));
                    assert(rl_tokens_from(lens@, pos as int) == seq![
                        RlToken::ZShort(run as u8),
                    ] + rl_tokens_from(lens@, pos + run));
                    assert(r@ + rl_tokens_from(lens@, pos + run) =~= r0 + rl_tokens_from(
                        lens@,
                        pos as int,
                    ));
                }
                pos = j;
            } else {
                r.push(RlToken::Lit(0));
                proof {
                    lemma_rl_expand_push(r0, RlToken::Lit(0));
                    assert(rl_expand(r@) =~= lens@.take((pos + 1) as int));
                    assert(next_token(lens@, pos as int) == RlToken::Lit(0));
                    assert(rl_tokens_from(lens@, pos as int) == seq![
                        RlToken::Lit(0),
                    ] + rl_tokens_from(lens@, pos + 1));
                    assert(r@ + rl_tokens_from(lens@, pos + 1) =~= r0 + rl_tokens_from(
                        lens@,
                        pos as int,
                    ));
                }
                pos = pos + 1;
            }
        } else {
            if pos > 0 && lens[pos - 1] == v && run >= 3 {
                let c: usize = if run > 6 {
                    6
                } else {
                    run
                };
                r.push(RlToken::Rep(c as u8));
                proof {
                    lemma_rl_expand_push(r0, RlToken::Rep(c as u8));
                    assert(done.len() == pos);
                    assert(done.last() == lens@[pos - 1]);
                    assert(rl_expand(r@) =~= lens@.take((pos + c) as int));
                    assert(next_token(lens@, pos as int) == RlToken::Rep(c as u8));
                    assert(rl_tokens_from(lens@, pos as int) == seq![
                        RlToken::Rep(c as u8),
                    ] + rl_tokens_from(lens@, pos + c));
                    assert(r@ + rl_tokens_from(lens@, pos + c) =~= r0 + rl_tokens_from(
                        lens@,
                        pos as int,
                    ));
                }
                pos = pos + c;
            } else {
                r.push(RlToken::Lit(v));
                proof {
                    lemma_rl_expand_push(r0, RlToken::Lit(v));
                    assert(rl_expand(r@) =~= lens@.take((pos + 1) as int));
                    assert(next_token(lens@, pos as int) == RlToken::Lit(v));
                    assert(rl_tokens_from(lens@, pos as int) == seq![
                        RlToken::Lit(v),
                    ] + rl_tokens_from(lens@, pos + 1));
                    assert(r@ + rl_tokens_from(lens@, pos + 1) =~= r0 + rl_tokens_from(
                        lens@,
                        pos as int,
                    ));
                }
                pos = pos + 1;
            }
        }
    }
    proof {
        assert(lens@.take(n as int) =~= lens@);
        assert(rl_tokens_from(lens@, n as int) == Seq::<RlToken>::empty());
        assert(r@ + rl_tokens_from(lens@, n as int) =~= r@);
    }
    r
}

/// Expand description tokens back into the length sequence they describe.
///
/// Returns `None` exactly when some token's count or value is out of range,
/// or when the sequence opens with a "repeat previous" token, which has
/// nothing to repeat.
#[verifier::loop_isolation(false)]
pub fn rl_decode(toks: &Vec<RlToken>) -> (r: Option<Vec<u8>>)
    ensures
        match r {
            Some(out) => {
                &&& out@ == rl_expand(toks@)
                &&& forall|i: int| 0 <= i < toks@.len() ==> token_wf(toks@[i])
                &&& forall|i: int| 0 <= i < out@.len() ==> out@[i] <= 15
                &&& (toks@.len() > 0 ==> !is_rep(toks@[0]))
            },
            None => (exists|i: int| 0 <= i < toks@.len() && !token_wf(toks@[i])) || (toks@.len()
                > 0 && is_rep(toks@[0])),
        },
{
    let m = toks.len();
    let mut out: Vec<u8> = Vec::new();
    let mut i: usize = 0;
    while i < m
        invariant
            i <= m,
            out@ == rl_expand(toks@.take(i as int)),
            out@.len() >= i,
            forall|k: int| 0 <= k < i ==> token_wf(toks@[k]),
            forall|k: int| 0 <= k < out@.len() ==> out@[k] <= 15,
            i > 0 ==> !is_rep(toks@[0]),
        decreases m - i,
    {
        let ghost pre = toks@.take(i as int);
        proof {
            assert(toks@.take(i + 1) =~= pre.push(toks@[i as int]));
            lemma_rl_expand_push(pre, toks@[i as int]);
        }
        let t = toks[i];
        match t {
            RlToken::Lit(v) => {
                if v > 15 {
                    return None;
                }
                out.push(v);
            },
            RlToken::Rep(c) => {
                if c < 3 || c > 6 {
                    return None;
                }
                if out.len() == 0 {
                    return None;
                }
                let prev = out[out.len() - 1];
                let ghost out0 = out@;
                let mut k: usize = 0;
                while k < c as usize
                    invariant
                        k <= c as usize,
                        out@ == out0 + Seq::new(k as nat, |q: int| prev),
                    decreases c as usize - k,
                {
                    out.push(prev);
                    proof {
                        assert(out@ =~= out0 + Seq::new((k + 1) as nat, |q: int| prev));
                    }
                    k = k + 1;
                }
                proof {
                    assert(out@ =~= rl_expand(toks@.take(i + 1)));
                }
            },
            RlToken::ZShort(c) => {
                if c < 3 || c > 10 {
                    return None;
                }
                let ghost out0 = out@;
                let mut k: usize = 0;
                while k < c as usize
                    invariant
                        k <= c as usize,
                        out@ == out0 + Seq::new(k as nat, |q: int| 0u8),
                    decreases c as usize - k,
                {
                    out.push(0);
                    proof {
                        assert(out@ =~= out0 + Seq::new((k + 1) as nat, |q: int| 0u8));
                    }
                    k = k + 1;
                }
                proof {
                    assert(out@ =~= rl_expand(toks@.take(i + 1)));
                }
            },
            RlToken::ZLong(c) => {
                if c < 11 || c > 138 {
                    return None;
                }
                let ghost out0 = out@;
                let mut k: usize = 0;
                while k < c as usize
                    invariant
                        k <= c as usize,
                        out@ == out0 + Seq::new(k as nat, |q: int| 0u8),
                    decreases c as usize - k,
                {
                    out.push(0);
                    proof {
                        assert(out@ =~= out0 + Seq::new((k + 1) as nat, |q: int| 0u8));
                    }
                    k = k + 1;
                }
                proof {
                    assert(out@ =~= rl_expand(toks@.take(i + 1)));
                }
            },
        }
        i = i + 1;
    }
    proof {
        assert(toks@.take(m as int) =~= toks@);
    }
    Some(out)
}

/// Meta-alphabet symbol of a token: lengths 0 through 15 code themselves,
/// 16 repeats the previous length, 17 and 18 are the zero runs.
pub open spec fn token_code(t: RlToken) -> int {
    match t {
        RlToken::Lit(v) => v as int,
        RlToken::Rep(c) => 16,
        RlToken::ZShort(c) => 17,
        RlToken::ZLong(c) => 18,
    }
}

/// Number of tokens carrying meta-alphabet symbol `c`.
pub open spec fn count_code(ts: Seq<RlToken>, c: int) -> int
    decreases ts.len(),
{
    if ts.len() == 0 {
        0
    } else {
        count_code(ts.drop_last(), c) + if token_code(ts.last()) == c {
            1int
        } else {
            0int
        }
    }
}

proof fn lemma_count_code_bounds(ts: Seq<RlToken>, c: int)
    ensures
        0 <= count_code(ts, c) <= ts.len(),
    decreases ts.len(),
{
    if ts.len() > 0 {
        lemma_count_code_bounds(ts.drop_last(), c);
    }
}

/// Frequency table of the meta-alphabet over a token sequence: entry `c`
/// counts the tokens whose meta symbol is `c`.
#[verifier::loop_isolation(false)]
pub fn token_frequencies(toks: &Vec<RlToken>) -> (r: Vec<u16>)
    requires
        toks@.len() <= 0xFFFF,
        forall|i: int| 0 <= i < toks@.len() ==> token_wf(toks@[i]),
    ensures
        r@.len() == 19,
        forall|c: int| 0 <= c < 19 ==> r@[c] as int == count_code(toks@, c),
{
    let mut r: Vec<u16> = Vec::new();
    let mut c: usize = 0;
    while c < 19
        invariant
            r@.len() == c <= 19,
            forall|j: int| 0 <= j < c ==> r@[j] == 0,
        decreases 19 - c,
    {
        r.push(0);
        c = c + 1;
    }
    proof {
        assert forall|c2: int| 0 <= c2 < 19 implies r@[c2] as int == count_code(
            toks@.take(0),
            c2,
        ) by {
            lemma_count_code_bounds(toks@.take(0), c2);
        }
    }
    let n = toks.len();
    let mut i: usize = 0;
    while i < n
        invariant
            i <= n,
            r@.len() == 19,
            forall|c2: int| 0 <= c2 < 19 ==> r@[c2] as int == count_code(toks@.take(i as int), c2),
        decreases n - i,
    {
        proof {
            assert(toks@.take(i + 1).drop_last() =~= toks@.take(i as int));
            assert(toks@.take(i + 1).last() == toks@[i as int]);
            assert forall|c2: int| 0 <= c2 < 19 implies count_code(toks@.take(i + 1), c2)
                == count_code(toks@.take(i as int), c2) + (if token_code(toks@[i as int]) == c2 {
                1int
            } else {
                0int
            }) by {}
            assert forall|c2: int| 0 <= c2 < 19 implies count_code(toks@.take(i as int), c2)
                <= i as int by {
                lemma_count_code_bounds(toks@.take(i as int), c2);
            }
        }
        let t = toks[i];
        let code: usize = match t {
            RlToken::Lit(v) => v as usize,
            RlToken::Rep(_) => 16,
            RlToken::ZShort(_) => 17,
            RlToken::ZLong(_) => 18,
        };
        let cur = r[code];
        r[code] = cur + 1;
        i = i + 1;
    }
    proof {
        assert(toks@.take(n as int) =~= toks@);
    }
    r
}

/// Build the meta-alphabet tree that codes the description tokens: the
/// nested invocation of the tree builder over the token frequencies, under
/// the meta-alphabet's 7-bit length limit. With only 19 meta symbols the
/// limit always suffices, so this cannot fail.
///
/// The returned lengths and codes carry the tree builder's guarantees,
/// stated over the token counts: a meta symbol gets a code exactly when
/// some token uses it, used symbols get lengths 1 through 7, a more used
/// symbol never gets a longer code, the lengths form a complete code
/// whenever two or more meta symbols are used (and length 1 when exactly
/// one is), and the code words are the canonical assignment of the lengths.
pub fn build_bl_tree(toks: &Vec<RlToken>) -> (r: (Vec<u16>, Vec<u8>))
    requires
        toks@.len() <= 0xFFFF,
        forall|i: int| 0 <= i < toks@.len() ==> token_wf(toks@[i]),
    ensures
        r.0@.len() == 19,
        r.1@.len() == 19,
        forall|c: int| 0 <= c < 19 ==> ((count_code(toks@, c) == 0) <==> (r.1@[c] == 0)),
        forall|c: int| 0 <= c < 19 ==> (count_code(toks@, c) != 0 ==> 1 <= r.1@[c] <= 7),
        forall|c1: int, c2: int|
            0 <= c1 < 19 && 0 <= c2 < 19 && count_code(toks@, c1) > count_code(toks@, c2)
                && count_code(toks@, c2) != 0 ==> r.1@[c1] <= r.1@[c2],
        count_live(r.1@) >= 2 ==> kraft_at(r.1@, 7) == two_pow(7),
        count_live(r.1@) == 1 ==> forall|c: int|
            0 <= c < 19 && count_code(toks@, c) != 0 ==> r.1@[c] == 1,
        forall|c: int|
            0 <= c < 19 ==> if r.1@[c] > 0 {
                r.0@[c] as int == code_of(r.1@, c)
            } else {
                r.0@[c] == 0
            },
{
    let freqs = token_frequencies(toks);
    proof {
        lemma_live_count_bounds(freqs@);
        assert(two_pow(7) == 128) by {
            reveal_with_fuel(two_pow, 9);
        }
    }
    let built = build_tree(&freqs, 7);
    match built {
        Result::Ok(p) => {
            proof {
                assert forall|c: int| 0 <= c < 19 implies freqs@[c] as int == count_code(
                    toks@,
                    c,
                ) by {}
                lemma_live_matches(freqs@, p.1@);
            }
            p
        },
        Result::Err(_) => {
            // Unreachable: 19 live symbols always fit 7-bit codes.
            proof {
                assert(false);
            }
            (Vec::new(), Vec::new())
        },
    }
}

} // verus!
