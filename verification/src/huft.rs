//! Decode Table Builder: from per-symbol code lengths to a compact
//! two-level lookup table, with the canonical-Huffman completeness check.
//!
//! Codes are read most-significant bit first. The root table is indexed by
//! the next `root_bits` bits; codes longer than that continue through a
//! link entry into a sub-table indexed by the remaining bits. Terminal
//! entries are replicated across every index sharing their prefix, so each
//! level is a single indexed read.

use vstd::prelude::*;
use crate::kraft::two_pow;
use crate::kraft::count_len;
use crate::kraft::count_live;
use crate::kraft::max_len_of;
use crate::kraft::kraft_at;
use crate::kraft::sym_kraft;
use crate::kraft::subsum;
use crate::kraft::code_of;
use crate::kraft::gen_codes;
use crate::kraft::histogram;
use crate::kraft::pow2e;
use crate::kraft::lemma_two_pow_pos;
use crate::kraft::lemma_two_pow_mono;
use crate::kraft::lemma_two_pow_adds;
use crate::kraft::lemma_two_pow_15;
use crate::kraft::lemma_subsum_matches;
use crate::kraft::lemma_subsum_bound;
use crate::kraft::lemma_subsum_nonneg;
use crate::kraft::lemma_count_len_bounds;
use crate::kraft::lemma_count_len_take_step;
use crate::kraft::lemma_count_live_exists;
use crate::kraft::lemma_max_len_take_step;
use crate::kraft::lemma_max_len_ge;
use crate::kraft::lemma_max_len_nonneg;
use crate::kraft::lemma_live_max_len;
use crate::kraft::lemma_sym_kraft_eq;
use crate::kraft::lemma_code_of_fits;
use crate::kraft::lemma_canonical_prefix_free;
use crate::kraft::lemma_short_long_cell;
use crate::kraft::bits_val;
use crate::kraft::lemma_bits_val_bound;
use crate::kraft::lemma_bits_val_split;
use crate::kraft::lemma_kraft_nonneg;
use crate::kraft::lemma_kraft_at_zero;
use crate::kraft::lemma_count_live_from_len;
use crate::types::HuffError;

verus! {

/// One entry of the decode table: unused, a terminal carrying a decoded
/// symbol (with or without extra literal bits), or a link into a sub-table.
#[derive(Clone, Copy, PartialEq, Eq, Structural, Debug)]
pub enum HuftEntry {
    Invalid,
    Symbol { bits: u8, value: u16 },
    SymbolExtra { bits: u8, extra: u8, base: u16 },
    Link { bits: u8, index: usize },
}

/// The decode table: a flat arena of entries. The root table occupies
/// indices `0 .. 2^root_bits`; sub-tables follow it.
pub struct HuftTable {
    pub entries: Vec<HuftEntry>,
    pub root_bits: usize,
}

/// Structural soundness of one entry at position `j`: terminals consume
/// between 1 and 15 bits, and links stand only in the root table and point
/// to a fully allocated sub-table beyond it.
pub open spec fn entry_ok(ent: HuftEntry, j: int, rb: int, len: int) -> bool {
    match ent {
        HuftEntry::Invalid => true,
        HuftEntry::Symbol { bits, value } => 1 <= bits <= 15,
        HuftEntry::SymbolExtra { bits, extra, base } => 1 <= bits <= 15,
        HuftEntry::Link { bits, index } => j < two_pow(rb as nat) && 1 <= bits <= 15 && index
            >= two_pow(rb as nat) && index + two_pow(bits as nat) <= len,
    }
}

pub open spec fn entries_wf(es: Seq<HuftEntry>, rb: int) -> bool {
    forall|j: int| 0 <= j < es.len() ==> entry_ok(es[j], j, rb, es.len() as int)
}

impl HuftTable {
    /// Every lookup the decoder can make stays in bounds.
    pub open spec fn wf(self) -> bool {
        &&& 1 <= self.root_bits <= 15
        &&& self.entries@.len() >= two_pow(self.root_bits as nat)
        &&& entries_wf(self.entries@, self.root_bits as int)
    }
}

/// The terminal entry for symbol `sym`: symbols below `s` are simple;
/// symbols at or beyond `s` carry the extra-bit count and base value from
/// the tables `d` and `e`.
pub open spec fn term_spec(s: int, d: Seq<u16>, e: Seq<u8>, sym: int, bits: int) -> HuftEntry {
    if sym < s {
        HuftEntry::Symbol { bits: bits as u8, value: sym as u16 }
    } else {
        HuftEntry::SymbolExtra { bits: bits as u8, extra: e[sym - s], base: d[sym - s] }
    }
}

/// The decoded value a terminal for `sym` carries: the symbol itself when
/// it is simple, else its base value.
pub open spec fn term_value(s: int, d: Seq<u16>, sym: int) -> u16 {
    if sym < s {
        sym as u16
    } else {
        d[sym - s]
    }
}

/// The count of extra literal bits a terminal for `sym` carries.
pub open spec fn term_extra(s: int, e: Seq<u8>, sym: int) -> u8 {
    if sym < s {
        0u8
    } else {
        e[sym - s]
    }
}

/// The root table realizes the canonical code of the lengths `b`: every
/// index whose leading bits spell a live symbol's code holds that symbol's
/// terminal entry. The builder guarantees this whenever the root spans the
/// longest code in use.
pub open spec fn table_maps(tb: HuftTable, b: Seq<u8>, s: int, d: Seq<u16>, e: Seq<u8>) -> bool {
    let ml = tb.root_bits as int;
    &&& forall|q: int| 0 <= q < b.len() ==> b[q] as int <= ml
    &&& forall|sym: int, idx: int|
        #![trigger tb.entries@[idx], b[sym]]
        0 <= sym < b.len() && b[sym] != 0 && code_of(b, sym) * two_pow((ml - b[sym]) as nat)
            <= idx < (code_of(b, sym) + 1) * two_pow((ml - b[sym]) as nat) ==> tb.entries@[idx]
            == term_spec(s, d, e, sym, b[sym] as int)
}

/// Completeness invariant of accepted length arrays: the per-symbol sum
/// `sum over live symbols of 2^(max_len - length)` is exactly `2^max_len`,
/// unless exactly one symbol is live.
pub proof fn lemma_completeness_invariant(lens: Seq<u8>)
    requires
        kraft_at(lens, max_len_of(lens)) == two_pow(max_len_of(lens) as nat) || count_live(lens)
            == 1,
    ensures
        sym_kraft(lens, max_len_of(lens)) == two_pow(max_len_of(lens) as nat) || count_live(lens)
            == 1,
{
    lemma_max_len_nonneg(lens);
    lemma_sym_kraft_eq(lens, max_len_of(lens));
}


/// One root-fill step keeps every previously placed symbol's interval
/// intact and adds the new symbol's interval: the canonical intervals are
/// pairwise disjoint, so the new writes cannot touch the old entries.
#[verifier::rlimit(100)]
proof fn lemma_root_fill_step(
    b: Seq<u8>,
    s: int,
    d: Seq<u16>,
    e: Seq<u8>,
    pre: Seq<HuftEntry>,
    post: Seq<HuftEntry>,
    ml: int,
    i2: int,
    base: int,
    step: int,
    ent: HuftEntry,
)
    requires
        0 <= i2 < b.len(),
        0 < b[i2] as int <= ml,
        forall|q: int| 0 <= q < b.len() ==> b[q] as int <= ml,
        kraft_at(b, ml) <= two_pow(ml as nat),
        post.len() == pre.len(),
        pre.len() >= two_pow(ml as nat),
        base == code_of(b, i2) * two_pow((ml - b[i2]) as nat),
        step == two_pow((ml - b[i2]) as nat),
        ent == term_spec(s, d, e, i2, b[i2] as int),
        forall|q: int| 0 <= q < post.len() && !(base <= q < base + step) ==> post[q] == pre[q],
        forall|q: int| base <= q < base + step ==> post[q] == ent,
        forall|sym: int, idx: int|
            #![trigger pre[idx], b[sym]]
            0 <= sym < i2 && b[sym] != 0 && code_of(b, sym) * two_pow((ml - b[sym]) as nat)
                <= idx < (code_of(b, sym) + 1) * two_pow((ml - b[sym]) as nat) ==> pre[idx]
                == term_spec(s, d, e, sym, b[sym] as int),
    ensures
        forall|sym: int, idx: int|
            #![trigger post[idx], b[sym]]
            0 <= sym < i2 + 1 && b[sym] != 0 && code_of(b, sym) * two_pow((ml - b[sym]) as nat)
                <= idx < (code_of(b, sym) + 1) * two_pow((ml - b[sym]) as nat) ==> post[idx]
                == term_spec(s, d, e, sym, b[sym] as int),
{
    assert forall|sym: int, idx: int|
        #![trigger post[idx], b[sym]]
        0 <= sym < i2 + 1 && b[sym] != 0 && code_of(b, sym) * two_pow((ml - b[sym]) as nat)
            <= idx < (code_of(b, sym) + 1) * two_pow((ml - b[sym]) as nat) implies post[idx]
        == term_spec(s, d, e, sym, b[sym] as int) by {
        let ts = two_pow((ml - b[sym]) as nat) as int;
        let cs = code_of(b, sym);
        lemma_code_of_fits(b, ml, sym);
        lemma_two_pow_pos((ml - b[sym]) as nat);
        lemma_two_pow_adds(b[sym] as nat, (ml - b[sym]) as nat);
        assert(cs * ts + ts == (cs + 1) * ts && cs * ts >= 0 && (cs + 1) * ts <= two_pow(
            b[sym] as nat,
        ) * ts) by (nonlinear_arith)
            requires
                cs >= 0,
                ts >= 1,
                cs + 1 <= two_pow(b[sym] as nat),
        ;
        assert(idx < (cs + 1) * ts);
        assert(two_pow(b[sym] as nat) * ts == two_pow(ml as nat));
        assert(idx < pre.len());
        if sym == i2 {
            assert(base <= idx < base + step);
            assert(post[idx] == ent);
        } else {
            lemma_canonical_prefix_free(b, ml, sym, i2);
            let ti = two_pow((ml - b[i2]) as nat) as int;
            let ci = code_of(b, i2);
            assert(ci * ti + ti == (ci + 1) * ti) by (nonlinear_arith);
            assert(base + step == (ci + 1) * ti);
            assert(!(base <= idx < base + step));
            assert(post[idx] == pre[idx]);
        }
    }
}



/// A short symbol's root fill keeps every link cell and keeps a witness
/// for every terminal in the root table.
#[verifier::rlimit(100)]
proof fn lemma_fill_short_preserves(
    b: Seq<u8>,
    ml: int,
    w: int,
    root_size: int,
    i2: int,
    base: int,
    step: int,
    pre: Seq<HuftEntry>,
    post: Seq<HuftEntry>,
    ent: HuftEntry,
)
    requires
        0 <= i2 < b.len(),
        0 < b[i2] as int <= w <= ml,
        forall|q: int| 0 <= q < b.len() ==> b[q] as int <= ml,
        kraft_at(b, ml) <= two_pow(ml as nat),
        root_size == two_pow(w as nat),
        base == code_of(b, i2) * two_pow((w - b[i2]) as nat),
        base + step == (code_of(b, i2) + 1) * two_pow((w - b[i2]) as nat),
        post.len() == pre.len() >= root_size,
        forall|q: int| 0 <= q < post.len() && !(base <= q < base + step) ==> post[q] == pre[q],
        forall|q: int| base <= q < base + step ==> post[q] == ent,
        !(ent matches HuftEntry::Invalid),
        !(ent matches HuftEntry::Link { bits, index }),
        forall|sym: int|
            #![trigger b[sym]]
            0 <= sym < i2 && (b[sym] as int) > w ==> code_of(b, sym) / (two_pow(
                (b[sym] - w) as nat,
            ) as int) < two_pow(w as nat) && (pre[code_of(b, sym) / (two_pow(
                (b[sym] - w) as nat,
            ) as int)] matches HuftEntry::Link { bits, index } && bits as int == ml - w),
        forall|q: int|
            #![trigger pre[q]]
            0 <= q < root_size && !(pre[q] matches HuftEntry::Invalid) && !(pre[q]
                matches HuftEntry::Link { bits, index }) ==> exists|sy: int|
                0 <= sy < i2 && 0 < (#[trigger] b[sy]) as int <= w && code_of(b, sy) * two_pow(
                    (w - b[sy]) as nat,
                ) <= q < (code_of(b, sy) + 1) * two_pow((w - b[sy]) as nat),
    ensures
        forall|sym: int|
            #![trigger b[sym]]
            0 <= sym < i2 + 1 && (b[sym] as int) > w ==> code_of(b, sym) / (two_pow(
                (b[sym] - w) as nat,
            ) as int) < two_pow(w as nat) && (post[code_of(b, sym) / (two_pow(
                (b[sym] - w) as nat,
            ) as int)] matches HuftEntry::Link { bits, index } && bits as int == ml - w),
        forall|q: int|
            #![trigger post[q]]
            0 <= q < root_size && !(post[q] matches HuftEntry::Invalid) && !(post[q]
                matches HuftEntry::Link { bits, index }) ==> exists|sy: int|
                0 <= sy < i2 + 1 && 0 < (#[trigger] b[sy]) as int <= w && code_of(b, sy)
                    * two_pow((w - b[sy]) as nat) <= q < (code_of(b, sy) + 1) * two_pow(
                    (w - b[sy]) as nat,
                ),
{
    assert forall|sym: int|
        #![trigger b[sym]]
        0 <= sym < i2 + 1 && (b[sym] as int) > w implies code_of(b, sym) / (two_pow(
        (b[sym] - w) as nat,
    ) as int) < two_pow(w as nat) && (post[code_of(b, sym) / (two_pow(
        (b[sym] - w) as nat,
    ) as int)] matches HuftEntry::Link { bits, index } && bits as int == ml - w) by {
        lemma_short_long_cell(b, ml, w, i2, sym);
        let pe = code_of(b, sym) / (two_pow((b[sym] - w) as nat) as int);
        lemma_code_of_fits(b, ml, sym);
        lemma_two_pow_pos((b[sym] - w) as nat);
        assert(pe >= 0) by (nonlinear_arith)
            requires
                code_of(b, sym) >= 0,
                two_pow((b[sym] - w) as nat) as int >= 1,
                pe == code_of(b, sym) / (two_pow((b[sym] - w) as nat) as int),
        ;
        assert(!(base <= pe < base + step));
        assert(post[pe] == pre[pe]);
    }
    assert forall|q: int|
        #![trigger post[q]]
        0 <= q < root_size && !(post[q] matches HuftEntry::Invalid) && !(post[q]
            matches HuftEntry::Link { bits, index }) implies exists|sy: int|
        0 <= sy < i2 + 1 && 0 < (#[trigger] b[sy]) as int <= w && code_of(b, sy) * two_pow(
            (w - b[sy]) as nat,
        ) <= q < (code_of(b, sy) + 1) * two_pow((w - b[sy]) as nat) by {
        if base <= q < base + step {
            assert(0 <= i2 < i2 + 1 && 0 < b[i2] as int <= w && code_of(b, i2) * two_pow(
                (w - b[i2]) as nat,
            ) <= q < (code_of(b, i2) + 1) * two_pow((w - b[i2]) as nat));
        } else {
            assert(post[q] == pre[q]);
            let sy = choose|sy: int|
                0 <= sy < i2 && 0 < (#[trigger] b[sy]) as int <= w && code_of(b, sy) * two_pow(
                    (w - b[sy]) as nat,
                ) <= q < (code_of(b, sy) + 1) * two_pow((w - b[sy]) as nat);
            assert(0 <= sy < i2 + 1 && 0 < b[sy] as int <= w && code_of(b, sy) * two_pow(
                (w - b[sy]) as nat,
            ) <= q < (code_of(b, sy) + 1) * two_pow((w - b[sy]) as nat));
        }
    }
}


/// A long symbol's link lookup and sub-table fill keep every root link and
/// every root terminal's witness: the only root cell it can set is its own
/// prefix cell, which it sets to a link.
#[verifier::rlimit(100)]
proof fn lemma_fill_long_preserves(
    b: Seq<u8>,
    ml: int,
    w: int,
    root_size: int,
    i2: int,
    p: int,
    lo: int,
    hi: int,
    pre0: Seq<HuftEntry>,
    pre2: Seq<HuftEntry>,
    post: Seq<HuftEntry>,
)
    requires
        0 <= i2 < b.len(),
        1 <= w,
        w < b[i2] as int <= ml,
        forall|q: int| 0 <= q < b.len() ==> b[q] as int <= ml,
        kraft_at(b, ml) <= two_pow(ml as nat),
        root_size == two_pow(w as nat),
        0 <= p < root_size,
        p == code_of(b, i2) / (two_pow((b[i2] - w) as nat) as int),
        root_size <= lo <= hi,
        pre2.len() == post.len(),
        pre0.len() <= pre2.len(),
        root_size <= pre0.len(),
        forall|q: int| 0 <= q < root_size && q != p ==> pre2[q] == pre0[q],
        pre2[p] matches HuftEntry::Link { bits, index } && bits as int == ml - w,
        forall|q: int| 0 <= q < post.len() && !(lo <= q < hi) ==> post[q] == pre2[q],
        forall|sym: int|
            #![trigger b[sym]]
            0 <= sym < i2 && (b[sym] as int) > w ==> code_of(b, sym) / (two_pow(
                (b[sym] - w) as nat,
            ) as int) < two_pow(w as nat) && (pre0[code_of(b, sym) / (two_pow(
                (b[sym] - w) as nat,
            ) as int)] matches HuftEntry::Link { bits, index } && bits as int == ml - w),
        forall|q: int|
            #![trigger pre0[q]]
            0 <= q < root_size && !(pre0[q] matches HuftEntry::Invalid) && !(pre0[q]
                matches HuftEntry::Link { bits, index }) ==> exists|sy: int|
                0 <= sy < i2 && 0 < (#[trigger] b[sy]) as int <= w && code_of(b, sy) * two_pow(
                    (w - b[sy]) as nat,
                ) <= q < (code_of(b, sy) + 1) * two_pow((w - b[sy]) as nat),
    ensures
        forall|sym: int|
            #![trigger b[sym]]
            0 <= sym < i2 + 1 && (b[sym] as int) > w ==> code_of(b, sym) / (two_pow(
                (b[sym] - w) as nat,
            ) as int) < two_pow(w as nat) && (post[code_of(b, sym) / (two_pow(
                (b[sym] - w) as nat,
            ) as int)] matches HuftEntry::Link { bits, index } && bits as int == ml - w),
        forall|q: int|
            #![trigger post[q]]
            0 <= q < root_size && !(post[q] matches HuftEntry::Invalid) && !(post[q]
                matches HuftEntry::Link { bits, index }) ==> exists|sy: int|
                0 <= sy < i2 + 1 && 0 < (#[trigger] b[sy]) as int <= w && code_of(b, sy)
                    * two_pow((w - b[sy]) as nat) <= q < (code_of(b, sy) + 1) * two_pow(
                    (w - b[sy]) as nat,
                ),
{
    assert forall|sym: int|
        #![trigger b[sym]]
        0 <= sym < i2 + 1 && (b[sym] as int) > w implies code_of(b, sym) / (two_pow(
        (b[sym] - w) as nat,
    ) as int) < two_pow(w as nat) && (post[code_of(b, sym) / (two_pow(
        (b[sym] - w) as nat,
    ) as int)] matches HuftEntry::Link { bits, index } && bits as int == ml - w) by {
        let pe = code_of(b, sym) / (two_pow((b[sym] - w) as nat) as int);
        lemma_code_of_fits(b, ml, sym);
        lemma_two_pow_pos((b[sym] - w) as nat);
        if sym == i2 {
            assert(pe == p);
        } else {
            assert(pe >= 0) by (nonlinear_arith)
                requires
                    code_of(b, sym) >= 0,
                    two_pow((b[sym] - w) as nat) as int >= 1,
                    pe == code_of(b, sym) / (two_pow((b[sym] - w) as nat) as int),
            ;
        }
        assert(post[pe] == pre2[pe]);
    }
    assert forall|q: int|
        #![trigger post[q]]
        0 <= q < root_size && !(post[q] matches HuftEntry::Invalid) && !(post[q]
            matches HuftEntry::Link { bits, index }) implies exists|sy: int|
        0 <= sy < i2 + 1 && 0 < (#[trigger] b[sy]) as int <= w && code_of(b, sy) * two_pow(
            (w - b[sy]) as nat,
        ) <= q < (code_of(b, sy) + 1) * two_pow((w - b[sy]) as nat) by {
        assert(post[q] == pre2[q]);
        assert(q != p);
        assert(pre2[q] == pre0[q]);
        let sy = choose|sy: int|
            0 <= sy < i2 && 0 < (#[trigger] b[sy]) as int <= w && code_of(b, sy) * two_pow(
                (w - b[sy]) as nat,
            ) <= q < (code_of(b, sy) + 1) * two_pow((w - b[sy]) as nat);
        assert(0 <= sy < i2 + 1 && 0 < b[sy] as int <= w && code_of(b, sy) * two_pow(
            (w - b[sy]) as nat,
        ) <= q < (code_of(b, sy) + 1) * two_pow((w - b[sy]) as nat));
    }
}


/// Place one symbol whose code is longer than the root width: find or
/// allocate the sub-table its prefix continues in, and replicate its
/// terminal over the matching sub-table range.
#[verifier::loop_isolation(false)]
#[verifier::rlimit(100)]
#[verifier::spinoff_prover]
fn fill_long(
    entries: &mut Vec<HuftEntry>,
    b: &Vec<u8>,
    s: usize,
    d: &Vec<u16>,
    e: &Vec<u8>,
    codes: &Vec<u16>,
    w: usize,
    ml: usize,
    i2: usize,
    root_size: usize,
    sub_size: usize,
)
    requires
        b@.len() <= 0x8000,
        forall|q: int| 0 <= q < b@.len() ==> b@[q] as int <= ml,
        1 <= w < ml <= 15,
        i2 < b@.len(),
        (b@[i2 as int] as int) > w,
        codes@.len() == b@.len(),
        kraft_at(b@, ml as int) <= two_pow(ml as nat),
        forall|i: int| 0 <= i < b@.len() ==> (b@[i] > 0 ==> codes@[i] as int == code_of(b@, i)),
        b@.len() > s ==> d@.len() + s >= b@.len() && e@.len() + s >= b@.len(),
        root_size == two_pow(w as nat),
        sub_size == two_pow((ml - w) as nat),
        old(entries)@.len() >= root_size,
        entries_wf(old(entries)@, w as int),
        forall|j: int|
            0 <= j < old(entries)@.len() ==> ((#[trigger] old(entries)@[j])
                matches HuftEntry::Link { bits, index } ==> bits as int == ml - w),
        forall|sym: int|
            #![trigger b@[sym]]
            0 <= sym < i2 && (b@[sym] as int) > w ==> code_of(b@, sym) / (two_pow(
                (b@[sym] - w) as nat,
            ) as int) < two_pow(w as nat) && (old(entries)@[code_of(b@, sym) / (two_pow(
                (b@[sym] - w) as nat,
            ) as int)] matches HuftEntry::Link { bits, index } && bits as int == ml - w),
        forall|q: int|
            #![trigger old(entries)@[q]]
            0 <= q < root_size && !(old(entries)@[q] matches HuftEntry::Invalid) && !(old(entries)@[q] matches HuftEntry::Link { bits, index }) ==> exists|sy: int|
                0 <= sy < i2 && 0 < (#[trigger] b@[sy]) as int <= w && code_of(b@, sy) * two_pow(
                    (w - b@[sy]) as nat,
                ) <= q < (code_of(b@, sy) + 1) * two_pow((w - b@[sy]) as nat),
    ensures
        final(entries)@.len() >= root_size,
        entries_wf(final(entries)@, w as int),
        forall|j: int|
            0 <= j < final(entries)@.len() ==> ((#[trigger] final(entries)@[j])
                matches HuftEntry::Link { bits, index } ==> bits as int == ml - w),
        forall|sym: int|
            #![trigger b@[sym]]
            0 <= sym < i2 + 1 && (b@[sym] as int) > w ==> code_of(b@, sym) / (two_pow(
                (b@[sym] - w) as nat,
            ) as int) < two_pow(w as nat) && (final(entries)@[code_of(b@, sym) / (two_pow(
                (b@[sym] - w) as nat,
            ) as int)] matches HuftEntry::Link { bits, index } && bits as int == ml - w),
        forall|q: int|
            #![trigger final(entries)@[q]]
            0 <= q < root_size && !(final(entries)@[q] matches HuftEntry::Invalid) && !(final(entries)@[q] matches HuftEntry::Link { bits, index }) ==> exists|sy: int|
                0 <= sy < i2 + 1 && 0 < (#[trigger] b@[sy]) as int <= w && code_of(b@, sy)
                    * two_pow((w - b@[sy]) as nat) <= q < (code_of(b@, sy) + 1) * two_pow(
                    (w - b@[sy]) as nat,
                ),
{
    let li = b[i2] as usize;
    let ws = ml - w;
        proof {
            assert((w as int) < ml);
        }
        let nb = (li - w) as u8;
        let ent = if i2 < s {
            HuftEntry::Symbol { bits: nb, value: i2 as u16 }
        } else {
            HuftEntry::SymbolExtra { bits: nb, extra: e[i2 - s], base: d[i2 - s] }
        };
        let shift = pow2e(li - w);
        proof {
            lemma_max_len_ge(b@, i2 as int);
            lemma_code_of_fits(b@, ml as int, i2 as int);
            lemma_two_pow_adds(w as nat, (li - w) as nat);
            lemma_two_pow_pos((li - w) as nat);
            assert((codes@[i2 as int] as int) < two_pow(w as nat) * two_pow((li - w) as nat));
            assert((codes@[i2 as int] as int / two_pow((li - w) as nat) as int) < two_pow(
                w as nat,
            )) by (nonlinear_arith)
                requires
                    0 <= codes@[i2 as int] as int,
                    (codes@[i2 as int] as int) < two_pow(w as nat) * two_pow((li - w) as nat),
                    two_pow((li - w) as nat) >= 1,
            ;
        }
        let p = codes[i2] as usize / shift;
        let low = codes[i2] as usize % shift;
        proof {
            assert(p as int == code_of(b@, i2 as int) / (two_pow((li - w) as nat) as int));
        }
        let ghost pre0 = entries@;
        // Find or allocate the sub-table this prefix continues in.
        let cur = entries[p];
        let mut sb: usize = 0;
        let mut have: bool = false;
        match cur {
            HuftEntry::Link { bits: lb, index } => {
                proof {
                    assert(entry_ok(
                        entries@[p as int],
                        p as int,
                        w as int,
                        entries@.len() as int,
                    ));
                    assert(lb as int == ws);
                }
                sb = index;
                have = true;
            },
            HuftEntry::Invalid => {
                sb = entries.len();
                let ghost pre_alloc = entries@;
                let mut k: usize = 0;
                while k < sub_size
                    invariant
                        k <= sub_size,
                        entries@.len() == sb + k,
                        pre_alloc.len() == sb,
                        forall|q: int| 0 <= q < sb ==> entries@[q] == pre_alloc[q],
                        sb >= root_size,
                        entries@.len() >= root_size,
                        root_size == two_pow(w as nat),
                        1 <= w <= 15,
                        ws == ml - w,
                        sub_size == two_pow(ws as nat),
                        entries_wf(entries@, w as int),
                        forall|j: int|
                            0 <= j < entries@.len() ==> ((#[trigger] entries@[j])
                                matches HuftEntry::Link { bits, index } ==> bits as int
                                == ws),
                        forall|j: int|
                            sb <= j < entries@.len() ==> entries@[j] == HuftEntry::Invalid,
                    decreases sub_size - k,
                {
                    entries.push(HuftEntry::Invalid);
                    k = k + 1;
                }
                entries[p] = HuftEntry::Link { bits: ws as u8, index: sb };
                have = true;
                proof {
                    assert(1 <= ws <= 15);
                    assert(entry_ok(
                        entries@[p as int],
                        p as int,
                        w as int,
                        entries@.len() as int,
                    ));
                }
            },
            _ => {
                // A terminal at this prefix would have to come from a
                // short symbol whose interval holds it, which the
                // disjointness of canonical intervals rules out.
                proof {
                    let sy = choose|sy: int|
                        0 <= sy < i2 && 0 < (#[trigger] b@[sy]) as int <= w && code_of(
                            b@,
                            sy,
                        ) * two_pow((w - b@[sy]) as nat) <= p < (code_of(b@, sy) + 1)
                            * two_pow((w - b@[sy]) as nat);
                    lemma_max_len_ge(b@, sy);
                    lemma_short_long_cell(b@, ml as int, w as int, sy, i2 as int);
                    assert(false);
                }
                have = false;
            },
        }
        if have {
            let step2 = pow2e(ws - (li - w));
            proof {
                lemma_two_pow_adds((li - w) as nat, (ws - (li - w)) as nat);
                let lo = low as int;
                let t2 = two_pow((ws - (li - w)) as nat) as int;
                assert((lo + 1) * t2 <= two_pow((li - w) as nat) * t2 && (lo + 1) * t2 == lo
                    * t2 + t2) by (nonlinear_arith)
                    requires
                        lo + 1 <= two_pow((li - w) as nat),
                        t2 >= 0,
                ;
                lemma_two_pow_mono(ws as nat, 15);
                lemma_two_pow_15();
            }
            let base2 = low * step2;
            proof {
                assert(base2 + step2 <= sub_size);
                assert(sb + sub_size <= entries@.len());
            }
            let cap = entries.len();
            let ghost pre2 = entries@;
            let mut k: usize = 0;
            while k < step2
                invariant
                    k <= step2,
                    entries@.len() == cap,
                    pre2.len() == cap,
                    forall|q: int|
                        0 <= q < entries@.len() && !(sb + base2 <= q < sb + base2 + k)
                            ==> entries@[q] == pre2[q],
                    base2 + step2 <= sub_size,
                    sb + sub_size <= entries@.len(),
                    sb >= root_size,
                    entries@.len() >= root_size,
                    root_size == two_pow(w as nat),
                    1 <= w <= 15,
                    ws == ml - w,
                    sub_size == two_pow(ws as nat),
                    entries_wf(entries@, w as int),
                    1 <= nb <= 15,
                    (ent matches HuftEntry::Symbol { bits, value } && bits == nb) || (
                    ent matches HuftEntry::SymbolExtra { bits, extra, base: bb } && bits
                        == nb),
                    forall|j: int|
                        0 <= j < entries@.len() ==> ((#[trigger] entries@[j]) matches HuftEntry::Link {
                            bits,
                            index,
                        } ==> bits as int == ws),
                decreases step2 - k,
            {
                entries[sb + base2 + k] = ent;
                k = k + 1;
            }
            proof {
                assert(pre2[p as int] matches HuftEntry::Link { bits, index } && bits as int
                    == ml - w);
                assert forall|q: int|
                    0 <= q < root_size && q != p as int implies pre2[q] == pre0[q] by {}
                lemma_fill_long_preserves(
                    b@,
                    ml as int,
                    w as int,
                    root_size as int,
                    i2 as int,
                    p as int,
                    (sb + base2) as int,
                    (sb + base2 + step2) as int,
                    pre0,
                    pre2,
                    entries@,
                );
            }
        }

}


/// Place one symbol whose code fits the root table: replicate its terminal
/// across every root index sharing the code as a prefix.
#[verifier::loop_isolation(false)]
#[verifier::rlimit(100)]
#[verifier::spinoff_prover]
fn fill_short(
    entries: &mut Vec<HuftEntry>,
    b: &Vec<u8>,
    s: usize,
    d: &Vec<u16>,
    e: &Vec<u8>,
    codes: &Vec<u16>,
    w: usize,
    ml: usize,
    i2: usize,
    root_size: usize,
)
    requires
        b@.len() <= 0x8000,
        forall|q: int| 0 <= q < b@.len() ==> b@[q] as int <= ml,
        1 <= w <= ml <= 15,
        i2 < b@.len(),
        0 < b@[i2 as int] as int <= w,
        codes@.len() == b@.len(),
        kraft_at(b@, ml as int) <= two_pow(ml as nat),
        forall|i: int| 0 <= i < b@.len() ==> (b@[i] > 0 ==> codes@[i] as int == code_of(b@, i)),
        b@.len() > s ==> d@.len() + s >= b@.len() && e@.len() + s >= b@.len(),
        root_size == two_pow(w as nat),
        old(entries)@.len() >= root_size,
        entries_wf(old(entries)@, w as int),
        forall|j: int|
            0 <= j < old(entries)@.len() ==> ((#[trigger] old(entries)@[j])
                matches HuftEntry::Link { bits, index } ==> bits as int == ml - w),
        w as int == ml ==> forall|sym: int, idx: int|
            #![trigger old(entries)@[idx], b@[sym]]
            0 <= sym < i2 && b@[sym] != 0 && code_of(b@, sym) * two_pow(
                (ml - b@[sym]) as nat,
            ) <= idx < (code_of(b@, sym) + 1) * two_pow((ml - b@[sym]) as nat)
                ==> old(entries)@[idx] == term_spec(s as int, d@, e@, sym, b@[sym] as int),
        forall|sym: int|
            #![trigger b@[sym]]
            0 <= sym < i2 && (b@[sym] as int) > w ==> code_of(b@, sym) / (two_pow(
                (b@[sym] - w) as nat,
            ) as int) < two_pow(w as nat) && (old(entries)@[code_of(b@, sym) / (two_pow(
                (b@[sym] - w) as nat,
            ) as int)] matches HuftEntry::Link { bits, index } && bits as int == ml - w),
        forall|q: int|
            #![trigger old(entries)@[q]]
            0 <= q < root_size && !(old(entries)@[q] matches HuftEntry::Invalid) && !(old(entries)@[q] matches HuftEntry::Link { bits, index }) ==> exists|sy: int|
                0 <= sy < i2 && 0 < (#[trigger] b@[sy]) as int <= w && code_of(b@, sy) * two_pow(
                    (w - b@[sy]) as nat,
                ) <= q < (code_of(b@, sy) + 1) * two_pow((w - b@[sy]) as nat),
    ensures
        final(entries)@.len() == old(entries)@.len(),
        entries_wf(final(entries)@, w as int),
        forall|j: int|
            0 <= j < final(entries)@.len() ==> ((#[trigger] final(entries)@[j])
                matches HuftEntry::Link { bits, index } ==> bits as int == ml - w),
        w as int == ml ==> forall|sym: int, idx: int|
            #![trigger final(entries)@[idx], b@[sym]]
            0 <= sym < i2 + 1 && b@[sym] != 0 && code_of(b@, sym) * two_pow(
                (ml - b@[sym]) as nat,
            ) <= idx < (code_of(b@, sym) + 1) * two_pow((ml - b@[sym]) as nat)
                ==> final(entries)@[idx] == term_spec(s as int, d@, e@, sym, b@[sym] as int),
        forall|sym: int|
            #![trigger b@[sym]]
            0 <= sym < i2 + 1 && (b@[sym] as int) > w ==> code_of(b@, sym) / (two_pow(
                (b@[sym] - w) as nat,
            ) as int) < two_pow(w as nat) && (final(entries)@[code_of(b@, sym) / (two_pow(
                (b@[sym] - w) as nat,
            ) as int)] matches HuftEntry::Link { bits, index } && bits as int == ml - w),
        forall|q: int|
            #![trigger final(entries)@[q]]
            0 <= q < root_size && !(final(entries)@[q] matches HuftEntry::Invalid) && !(final(entries)@[q] matches HuftEntry::Link { bits, index }) ==> exists|sy: int|
                0 <= sy < i2 + 1 && 0 < (#[trigger] b@[sy]) as int <= w && code_of(b@, sy)
                    * two_pow((w - b@[sy]) as nat) <= q < (code_of(b@, sy) + 1) * two_pow(
                    (w - b@[sy]) as nat,
                ),
{
    let li = b[i2] as usize;
    let ws = ml - w;
        let nb = li as u8;
        let ent = if i2 < s {
            HuftEntry::Symbol { bits: nb, value: i2 as u16 }
        } else {
            HuftEntry::SymbolExtra { bits: nb, extra: e[i2 - s], base: d[i2 - s] }
        };
        let step = pow2e(w - li);
        proof {
            lemma_max_len_ge(b@, i2 as int);
            lemma_code_of_fits(b@, ml as int, i2 as int);
            lemma_two_pow_adds(li as nat, (w - li) as nat);
            let c = codes@[i2 as int] as int;
            let t1 = two_pow((w - li) as nat) as int;
            assert((c + 1) * t1 <= two_pow(li as nat) * t1 && (c + 1) * t1 == c * t1 + t1)
                by (nonlinear_arith)
                requires
                    c + 1 <= two_pow(li as nat),
                    t1 >= 0,
            ;
            lemma_two_pow_mono(w as nat, 15);
            lemma_two_pow_15();
        }
        let base = codes[i2] as usize * step;
        let ghost pre = entries@;
        let mut k: usize = 0;
        while k < step
            invariant
                k <= step,
                entries@.len() == pre.len(),
                forall|q: int|
                    0 <= q < entries@.len() && !(base <= q < base + k) ==> entries@[q]
                        == pre[q],
                forall|q: int| base <= q < base + k ==> entries@[q] == ent,
                base + step <= root_size <= entries@.len(),
                entries@.len() >= root_size,
                root_size == two_pow(w as nat),
                1 <= w <= 15,
                ws == ml - w,
                entries_wf(entries@, w as int),
                1 <= nb <= 15,
                (ent matches HuftEntry::Symbol { bits, value } && bits == nb) || (
                ent matches HuftEntry::SymbolExtra { bits, extra, base: bb } && bits == nb),
                forall|j: int|
                    0 <= j < entries@.len() ==> ((#[trigger] entries@[j]) matches HuftEntry::Link {
                        bits,
                        index,
                    } ==> bits as int == ws),
            decreases step - k,
        {
            entries[base + k] = ent;
            k = k + 1;
        }
        proof {
            if w as int == ml {
                assert(ent == term_spec(s as int, d@, e@, i2 as int, li as int));
                assert(step == two_pow((ml - li) as nat));
                assert(base == code_of(b@, i2 as int) * two_pow((ml - li) as nat));
                lemma_root_fill_step(
                    b@,
                    s as int,
                    d@,
                    e@,
                    pre,
                    entries@,
                    ml as int,
                    i2 as int,
                    base as int,
                    step as int,
                    ent,
                );
            }
            assert(base == code_of(b@, i2 as int) * two_pow((w - li) as nat));
            assert(base + step == (code_of(b@, i2 as int) + 1) * two_pow((w - li) as nat));
            lemma_fill_short_preserves(
                b@,
                ml as int,
                w as int,
                root_size as int,
                i2 as int,
                base as int,
                step as int,
                pre,
                entries@,
                ent,
            );
        }
}

/// Build the entry arena for the given canonical codes: fill the root
/// table, and hang a sub-table off every root prefix that codes longer
/// than the root width continue through.
#[verifier::loop_isolation(false)]
#[verifier::rlimit(100)]
#[verifier::spinoff_prover]
fn fill_tables(
    b: &Vec<u8>,
    s: usize,
    d: &Vec<u16>,
    e: &Vec<u8>,
    codes: &Vec<u16>,
    w: usize,
    ml: usize,
) -> (entries: Vec<HuftEntry>)
    requires
        b@.len() <= 0x8000,
        forall|i: int| 0 <= i < b@.len() ==> b@[i] as int <= ml,
        1 <= w <= ml <= 15,
        codes@.len() == b@.len(),
        kraft_at(b@, ml as int) <= two_pow(ml as nat),
        forall|i: int|
            0 <= i < b@.len() ==> (b@[i] > 0 ==> codes@[i] as int == code_of(b@, i)),
        b@.len() > s ==> d@.len() + s >= b@.len() && e@.len() + s >= b@.len(),
    ensures
        entries@.len() >= two_pow(w as nat),
        entries_wf(entries@, w as int),
        w == ml ==> forall|sym: int, idx: int|
            #![trigger entries@[idx], b@[sym]]
            0 <= sym < b@.len() && b@[sym] != 0 && code_of(b@, sym) * two_pow(
                (ml - b@[sym]) as nat,
            ) <= idx < (code_of(b@, sym) + 1) * two_pow((ml - b@[sym]) as nat) ==> entries@[idx]
                == term_spec(s as int, d@, e@, sym, b@[sym] as int),
        forall|sym: int|
            #![trigger b@[sym]]
            0 <= sym < b@.len() && (b@[sym] as int) > w ==> code_of(b@, sym) / (two_pow(
                (b@[sym] - w) as nat,
            ) as int) < two_pow(w as nat) && (entries@[code_of(b@, sym) / (two_pow(
                (b@[sym] - w) as nat,
            ) as int)] matches HuftEntry::Link { bits, index } && bits as int == ml - w),
{
    let n = b.len();
    let root_size = pow2e(w);
    let mut entries: Vec<HuftEntry> = Vec::new();
    let mut z: usize = 0;
    while z < root_size
        invariant
            z <= root_size,
            entries@.len() == z,
            forall|j: int| 0 <= j < z ==> entries@[j] == HuftEntry::Invalid,
        decreases root_size - z,
    {
        entries.push(HuftEntry::Invalid);
        z = z + 1;
    }
    let ws = ml - w;  // sub-table width; zero when every code fits the root
    let sub_size = pow2e(ws);
    proof {
        assert forall|q: int| 0 <= q < b@.len() implies b@[q] as int <= ml by {
            lemma_max_len_ge(b@, q);
        }
    }
    let mut i2: usize = 0;
    while i2 < n
        invariant
            i2 <= n,
            w as int == ml ==> forall|sym: int, idx: int|
                #![trigger entries@[idx], b@[sym]]
                0 <= sym < i2 && b@[sym] != 0 && code_of(b@, sym) * two_pow(
                    (ml - b@[sym]) as nat,
                ) <= idx < (code_of(b@, sym) + 1) * two_pow((ml - b@[sym]) as nat)
                    ==> entries@[idx] == term_spec(s as int, d@, e@, sym, b@[sym] as int),
            forall|sym: int|
                #![trigger b@[sym]]
                0 <= sym < i2 && (b@[sym] as int) > w ==> code_of(b@, sym) / (two_pow(
                    (b@[sym] - w) as nat,
                ) as int) < two_pow(w as nat) && (entries@[code_of(b@, sym) / (two_pow(
                    (b@[sym] - w) as nat,
                ) as int)] matches HuftEntry::Link { bits, index } && bits as int == ml - w),
            forall|q: int|
                #![trigger entries@[q]]
                0 <= q < root_size && !(entries@[q] matches HuftEntry::Invalid) && !(entries@[q]
                    matches HuftEntry::Link { bits, index }) ==> exists|sy: int|
                    0 <= sy < i2 && 0 < (#[trigger] b@[sy]) as int <= w && code_of(b@, sy)
                        * two_pow((w - b@[sy]) as nat) <= q < (code_of(b@, sy) + 1) * two_pow(
                        (w - b@[sy]) as nat,
                    ),
            entries@.len() >= root_size,
            root_size == two_pow(w as nat),
            1 <= w <= 15,
            ws == ml - w,
            sub_size == two_pow(ws as nat),
            entries_wf(entries@, w as int),
            forall|j: int|
                0 <= j < entries@.len() ==> ((#[trigger] entries@[j]) matches HuftEntry::Link {
                    bits,
                    index,
                } ==> bits as int == ws),
        decreases n - i2,
    {
        let li = b[i2] as usize;
        if li > 0 && li <= w {
            fill_short(&mut entries, b, s, d, e, codes, w, ml, i2, root_size);
        } else if li > w {
            fill_long(&mut entries, b, s, d, e, codes, w, ml, i2, root_size, sub_size);
        }
        i2 = i2 + 1;
    }
    entries
}

/// Build the decode table for the code lengths `b`.
///
/// `s` is the number of simple symbols; for symbols at or beyond `s` the
/// terminal entry carries `e[sym - s]` extra bits above the base value
/// `d[sym - s]`. `max_root_bits` caps the root table width.
///
/// Rejects over-subscribed length arrays with `OversubscribedCode` and
/// incomplete ones with `IncompleteCode`, except that a single live symbol
/// is accepted and yields a table that decodes every bit pattern to that
/// symbol. On success the returned width is the most bits the decoder must
/// peek to resolve the longest code.
#[verifier::loop_isolation(false)]
#[verifier::rlimit(100)]
pub fn huft_build(b: &Vec<u8>, s: usize, d: &Vec<u16>, e: &Vec<u8>, max_root_bits: usize) -> (r:
    Result<(HuftTable, usize), HuffError>)
    requires
        b@.len() <= 0x8000,
        forall|i: int| 0 <= i < b@.len() ==> b@[i] <= 15,
        1 <= max_root_bits <= 15,
        b@.len() > s ==> d@.len() + s >= b@.len() && e@.len() + s >= b@.len(),
    ensures
        ({
            let ml = max_len_of(b@);
            let kr = kraft_at(b@, ml);
            let cap = two_pow(ml as nat) as int;
            match r {
                Result::Err(err) => (err == HuffError::OversubscribedCode && kr > cap) || (err
                    == HuffError::IncompleteCode && kr < cap && count_live(b@) != 1),
                Result::Ok(p) => {
                    &&& (kr == cap || count_live(b@) == 1)
                    &&& kr <= cap
                    &&& p.0.wf()
                    &&& p.1 == if count_live(b@) == 1 {
                        1int
                    } else {
                        ml
                    }
                    &&& (count_live(b@) == 1 ==> exists|sym: int|
                        0 <= sym < b@.len() && b@[sym] != 0 && p.0.root_bits == 1
                            && p.0.entries@.len() == 2 && p.0.entries@[0] == term_spec(
                            s as int,
                            d@,
                            e@,
                            sym,
                            1,
                        ) && p.0.entries@[1] == term_spec(s as int, d@, e@, sym, 1))
                    &&& (count_live(b@) >= 2 ==> p.0.root_bits == if ml <= max_root_bits {
                        ml
                    } else {
                        max_root_bits as int
                    })
                    &&& (count_live(b@) >= 2 && ml <= max_root_bits ==> p.0.root_bits == ml
                        && table_maps(p.0, b@, s as int, d@, e@))
                    &&& (count_live(b@) >= 2 ==> forall|sym: int|
                        #![trigger b@[sym]]
                        0 <= sym < b@.len() && (b@[sym] as int) > p.0.root_bits ==> code_of(
                            b@,
                            sym,
                        ) / (two_pow((b@[sym] - p.0.root_bits) as nat) as int) < two_pow(
                            p.0.root_bits as nat,
                        ) && (p.0.entries@[code_of(b@, sym) / (two_pow(
                            (b@[sym] - p.0.root_bits) as nat,
                        ) as int)] matches HuftEntry::Link { bits, index } && bits as int == ml
                            - p.0.root_bits))
                },
            }
        }),
{
    let n = b.len();
    // Maximum code length in use and number of live symbols.
    let mut ml: usize = 0;
    let mut live: usize = 0;
    let mut i: usize = 0;
    while i < n
        invariant
            i <= n,
            ml as int == max_len_of(b@.take(i as int)),
            live as int == count_live(b@.take(i as int)),
            ml <= 15,
            live <= i,
        decreases n - i,
    {
        proof {
            lemma_max_len_take_step(b@, i as int);
            lemma_count_len_take_step(b@, 0, i as int);
        }
        if b[i] as usize > ml {
            ml = b[i] as usize;
        }
        if b[i] > 0 {
            live = live + 1;
        }
        i = i + 1;
    }
    proof {
        assert(b@.take(n as int) =~= b@);
    }
    // Kraft sum at precision `ml`, by the Horner rule over the histogram.
    let counts = histogram(b, 15);
    let limit = pow2e(ml);
    let mut total: usize = 0;
    let mut l: usize = 1;
    proof {
        lemma_two_pow_15();
        lemma_two_pow_mono(ml as nat, 15);
    }
    while l <= ml
        invariant
            1 <= l <= ml + 1,
            total == subsum(counts@, l - 1),
            total <= 0x7FFF0000,
        decreases ml + 1 - l,
    {
        proof {
            assert forall|j: int| 1 <= j <= l implies counts@[j] as int <= n as int by {
                lemma_count_len_bounds(b@, j);
            }
            lemma_subsum_bound(counts@, l as int, n as int);
            lemma_two_pow_mono((l + 1) as nat, 16);
            assert(two_pow(16) == 0x10000) by {
                reveal_with_fuel(two_pow, 18);
            }
            assert(two_pow(0) == 1);
            assert(two_pow(1) == 2);
            lemma_two_pow_mono(1, (l + 1) as nat);
            assert(n * (two_pow((l + 1) as nat) - 2) <= 0x8000 * (0x10000 - 2))
                by (nonlinear_arith)
                requires
                    n <= 0x8000,
                    2 <= two_pow((l + 1) as nat) <= 0x10000,
            ;
            lemma_subsum_nonneg(counts@, l - 1);
            assert(subsum(counts@, l as int) == 2 * subsum(counts@, l - 1) + counts@[l as int]);
        }
        total = 2 * total + counts[l];
        l = l + 1;
    }
    proof {
        lemma_subsum_matches(b@, counts@, ml as int);
        lemma_max_len_nonneg(b@);
    }
    if total > limit {
        return Result::Err(HuffError::OversubscribedCode);
    }
    if live != 1 && total < limit {
        return Result::Err(HuffError::IncompleteCode);
    }
    if live == 1 {
        // Degenerate single-symbol alphabet: a one-bit table, both of whose
        // entries decode to the one live symbol.
        let mut idx: usize = 0;
        while idx < n && b[idx] == 0
            invariant
                idx <= n,
                forall|j: int| 0 <= j < idx ==> b@[j] == 0,
            decreases n - idx,
        {
            idx = idx + 1;
        }
        proof {
            if idx == n {
                lemma_count_live_exists(b@);
                let w = choose|w: int| 0 <= w < b@.len() && b@[w] != 0;
                assert(false);
            }
        }
        let ent = if idx < s {
            HuftEntry::Symbol { bits: 1, value: idx as u16 }
        } else {
            HuftEntry::SymbolExtra { bits: 1, extra: e[idx - s], base: d[idx - s] }
        };
        let mut entries: Vec<HuftEntry> = Vec::new();
        entries.push(ent);
        entries.push(ent);
        let t = HuftTable { entries, root_bits: 1 };
        proof {
            assert(two_pow(0) == 1);
            assert(two_pow(1) == 2);
            assert(t.wf());
            assert(t.entries@[0] == term_spec(s as int, d@, e@, idx as int, 1));
            lemma_live_max_len(b@);
            lemma_kraft_nonneg(b@, ml as int);
        }
        return Result::Ok((t, 1));
    }
    // Complete code with at least two live symbols: canonical codes, then
    // the root table and any sub-tables.
    proof {
        if live == 0 {
            assert forall|j: int| 1 <= j <= ml implies count_len(b@, j) == 0 by {
                lemma_count_len_bounds(b@, j);
                if count_len(b@, j) > 0 {
                    lemma_count_live_from_len(b@, j);
                }
            }
            lemma_kraft_at_zero(b@, ml as int);
            lemma_two_pow_pos(ml as nat);
            assert(false);
        }
        lemma_live_max_len(b@);
        assert forall|q: int| 0 <= q < b@.len() implies b@[q] as int <= ml by {
            lemma_max_len_ge(b@, q);
        }
    }
    let codes = gen_codes(b, ml);
    let w = if max_root_bits < ml {
        max_root_bits
    } else {
        ml
    };
    let entries = fill_tables(b, s, d, e, &codes, w, ml);
    let t = HuftTable { entries, root_bits: w };
    Result::Ok((t, ml))
}

/// Decode one symbol from `bits` starting at `pos`, reading the code most
/// significant bit first. Returns the decoded value or base, the count of
/// extra literal bits that follow, and the position after the code. Fails
/// on an unused code or when too few bits remain.
///
/// When the table realizes a canonical code (`table_maps`) and the next
/// bits spell some live symbol's code word, the result is exactly that
/// symbol's terminal data with exactly its code length consumed, so a
/// stream of code words decodes back to the symbols that produced it.
#[verifier::loop_isolation(false)]
#[verifier::rlimit(100)]
#[verifier::spinoff_prover]
pub fn decode_symbol(t: &HuftTable, bits: &Vec<bool>, pos: usize) -> (r: Option<(u16, u8, usize)>)
    requires
        t.wf(),
        pos <= bits@.len(),
    ensures
        match r {
            Some(q) => pos < q.2 <= bits@.len(),
            None => true,
        },
        forall|b: Seq<u8>, s2: int, d2: Seq<u16>, e2: Seq<u8>, sym: int|
            #![trigger table_maps(*t, b, s2, d2, e2), b[sym]]
            table_maps(*t, b, s2, d2, e2) && 0 <= sym < b.len() && b[sym] != 0 && pos + b[sym]
                <= bits@.len() && bits_val(bits@.subrange(pos as int, pos + b[sym])) == code_of(
                b,
                sym,
            ) ==> r == Option::Some(
                (term_value(s2, d2, sym), term_extra(s2, e2, sym), (pos + b[sym]) as usize),
            ),
{
    let rb = t.root_bits;
    let cap = t.entries.len();
    let rem = bits.len() - pos;
    let avail = if rb < rem {
        rb
    } else {
        rem
    };
    let mut idxv: usize = 0;
    let mut k: usize = 0;
    while k < avail
        invariant
            k <= avail <= 15,
            pos + avail <= bits@.len(),
            idxv < two_pow(k as nat),
            idxv as int == bits_val(bits@.subrange(pos as int, pos + k)),
        decreases avail - k,
    {
        proof {
            lemma_two_pow_mono((k + 1) as nat, 15);
            lemma_two_pow_15();
            assert(bits@.subrange(pos as int, pos + k + 1).drop_last() =~= bits@.subrange(
                pos as int,
                pos + k,
            ));
            assert(bits@.subrange(pos as int, pos + k + 1).last() == bits@[pos + k]);
        }
        idxv = idxv * 2 + if bits[pos + k] {
            1
        } else {
            0
        };
        k = k + 1;
    }
    let pad = pow2e(rb - avail);
    proof {
        lemma_two_pow_adds(avail as nat, (rb - avail) as nat);
        let vv = idxv as int;
        let tt = two_pow((rb - avail) as nat) as int;
        assert(vv * tt + tt <= two_pow(avail as nat) * tt && (vv + 1) * tt == vv * tt + tt)
            by (nonlinear_arith)
            requires
                vv + 1 <= two_pow(avail as nat),
                tt >= 0,
        ;
        lemma_two_pow_pos((rb - avail) as nat);
        lemma_two_pow_mono(rb as nat, 15);
        lemma_two_pow_15();
    }
    let idx = idxv * pad;
    proof {
        assert forall|b: Seq<u8>, s2: int, d2: Seq<u16>, e2: Seq<u8>, sym: int|
            #![trigger table_maps(*t, b, s2, d2, e2), b[sym]]
            table_maps(*t, b, s2, d2, e2) && 0 <= sym < b.len() && b[sym] != 0 && pos + b[sym]
                <= bits@.len() && bits_val(bits@.subrange(pos as int, pos + b[sym])) == code_of(
                b,
                sym,
            ) implies t.entries@[idx as int] == term_spec(s2, d2, e2, sym, b[sym] as int) && b[sym]
            <= rem by {
            let l = b[sym] as int;
            let c = code_of(b, sym);
            assert(l <= rb);
            assert(l <= avail);
            let full = bits@.subrange(pos as int, pos + avail);
            lemma_bits_val_split(full, l);
            assert(full.take(l) =~= bits@.subrange(pos as int, pos + l));
            let rest = bits_val(full.skip(l));
            lemma_bits_val_bound(full.skip(l));
            lemma_bits_val_bound(full.take(l));
            lemma_two_pow_adds((avail - l) as nat, (rb - avail) as nat);
            let t1 = two_pow((avail - l) as nat) as int;
            let t2 = two_pow((rb - avail) as nat) as int;
            let t3 = two_pow((rb - l) as nat) as int;
            assert(t1 * t2 == t3);
            assert(idxv as int == c * t1 + rest);
            assert((c * t1 + rest) * t2 == c * t3 + rest * t2 && rest * t2 < t1 * t2 && c * t3
                + t3 == (c + 1) * t3 && c * t3 >= 0) by (nonlinear_arith)
                requires
                    t1 * t2 == t3,
                    0 <= rest < t1,
                    t2 >= 1,
                    c >= 0,
            ;
            assert(c * t3 <= idx && (idx as int) < (c + 1) * t3);
        }
    }
    let ent = t.entries[idx];
    match ent {
        HuftEntry::Invalid => Option::None,
        HuftEntry::Symbol { bits: nb, value } => {
            if nb as usize <= rem {
                Option::Some((value, 0, pos + nb as usize))
            } else {
                Option::None
            }
        },
        HuftEntry::SymbolExtra { bits: nb, extra, base } => {
            if nb as usize <= rem {
                Option::Some((base, extra, pos + nb as usize))
            } else {
                Option::None
            }
        },
        HuftEntry::Link { bits: wsub, index } => {
            proof {
                assert(entry_ok(
                    t.entries@[idx as int],
                    idx as int,
                    t.root_bits as int,
                    t.entries@.len() as int,
                ));
            }
            if rem < rb {
                return Option::None;
            }
            let rem2 = rem - rb;
            let avail2 = if (wsub as usize) < rem2 {
                wsub as usize
            } else {
                rem2
            };
            let mut idxv2: usize = 0;
            let mut k2: usize = 0;
            while k2 < avail2
                invariant
                    k2 <= avail2 <= 15,
                    pos + rb + avail2 <= bits@.len(),
                    idxv2 < two_pow(k2 as nat),
                decreases avail2 - k2,
            {
                proof {
                    lemma_two_pow_mono((k2 + 1) as nat, 15);
                    lemma_two_pow_15();
                }
                idxv2 = idxv2 * 2 + if bits[pos + rb + k2] {
                    1
                } else {
                    0
                };
                k2 = k2 + 1;
            }
            let pad2 = pow2e(wsub as usize - avail2);
            proof {
                lemma_two_pow_adds(avail2 as nat, (wsub - avail2) as nat);
                let vv = idxv2 as int;
                let tt = two_pow((wsub - avail2) as nat) as int;
                assert(vv * tt + tt <= two_pow(avail2 as nat) * tt && (vv + 1) * tt == vv * tt
                    + tt) by (nonlinear_arith)
                    requires
                        vv + 1 <= two_pow(avail2 as nat),
                        tt >= 0,
                ;
                lemma_two_pow_pos((wsub - avail2) as nat);
                lemma_two_pow_mono(wsub as nat, 15);
                lemma_two_pow_15();
            }
            let idx2 = idxv2 * pad2;
            let ent2 = t.entries[index + idx2];
            match ent2 {
                HuftEntry::Symbol { bits: nb2, value } => {
                    if nb2 as usize <= rem2 {
                        Option::Some((value, 0, pos + rb + nb2 as usize))
                    } else {
                        Option::None
                    }
                },
                HuftEntry::SymbolExtra { bits: nb2, extra, base } => {
                    if nb2 as usize <= rem2 {
                        Option::Some((base, extra, pos + rb + nb2 as usize))
                    } else {
                        Option::None
                    }
                },
                _ => Option::None,
            }
        },
    }
}

} // verus!
