use huffman::huft::decode_symbol;
use huffman::huft::huft_build;
use huffman::kraft::gen_codes;
use huffman::rle::build_bl_tree;
use huffman::rle::rl_decode;
use huffman::rle::rl_encode;
use huffman::rle::token_frequencies;
use huffman::rle::RlToken;
use huffman::tree::build_ct;
use huffman::tree::build_tree;
use huffman::types::CtData;
use huffman::types::ExtraBitsPointer;
use huffman::types::FileMethod;
use huffman::types::FileType;
use huffman::types::HuffError;
use huffman::types::TreeDesc;
use huffman::types::TreePointer;

fn push_code(bits: &mut Vec<bool>, code: u16, len: u8) {
    for k in (0..len).rev() {
        bits.push((code >> k) & 1 == 1);
    }
}

fn desc(elems: i32, max_length: i32) -> TreeDesc {
    TreeDesc {
        dyn_tree: TreePointer::DynLtree,
        static_tree: TreePointer::Absent,
        extra_bits: ExtraBitsPointer::Absent,
        extra_base: 0,
        elems,
        max_length,
        max_code: 0,
    }
}

#[test]
fn canonical_codes_exact() {
    // lengths [2,1,3,3]: canonical codes 10, 0, 110, 111
    let lens: Vec<u8> = vec![2, 1, 3, 3];
    let codes = gen_codes(&lens, 3);
    assert_eq!(codes, vec![0b10, 0b0, 0b110, 0b111]);
}

#[test]
fn build_tree_small_exact() {
    let freqs: Vec<u16> = vec![5, 1, 1, 1];
    let (codes, lens) = build_tree(&freqs, 15).unwrap();
    assert_eq!(lens, vec![1, 2, 3, 3]);
    assert_eq!(codes, vec![0b0, 0b10, 0b110, 0b111]);
}

#[test]
fn build_tree_deterministic() {
    // Two invocations on identical frequencies give identical output.
    let freqs: Vec<u16> = vec![9, 0, 3, 7, 7, 1, 0, 2, 11, 4];
    let a = build_tree(&freqs, 15).unwrap();
    let b = build_tree(&freqs, 15).unwrap();
    assert_eq!(a.0, b.0);
    assert_eq!(a.1, b.1);
}

#[test]
fn build_tree_respects_length_limit() {
    // A Fibonacci-like frequency table pushes natural depths past 4 bits.
    let freqs: Vec<u16> = vec![1, 1, 2, 3, 5, 8, 13, 21, 34, 55];
    let (_codes, lens) = build_tree(&freqs, 4).unwrap();
    let mut kraft: u32 = 0;
    for &l in lens.iter() {
        assert!(l >= 1 && l <= 4);
        kraft += 1u32 << (4 - l);
    }
    // The limited code is still complete.
    assert_eq!(kraft, 1 << 4);
}

#[test]
fn build_tree_monotone_lengths() {
    let freqs: Vec<u16> = vec![40, 1, 1, 2, 30, 6, 6, 6, 10, 0, 3];
    let (_codes, lens) = build_tree(&freqs, 7).unwrap();
    for i in 0..freqs.len() {
        for j in 0..freqs.len() {
            if freqs[i] > freqs[j] && freqs[j] != 0 {
                assert!(lens[i] <= lens[j]);
            }
        }
    }
}

#[test]
fn build_tree_length_limit_exceeded() {
    // Five live symbols cannot all get codes of at most two bits.
    let freqs: Vec<u16> = vec![1, 1, 1, 1, 1];
    assert_eq!(build_tree(&freqs, 2), Err(HuffError::LengthLimitExceeded));
}

#[test]
fn build_tree_all_zero() {
    let freqs: Vec<u16> = vec![0, 0, 0];
    let (codes, lens) = build_tree(&freqs, 15).unwrap();
    assert_eq!(codes, vec![0, 0, 0]);
    assert_eq!(lens, vec![0, 0, 0]);
}

#[test]
fn single_symbol_gets_length_one() {
    let freqs: Vec<u16> = vec![0, 0, 7, 0];
    let (codes, lens) = build_tree(&freqs, 15).unwrap();
    assert_eq!(lens, vec![0, 0, 1, 0]);
    assert_eq!(codes, vec![0, 0, 0, 0]);
}

#[test]
fn oversubscribed_lengths_rejected() {
    // Three one-bit codes claim the two-slot space twice over.
    let lens: Vec<u8> = vec![1, 1, 1];
    let d: Vec<u16> = Vec::new();
    let e: Vec<u8> = Vec::new();
    let r = huft_build(&lens, 3, &d, &e, 8);
    assert!(matches!(r, Err(HuffError::OversubscribedCode)));
}

#[test]
fn incomplete_lengths_rejected() {
    // Three two-bit codes leave a quarter of the space unused.
    let lens: Vec<u8> = vec![2, 2, 2];
    let d: Vec<u16> = Vec::new();
    let e: Vec<u8> = Vec::new();
    let r = huft_build(&lens, 3, &d, &e, 8);
    assert!(matches!(r, Err(HuffError::IncompleteCode)));
}

#[test]
fn complete_lengths_accepted() {
    let lens: Vec<u8> = vec![2, 2, 2, 2];
    let d: Vec<u16> = Vec::new();
    let e: Vec<u8> = Vec::new();
    let (_t, m) = huft_build(&lens, 4, &d, &e, 8).unwrap();
    assert_eq!(m, 2);
}

#[test]
fn degenerate_table_decodes_every_pattern() {
    let freqs: Vec<u16> = vec![0, 9, 0];
    let (_codes, lens) = build_tree(&freqs, 15).unwrap();
    let d: Vec<u16> = Vec::new();
    let e: Vec<u8> = Vec::new();
    let (t, _m) = huft_build(&lens, 3, &d, &e, 8).unwrap();
    for pattern in [vec![false], vec![true], vec![true, false], vec![false, true]] {
        let (v, extra, next) = decode_symbol(&t, &pattern, 0).unwrap();
        assert_eq!(v, 1);
        assert_eq!(extra, 0);
        assert_eq!(next, 1);
    }
}

#[test]
fn round_trip_encode_then_decode() {
    let freqs: Vec<u16> = vec![50, 40, 30, 20, 10, 5, 1, 1];
    let (codes, lens) = build_tree(&freqs, 15).unwrap();
    let d: Vec<u16> = Vec::new();
    let e: Vec<u8> = Vec::new();
    let (t, _m) = huft_build(&lens, freqs.len(), &d, &e, 8).unwrap();
    let message: Vec<usize> = vec![0, 3, 7, 1, 1, 6, 2, 5, 4, 0, 0, 7];
    let mut bits: Vec<bool> = Vec::new();
    for &sym in message.iter() {
        push_code(&mut bits, codes[sym], lens[sym]);
    }
    let mut pos = 0usize;
    let mut decoded: Vec<usize> = Vec::new();
    while pos < bits.len() {
        let (v, extra, next) = decode_symbol(&t, &bits, pos).unwrap();
        assert_eq!(extra, 0);
        decoded.push(v as usize);
        pos = next;
    }
    assert_eq!(decoded, message);
}

#[test]
fn round_trip_through_narrow_root_table() {
    // A one-bit root forces codes through link entries into sub-tables.
    let freqs: Vec<u16> = vec![50, 40, 30, 20, 10, 5, 1, 1];
    let (codes, lens) = build_tree(&freqs, 15).unwrap();
    let d: Vec<u16> = Vec::new();
    let e: Vec<u8> = Vec::new();
    let (t, _m) = huft_build(&lens, freqs.len(), &d, &e, 1).unwrap();
    let message: Vec<usize> = vec![7, 6, 5, 4, 3, 2, 1, 0, 2, 4, 6];
    let mut bits: Vec<bool> = Vec::new();
    for &sym in message.iter() {
        push_code(&mut bits, codes[sym], lens[sym]);
    }
    let mut pos = 0usize;
    let mut decoded: Vec<usize> = Vec::new();
    while pos < bits.len() {
        let (v, _extra, next) = decode_symbol(&t, &bits, pos).unwrap();
        decoded.push(v as usize);
        pos = next;
    }
    assert_eq!(decoded, message);
}

#[test]
fn extra_bits_symbols_return_base_and_count() {
    // With s = 0, every symbol carries base and extra-bit data.
    let lens: Vec<u8> = vec![1, 1];
    let d: Vec<u16> = vec![100, 200];
    let e: Vec<u8> = vec![3, 4];
    let (t, _m) = huft_build(&lens, 0, &d, &e, 8).unwrap();
    let (base0, extra0, _) = decode_symbol(&t, &vec![false], 0).unwrap();
    assert_eq!((base0, extra0), (100, 3));
    let (base1, extra1, _) = decode_symbol(&t, &vec![true], 0).unwrap();
    assert_eq!((base1, extra1), (200, 4));
}

#[test]
fn decode_fails_on_missing_bits() {
    let lens: Vec<u8> = vec![2, 2, 2, 2];
    let d: Vec<u16> = Vec::new();
    let e: Vec<u8> = Vec::new();
    let (t, _m) = huft_build(&lens, 4, &d, &e, 8).unwrap();
    let bits: Vec<bool> = vec![true];
    assert!(decode_symbol(&t, &bits, 0).is_none());
    assert!(decode_symbol(&t, &bits, 1).is_none());
}

#[test]
fn run_length_round_trip_long_runs() {
    // Fifteen repeated nonzero lengths, then twenty zeros.
    let mut lens: Vec<u8> = Vec::new();
    for _ in 0..15 {
        lens.push(7);
    }
    for _ in 0..20 {
        lens.push(0);
    }
    let toks = rl_encode(&lens);
    assert!(toks.len() < lens.len());
    let back = rl_decode(&toks).unwrap();
    assert_eq!(back, lens);
}

#[test]
fn run_length_tokens_expected_shape() {
    let mut lens: Vec<u8> = Vec::new();
    for _ in 0..15 {
        lens.push(7);
    }
    for _ in 0..20 {
        lens.push(0);
    }
    let toks = rl_encode(&lens);
    assert_eq!(
        toks,
        vec![
            RlToken::Lit(7),
            RlToken::Rep(6),
            RlToken::Rep(6),
            RlToken::Lit(7),
            RlToken::Lit(7),
            RlToken::ZLong(20),
        ]
    );
}

#[test]
fn run_length_round_trip_mixed() {
    let lens: Vec<u8> = vec![0, 0, 3, 3, 3, 3, 3, 1, 0, 0, 0, 0, 2, 2, 0];
    let toks = rl_encode(&lens);
    let back = rl_decode(&toks).unwrap();
    assert_eq!(back, lens);
}

#[test]
fn run_length_decode_rejects_bad_tokens() {
    assert!(rl_decode(&vec![RlToken::Rep(3)]).is_none());
    assert!(rl_decode(&vec![RlToken::Lit(16)]).is_none());
    assert!(rl_decode(&vec![RlToken::ZShort(2)]).is_none());
    assert!(rl_decode(&vec![RlToken::ZLong(139)]).is_none());
    assert!(rl_decode(&vec![RlToken::Lit(4), RlToken::Rep(7)]).is_none());
}

#[test]
fn token_frequencies_counts() {
    let toks = vec![
        RlToken::Lit(7),
        RlToken::Rep(6),
        RlToken::Lit(7),
        RlToken::ZShort(4),
        RlToken::ZLong(20),
        RlToken::Lit(0),
    ];
    let f = token_frequencies(&toks);
    assert_eq!(f.len(), 19);
    assert_eq!(f[7], 2);
    assert_eq!(f[0], 1);
    assert_eq!(f[16], 1);
    assert_eq!(f[17], 1);
    assert_eq!(f[18], 1);
    assert_eq!(f[5], 0);
}

#[test]
fn meta_tree_over_tokens() {
    let mut lens: Vec<u8> = Vec::new();
    for _ in 0..15 {
        lens.push(7);
    }
    for _ in 0..20 {
        lens.push(0);
    }
    let toks = rl_encode(&lens);
    let (_codes, bl_lens) = build_bl_tree(&toks);
    assert_eq!(bl_lens.len(), 19);
    for &l in bl_lens.iter() {
        assert!(l <= 7);
    }
    // The tokens actually used all got codes.
    assert!(bl_lens[7] > 0);
    assert!(bl_lens[16] > 0);
    assert!(bl_lens[18] > 0);
}

#[test]
fn build_ct_fills_codes_and_lengths() {
    let freqs: Vec<u16> = vec![5, 1, 1, 1];
    let mut tree: Vec<CtData> = freqs
        .iter()
        .map(|&f| CtData { freq: f, code: 0, dad: 9, len: 0 })
        .collect();
    build_ct(&mut tree, &desc(4, 15)).unwrap();
    let lens: Vec<u16> = tree.iter().map(|c| c.len).collect();
    let codes: Vec<u16> = tree.iter().map(|c| c.code).collect();
    assert_eq!(lens, vec![1, 2, 3, 3]);
    assert_eq!(codes, vec![0b0, 0b10, 0b110, 0b111]);
    for (c, &f) in tree.iter().zip(freqs.iter()) {
        assert_eq!(c.freq, f);
        assert_eq!(c.dad, 9);
    }
}

#[test]
fn build_ct_reports_length_limit() {
    let mut tree: Vec<CtData> = (0..5)
        .map(|_| CtData { freq: 1, code: 0, dad: 3, len: 0 })
        .collect();
    assert_eq!(
        build_ct(&mut tree, &desc(5, 2)),
        Err(HuffError::LengthLimitExceeded)
    );
    // The records are untouched on failure.
    for c in tree.iter() {
        assert_eq!((c.freq, c.code, c.dad, c.len), (1, 0, 3, 0));
    }
}

#[test]
fn completeness_of_accepted_arrays() {
    // Any array the decode builder accepts fills the space exactly, or is
    // the one-symbol degenerate case.
    let cases: Vec<Vec<u8>> = vec![
        vec![2, 2, 2, 2],
        vec![1, 2, 2],
        vec![3, 3, 3, 3, 3, 3, 3, 3],
        vec![0, 0, 4, 0],
    ];
    let d: Vec<u16> = Vec::new();
    let e: Vec<u8> = Vec::new();
    for lens in cases {
        let n = lens.len();
        if huft_build(&lens, n, &d, &e, 8).is_ok() {
            let ml = *lens.iter().max().unwrap() as u32;
            let live = lens.iter().filter(|&&l| l != 0).count();
            let sum: u32 = lens
                .iter()
                .filter(|&&l| l != 0)
                .map(|&l| 1u32 << (ml - l as u32))
                .sum();
            assert!(sum == 1u32 << ml || live == 1);
        }
    }
}

#[test]
fn state_enums_compare() {
    assert_eq!(FileType::Binary, FileType::Binary);
    assert_ne!(FileType::Ascii, FileType::Unknown);
    assert_eq!(FileMethod::Deflate, FileMethod::Deflate);
    assert_ne!(FileMethod::Store, FileMethod::Deflate);
}

#[test]
fn encoder_lengths_always_accepted() {
    let tables: Vec<Vec<u16>> = vec![
        vec![1, 1],
        vec![10, 0, 0, 1],
        vec![3, 1, 4, 1, 5, 9, 2, 6, 5, 3, 5],
        vec![65535, 1, 1, 1],
        vec![7; 19],
    ];
    let d: Vec<u16> = Vec::new();
    let e: Vec<u8> = Vec::new();
    for freqs in tables {
        let (_codes, lens) = build_tree(&freqs, 15).unwrap();
        let n = lens.len();
        assert!(huft_build(&lens, n, &d, &e, 8).is_ok());
    }
}
