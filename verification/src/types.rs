//! Data model of the encoder side: the per-symbol working record, the
//! per-alphabet tree description, and the block-level working state.

use vstd::prelude::*;

verus! {

#[derive(Clone, Copy, PartialEq, Eq, Structural, Debug)]
pub enum FileType {
    Unknown,
    Binary,
    Ascii,
}

#[derive(Clone, Copy, PartialEq, Eq, Structural, Debug)]
pub enum FileMethod {
    Deflate,
    Store,
}

/// Which working tree a `TreeDesc` binds: a dynamic tree under construction
/// or a fixed static fallback tree.
#[derive(Clone, Copy, PartialEq, Eq, Structural, Debug)]
pub enum TreePointer {
    DynLtree,
    DynDtree,
    BlTree,
    StaticLtree,
    StaticDtree,
    Absent,
}

/// Which extra-bits table applies to a tree's symbols.
#[derive(Clone, Copy, PartialEq, Eq, Structural, Debug)]
pub enum ExtraBitsPointer {
    ExtraLBits,
    ExtraDBits,
    ExtraBLBits,
    Absent,
}

/// The three failure conditions of the two builders. None is recoverable
/// for the current block.
#[derive(Clone, Copy, PartialEq, Eq, Structural, Debug)]
pub enum HuffError {
    /// More codes claim some prefix length than fit: corrupt input.
    OversubscribedCode,
    /// The lengths under-fill the code space with more than one live symbol.
    IncompleteCode,
    /// The requested maximum length cannot hold the live alphabet.
    LengthLimitExceeded,
}

/// Per-symbol working record: occurrence count in, canonical code and code
/// length out. `dad` is the parent index used only during tree construction.
#[derive(Clone, Copy, PartialEq, Eq, Structural, Debug)]
pub struct CtData {
    pub freq: u16,
    pub code: u16,
    pub dad: u16,
    pub len: u16,
}

/// Binds a working frequency/code array to its static fallback, extra-bits
/// table, alphabet size and maximum permitted code length.
#[derive(Clone, Copy, PartialEq, Eq, Structural, Debug)]
pub struct TreeDesc {
    pub dyn_tree: TreePointer,
    pub static_tree: TreePointer,
    pub extra_bits: ExtraBitsPointer,
    pub extra_base: i32,
    pub elems: i32,
    pub max_length: i32,
    pub max_code: i32,
}

/// Block-level working storage of the encoder: the three alphabets' working
/// trees, their descriptions, the length histogram and the construction heap.
pub struct State {
    pub extra_lbits: [i32; 29],
    pub extra_dbits: [i32; 30],
    pub extra_blbits: [i32; 19],
    pub dyn_ltree: [CtData; 573],
    pub dyn_dtree: [CtData; 61],
    pub static_ltree: [CtData; 288],
    pub static_dtree: [CtData; 30],
    pub bl_tree: [CtData; 39],
    pub l_desc: TreeDesc,
    pub d_desc: TreeDesc,
    pub bl_desc: TreeDesc,
    pub bl_count: [u16; 16],
    pub bl_order: [u8; 19],
    pub heap: [i32; 573],
    pub heap_len: i32,
    pub heap_max: i32,
    pub depth: [u8; 573],
    pub length_code: [u8; 256],
    pub dist_code: [u8; 512],
    pub base_length: [i32; 29],
    pub base_dist: [i32; 30],
    pub flag_buf: [u8; 4096],
    pub last_lit: u32,
    pub last_dist: u32,
    pub last_flags: u32,
    pub flags: u8,
    pub flag_bit: u8,
    pub opt_len: u32,
    pub static_len: u32,
    pub compressed_len: i64,
    pub input_len: i64,
    pub file_type: FileType,
    pub file_method: FileMethod,
    pub block_start: i64,
    pub strstart: u32,
}

} // verus!
