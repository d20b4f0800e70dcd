//! Searching metadata memory for the last set bit, word by word where the
//! range allows and byte by byte elsewhere, stopping at unmapped metadata.
//! Metadata memory is mapped a whole chunk at a time.
use vstd::prelude::*;
use vstd::arithmetic::power2::{pow2, lemma2_to64};
use crate::address::Address;
use crate::constants::BYTES_IN_CHUNK;
use crate::memory::MemoryRegion;
use super::helpers::{bit_set, find_last_non_zero_bit_u8, find_last_non_zero_bit_u64, lemma_le_bit};

verus! {

/// What a search for the last set metadata bit finds.
#[derive(Debug, Clone, Copy, PartialEq, Eq, Structural)]
pub enum FindMetaBitResult {
    /// The last set bit: bit `bit` of the byte at `addr`.
    Found { addr: Address, bit: u8 },
    /// No bit is set.
    NotFound,
    /// The search met unmapped metadata before a set bit.
    UnmappedMetadata,
}

/// The region `mem` is mapped in whole chunks.
pub open spec fn chunk_mapped(mem: MemoryRegion) -> bool {
    &&& mem.wf()
    &&& mem.start_spec() % BYTES_IN_CHUNK as int == 0
    &&& mem.bytes_spec().len() as int % BYTES_IN_CHUNK as int == 0
}

/// The bytes of `[lo, hi)` are mapped and zero.
pub open spec fn zero_bytes(mem: MemoryRegion, lo: int, hi: int) -> bool {
    forall|x: int| #![trigger mem.byte(x)] #![trigger mem.contains(x)]
        lo <= x < hi ==> mem.contains(x) && mem.byte(x) == 0
}

/// `r` is what a search of `[meta_start, meta_end)` for the last set bit
/// finds: the highest set bit of the last non-zero byte, where all bytes
/// above it are mapped; else that no bit is set, where all bytes are mapped;
/// else that a byte is unmapped (with all bytes above it mapped and zero).
pub open spec fn last_bit_found(mem: MemoryRegion, meta_start: int, meta_end: int, r: FindMetaBitResult) -> bool {
    match r {
        FindMetaBitResult::Found { addr, bit } => {
            &&& meta_start <= addr < meta_end
            &&& bit < 8
            &&& mem.contains(addr as int)
            &&& bit_set(mem.byte(addr as int) as nat, bit as nat)
            &&& forall|i: nat| bit < i < 8 ==> !#[trigger] bit_set(mem.byte(addr as int) as nat, i)
            &&& zero_bytes(mem, addr + 1, meta_end)
        },
        FindMetaBitResult::NotFound => zero_bytes(mem, meta_start, meta_end),
        FindMetaBitResult::UnmappedMetadata => exists|x: int|
            meta_start <= x < meta_end && !mem.contains(x) && zero_bytes(mem, x + 1, meta_end),
    }
}

/// A byte with no bit set is zero.
proof fn lemma_byte_bits(b: u8)
    requires
        forall|i: nat| i < 8 ==> !#[trigger] bit_set(b as nat, i),
    ensures
        b == 0,
{
    lemma2_to64();
    assert(!bit_set(b as nat, 0));
    assert(!bit_set(b as nat, 1));
    assert(!bit_set(b as nat, 2));
    assert(!bit_set(b as nat, 3));
    assert(!bit_set(b as nat, 4));
    assert(!bit_set(b as nat, 5));
    assert(!bit_set(b as nat, 6));
    assert(!bit_set(b as nat, 7));
}

/// A mapped address of a region mapped in whole chunks lies in a mapped chunk.
proof fn lemma_chunk_of(mem: MemoryRegion, x: int)
    requires
        chunk_mapped(mem),
        mem.contains(x),
    ensures
        x - x % BYTES_IN_CHUNK as int >= mem.start_spec(),
        mem.contains_range(x - x % BYTES_IN_CHUNK as int, BYTES_IN_CHUNK as int),
{
    let c = BYTES_IN_CHUNK as int;
    let s = mem.start_spec();
    let l = mem.bytes_spec().len() as int;
    let a = x - x % c;
    vstd::arithmetic::div_mod::lemma_fundamental_div_mod(x, c);
    vstd::arithmetic::div_mod::lemma_fundamental_div_mod(s, c);
    vstd::arithmetic::div_mod::lemma_fundamental_div_mod(l, c);
    let xq = x / c;
    let sq = s / c;
    let lq = l / c;
    assert(a == c * xq);
    assert(s == c * sq);
    assert(l == c * lq);
    assert(sq <= xq) by (nonlinear_arith)
        requires c * sq <= x, x == c * xq + x % c, 0 <= x % c < c, c > 0;
    assert(xq < sq + lq) by (nonlinear_arith)
        requires x < c * sq + c * lq, x == c * xq + x % c, 0 <= x % c < c, c > 0;
    assert(c * sq <= c * xq) by (nonlinear_arith)
        requires sq <= xq, c > 0;
    assert(c * xq + c <= c * sq + c * lq) by (nonlinear_arith)
        requires xq + 1 <= sq + lq, c > 0;
}

/// Search the word of metadata bytes `[cur, cur + 8)`, above which all
/// bytes up to `meta_end` are zero, for its last set bit.
fn search_word(mem: &MemoryRegion, cur: Address, meta_start: Address, meta_end: Address) -> (r: Option<FindMetaBitResult>)
    requires
        mem.wf(),
        meta_start <= cur,
        cur + 8 <= meta_end,
        mem.contains_range(cur as int, 8),
        zero_bytes(*mem, cur + 8, meta_end as int),
    ensures
        match r {
            Some(f) => f is Found && last_bit_found(*mem, meta_start as int, meta_end as int, f),
            None => zero_bytes(*mem, cur as int, meta_end as int),
        },
{
    let value = mem.load_le(cur, 8);
    let ghost w = mem.range(cur as int, 8);
    match find_last_non_zero_bit_u64(value, 0, 64) {
        Some(bit) => {
            let byte_offset = bit >> 3u8;
            let bit_offset = bit & 7u8;
            proof {
                assert(byte_offset == bit / 8 && bit_offset == bit % 8) by (bit_vector)
                    requires byte_offset == bit >> 3u8, bit_offset == bit & 7u8, bit < 64;
                assert(bit == 8 * byte_offset + bit_offset);
                lemma_le_bit(w, byte_offset as int, bit_offset as nat);
                assert(w[byte_offset as int] == mem.byte(cur + byte_offset));
                assert forall|i: nat| bit_offset < i < 8 implies !#[trigger] bit_set(mem.byte(cur + byte_offset) as nat, i) by {
                    lemma_le_bit(w, byte_offset as int, i);
                    assert(w[byte_offset as int] == mem.byte(cur + byte_offset));
                }
                assert forall|x: int| cur + byte_offset + 1 <= x < meta_end implies mem.contains(x) && #[trigger] mem.byte(x) == 0 by {
                    if x < cur + 8 {
                        let k = x - cur;
                        assert(w[k] == mem.byte(x));
                        assert forall|i: nat| i < 8 implies !#[trigger] bit_set(mem.byte(x) as nat, i) by {
                            lemma_le_bit(w, k, i);
                            assert(bit < 8 * k + i < 64);
                            assert(!bit_set(value as nat, (8 * k + i) as nat));
                        }
                        lemma_byte_bits(mem.byte(x));
                    } else {
                        assert(mem.byte(x) == 0);
                    }
                }
            }
            Some(FindMetaBitResult::Found { addr: cur + byte_offset as u64, bit: bit_offset })
        },
        None => {
            proof {
                assert forall|x: int| cur <= x < meta_end implies mem.contains(x) && #[trigger] mem.byte(x) == 0 by {
                    if x < cur + 8 {
                        let k = x - cur;
                        assert(w[k] == mem.byte(x));
                        assert forall|i: nat| i < 8 implies !#[trigger] bit_set(mem.byte(x) as nat, i) by {
                            lemma_le_bit(w, k, i);
                            assert(!bit_set(value as nat, (8 * k + i) as nat));
                        }
                        lemma_byte_bits(mem.byte(x));
                    } else {
                        assert(mem.byte(x) == 0);
                    }
                }
            }
            None
        },
    }
}

/// Search the metadata byte at `cur`, above which all bytes up to
/// `meta_end` are zero, for its last set bit.
fn search_byte(mem: &MemoryRegion, cur: Address, meta_start: Address, meta_end: Address) -> (r: Option<FindMetaBitResult>)
    requires
        mem.wf(),
        meta_start <= cur < meta_end,
        mem.contains(cur as int),
        zero_bytes(*mem, cur + 1, meta_end as int),
    ensures
        match r {
            Some(f) => f is Found && last_bit_found(*mem, meta_start as int, meta_end as int, f),
            None => zero_bytes(*mem, cur as int, meta_end as int),
        },
{
    let value = mem.load_u8(cur);
    match find_last_non_zero_bit_u8(value, 0, 8) {
        Some(bit) => {
            assert(value == mem.byte(cur as int));
            Some(FindMetaBitResult::Found { addr: cur, bit })
        },
        None => {
            proof {
                lemma_byte_bits(value);
                assert forall|x: int| cur <= x < meta_end implies mem.contains(x) && #[trigger] mem.byte(x) == 0 by {
                    if x > cur {
                        assert(mem.byte(x) == 0);
                    }
                }
            }
            None
        },
    }
}

/// An unmapped byte at `cur` of a region mapped in whole chunks leaves the
/// whole step `[cur, cur + step)` unmapped, when a step of 8 starts at a
/// multiple of 8.
proof fn lemma_step_unmapped(mem: MemoryRegion, cur: int, step: int)
    requires
        chunk_mapped(mem),
        !mem.contains(cur),
        step == 1 || (step == 8 && cur % 8 == 0),
    ensures
        !mem.contains(cur + step - 1),
{
    let top = cur + step - 1;
    if mem.contains(top) && step == 8 {
        lemma_chunk_of(mem, top);
        vstd::arithmetic::div_mod::lemma_fundamental_div_mod(top, BYTES_IN_CHUNK as int);
        vstd::arithmetic::div_mod::lemma_fundamental_div_mod(cur, 8);
        let q = top / BYTES_IN_CHUNK as int;
        assert(top % BYTES_IN_CHUNK as int >= 7) by (nonlinear_arith)
            requires top == 4194304 * q + top % 4194304, 0 <= top % 4194304 < 4194304,
                top == cur + 7, cur == 8 * (cur / 8);
        assert(mem.contains(cur));
    }
}

/// The start of the chunk of `x` is a multiple of 8.
proof fn lemma_chunk_start_aligned(x: int)
    requires
        x >= 0,
    ensures
        (x - x % BYTES_IN_CHUNK as int) % 8 == 0,
{
    vstd::arithmetic::div_mod::lemma_fundamental_div_mod(x, BYTES_IN_CHUNK as int);
    let q = x / BYTES_IN_CHUNK as int;
    assert(x - x % BYTES_IN_CHUNK as int == 8 * (524288 * q));
}

/// Find the last set bit of the metadata bytes `[meta_start, meta_end)`,
/// reading whole words where the range allows, and checking once per chunk
/// that the metadata is mapped.
pub fn find_last_non_zero_bit_in_metadata_bytes(mem: &MemoryRegion, meta_start: Address, meta_end: Address) -> (r: FindMetaBitResult)
    requires
        chunk_mapped(*mem),
        meta_start <= meta_end,
    ensures
        last_bit_found(*mem, meta_start as int, meta_end as int, r),
{
    let mut cur = meta_end;
    // The start of a chunk known to be mapped.
    let mut mapped_chunk: u64 = u64::MAX;
    while cur > meta_start
        invariant
            chunk_mapped(*mem),
            meta_start <= cur <= meta_end,
            zero_bytes(*mem, cur as int, meta_end as int),
            mapped_chunk == u64::MAX || (cur <= mapped_chunk + BYTES_IN_CHUNK && mapped_chunk % 8 == 0
                && mem.contains_range(mapped_chunk as int, BYTES_IN_CHUNK as int)),
        decreases cur,
    {
        let step: u64 = if cur % 8 == 0 && cur - 8 >= meta_start {
            8
        } else {
            1
        };
        let ghost old_cur = cur;
        cur = cur - step;
        if cur < mapped_chunk {
            if mem.is_mapped(cur) {
                proof {
                    lemma_chunk_of(*mem, cur as int);
                    lemma_chunk_start_aligned(cur as int);
                }
                mapped_chunk = cur - cur % BYTES_IN_CHUNK;
            } else {
                proof {
                    assert(step == 8 ==> cur % 8 == 0);
                    lemma_step_unmapped(*mem, cur as int, step as int);
                    let top = cur + step - 1;
                    assert(zero_bytes(*mem, top + 1, meta_end as int));
                }
                return FindMetaBitResult::UnmappedMetadata;
            }
        }
        proof {
            if step == 8 {
                assert(cur + 8 <= mapped_chunk + BYTES_IN_CHUNK) by {
                    assert(old_cur % 8 == 0);
                    assert((mapped_chunk + BYTES_IN_CHUNK) % 8 == 0);
                }
            }
            assert(mem.contains_range(cur as int, step as int));
        }
        let found = if step == 8 {
            search_word(mem, cur, meta_start, meta_end)
        } else {
            search_byte(mem, cur, meta_start, meta_end)
        };
        if let Some(f) = found {
            return f;
        }
    }
    FindMetaBitResult::NotFound
}

/// Find the last set bit among the bits `[start_bit, end_bit)` of the
/// metadata byte at `addr`.
pub fn find_last_non_zero_bit_in_metadata_bits(mem: &MemoryRegion, addr: Address, start_bit: u8, end_bit: u8) -> (r: FindMetaBitResult)
    requires
        mem.wf(),
        start_bit <= end_bit <= 8,
    ensures
        !mem.contains(addr as int) ==> r == FindMetaBitResult::UnmappedMetadata,
        mem.contains(addr as int) ==> match r {
            FindMetaBitResult::Found { addr: a, bit } => a == addr && start_bit <= bit < end_bit
                && bit_set(mem.byte(addr as int) as nat, bit as nat)
                && forall|i: nat| bit < i < end_bit ==> !#[trigger] bit_set(mem.byte(addr as int) as nat, i),
            FindMetaBitResult::NotFound => forall|i: nat| start_bit <= i < end_bit ==> !#[trigger] bit_set(mem.byte(addr as int) as nat, i),
            FindMetaBitResult::UnmappedMetadata => false,
        },
{
    if !mem.is_mapped(addr) {
        return FindMetaBitResult::UnmappedMetadata;
    }
    let byte = mem.load_u8(addr);
    if let Some(bit) = find_last_non_zero_bit_u8(byte, start_bit, end_bit) {
        return FindMetaBitResult::Found { addr, bit };
    }
    FindMetaBitResult::NotFound
}

} // verus!
