//! In-header metadata: metadata bits kept in the object header, at a bit
//! offset from the object's header address.
use vstd::prelude::*;
use vstd::arithmetic::power2::{pow2, lemma2_to64, lemma_pow2_pos, lemma_pow2_adds};
use crate::address::Address;
use crate::memory::MemoryRegion;
use crate::metadata::side_metadata::spec::pow2_u64;
use crate::metadata::side_metadata::access::{wrap_add, wrap_sub};

verus! {

/// The specification of a header metadata bit-set: `num_of_bits` bits
/// starting at bit `bit_offset` from the header address. Negative offsets
/// refer to the bytes before the header address.
#[derive(Clone, Copy, Debug, PartialEq, Eq, Structural)]
pub struct HeaderMetadataSpec {
    /// The index of the starting bit, counted from the lowest bit of the header's byte.
    pub bit_offset: isize,
    /// The number of consecutive bits.
    pub num_of_bits: usize,
}

/// The mask of the `n` lowest bits of a byte.
pub open spec fn low_mask_u8(n: u8) -> u8 {
    ((1u8 << n) - 1u8) as u8
}

/// Facts about a field of `n` bits at shift `s` in a byte.
pub proof fn lemma_header_field(b: u8, n: u8, s: u8, v: u8)
    by (bit_vector)
    requires
        1u8 <= n < 8u8,
        s < 8u8,
        s + n <= 8u8,
        v < (1u8 << n),
    ensures
        ((b & !((((1u8 << n) - 1u8) as u8) << s)) | (v << s)) & ((((1u8 << n) - 1u8) as u8) << s) == v << s,
        ((((b & !((((1u8 << n) - 1u8) as u8) << s)) | (v << s)) & ((((1u8 << n) - 1u8) as u8) << s)) >> s) == v,
        (((b & !((((1u8 << n) - 1u8) as u8) << s)) | (v << s)) & !((((1u8 << n) - 1u8) as u8) << s)) == (b & !((((1u8 << n) - 1u8) as u8) << s)),
        ((b & ((((1u8 << n) - 1u8) as u8) << s)) >> s) < (1u8 << n),
        (b & (((1u8 << n) - 1u8) as u8)) < (1u8 << n),
{
}

impl HeaderMetadataSpec {
    /// The byte offset of the first byte of the metadata from the header address.
    pub open spec fn byte_offset_spec(self) -> int {
        self.bit_offset / 8
    }

    /// The position of the metadata's lowest bit in its first byte.
    pub open spec fn bit_shift_spec(self) -> int {
        self.bit_offset - self.byte_offset_spec() * 8
    }

    /// The address of the first metadata byte of the object at `header`.
    pub open spec fn meta_addr_spec(self, header: int) -> int {
        header + self.byte_offset_spec()
    }

    /// The metadata is narrower than a byte and does not cross a byte boundary,
    /// or it is a naturally aligned 8, 16, 32 or 64-bit value.
    pub open spec fn wf(self) -> bool {
        &&& self.bit_offset > isize::MIN
        &&& if self.num_of_bits < 8 {
            1 <= self.num_of_bits && self.bit_shift_spec() + self.num_of_bits <= 8
        } else {
            (self.num_of_bits == 8 || self.num_of_bits == 16 || self.num_of_bits == 32 || self.num_of_bits == 64)
                && (self.bit_offset as int) % (self.num_of_bits as int) == 0
        }
    }

    /// The number of bytes the metadata occupies.
    pub open spec fn num_bytes_spec(self) -> nat {
        if self.num_of_bits < 8 { 1 } else { (self.num_of_bits / 8) as nat }
    }

    /// The number of bits of the value type used to access the metadata.
    pub open spec fn value_bits(self) -> nat {
        if self.num_of_bits < 8 { 8 } else { self.num_of_bits as nat }
    }

    /// The metadata of the object at `header` can be accessed in `mem`.
    pub open spec fn accessible(self, mem: MemoryRegion, header: int) -> bool {
        &&& self.wf()
        &&& mem.wf()
        &&& 0 <= self.meta_addr_spec(header)
        &&& mem.contains_range(self.meta_addr_spec(header), self.num_bytes_spec() as int)
    }

    /// The shifted mask of a metadata narrower than a byte.
    pub open spec fn field_mask(self) -> u8 {
        low_mask_u8(self.num_of_bits as u8) << (self.bit_shift_spec() as u8)
    }

    /// The raw contents of the metadata: its byte, or its little-endian value.
    pub open spec fn raw_in(self, mem: MemoryRegion, header: int) -> nat {
        if self.num_of_bits < 8 {
            mem.byte(self.meta_addr_spec(header)) as nat
        } else {
            mem.le_at(self.meta_addr_spec(header), self.num_bytes_spec() as int)
        }
    }

    /// The metadata value of the object at `header`.
    pub open spec fn value_in(self, mem: MemoryRegion, header: int) -> nat {
        if self.num_of_bits < 8 {
            ((mem.byte(self.meta_addr_spec(header)) & self.field_mask()) >> (self.bit_shift_spec() as u8)) as nat
        } else {
            self.raw_in(mem, header)
        }
    }

    /// Writing the metadata of the object at `header` changed nothing but its bits.
    pub open spec fn only_value_changed(self, old_mem: MemoryRegion, new_mem: MemoryRegion, header: int) -> bool {
        let m = self.meta_addr_spec(header);
        &&& new_mem.start_spec() == old_mem.start_spec()
        &&& new_mem.wf() == old_mem.wf()
        &&& new_mem.bytes_spec().len() == old_mem.bytes_spec().len()
        &&& forall|x: int| #![trigger new_mem.byte(x)]
            old_mem.contains(x) && !(m <= x < m + self.num_bytes_spec()) ==> new_mem.byte(x) == old_mem.byte(x)
        &&& self.num_of_bits < 8 ==> new_mem.byte(m) & !self.field_mask() == old_mem.byte(m) & !self.field_mask()
    }

    /// The metadata of the object at `header` in `new` is `v`, and nothing else changed.
    pub open spec fn stored(self, old_mem: MemoryRegion, new_mem: MemoryRegion, header: int, v: nat) -> bool {
        &&& self.value_in(new_mem, header) == v
        &&& self.only_value_changed(old_mem, new_mem, header)
    }

    /// The offset of the first metadata byte from the header address.
    pub fn byte_offset(&self) -> (r: isize)
        requires
            self.bit_offset > isize::MIN,
        ensures
            r == self.byte_offset_spec(),
    {
        let b = self.bit_offset;
        if b >= 0 {
            b / 8
        } else {
            let p: isize = -(b + 1);
            proof {
                let q = p / 8;
                vstd::arithmetic::div_mod::lemma_fundamental_div_mod(p as int, 8);
                vstd::arithmetic::div_mod::lemma_fundamental_div_mod(b as int, 8);
            }
            -(p / 8) - 1
        }
    }

    /// The address of the first metadata byte of the object at `header`.
    pub fn meta_addr(&self, header: Address) -> (r: Address)
        requires
            self.bit_offset > isize::MIN,
            0 <= self.meta_addr_spec(header as int) <= u64::MAX,
        ensures
            r == self.meta_addr_spec(header as int),
    {
        let off = self.byte_offset();
        if off >= 0 {
            header + off as u64
        } else {
            header - (-off) as u64
        }
    }

    /// The bit shift of a metadata narrower than a byte, and the mask that extracts it.
    pub fn get_shift_and_mask_for_bits(&self) -> (r: (isize, u8))
        requires
            self.wf(),
            self.num_of_bits < 8,
        ensures
            r.0 == self.bit_shift_spec(),
            0 <= r.0 < 8,
            r.1 == self.field_mask(),
    {
        let byte_offset = self.byte_offset();
        proof {
            vstd::arithmetic::div_mod::lemma_fundamental_div_mod(self.bit_offset as int, 8);
        }
        let bit_shift = self.bit_offset - byte_offset * 8;
        let n = self.num_of_bits as u8;
        proof {
            lemma_low_mask_value_n(n);
            lemma_pow2_pos(n as nat);
        }
        let mask = ((1u8 << n) - 1) << (bit_shift as u8);
        (bit_shift, mask)
    }

    /// Extract the metadata bits from a raw byte, into the lowest bits.
    pub fn get_bits_from_u8(&self, raw_byte: u8) -> (r: u8)
        requires
            self.wf(),
            self.num_of_bits < 8,
        ensures
            r == (raw_byte & self.field_mask()) >> (self.bit_shift_spec() as u8),
            r < pow2(self.num_of_bits as nat),
    {
        let (bit_shift, mask) = self.get_shift_and_mask_for_bits();
        proof {
            self.lemma_low_mask_value();
            lemma_pow2_pos(self.num_of_bits as nat);
            lemma_header_field(raw_byte, self.num_of_bits as u8, bit_shift as u8, 0);
        }
        (raw_byte & mask) >> (bit_shift as u8)
    }

    /// Set the metadata bits of a raw byte to `set_val`.
    pub fn set_bits_to_u8(&self, raw_byte: u8, set_val: u8) -> (r: u8)
        requires
            self.wf(),
            self.num_of_bits < 8,
            set_val < pow2(self.num_of_bits as nat),
        ensures
            r == (raw_byte & !self.field_mask()) | (set_val << (self.bit_shift_spec() as u8)),
            (r & self.field_mask()) >> (self.bit_shift_spec() as u8) == set_val,
            r & !self.field_mask() == raw_byte & !self.field_mask(),
    {
        let (bit_shift, mask) = self.get_shift_and_mask_for_bits();
        proof {
            self.lemma_low_mask_value();
            lemma_header_field(raw_byte, self.num_of_bits as u8, bit_shift as u8, set_val);
        }
        (raw_byte & !mask) | (set_val << (bit_shift as u8))
    }

    /// Truncate a value to the number of bits of the metadata.
    pub fn truncate_bits_in_u8(&self, val: u8) -> (r: u8)
        requires
            1 <= self.num_of_bits < 8,
        ensures
            r == val & low_mask_u8(self.num_of_bits as u8),
            r < pow2(self.num_of_bits as nat),
    {
        proof {
            lemma_low_mask_value_n(self.num_of_bits as u8);
            lemma_pow2_pos(self.num_of_bits as nat);
            lemma_header_field(val, self.num_of_bits as u8, 0, 0);
        }
        val & ((1u8 << (self.num_of_bits as u8)) - 1)
    }

    proof fn lemma_low_mask_value(self)
        requires
            1 <= self.num_of_bits < 8,
        ensures
            (1u8 << (self.num_of_bits as u8)) == pow2(self.num_of_bits as nat),
    {
        lemma_low_mask_value_n(self.num_of_bits as u8);
    }

    /// Is this a valid spec for accessing values of `2^type_log2` bits? (A
    /// metadata of fewer than eight bits must not cross a byte boundary; a
    /// wider one must be aligned to its value type.)
    pub fn check_spec(&self, type_log2: u32) -> (r: bool)
        requires
            self.bit_offset > isize::MIN,
            self.bit_offset + 8 <= isize::MAX,
            type_log2 <= 6,
        ensures
            r == (if self.num_of_bits == 0 {
                false
            } else if self.num_of_bits < 8 {
                self.byte_offset_spec() == (self.bit_offset + self.num_of_bits - 1) / 8
            } else if self.num_of_bits <= 64 {
                (self.bit_offset as int) % (pow2(type_log2 as nat) as int) == 0
            } else {
                false
            }),
    {
        if self.num_of_bits == 0 {
            false
        } else if self.num_of_bits < 8 {
            let last = HeaderMetadataSpec { bit_offset: self.bit_offset + self.num_of_bits as isize - 1, num_of_bits: 1 };
            self.byte_offset() == last.byte_offset()
        } else if self.num_of_bits <= 64 {
            let a = pow2_u64(type_log2 as u64);
            proof {
                lemma2_to64();
                if type_log2 < 6 {
                    vstd::arithmetic::power2::lemma_pow2_strictly_increases(type_log2 as nat, 6);
                }
            }
            let ai = a as isize;
            let b = self.bit_offset;
            if b >= 0 {
                b % ai == 0
            } else {
                proof {
                    let bi = b as int;
                    let a = ai as int;
                    vstd::arithmetic::div_mod::lemma_fundamental_div_mod(bi, a);
                    vstd::arithmetic::div_mod::lemma_fundamental_div_mod(-bi, a);
                    vstd::arithmetic::div_mod::lemma_mod_bound(bi, a);
                    vstd::arithmetic::div_mod::lemma_mod_bound(-bi, a);
                    if (-bi) % a == 0 {
                        vstd::arithmetic::div_mod::lemma_mod_multiples_basic(-((-bi) / a), a);
                        vstd::arithmetic::mul::lemma_mul_unary_negation(a, (-bi) / a);
                    } else if bi % a == 0 {
                        vstd::arithmetic::div_mod::lemma_mod_multiples_basic(-(bi / a), a);
                        vstd::arithmetic::mul::lemma_mul_unary_negation(a, bi / a);
                    }
                }
                (-b) % ai == 0
            }
        } else {
            false
        }
    }
}

/// `1 << n` is `2^n` for a byte.
pub proof fn lemma_low_mask_value_n(n: u8)
    requires
        n < 8,
    ensures
        (1u8 << n) == pow2(n as nat),
{
    lemma2_to64();
    vstd::bits::lemma_u8_shl_is_mul(1, n);
    vstd::bits::lemma_u8_pow2_no_overflow(n as nat);
    vstd::arithmetic::mul::lemma_mul_basics(pow2(n as nat) as int);
}

} // verus!

verus! {

/// `v` fits in `bits` bits.
pub open spec fn fits(v: nat, bits: nat) -> bool {
    v < pow2(bits)
}

impl HeaderMetadataSpec {
    /// The optional mask may only be used with metadata of a byte or more, and is a value of the metadata's type.
    pub open spec fn mask_ok(self, optional_mask: Option<u64>) -> bool {
        match optional_mask {
            Some(m) => self.num_of_bits >= 8 && fits(m as nat, self.num_of_bits as nat),
            None => true,
        }
    }

    /// The value loaded with an optional mask.
    pub open spec fn masked(v: nat, optional_mask: Option<u64>) -> nat {
        match optional_mask {
            Some(m) => (v as u64 & m) as nat,
            None => v,
        }
    }

    /// The value stored with an optional mask over the previous value `prev`.
    pub open spec fn merged(prev: nat, val: nat, optional_mask: Option<u64>) -> nat {
        match optional_mask {
            Some(m) => ((prev as u64 & !m) | (val as u64 & m)) as nat,
            None => val,
        }
    }

    /// The raw value (byte or word) of the metadata of the object at `header`.
    fn load_raw(&self, mem: &MemoryRegion, header: Address) -> (r: u64)
        requires
            self.accessible(*mem, header as int),
        ensures
            r == self.raw_in(*mem, header as int),
            r < pow2(self.value_bits()),
    {
        let addr = self.meta_addr(header);
        if self.num_of_bits < 8 {
            proof {
                lemma2_to64();
            }
            mem.load_u8(addr) as u64
        } else {
            let n = (self.num_of_bits / 8) as u64;
            proof {
                crate::memory::lemma_le_value_bound(mem.range(addr as int, n as int));
            }
            mem.load_le(addr, n)
        }
    }

    /// Write the metadata of the object at `header` to `v` (a value of its bits).
    fn store_value(&self, mem: &mut MemoryRegion, header: Address, v: u64)
        requires
            self.accessible(*old(mem), header as int),
            fits(v as nat, if self.num_of_bits < 8 { self.num_of_bits as nat } else { self.num_of_bits as nat }),
        ensures
            self.stored(*old(mem), *final(mem), header as int, v as nat),
    {
        let addr = self.meta_addr(header);
        if self.num_of_bits < 8 {
            let raw = mem.load_u8(addr);
            proof {
                lemma2_to64();
                vstd::arithmetic::power2::lemma_pow2_strictly_increases(self.num_of_bits as nat, 8);
            }
            let new_byte = self.set_bits_to_u8(raw, v as u8);
            let ghost prev = *mem;
            mem.store_u8(addr, new_byte);
            proof {
                assert forall|x: int| #![trigger mem.byte(x)] prev.contains(x) implies mem.byte(x) == (if x == addr { new_byte } else { prev.byte(x) }) by {
                    assert(mem.byte(x) == mem.bytes_spec()[x - mem.start_spec()]);
                }
            }
        } else {
            let n = (self.num_of_bits / 8) as u64;
            mem.store_le(addr, n, v);
        }
    }

    /// Non-atomic load of the metadata of the object at `header`, with an optional mask.
    pub fn load(&self, mem: &MemoryRegion, header: Address, optional_mask: Option<u64>) -> (r: u64)
        requires
            self.accessible(*mem, header as int),
            self.mask_ok(optional_mask),
        ensures
            r == Self::masked(self.value_in(*mem, header as int), optional_mask),
    {
        self.load_inner(mem, header, optional_mask)
    }

    /// Atomic load of the metadata of the object at `header`, with an optional mask.
    pub fn load_atomic(&self, mem: &MemoryRegion, header: Address, optional_mask: Option<u64>) -> (r: u64)
        requires
            self.accessible(*mem, header as int),
            self.mask_ok(optional_mask),
        ensures
            r == Self::masked(self.value_in(*mem, header as int), optional_mask),
    {
        self.load_inner(mem, header, optional_mask)
    }

    fn load_inner(&self, mem: &MemoryRegion, header: Address, optional_mask: Option<u64>) -> (r: u64)
        requires
            self.accessible(*mem, header as int),
            self.mask_ok(optional_mask),
        ensures
            r == Self::masked(self.value_in(*mem, header as int), optional_mask),
    {
        let res: u64 = if self.num_of_bits < 8 {
            let addr = self.meta_addr(header);
            let byte_val = mem.load_u8(addr);
            self.get_bits_from_u8(byte_val) as u64
        } else {
            self.load_raw(mem, header)
        };
        match optional_mask {
            Some(mask) => res & mask,
            None => res,
        }
    }

    /// Non-atomic store of the metadata of the object at `header`. With a mask,
    /// only the bits of the mask are taken from `val`.
    pub fn store(&self, mem: &mut MemoryRegion, header: Address, val: u64, optional_mask: Option<u64>)
        requires
            self.accessible(*old(mem), header as int),
            self.mask_ok(optional_mask),
            fits(val as nat, self.num_of_bits as nat),
        ensures
            self.stored(*old(mem), *final(mem), header as int,
                Self::merged(self.value_in(*old(mem), header as int), val as nat, optional_mask)),
    {
        self.store_inner(mem, header, val, optional_mask)
    }

    /// Atomic store of the metadata of the object at `header`. With a mask,
    /// only the bits of the mask are taken from `val`.
    pub fn store_atomic(&self, mem: &mut MemoryRegion, header: Address, val: u64, optional_mask: Option<u64>)
        requires
            self.accessible(*old(mem), header as int),
            self.mask_ok(optional_mask),
            fits(val as nat, self.num_of_bits as nat),
        ensures
            self.stored(*old(mem), *final(mem), header as int,
                Self::merged(self.value_in(*old(mem), header as int), val as nat, optional_mask)),
    {
        self.store_inner(mem, header, val, optional_mask)
    }

    fn store_inner(&self, mem: &mut MemoryRegion, header: Address, val: u64, optional_mask: Option<u64>)
        requires
            self.accessible(*old(mem), header as int),
            self.mask_ok(optional_mask),
            fits(val as nat, self.num_of_bits as nat),
        ensures
            self.stored(*old(mem), *final(mem), header as int,
                Self::merged(self.value_in(*old(mem), header as int), val as nat, optional_mask)),
    {
        if self.num_of_bits < 8 {
            self.store_value(mem, header, val);
        } else {
            let new_val = match optional_mask {
                Some(mask) => {
                    let old_val = self.load_raw(mem, header);
                    proof {
                        self.lemma_merge_fits(old_val, val, mask);
                    }
                    (old_val & !mask) | (val & mask)
                },
                None => val,
            };
            self.store_value(mem, header, new_val);
        }
    }

    /// Merging two values of the metadata's width under a mask gives a value of that width.
    proof fn lemma_merge_fits(self, a: u64, b: u64, m: u64)
        requires
            self.num_of_bits == 8 || self.num_of_bits == 16 || self.num_of_bits == 32 || self.num_of_bits == 64,
            fits(a as nat, self.num_of_bits as nat),
            fits(b as nat, self.num_of_bits as nat),
        ensures
            fits(((a & !m) | (b & m)) as nat, self.num_of_bits as nat),
    {
        lemma2_to64();
        vstd::arithmetic::power2::lemma2_to64_rest();
        let p: u64 = if self.num_of_bits == 8 { 256 } else if self.num_of_bits == 16 { 65536 } else if self.num_of_bits == 32 { 0x100000000 } else { 0 };
        if self.num_of_bits < 64 {
            lemma_merge_below(a, b, m, p);
        } else {
            assert(pow2(64) == 0x10000000000000000);
        }
    }
}

/// Merging two numbers below a power of two is below it.
proof fn lemma_merge_below(a: u64, b: u64, m: u64, p: u64)
    by (bit_vector)
    requires
        p == 256u64 || p == 65536u64 || p == 0x100000000u64,
        a < p,
        b < p,
    ensures
        ((a & !m) | (b & m)) < p,
        ((a & !m) | b) < p,
        (a & b) < p,
        (a | b) < p,
{
}

} // verus!

verus! {

impl HeaderMetadataSpec {
    /// The value expected by `compare_exchange` and the value it writes, for
    /// the current raw value `cur` of a metadata of a byte or more.
    pub open spec fn cas_words(cur: nat, old_metadata: nat, new_metadata: nat, optional_mask: Option<u64>) -> (nat, nat) {
        match optional_mask {
            Some(m) => (((cur as u64 & !m) | old_metadata as u64) as nat, ((cur as u64 & !m) | new_metadata as u64) as nat),
            None => (old_metadata, new_metadata),
        }
    }

    /// The width of the metadata in bits is below `2^bits` for values of the metadata's type.
    proof fn lemma_word_facts(self, a: u64, b: u64, m: u64)
        requires
            self.num_of_bits == 8 || self.num_of_bits == 16 || self.num_of_bits == 32 || self.num_of_bits == 64,
            fits(a as nat, self.num_of_bits as nat),
            fits(b as nat, self.num_of_bits as nat),
        ensures
            fits(((a & !m) | b) as nat, self.num_of_bits as nat),
            fits((a & b) as nat, self.num_of_bits as nat),
            fits((a | b) as nat, self.num_of_bits as nat),
    {
        lemma2_to64();
        vstd::arithmetic::power2::lemma2_to64_rest();
        let p: u64 = if self.num_of_bits == 8 { 256 } else if self.num_of_bits == 16 { 65536 } else if self.num_of_bits == 32 { 0x100000000 } else { 0 };
        if self.num_of_bits < 64 {
            lemma_merge_below(a, b, m, p);
        } else {
            assert(pow2(64) == 0x10000000000000000);
        }
    }

    /// Compare the metadata with `old_metadata` and, if equal, replace it with
    /// `new_metadata` (for a metadata of a byte or more, the bits outside the
    /// optional mask are kept). Returns `Ok` or `Err` with the raw byte or word read.
    pub fn compare_exchange(&self, mem: &mut MemoryRegion, header: Address, old_metadata: u64, new_metadata: u64, optional_mask: Option<u64>) -> (r: Result<u64, u64>)
        requires
            self.accessible(*old(mem), header as int),
            self.mask_ok(optional_mask),
            fits(old_metadata as nat, self.num_of_bits as nat),
            fits(new_metadata as nat, self.num_of_bits as nat),
        ensures
            ({
                let raw = self.raw_in(*old(mem), header as int);
                let succeeded = if self.num_of_bits < 8 {
                    self.value_in(*old(mem), header as int) == old_metadata
                } else {
                    raw == Self::cas_words(raw, old_metadata as nat, new_metadata as nat, optional_mask).0
                };
                let new_value = if self.num_of_bits < 8 {
                    new_metadata as nat
                } else {
                    Self::cas_words(raw, old_metadata as nat, new_metadata as nat, optional_mask).1
                };
                &&& succeeded ==> r == Ok::<u64, u64>(raw as u64) && self.stored(*old(mem), *final(mem), header as int, new_value)
                &&& !succeeded ==> r == Err::<u64, u64>(raw as u64) && *final(mem) == *old(mem)
            }),
    {
        if self.num_of_bits < 8 {
            let addr = self.meta_addr(header);
            let real_old_byte = mem.load_u8(addr);
            proof {
                lemma2_to64();
                vstd::arithmetic::power2::lemma_pow2_strictly_increases(self.num_of_bits as nat, 8);
            }
            let expected_old_byte = self.set_bits_to_u8(real_old_byte, old_metadata as u8);
            if real_old_byte == expected_old_byte {
                self.store_value(mem, header, new_metadata);
                Ok(real_old_byte as u64)
            } else {
                proof {
                    let sh = self.bit_shift_spec() as u8;
                    lemma_same_outside_field(real_old_byte, expected_old_byte, self.num_of_bits as u8, sh);
                }
                Err(real_old_byte as u64)
            }
        } else {
            let cur = self.load_raw(mem, header);
            let (expected_old, expected_new) = match optional_mask {
                Some(mask) => {
                    proof {
                        self.lemma_word_facts(cur, old_metadata, mask);
                        self.lemma_word_facts(cur, new_metadata, mask);
                    }
                    ((cur & !mask) | old_metadata, (cur & !mask) | new_metadata)
                },
                None => (old_metadata, new_metadata),
            };
            if cur == expected_old {
                self.store_value(mem, header, expected_new);
                Ok(cur)
            } else {
                Err(cur)
            }
        }
    }

    /// The field of a metadata narrower than a byte, and a byte-wide wrapping update of it.
    fn fetch_ops_on_bits(&self, mem: &mut MemoryRegion, header: Address, update_add: bool, val: u64) -> (r: u8)
        requires
            self.accessible(*old(mem), header as int),
            self.num_of_bits < 8,
            val < 256,
        ensures
            r == self.value_in(*old(mem), header as int),
            self.stored(*old(mem), *final(mem), header as int,
                if update_add {
                    ((r as int + val as int) % pow2(self.num_of_bits as nat) as int) as nat
                } else {
                    ((r as int - val as int) % pow2(self.num_of_bits as nat) as int) as nat
                }),
    {
        let addr = self.meta_addr(header);
        let raw = mem.load_u8(addr);
        let old_metadata = self.get_bits_from_u8(raw);
        let v = val as u8;
        let updated: u8 = if update_add { old_metadata.wrapping_add(v) } else { old_metadata.wrapping_sub(v) };
        let new_metadata = self.truncate_bits_in_u8(updated);
        proof {
            let n = self.num_of_bits as nat;
            lemma2_to64();
            lemma_pow2_pos(n);
            vstd::bits::lemma_u8_low_bits_mask_is_mod(updated, n);
            lemma_low_mask_value_n(n as u8);
            assert(low_mask_u8(n as u8) == vstd::bits::low_bits_mask(n) as u8);
            vstd::bits::lemma_u8_pow2_no_overflow(n);
            // 2^n divides 256.
            lemma_pow2_adds(n, (8 - n) as nat);
            lemma_pow2_pos((8 - n) as nat);
            let d = pow2(n) as int;
            let e = pow2((8 - n) as nat) as int;
            assert(d * e == 256);
            let x: int = if update_add { old_metadata as int + val as int } else { old_metadata as int - val as int };
            assert(updated as int == x % 256) by {
                if update_add {
                    if x >= 256 {
                        vstd::arithmetic::div_mod::lemma_mod_sub_multiples_vanish(x, 256);
                        vstd::arithmetic::div_mod::lemma_small_mod((x - 256) as nat, 256);
                    } else {
                        vstd::arithmetic::div_mod::lemma_small_mod(x as nat, 256);
                    }
                } else {
                    if x < 0 {
                        vstd::arithmetic::div_mod::lemma_mod_add_multiples_vanish(x, 256);
                        vstd::arithmetic::div_mod::lemma_small_mod((x + 256) as nat, 256);
                    } else {
                        vstd::arithmetic::div_mod::lemma_small_mod(x as nat, 256);
                    }
                }
            }
            vstd::arithmetic::div_mod::lemma_mod_mod(x, d, e);
        }
        self.store_value(mem, header, new_metadata as u64);
        old_metadata
    }

    /// Add `val` to the metadata (wrapping around at its width), and return the previous value.
    pub fn fetch_add(&self, mem: &mut MemoryRegion, header: Address, val: u64) -> (r: u64)
        requires
            self.accessible(*old(mem), header as int),
            fits(val as nat, self.value_bits()),
        ensures
            r == self.value_in(*old(mem), header as int),
            self.num_of_bits < 8 ==> self.stored(*old(mem), *final(mem), header as int,
                ((r as int + val as int) % pow2(self.num_of_bits as nat) as int) as nat),
            self.num_of_bits >= 8 ==> self.stored(*old(mem), *final(mem), header as int,
                wrap_add(r as nat, val as nat, self.num_of_bits as nat)),
    {
        proof {
            lemma2_to64();
        }
        if self.num_of_bits < 8 {
            self.fetch_ops_on_bits(mem, header, true, val) as u64
        } else {
            let old_val = self.load_raw(mem, header);
            let new_val = self.wrapping_add_word(old_val, val);
            self.store_value(mem, header, new_val);
            old_val
        }
    }

    /// Subtract `val` from the metadata (wrapping around at its width), and return the previous value.
    pub fn fetch_sub(&self, mem: &mut MemoryRegion, header: Address, val: u64) -> (r: u64)
        requires
            self.accessible(*old(mem), header as int),
            fits(val as nat, self.value_bits()),
        ensures
            r == self.value_in(*old(mem), header as int),
            self.num_of_bits < 8 ==> self.stored(*old(mem), *final(mem), header as int,
                ((r as int - val as int) % pow2(self.num_of_bits as nat) as int) as nat),
            self.num_of_bits >= 8 ==> self.stored(*old(mem), *final(mem), header as int,
                wrap_sub(r as nat, val as nat, self.num_of_bits as nat)),
    {
        proof {
            lemma2_to64();
        }
        if self.num_of_bits < 8 {
            self.fetch_ops_on_bits(mem, header, false, val) as u64
        } else {
            let old_val = self.load_raw(mem, header);
            let new_val = self.wrapping_sub_word(old_val, val);
            self.store_value(mem, header, new_val);
            old_val
        }
    }

    /// Bitwise-and `val` into the metadata, and return the previous value.
    pub fn fetch_and(&self, mem: &mut MemoryRegion, header: Address, val: u64) -> (r: u64)
        requires
            self.accessible(*old(mem), header as int),
            fits(val as nat, self.value_bits()),
        ensures
            r == self.value_in(*old(mem), header as int),
            self.stored(*old(mem), *final(mem), header as int, (r & val) as nat),
    {
        let old_val = self.load_inner(mem, header, None);
        let new_val = old_val & val;
        proof {
            self.lemma_value_fits(*mem, header as int);
            if self.num_of_bits >= 8 {
                self.lemma_word_facts(old_val, val, 0);
            } else {
                lemma_and_fits(old_val, val, self.num_of_bits as nat);
            }
        }
        self.store_value(mem, header, new_val);
        old_val
    }

    /// Bitwise-or `val` into the metadata (truncated to its width), and return the previous value.
    pub fn fetch_or(&self, mem: &mut MemoryRegion, header: Address, val: u64) -> (r: u64)
        requires
            self.accessible(*old(mem), header as int),
            fits(val as nat, self.value_bits()),
        ensures
            r == self.value_in(*old(mem), header as int),
            self.stored(*old(mem), *final(mem), header as int, ((r | val) as nat) % pow2(self.num_of_bits as nat)),
    {
        let old_val = self.load_inner(mem, header, None);
        proof {
            self.lemma_value_fits(*mem, header as int);
            lemma2_to64();
        }
        let new_val = if self.num_of_bits < 8 {
            proof {
                vstd::bits::lemma_u64_low_bits_mask_is_mod(old_val | val, self.num_of_bits as nat);
                vstd::bits::lemma_u64_pow2_no_overflow(self.num_of_bits as nat);
                lemma_pow2_pos(self.num_of_bits as nat);
                vstd::arithmetic::div_mod::lemma_mod_bound((old_val | val) as int, pow2(self.num_of_bits as nat) as int);
            }
            (old_val | val) % pow2_u64(self.num_of_bits as u64)
        } else {
            proof {
                self.lemma_word_facts(old_val, val, 0);
                vstd::arithmetic::div_mod::lemma_small_mod((old_val | val) as nat, pow2(self.num_of_bits as nat));
            }
            old_val | val
        };
        self.store_value(mem, header, new_val);
        old_val
    }

    /// Apply `f` to the metadata value: if it returns `Some(new)`, store `new`
    /// (truncated to the width of a metadata narrower than a byte) and return
    /// `Ok` with the previous value, else return `Err` with it.
    pub fn fetch_update<F: Fn(u64) -> Option<u64>>(&self, mem: &mut MemoryRegion, header: Address, f: F) -> (r: Result<u64, u64>)
        requires
            self.accessible(*old(mem), header as int),
            forall|x: u64| call_requires(f, (x,)),
            forall|x: u64, o: Option<u64>| call_ensures(f, (x,), o) && o is Some ==> fits(o->0 as nat, self.value_bits()),
        ensures
            match r {
                Ok(v) => v == self.value_in(*old(mem), header as int)
                    && exists|n: u64| call_ensures(f, (v,), Some(n))
                        && self.stored(*old(mem), *final(mem), header as int, (n as nat) % pow2(self.num_of_bits as nat)),
                Err(v) => v == self.value_in(*old(mem), header as int)
                    && call_ensures(f, (v,), None) && *final(mem) == *old(mem),
            },
    {
        let old_val = self.load_inner(mem, header, None);
        match f(old_val) {
            Some(new_val) => {
                proof {
                    lemma2_to64();
                    lemma_pow2_pos(self.num_of_bits as nat);
                }
                let v = if self.num_of_bits < 8 {
                    proof {
                        vstd::bits::lemma_u64_pow2_no_overflow(self.num_of_bits as nat);
                        vstd::arithmetic::div_mod::lemma_mod_bound(new_val as int, pow2(self.num_of_bits as nat) as int);
                    }
                    new_val % pow2_u64(self.num_of_bits as u64)
                } else {
                    proof {
                        vstd::arithmetic::div_mod::lemma_small_mod(new_val as nat, pow2(self.num_of_bits as nat));
                    }
                    new_val
                };
                self.store_value(mem, header, v);
                Ok(old_val)
            },
            None => Err(old_val),
        }
    }

    /// The value of the metadata fits in its width.
    pub proof fn lemma_value_fits(self, mem: MemoryRegion, header: int)
        requires
            self.accessible(mem, header),
        ensures
            fits(self.value_in(mem, header), self.num_of_bits as nat),
    {
        if self.num_of_bits < 8 {
            let sh = self.bit_shift_spec() as u8;
            lemma_low_mask_value_n(self.num_of_bits as u8);
            lemma_pow2_pos(self.num_of_bits as nat);
            lemma_header_field(mem.byte(self.meta_addr_spec(header)), self.num_of_bits as u8, sh, 0);
        } else {
            crate::memory::lemma_le_value_bound(mem.range(self.meta_addr_spec(header), self.num_bytes_spec() as int));
            assert(8 * self.num_bytes_spec() == self.num_of_bits);
        }
    }

    /// `a + b` modulo `2^num_of_bits` for a metadata of a byte or more.
    fn wrapping_add_word(&self, a: u64, b: u64) -> (r: u64)
        requires
            self.num_of_bits == 8 || self.num_of_bits == 16 || self.num_of_bits == 32 || self.num_of_bits == 64,
            fits(a as nat, self.num_of_bits as nat),
            fits(b as nat, self.num_of_bits as nat),
        ensures
            r == wrap_add(a as nat, b as nat, self.num_of_bits as nat),
            fits(r as nat, self.num_of_bits as nat),
    {
        proof {
            lemma2_to64();
            vstd::arithmetic::power2::lemma2_to64_rest();
        }
        if self.num_of_bits == 64 {
            a.wrapping_add(b)
        } else {
            let n = pow2_u64(self.num_of_bits as u64);
            let s = a + b;
            if s >= n { s - n } else { s }
        }
    }

    /// `a - b` modulo `2^num_of_bits` for a metadata of a byte or more.
    fn wrapping_sub_word(&self, a: u64, b: u64) -> (r: u64)
        requires
            self.num_of_bits == 8 || self.num_of_bits == 16 || self.num_of_bits == 32 || self.num_of_bits == 64,
            fits(a as nat, self.num_of_bits as nat),
            fits(b as nat, self.num_of_bits as nat),
        ensures
            r == wrap_sub(a as nat, b as nat, self.num_of_bits as nat),
            fits(r as nat, self.num_of_bits as nat),
    {
        proof {
            lemma2_to64();
            vstd::arithmetic::power2::lemma2_to64_rest();
        }
        if self.num_of_bits == 64 {
            a.wrapping_sub(b)
        } else {
            let n = pow2_u64(self.num_of_bits as u64);
            if a >= b { a - b } else { a + (n - b) }
        }
    }
}

/// Two bytes that agree outside a field and differ differ in the field.
proof fn lemma_same_outside_field(a: u8, b: u8, n: u8, s: u8)
    by (bit_vector)
    requires
        1u8 <= n < 8u8,
        s < 8u8,
        s + n <= 8u8,
        a & !((((1u8 << n) - 1u8) as u8) << s) == b & !((((1u8 << n) - 1u8) as u8) << s),
        a != b,
    ensures
        ((a & ((((1u8 << n) - 1u8) as u8) << s)) >> s) != ((b & ((((1u8 << n) - 1u8) as u8) << s)) >> s),
{
}

/// The bitwise-and with a value of `n < 8` bits has `n` bits.
proof fn lemma_and_fits(a: u64, b: u64, n: nat)
    requires
        n < 8,
        a < pow2(n),
    ensures
        (a & b) < pow2(n),
{
    assert((a & b) <= a) by (bit_vector);
}

} // verus!
