//! Reading and writing side metadata values in a mapped metadata region.
//! Memory is modelled as a single-threaded byte array: the atomic operations
//! have the same effect as their non-atomic counterparts.
use vstd::prelude::*;
use vstd::arithmetic::power2::{pow2, lemma2_to64, lemma_pow2_pos, lemma_pow2_adds};
use crate::address::Address;
use crate::memory::MemoryRegion;
use super::spec::{SideMetadataSpec, pow2_u64};
use super::helpers::{address_to_meta_address, meta_byte_lshift, meta_byte_mask, meta_byte_mask_spec};

verus! {

/// The field of `mask` bits at `shift` in the byte `b`.
pub open spec fn field_get(b: u8, shift: u8, mask: u8) -> u8 {
    (b >> shift) & mask
}

/// The byte `b` with the field of `mask` bits at `shift` replaced by `v`.
pub open spec fn field_set(b: u8, shift: u8, mask: u8, v: u8) -> u8 {
    (b & !(mask << shift)) | (v << shift)
}

/// `a + b` modulo `2^n`, for `a, b < 2^n`.
pub open spec fn wrap_add(a: nat, b: nat, n: nat) -> nat {
    if a + b >= pow2(n) { (a + b - pow2(n)) as nat } else { a + b }
}

/// `a - b` modulo `2^n`, for `a, b < 2^n`.
pub open spec fn wrap_sub(a: nat, b: nat, n: nat) -> nat {
    if a >= b { (a - b) as nat } else { (a + pow2(n) - b) as nat }
}

/// Reading and writing a field of a byte.
pub proof fn lemma_field_get_set(b: u8, s: u8, m: u8, v: u8, s2: u8)
    by (bit_vector)
    requires
        m == 1u8 || m == 3u8 || m == 15u8,
        s < 8u8,
        s2 < 8u8,
        (m << s) >> s == m,
        (m << s2) >> s2 == m,
        v <= m,
        s == s2 || ((m << s) & (m << s2)) == 0u8,
    ensures
        ((((b & !(m << s)) | (v << s)) >> s) & m) == v,
        s != s2 ==> ((((b & !(m << s)) | (v << s)) >> s2) & m) == ((b >> s2) & m),
        (((b & !(m << s)) | (v << s)) & !(m << s)) == (b & !(m << s)),
        ((b >> s) & m) <= m,
{
}

impl SideMetadataSpec {
    /// The number of metadata bytes that hold one value (a value of fewer
    /// than eight bits shares its byte with others).
    pub open spec fn bytes_per_value(self) -> nat {
        if self.log_num_of_bits >= 3 { pow2((self.log_num_of_bits - 3) as nat) } else { 1 }
    }

    /// The metadata of `data_addr` can be accessed in `mem`.
    pub open spec fn accessible(self, mem: MemoryRegion, data_addr: int) -> bool {
        &&& self.wf()
        &&& self.log_num_of_bits <= 3 ==> self.log_num_of_bits <= self.log_bytes_in_region
        &&& self.meta_addr_fits(data_addr)
        &&& mem.wf()
        &&& mem.contains_range(self.meta_addr_spec(data_addr), self.bytes_per_value() as int)
    }

    /// The metadata value of `data_addr` in `mem`.
    pub open spec fn value_in(self, mem: MemoryRegion, data_addr: int) -> nat {
        let m = self.meta_addr_spec(data_addr);
        if self.log_num_of_bits < 3 {
            field_get(mem.byte(m), self.lshift_spec(data_addr) as u8, meta_byte_mask_spec(self.log_num_of_bits as nat) as u8) as nat
        } else {
            mem.le_at(m, self.bytes_per_value() as int)
        }
    }

    /// Writing the metadata of `data_addr` changed only its own bits in `new`.
    pub open spec fn only_value_changed(self, old_mem: MemoryRegion, new_mem: MemoryRegion, data_addr: int) -> bool {
        let m = self.meta_addr_spec(data_addr);
        &&& new_mem.start_spec() == old_mem.start_spec()
        &&& new_mem.wf() == old_mem.wf()
        &&& new_mem.bytes_spec().len() == old_mem.bytes_spec().len()
        &&& forall|x: int| #![trigger new_mem.byte(x)]
            old_mem.contains(x) && !(m <= x < m + self.bytes_per_value()) ==> new_mem.byte(x) == old_mem.byte(x)
        &&& self.log_num_of_bits < 3 ==> {
            let keep = !((meta_byte_mask_spec(self.log_num_of_bits as nat) as u8) << (self.lshift_spec(data_addr) as u8));
            new_mem.byte(m) & keep == old_mem.byte(m) & keep
        }
    }

    /// The metadata of `data_addr` in `new` is `v`, and nothing else changed.
    pub open spec fn stored(self, old_mem: MemoryRegion, new_mem: MemoryRegion, data_addr: int, v: nat) -> bool {
        &&& self.value_in(new_mem, data_addr) == v
        &&& self.only_value_changed(old_mem, new_mem, data_addr)
    }

    /// The facts that the bit-packing of values narrower than a byte relies on.
    proof fn lemma_sub_byte_layout(self, data_addr: int)
        requires
            self.wf(),
            self.log_num_of_bits < 3,
        ensures
            ({
                let m = meta_byte_mask_spec(self.log_num_of_bits as nat) as u8;
                let s = self.lshift_spec(data_addr) as u8;
                &&& m == 1u8 || m == 3u8 || m == 15u8
                &&& 0 <= self.lshift_spec(data_addr) < 8
                &&& (m << s) >> s == m
                &&& m as nat + 1 == pow2(self.num_bits_spec())
            }),
    {
        lemma2_to64();
        let lb = self.log_num_of_bits as nat;
        let q = self.region_index(data_addr);
        let k = pow2((3 - lb) as nat) as int;
        lemma_pow2_pos((3 - lb) as nat);
        vstd::arithmetic::div_mod::lemma_mod_bound(q, k);
        let m = meta_byte_mask_spec(lb) as u8;
        let s = self.lshift_spec(data_addr) as u8;
        let t = q % k;
        assert(self.lshift_spec(data_addr) == t * pow2(lb));
        if lb == 0 {
            assert(k == 8);
            assert(m == 1u8);
            assert(pow2(lb) == 1);
            vstd::arithmetic::mul::lemma_mul_basics(t);
            assert(self.lshift_spec(data_addr) == t);
            assert(s < 8u8);
            lemma_shift_fits(m, s);
            assert(self.num_bits_spec() == 1);
        } else if lb == 1 {
            assert(k == 4);
            assert(m == 3u8);
            assert(pow2(lb) == 2);
            assert(t == 0 || t == 1 || t == 2 || t == 3);
            assert(s == 0u8 || s == 2u8 || s == 4u8 || s == 6u8);
            lemma_shift_fits(m, s);
            assert(self.num_bits_spec() == 2);
        } else {
            assert(k == 2);
            assert(m == 15u8);
            assert(pow2(lb) == 4);
            assert(t == 0 || t == 1);
            assert(s == 0u8 || s == 4u8);
            lemma_shift_fits(m, s);
            assert(self.num_bits_spec() == 4);
        }
    }

    /// Load the metadata value of `data_addr`.
    fn load_value(&self, mem: &MemoryRegion, data_addr: Address) -> (r: u64)
        requires
            self.accessible(*mem, data_addr as int),
        ensures
            r == self.value_in(*mem, data_addr as int),
    {
        let meta_addr = address_to_meta_address(self, data_addr);
        if self.log_num_of_bits < 3 {
            let lshift = meta_byte_lshift(self, data_addr);
            let mask = meta_byte_mask(self);
            let byte_val = mem.load_u8(meta_addr);
            ((byte_val >> lshift) & mask) as u64
        } else {
            proof {
                lemma2_to64();
            }
            let n = pow2_u64((self.log_num_of_bits - 3) as u64);
            mem.load_le(meta_addr, n)
        }
    }

    /// Store `metadata` as the metadata value of `data_addr`.
    fn store_value(&self, mem: &mut MemoryRegion, data_addr: Address, metadata: u64)
        requires
            self.accessible(*old(mem), data_addr as int),
            metadata < pow2(self.num_bits_spec()),
        ensures
            self.stored(*old(mem), *final(mem), data_addr as int, metadata as nat),
    {
        let meta_addr = address_to_meta_address(self, data_addr);
        if self.log_num_of_bits < 3 {
            let lshift = meta_byte_lshift(self, data_addr);
            let mask = meta_byte_mask(self);
            proof {
                self.lemma_sub_byte_layout(data_addr as int);
            }
            let old_val = mem.load_u8(meta_addr);
            let v = metadata as u8;
            let new_val = (old_val & !(mask << lshift)) | (v << lshift);
            proof {
                lemma_field_get_set(old_val, lshift, mask, v, lshift);
            }
            let ghost prev = *mem;
            mem.store_u8(meta_addr, new_val);
            proof {
                assert forall|x: int| #![trigger mem.byte(x)] prev.contains(x) implies mem.byte(x) == (if x == meta_addr { new_val } else { prev.byte(x) }) by {
                    assert(mem.byte(x) == mem.bytes_spec()[x - mem.start_spec()]);
                }
            }
        } else {
            proof {
                lemma2_to64();
                assert(self.num_bits_spec() == 8 * self.bytes_per_value()) by {
                    lemma_pow2_adds((self.log_num_of_bits - 3) as nat, 3);
                }
            }
            let n = pow2_u64((self.log_num_of_bits - 3) as u64);
            mem.store_le(meta_addr, n, metadata);
        }
    }

    /// The values of this spec are below `2^(2^log_num_of_bits)`.
    pub proof fn lemma_value_bound(self, mem: MemoryRegion, data_addr: int)
        requires
            self.accessible(mem, data_addr),
        ensures
            self.value_in(mem, data_addr) < pow2(self.num_bits_spec()),
    {
        lemma2_to64();
        if self.log_num_of_bits < 3 {
            self.lemma_sub_byte_layout(data_addr);
            let m = meta_byte_mask_spec(self.log_num_of_bits as nat) as u8;
            let s = self.lshift_spec(data_addr) as u8;
            lemma_field_get_set(mem.byte(self.meta_addr_spec(data_addr)), s, m, 0, s);
        } else {
            crate::memory::lemma_le_value_bound(mem.range(self.meta_addr_spec(data_addr), self.bytes_per_value() as int));
            lemma_pow2_adds((self.log_num_of_bits - 3) as nat, 3);
        }
    }

    /// Non-atomic load of metadata.
    pub fn load(&self, mem: &MemoryRegion, data_addr: Address) -> (r: u64)
        requires
            self.accessible(*mem, data_addr as int),
        ensures
            r == self.value_in(*mem, data_addr as int),
            r < pow2(self.num_bits_spec()),
    {
        proof {
            self.lemma_value_bound(*mem, data_addr as int);
        }
        self.load_value(mem, data_addr)
    }

    /// Non-atomic store of metadata.
    pub fn store(&self, mem: &mut MemoryRegion, data_addr: Address, metadata: u64)
        requires
            self.accessible(*old(mem), data_addr as int),
            metadata < pow2(self.num_bits_spec()),
        ensures
            self.stored(*old(mem), *final(mem), data_addr as int, metadata as nat),
    {
        self.store_value(mem, data_addr, metadata)
    }

    /// Atomic load of metadata.
    pub fn load_atomic(&self, mem: &MemoryRegion, data_addr: Address) -> (r: u64)
        requires
            self.accessible(*mem, data_addr as int),
        ensures
            r == self.value_in(*mem, data_addr as int),
            r < pow2(self.num_bits_spec()),
    {
        self.load(mem, data_addr)
    }

    /// Atomic store of metadata.
    pub fn store_atomic(&self, mem: &mut MemoryRegion, data_addr: Address, metadata: u64)
        requires
            self.accessible(*old(mem), data_addr as int),
            metadata < pow2(self.num_bits_spec()),
        ensures
            self.stored(*old(mem), *final(mem), data_addr as int, metadata as nat),
    {
        self.store_value(mem, data_addr, metadata)
    }

    /// Replace the metadata value `old_metadata` with `new_metadata`. Returns
    /// `Ok` with the previous value if it was `old_metadata`, else `Err` with
    /// the current value and nothing changes.
    pub fn compare_exchange_atomic(&self, mem: &mut MemoryRegion, data_addr: Address, old_metadata: u64, new_metadata: u64) -> (r: Result<u64, u64>)
        requires
            self.accessible(*old(mem), data_addr as int),
            old_metadata < pow2(self.num_bits_spec()),
            new_metadata < pow2(self.num_bits_spec()),
        ensures
            self.value_in(*old(mem), data_addr as int) == old_metadata ==> r == Ok::<u64, u64>(old_metadata)
                && self.stored(*old(mem), *final(mem), data_addr as int, new_metadata as nat),
            self.value_in(*old(mem), data_addr as int) != old_metadata ==> r == Err::<u64, u64>(self.value_in(*old(mem), data_addr as int) as u64)
                && *final(mem) == *old(mem),
    {
        let current = self.load(mem, data_addr);
        if current == old_metadata {
            self.store_value(mem, data_addr, new_metadata);
            Ok(current)
        } else {
            Err(current)
        }
    }

    /// Add `val` to the metadata value (wrapping around on overflow), and return the previous value.
    pub fn fetch_add_atomic(&self, mem: &mut MemoryRegion, data_addr: Address, val: u64) -> (r: u64)
        requires
            self.accessible(*old(mem), data_addr as int),
            val < pow2(self.num_bits_spec()),
        ensures
            r == self.value_in(*old(mem), data_addr as int),
            self.stored(*old(mem), *final(mem), data_addr as int, wrap_add(r as nat, val as nat, self.num_bits_spec())),
    {
        let old_val = self.load(mem, data_addr);
        let new_val = self.wrapping_add_value(old_val, val);
        self.store_value(mem, data_addr, new_val);
        old_val
    }

    /// Subtract `val` from the metadata value (wrapping around on overflow), and return the previous value.
    pub fn fetch_sub_atomic(&self, mem: &mut MemoryRegion, data_addr: Address, val: u64) -> (r: u64)
        requires
            self.accessible(*old(mem), data_addr as int),
            val < pow2(self.num_bits_spec()),
        ensures
            r == self.value_in(*old(mem), data_addr as int),
            self.stored(*old(mem), *final(mem), data_addr as int, wrap_sub(r as nat, val as nat, self.num_bits_spec())),
    {
        let old_val = self.load(mem, data_addr);
        let new_val = self.wrapping_sub_value(old_val, val);
        self.store_value(mem, data_addr, new_val);
        old_val
    }

    /// Bitwise-and `val` into the metadata value, and return the previous value.
    pub fn fetch_and_atomic(&self, mem: &mut MemoryRegion, data_addr: Address, val: u64) -> (r: u64)
        requires
            self.accessible(*old(mem), data_addr as int),
            val < pow2(self.num_bits_spec()),
        ensures
            r == self.value_in(*old(mem), data_addr as int),
            self.stored(*old(mem), *final(mem), data_addr as int, (r & val) as nat),
    {
        let old_val = self.load(mem, data_addr);
        let new_val = old_val & val;
        proof {
            lemma_and_bound(old_val, val, pow2(self.num_bits_spec()));
        }
        self.store_value(mem, data_addr, new_val);
        old_val
    }

    /// Bitwise-or `val` into the metadata value, and return the previous value.
    pub fn fetch_or_atomic(&self, mem: &mut MemoryRegion, data_addr: Address, val: u64) -> (r: u64)
        requires
            self.accessible(*old(mem), data_addr as int),
            val < pow2(self.num_bits_spec()),
        ensures
            r == self.value_in(*old(mem), data_addr as int),
            self.stored(*old(mem), *final(mem), data_addr as int, (r | val) as nat),
    {
        let old_val = self.load(mem, data_addr);
        let new_val = old_val | val;
        proof {
            self.lemma_or_bound(old_val, val);
        }
        self.store_value(mem, data_addr, new_val);
        old_val
    }

    /// Apply `f` to the metadata value: if it returns `Some(new)`, store `new`
    /// and return `Ok` with the previous value; if it returns `None`, leave the
    /// value and return `Err` with it.
    pub fn fetch_update_atomic<F: Fn(u64) -> Option<u64>>(&self, mem: &mut MemoryRegion, data_addr: Address, f: F) -> (r: Result<u64, u64>)
        requires
            self.accessible(*old(mem), data_addr as int),
            forall|x: u64| x < pow2(self.num_bits_spec()) ==> call_requires(f, (x,)),
            forall|x: u64, o: Option<u64>| x < pow2(self.num_bits_spec()) && call_ensures(f, (x,), o) && o is Some
                ==> o->0 < pow2(self.num_bits_spec()),
        ensures
            match r {
                Ok(v) => v == self.value_in(*old(mem), data_addr as int)
                    && exists|n: u64| call_ensures(f, (v,), Some(n)) && self.stored(*old(mem), *final(mem), data_addr as int, n as nat),
                Err(v) => v == self.value_in(*old(mem), data_addr as int)
                    && call_ensures(f, (v,), None) && *final(mem) == *old(mem),
            },
    {
        let old_val = self.load(mem, data_addr);
        match f(old_val) {
            Some(new_val) => {
                self.store_value(mem, data_addr, new_val);
                Ok(old_val)
            },
            None => Err(old_val),
        }
    }

    /// `a + b` modulo `2^(2^log_num_of_bits)`.
    fn wrapping_add_value(&self, a: u64, b: u64) -> (r: u64)
        requires
            self.log_num_of_bits <= 6,
            a < pow2(self.num_bits_spec()),
            b < pow2(self.num_bits_spec()),
        ensures
            r == wrap_add(a as nat, b as nat, self.num_bits_spec()),
            r < pow2(self.num_bits_spec()),
    {
        proof {
            lemma2_to64();
            vstd::arithmetic::power2::lemma2_to64_rest();
        }
        if self.log_num_of_bits == 6 {
            proof {
                assert(pow2(64) == 0x10000000000000000) by {
                    vstd::arithmetic::power2::lemma2_to64_rest();
                }
            }
            a.wrapping_add(b)
        } else {
            let n = pow2_u64(self.num_bits_value());
            proof {
                assert(pow2(self.num_bits_spec()) <= 0x100000000) by {
                    if self.log_num_of_bits <= 4 {
                        vstd::arithmetic::power2::lemma_pow2_strictly_increases(self.num_bits_spec(), 32);
                    }
                }
            }
            let s = a + b;
            if s >= n { s - n } else { s }
        }
    }

    /// `a - b` modulo `2^(2^log_num_of_bits)`.
    fn wrapping_sub_value(&self, a: u64, b: u64) -> (r: u64)
        requires
            self.log_num_of_bits <= 6,
            a < pow2(self.num_bits_spec()),
            b < pow2(self.num_bits_spec()),
        ensures
            r == wrap_sub(a as nat, b as nat, self.num_bits_spec()),
            r < pow2(self.num_bits_spec()),
    {
        proof {
            lemma2_to64();
        }
        if self.log_num_of_bits == 6 {
            proof {
                assert(pow2(64) == 0x10000000000000000) by {
                    vstd::arithmetic::power2::lemma2_to64_rest();
                }
            }
            a.wrapping_sub(b)
        } else {
            let n = pow2_u64(self.num_bits_value());
            if a >= b { a - b } else { a + (n - b) }
        }
    }

    /// The number of bits per region, `2^log_num_of_bits`.
    fn num_bits_value(&self) -> (r: u64)
        requires
            self.log_num_of_bits <= 5,
        ensures
            r == self.num_bits_spec(),
            r <= 32,
    {
        proof {
            lemma2_to64();
            if self.log_num_of_bits < 5 {
                vstd::arithmetic::power2::lemma_pow2_strictly_increases(self.log_num_of_bits as nat, 5);
            }
        }
        pow2_u64(self.log_num_of_bits as u64)
    }

    /// The bitwise-or of two values of this spec is a value of this spec.
    proof fn lemma_or_bound(self, a: u64, b: u64)
        requires
            self.log_num_of_bits <= 6,
            a < pow2(self.num_bits_spec()),
            b < pow2(self.num_bits_spec()),
        ensures
            (a | b) < pow2(self.num_bits_spec()),
    {
        lemma2_to64();
        vstd::arithmetic::power2::lemma2_to64_rest();
        let lb = self.log_num_of_bits;
        if lb == 0 {
            lemma_or_below(a, b, 2);
        } else if lb == 1 {
            lemma_or_below(a, b, 4);
        } else if lb == 2 {
            lemma_or_below(a, b, 16);
        } else if lb == 3 {
            lemma_or_below(a, b, 256);
        } else if lb == 4 {
            lemma_or_below(a, b, 65536);
        } else if lb == 5 {
            lemma_or_below(a, b, 0x100000000);
        } else {
            assert(pow2(64) == 0x10000000000000000);
        }
    }
}

/// A field mask stays within the byte when shifted to its place.
proof fn lemma_shift_fits(m: u8, s: u8)
    by (bit_vector)
    requires
        (m == 1u8 && s < 8u8) || (m == 3u8 && (s == 0u8 || s == 2u8 || s == 4u8 || s == 6u8)) || (m == 15u8 && (s == 0u8 || s == 4u8)),
    ensures
        (m << s) >> s == m,
{
}

/// The bitwise-and of two numbers is not above either.
proof fn lemma_and_bound(a: u64, b: u64, bound: nat)
    requires
        a < bound,
    ensures
        (a & b) < bound,
{
    assert((a & b) <= a) by (bit_vector);
}

/// The bitwise-or of two numbers below a power of two is below it.
proof fn lemma_or_below(a: u64, b: u64, p: u64)
    by (bit_vector)
    requires
        p == 2u64 || p == 4u64 || p == 16u64 || p == 256u64 || p == 65536u64 || p == 0x100000000u64,
        a < p,
        b < p,
    ensures
        (a | b) < p,
{
}

} // verus!

verus! {

/// Two distinct field positions of the same width do not overlap.
proof fn lemma_fields_disjoint(m: u8, s: u8, s2: u8)
    by (bit_vector)
    requires
        (m == 1u8 && s < 8u8 && s2 < 8u8)
            || (m == 3u8 && (s == 0u8 || s == 2u8 || s == 4u8 || s == 6u8) && (s2 == 0u8 || s2 == 2u8 || s2 == 4u8 || s2 == 6u8))
            || (m == 15u8 && (s == 0u8 || s == 4u8) && (s2 == 0u8 || s2 == 4u8)),
        s != s2,
    ensures
        ((m << s) & (m << s2)) == 0u8,
{
}

/// Keeping the bits outside one field keeps every field disjoint from it.
proof fn lemma_keep_other_field(new: u8, old: u8, m: u8, s: u8, s2: u8)
    by (bit_vector)
    requires
        s < 8u8,
        s2 < 8u8,
        ((m << s) & (m << s2)) == 0u8,
        (m << s2) >> s2 == m,
        new & !(m << s) == old & !(m << s),
    ensures
        ((new >> s2) & m) == ((old >> s2) & m),
{
}

impl SideMetadataSpec {
    /// The field position of a value narrower than a byte, as in `lemma_sub_byte_layout`.
    proof fn lemma_sub_byte_positions(self, a: int, b: int)
        requires
            self.wf(),
            self.log_num_of_bits < 3,
        ensures
            ({
                let m = meta_byte_mask_spec(self.log_num_of_bits as nat) as u8;
                let s = self.lshift_spec(a) as u8;
                let s2 = self.lshift_spec(b) as u8;
                (m == 1u8 && s < 8u8 && s2 < 8u8)
                    || (m == 3u8 && (s == 0u8 || s == 2u8 || s == 4u8 || s == 6u8) && (s2 == 0u8 || s2 == 2u8 || s2 == 4u8 || s2 == 6u8))
                    || (m == 15u8 && (s == 0u8 || s == 4u8) && (s2 == 0u8 || s2 == 4u8))
            }),
            self.meta_addr_spec(a) == self.meta_addr_spec(b) && self.lshift_spec(a) == self.lshift_spec(b)
                ==> self.region_index(a) == self.region_index(b),
    {
        lemma2_to64();
        let lb = self.log_num_of_bits as nat;
        let k = pow2((3 - lb) as nat) as int;
        lemma_pow2_pos((3 - lb) as nat);
        let qa = self.region_index(a);
        let qb = self.region_index(b);
        vstd::arithmetic::div_mod::lemma_mod_bound(qa, k);
        vstd::arithmetic::div_mod::lemma_mod_bound(qb, k);
        let ta = qa % k;
        let tb = qb % k;
        if lb == 0 {
            assert(pow2(lb) == 1);
            vstd::arithmetic::mul::lemma_mul_basics(ta);
            vstd::arithmetic::mul::lemma_mul_basics(tb);
        } else if lb == 1 {
            assert(pow2(lb) == 2);
            assert(ta == 0 || ta == 1 || ta == 2 || ta == 3);
            assert(tb == 0 || tb == 1 || tb == 2 || tb == 3);
        } else {
            assert(pow2(lb) == 4);
            assert(ta == 0 || ta == 1);
            assert(tb == 0 || tb == 1);
        }
        if self.meta_addr_spec(a) == self.meta_addr_spec(b) && self.lshift_spec(a) == self.lshift_spec(b) {
            assert(qa / k == qb / k);
            assert(ta == tb) by {
                if lb == 0 {
                } else {
                    vstd::arithmetic::mul::lemma_mul_is_commutative(ta, pow2(lb) as int);
                    vstd::arithmetic::mul::lemma_mul_is_commutative(tb, pow2(lb) as int);
                }
            }
            vstd::arithmetic::div_mod::lemma_fundamental_div_mod(qa, k);
            vstd::arithmetic::div_mod::lemma_fundamental_div_mod(qb, k);
        }
    }

    /// Storing a value for a data address and then loading it gives the value
    /// back; the values of data addresses in other regions are unchanged.
    pub proof fn lemma_store_then_load(self, old_mem: MemoryRegion, new_mem: MemoryRegion, a: int, v: nat, b: int)
        requires
            self.accessible(old_mem, a),
            self.accessible(old_mem, b),
            self.stored(old_mem, new_mem, a, v),
        ensures
            self.value_in(new_mem, a) == v,
            self.region_index(a) == self.region_index(b) ==> self.value_in(new_mem, b) == v,
            self.region_index(a) != self.region_index(b) ==> self.value_in(new_mem, b) == self.value_in(old_mem, b),
    {
        lemma2_to64();
        let qa = self.region_index(a);
        let qb = self.region_index(b);
        let ma = self.meta_addr_spec(a);
        let mb = self.meta_addr_spec(b);
        if qa == qb {
            assert(ma == mb);
            assert(self.lshift_spec(a) == self.lshift_spec(b));
        } else if self.log_num_of_bits < 3 {
            self.lemma_sub_byte_layout(a);
            self.lemma_sub_byte_layout(b);
            self.lemma_sub_byte_positions(a, b);
            let m = meta_byte_mask_spec(self.log_num_of_bits as nat) as u8;
            let sa = self.lshift_spec(a) as u8;
            let sb = self.lshift_spec(b) as u8;
            if ma != mb {
                assert(new_mem.byte(mb) == old_mem.byte(mb));
            } else {
                assert(sa != sb);
                lemma_fields_disjoint(m, sa, sb);
                lemma_keep_other_field(new_mem.byte(ma), old_mem.byte(ma), m, sa, sb);
            }
        } else {
            let n = self.bytes_per_value() as int;
            let k = pow2((self.log_num_of_bits - 3) as nat) as int;
            assert(n == k);
            lemma_pow2_pos((self.log_num_of_bits - 3) as nat);
            // The metadata of distinct regions occupies disjoint bytes.
            assert(ma - self.offset.value_spec() == qa * k && mb - self.offset.value_spec() == qb * k) by {
                if self.log_num_of_bits == 3 {
                    assert(k == 1);
                    vstd::arithmetic::div_mod::lemma_div_basics(qa);
                    vstd::arithmetic::div_mod::lemma_div_basics(qb);
                    vstd::arithmetic::mul::lemma_mul_basics(qa);
                    vstd::arithmetic::mul::lemma_mul_basics(qb);
                }
            }
            assert(ma + n <= mb || mb + n <= ma) by {
                if qa < qb {
                    vstd::arithmetic::mul::lemma_mul_inequality(qa + 1, qb, k);
                    vstd::arithmetic::mul::lemma_mul_is_distributive_add(k, qa, 1);
                    vstd::arithmetic::mul::lemma_mul_is_commutative(k, qa + 1);
                    vstd::arithmetic::mul::lemma_mul_is_commutative(k, qa);
                } else {
                    vstd::arithmetic::mul::lemma_mul_inequality(qb + 1, qa, k);
                    vstd::arithmetic::mul::lemma_mul_is_distributive_add(k, qb, 1);
                    vstd::arithmetic::mul::lemma_mul_is_commutative(k, qb + 1);
                    vstd::arithmetic::mul::lemma_mul_is_commutative(k, qb);
                }
            }
            assert(new_mem.range(mb, n) =~= old_mem.range(mb, n)) by {
                assert forall|i: int| 0 <= i < n implies new_mem.range(mb, n)[i] == old_mem.range(mb, n)[i] by {
                    assert(new_mem.range(mb, n)[i] == new_mem.byte(mb + i));
                    assert(old_mem.range(mb, n)[i] == old_mem.byte(mb + i));
                }
            }
        }
    }
}

} // verus!

verus! {

/// The bits `[lo, hi)` of a byte (`hi` may be 8).
pub open spec fn byte_interval_mask(lo: u8, hi: u8) -> u8 {
    if hi >= 8 { 0xFFu8 << lo } else { (0xFFu8 << lo) & !(0xFFu8 << hi) }
}

/// The byte `b` at address `x` after clearing the bits from bit `sb` of the
/// byte at `sa` (inclusive) to bit `eb` of the byte at `ea` (exclusive).
pub open spec fn zeroed_byte(b: u8, x: int, sa: int, sb: u8, ea: int, eb: u8) -> u8 {
    if x < sa || x > ea {
        b
    } else {
        let lo: u8 = if x == sa { sb } else { 0u8 };
        let hi: u8 = if x == ea { eb } else { 8u8 };
        b & !byte_interval_mask(lo, hi)
    }
}

/// The bit range from `(sa, sb)` to `(ea, eb)` is well formed and its bytes are mapped in `mem`.
pub open spec fn zero_range_ok(mem: MemoryRegion, sa: Address, sb: u8, ea: Address, eb: u8) -> bool {
    &&& mem.wf()
    &&& sb < 8
    &&& eb < 8
    &&& (sa < ea || (sa == ea && sb <= eb))
    &&& mem.contains_range(sa as int, ea - sa)
    &&& eb > 0 ==> mem.contains(ea as int)
}

/// `new` is `old` with the bits from `(sa, sb)` to `(ea, eb)` cleared.
pub open spec fn bits_zeroed(old_mem: MemoryRegion, new_mem: MemoryRegion, sa: int, sb: u8, ea: int, eb: u8) -> bool {
    &&& new_mem.start_spec() == old_mem.start_spec()
    &&& new_mem.wf() == old_mem.wf()
    &&& new_mem.bytes_spec().len() == old_mem.bytes_spec().len()
    &&& forall|x: int| #![trigger new_mem.byte(x)] old_mem.contains(x) ==> new_mem.byte(x) == zeroed_byte(old_mem.byte(x), x, sa, sb, ea, eb)
}

/// Facts about the byte masks that clear bit ranges.
proof fn lemma_byte_masks(b: u8, s: u8, t: u8)
    by (bit_vector)
    requires
        s < 8u8,
        t < 8u8,
    ensures
        b & !((0xFFu8 << s) & !(0xFFu8 << s)) == b,
        b & !(0xFFu8 << 0u8) == 0u8,
        (b & ((0xFFu8 << t) | !(0xFFu8 << s))) == (b & !((0xFFu8 << s) & !(0xFFu8 << t))),
        (b & !(0xFFu8 << s)) == (b & !(0xFFu8 << s)),
{
}

/// How many levels of splitting `zero_meta_bits` does before a base case.
pub open spec fn zero_split_rank(sa: Address, sb: u8, ea: Address, eb: u8) -> nat {
    if (sa == ea && sb == eb) || (sb == 0 && eb == 0) || sa == ea || (sa + 1 == ea && eb == 0) { 0 } else { 1 }
}

impl SideMetadataSpec {
    /// Clear the metadata bits from bit `meta_start_bit` of the byte at
    /// `meta_start_addr` (inclusive) to bit `meta_end_bit` of the byte at
    /// `meta_end_addr` (exclusive).
    pub fn zero_meta_bits(mem: &mut MemoryRegion, meta_start_addr: Address, meta_start_bit: u8, meta_end_addr: Address, meta_end_bit: u8)
        requires
            zero_range_ok(*old(mem), meta_start_addr, meta_start_bit, meta_end_addr, meta_end_bit),
        ensures
            bits_zeroed(*old(mem), *final(mem), meta_start_addr as int, meta_start_bit, meta_end_addr as int, meta_end_bit),
        decreases zero_split_rank(meta_start_addr, meta_start_bit, meta_end_addr, meta_end_bit),
    {
        let ghost prev = *mem;
        let sa = meta_start_addr;
        let sb = meta_start_bit;
        let ea = meta_end_addr;
        let eb = meta_end_bit;
        if sa == ea && sb == eb {
            proof {
                assert forall|x: int| #![trigger mem.byte(x)] prev.contains(x) implies mem.byte(x) == zeroed_byte(prev.byte(x), x, sa as int, sb, ea as int, eb) by {
                    lemma_byte_masks(prev.byte(x), sb, eb);
                }
            }
            return;
        }
        if sb == 0 && eb == 0 {
            mem.fill(sa, ea, 0);
            proof {
                assert forall|x: int| #![trigger mem.byte(x)] prev.contains(x) implies mem.byte(x) == zeroed_byte(prev.byte(x), x, sa as int, sb, ea as int, eb) by {
                    lemma_byte_masks(prev.byte(x), 0, 0);
                }
            }
            return;
        }
        if sa == ea {
            let mask: u8 = (0xFFu8 << eb) | !(0xFFu8 << sb);
            let v = mem.load_u8(sa);
            mem.store_u8(sa, v & mask);
            proof {
                assert forall|x: int| #![trigger mem.byte(x)] prev.contains(x) implies mem.byte(x) == zeroed_byte(prev.byte(x), x, sa as int, sb, ea as int, eb) by {
                    assert(mem.byte(x) == mem.bytes_spec()[x - mem.start_spec()]);
                    lemma_byte_masks(prev.byte(x), sb, eb);
                }
            }
        } else if sa + 1 == ea && eb == 0 {
            let mask: u8 = !(0xFFu8 << sb);
            let v = mem.load_u8(sa);
            mem.store_u8(sa, v & mask);
            proof {
                assert forall|x: int| #![trigger mem.byte(x)] prev.contains(x) implies mem.byte(x) == zeroed_byte(prev.byte(x), x, sa as int, sb, ea as int, eb) by {
                    assert(mem.byte(x) == mem.bytes_spec()[x - mem.start_spec()]);
                    lemma_byte_masks(prev.byte(x), 0, 0);
                }
            }
        } else {
            // The first byte, the whole bytes in the middle, and the last byte.
            Self::zero_meta_bits(mem, sa, sb, sa + 1, 0);
            let ghost m1 = *mem;
            Self::zero_meta_bits(mem, sa + 1, 0, ea, 0);
            let ghost m2 = *mem;
            Self::zero_meta_bits(mem, ea, 0, ea, eb);
            proof {
                assert forall|x: int| #![trigger mem.byte(x)] prev.contains(x) implies mem.byte(x) == zeroed_byte(prev.byte(x), x, sa as int, sb, ea as int, eb) by {
                    assert(m1.byte(x) == zeroed_byte(prev.byte(x), x, sa as int, sb, sa + 1, 0u8));
                    assert(m2.byte(x) == zeroed_byte(m1.byte(x), x, sa + 1, 0u8, ea as int, 0u8));
                    lemma_byte_masks(prev.byte(x), 0, 0);
                    lemma_byte_masks(m1.byte(x), 0, 0);
                    lemma_byte_masks(m2.byte(x), 0, eb);
                }
            }
        }
    }
}

} // verus!

verus! {

impl SideMetadataSpec {
    /// The metadata of the data range `[start, start + size)` can be cleared in `mem`.
    pub open spec fn bzero_ok(self, mem: MemoryRegion, start: int, size: int) -> bool {
        &&& self.wf()
        &&& start + size <= u64::MAX
        &&& self.meta_addr_fits(start)
        &&& self.meta_addr_fits(start + size)
        &&& zero_range_ok(mem, self.meta_addr_spec(start) as u64, self.lshift_spec(start) as u8,
            self.meta_addr_spec(start + size) as u64, self.lshift_spec(start + size) as u8)
    }

    /// Bulk-zero the metadata for the data range `[start, start + size)`: the
    /// metadata bits from those of the region of `start` up to (excluding)
    /// those of the region of `start + size` are cleared, so the values of
    /// those regions read 0 and every other value is unchanged.
    pub fn bzero_metadata(&self, mem: &mut MemoryRegion, start: Address, size: u64)
        requires
            self.bzero_ok(*old(mem), start as int, size as int),
        ensures
            size == 0 ==> *final(mem) == *old(mem),
            size > 0 ==> bits_zeroed(*old(mem), *final(mem), self.meta_addr_spec(start as int), self.lshift_spec(start as int) as u8,
                self.meta_addr_spec(start + size), self.lshift_spec(start + size) as u8),
            forall|a: int| #![trigger self.value_in(*final(mem), a)]
                a >= 0 && self.accessible(*old(mem), a) && self.region_index(start as int) <= self.region_index(a) < self.region_index(start + size)
                ==> self.value_in(*final(mem), a) == 0,
            forall|a: int| #![trigger self.value_in(*final(mem), a)]
                a >= 0 && self.accessible(*old(mem), a) && !(self.region_index(start as int) <= self.region_index(a) < self.region_index(start + size))
                ==> self.value_in(*final(mem), a) == self.value_in(*old(mem), a),
    {
        if size == 0 {
            return;
        }
        let meta_start = address_to_meta_address(self, start);
        let meta_start_shift = meta_byte_lshift(self, start);
        let meta_end = address_to_meta_address(self, start + size);
        let meta_end_shift = meta_byte_lshift(self, start + size);
        let ghost m0 = *mem;
        Self::zero_meta_bits(mem, meta_start, meta_start_shift, meta_end, meta_end_shift);
        proof {
            self.lemma_bzero_values(m0, *mem, start as int, start + size);
        }
    }
}

} // verus!
