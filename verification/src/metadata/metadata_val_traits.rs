//! The unsigned integer types that hold metadata values: their width,
//! bitwise operations, and how they are read and written in memory (as
//! little-endian bytes).
use vstd::prelude::*;
use vstd::arithmetic::power2::{pow2, lemma2_to64, lemma2_to64_rest};
use crate::address::Address;
use crate::memory::{MemoryRegion, lemma_le_value_bound};

verus! {

/// The width of an integer type in bits, and its log2.
pub trait Bits {
    /// log2 of the width in bits.
    spec fn log2_spec() -> nat;

    /// The width of the type in bits.
    fn bits() -> (r: u32)
        ensures
            r == pow2(Self::log2_spec());

    /// log2 of the width of the type in bits.
    fn log2() -> (r: u32)
        ensures
            r == Self::log2_spec();
}

/// Bitwise operations on an integer type.
pub trait BitwiseOps: Sized {
    /// Bitwise and.
    fn bitand(self, other: Self) -> Self;
    /// Bitwise or.
    fn bitor(self, other: Self) -> Self;
    /// Bitwise exclusive or.
    fn bitxor(self, other: Self) -> Self;
    /// Bitwise not.
    fn inv(self) -> Self;
}

impl Bits for u8 {
    open spec fn log2_spec() -> nat {
        3
    }

    fn bits() -> (r: u32) {
        proof {
            vstd::arithmetic::power2::lemma2_to64();
        }
        u8::BITS
    }

    fn log2() -> (r: u32) {
        3
    }
}

impl BitwiseOps for u8 {
    fn bitand(self, other: Self) -> (r: Self)
        ensures
            r == self & other,
    {
        self & other
    }

    fn bitor(self, other: Self) -> (r: Self)
        ensures
            r == self | other,
    {
        self | other
    }

    fn bitxor(self, other: Self) -> (r: Self)
        ensures
            r == self ^ other,
    {
        self ^ other
    }

    fn inv(self) -> (r: Self)
        ensures
            r == !self,
    {
        !self
    }
}

impl Bits for u16 {
    open spec fn log2_spec() -> nat {
        4
    }

    fn bits() -> (r: u32) {
        proof {
            vstd::arithmetic::power2::lemma2_to64();
        }
        u16::BITS
    }

    fn log2() -> (r: u32) {
        4
    }
}

impl BitwiseOps for u16 {
    fn bitand(self, other: Self) -> (r: Self)
        ensures
            r == self & other,
    {
        self & other
    }

    fn bitor(self, other: Self) -> (r: Self)
        ensures
            r == self | other,
    {
        self | other
    }

    fn bitxor(self, other: Self) -> (r: Self)
        ensures
            r == self ^ other,
    {
        self ^ other
    }

    fn inv(self) -> (r: Self)
        ensures
            r == !self,
    {
        !self
    }
}

impl Bits for u32 {
    open spec fn log2_spec() -> nat {
        5
    }

    fn bits() -> (r: u32) {
        proof {
            vstd::arithmetic::power2::lemma2_to64();
        }
        u32::BITS
    }

    fn log2() -> (r: u32) {
        5
    }
}

impl BitwiseOps for u32 {
    fn bitand(self, other: Self) -> (r: Self)
        ensures
            r == self & other,
    {
        self & other
    }

    fn bitor(self, other: Self) -> (r: Self)
        ensures
            r == self | other,
    {
        self | other
    }

    fn bitxor(self, other: Self) -> (r: Self)
        ensures
            r == self ^ other,
    {
        self ^ other
    }

    fn inv(self) -> (r: Self)
        ensures
            r == !self,
    {
        !self
    }
}

impl Bits for u64 {
    open spec fn log2_spec() -> nat {
        6
    }

    fn bits() -> (r: u32) {
        proof {
            vstd::arithmetic::power2::lemma2_to64();
        }
        u64::BITS
    }

    fn log2() -> (r: u32) {
        6
    }
}

impl BitwiseOps for u64 {
    fn bitand(self, other: Self) -> (r: Self)
        ensures
            r == self & other,
    {
        self & other
    }

    fn bitor(self, other: Self) -> (r: Self)
        ensures
            r == self | other,
    {
        self | other
    }

    fn bitxor(self, other: Self) -> (r: Self)
        ensures
            r == self ^ other,
    {
        self ^ other
    }

    fn inv(self) -> (r: Self)
        ensures
            r == !self,
    {
        !self
    }
}

impl Bits for usize {
    open spec fn log2_spec() -> nat {
        if usize::BITS == 64 { 6 } else { 5 }
    }

    fn bits() -> (r: u32) {
        proof {
            vstd::arithmetic::power2::lemma2_to64();
        }
        usize::BITS
    }

    fn log2() -> (r: u32) {
        if usize::BITS == 64 { 6 } else { 5 }
    }
}

impl BitwiseOps for usize {
    fn bitand(self, other: Self) -> (r: Self)
        ensures
            r == self & other,
    {
        self & other
    }

    fn bitor(self, other: Self) -> (r: Self)
        ensures
            r == self | other,
    {
        self | other
    }

    fn bitxor(self, other: Self) -> (r: Self)
        ensures
            r == self ^ other,
    {
        self ^ other
    }

    fn inv(self) -> (r: Self)
        ensures
            r == !self,
    {
        !self
    }
}

/// The `n` bytes at `addr` can be read and written in `mem`.
pub open spec fn readable(mem: MemoryRegion, addr: int, n: int) -> bool {
    mem.wf() && mem.contains_range(addr, n)
}

/// `new` is `old` with the `n` bytes at `addr` holding the little-endian
/// value `v`, and every other byte unchanged.
pub open spec fn le_stored(old_mem: MemoryRegion, new_mem: MemoryRegion, addr: int, n: int, v: nat) -> bool {
    &&& new_mem.start_spec() == old_mem.start_spec()
    &&& new_mem.wf() == old_mem.wf()
    &&& new_mem.bytes_spec().len() == old_mem.bytes_spec().len()
    &&& new_mem.le_at(addr, n) == v
    &&& forall|x: int| #![trigger new_mem.byte(x)]
        old_mem.contains(x) && !(addr <= x < addr + n) ==> new_mem.byte(x) == old_mem.byte(x)
}

/// The little-endian value of the `n` bytes at `addr`.
fn load_n(mem: &MemoryRegion, addr: Address, n: u64) -> (r: u64)
    requires
        readable(*mem, addr as int, n as int),
        1 <= n <= 8,
    ensures
        r == mem.le_at(addr as int, n as int),
        r < pow2(8 * n as nat),
{
    proof {
        lemma_le_value_bound(mem.range(addr as int, n as int));
    }
    mem.load_le(addr, n)
}

/// Write `v` as the `n` little-endian bytes at `addr`.
fn store_n(mem: &mut MemoryRegion, addr: Address, n: u64, v: u64)
    requires
        readable(*old(mem), addr as int, n as int),
        1 <= n <= 8,
        v < pow2(8 * n as nat),
    ensures
        le_stored(*old(mem), *final(mem), addr as int, n as int, v as nat),
{
    mem.store_le(addr, n, v)
}

/// A number type that metadata values are read and written as.
pub trait MetadataValue: Bits + BitwiseOps + Copy + Sized {
    /// The value as a number.
    spec fn as_nat(self) -> nat;

    /// The number of bytes of a value in memory.
    spec fn bytes() -> nat;

    /// The bitwise and of two values, as a number.
    spec fn and_nat(self, other: Self) -> nat;

    /// The bitwise or of two values, as a number.
    spec fn or_nat(self, other: Self) -> nat;

    /// Read the value at `addr`.
    fn load(mem: &MemoryRegion, addr: Address) -> (r: Self)
        requires
            readable(*mem, addr as int, Self::bytes() as int),
        ensures
            r.as_nat() == mem.le_at(addr as int, Self::bytes() as int);

    /// Read the value at `addr` atomically.
    fn load_atomic(mem: &MemoryRegion, addr: Address) -> (r: Self)
        requires
            readable(*mem, addr as int, Self::bytes() as int),
        ensures
            r.as_nat() == mem.le_at(addr as int, Self::bytes() as int);

    /// Write `value` at `addr`.
    fn store(mem: &mut MemoryRegion, addr: Address, value: Self)
        requires
            readable(*old(mem), addr as int, Self::bytes() as int),
        ensures
            le_stored(*old(mem), *final(mem), addr as int, Self::bytes() as int, value.as_nat());

    /// Write `value` at `addr` atomically.
    fn store_atomic(mem: &mut MemoryRegion, addr: Address, value: Self)
        requires
            readable(*old(mem), addr as int, Self::bytes() as int),
        ensures
            le_stored(*old(mem), *final(mem), addr as int, Self::bytes() as int, value.as_nat());

    /// Replace the value at `addr` by `new` if it is `current`: `Ok` with the
    /// old value if it was, `Err` with it (and no change) if not.
    fn compare_exchange(mem: &mut MemoryRegion, addr: Address, current: Self, new: Self) -> (r: Result<Self, Self>)
        requires
            readable(*old(mem), addr as int, Self::bytes() as int),
        ensures
            match r {
                Ok(v) => v.as_nat() == old(mem).le_at(addr as int, Self::bytes() as int)
                    && v.as_nat() == current.as_nat()
                    && le_stored(*old(mem), *final(mem), addr as int, Self::bytes() as int, new.as_nat()),
                Err(v) => v.as_nat() == old(mem).le_at(addr as int, Self::bytes() as int)
                    && v.as_nat() != current.as_nat() && *final(mem) == *old(mem),
            };

    /// Add `value` to the value at `addr`, wrapping around; returns the old value.
    fn fetch_add(mem: &mut MemoryRegion, addr: Address, value: Self) -> (r: Self)
        requires
            readable(*old(mem), addr as int, Self::bytes() as int),
        ensures
            r.as_nat() == old(mem).le_at(addr as int, Self::bytes() as int),
            le_stored(*old(mem), *final(mem), addr as int, Self::bytes() as int,
                (r.as_nat() + value.as_nat()) as nat % pow2(8 * Self::bytes())),
    ;

    /// Subtract `value` from the value at `addr`, wrapping around; returns the old value.
    fn fetch_sub(mem: &mut MemoryRegion, addr: Address, value: Self) -> (r: Self)
        requires
            readable(*old(mem), addr as int, Self::bytes() as int),
        ensures
            r.as_nat() == old(mem).le_at(addr as int, Self::bytes() as int),
            le_stored(*old(mem), *final(mem), addr as int, Self::bytes() as int,
                (r.as_nat() + pow2(8 * Self::bytes()) - value.as_nat()) as nat % pow2(8 * Self::bytes())),
    ;

    /// And `value` into the value at `addr`; returns the old value.
    fn fetch_and(mem: &mut MemoryRegion, addr: Address, value: Self) -> (r: Self)
        requires
            readable(*old(mem), addr as int, Self::bytes() as int),
        ensures
            r.as_nat() == old(mem).le_at(addr as int, Self::bytes() as int),
            le_stored(*old(mem), *final(mem), addr as int, Self::bytes() as int, r.and_nat(value)),
    ;

    /// Or `value` into the value at `addr`; returns the old value.
    fn fetch_or(mem: &mut MemoryRegion, addr: Address, value: Self) -> (r: Self)
        requires
            readable(*old(mem), addr as int, Self::bytes() as int),
        ensures
            r.as_nat() == old(mem).le_at(addr as int, Self::bytes() as int),
            le_stored(*old(mem), *final(mem), addr as int, Self::bytes() as int, r.or_nat(value)),
    ;

    /// Update the value at `addr` with `f`: `Ok` with the old value if `f`
    /// gives a new one (which is written), `Err` with it if `f` gives none.
    fn fetch_update<F: FnMut(Self) -> Option<Self>>(mem: &mut MemoryRegion, addr: Address, f: F) -> (r: Result<Self, Self>)
        requires
            readable(*old(mem), addr as int, Self::bytes() as int),
            forall|g: F, v: Self| call_requires(g, (v,)),
        ensures
            match r {
                Ok(v) => v.as_nat() == old(mem).le_at(addr as int, Self::bytes() as int)
                    && exists|n: Self| call_ensures(f, (v,), Some(n))
                        && le_stored(*old(mem), *final(mem), addr as int, Self::bytes() as int, n.as_nat()),
                Err(v) => v.as_nat() == old(mem).le_at(addr as int, Self::bytes() as int)
                    && call_ensures(f, (v,), None) && *final(mem) == *old(mem),
            },
    ;
}

impl MetadataValue for u8 {
    open spec fn as_nat(self) -> nat {
        self as nat
    }

    open spec fn bytes() -> nat {
        1
    }

    open spec fn and_nat(self, other: Self) -> nat {
        (self & other) as nat
    }

    open spec fn or_nat(self, other: Self) -> nat {
        (self | other) as nat
    }

    fn load(mem: &MemoryRegion, addr: Address) -> (r: Self) {
        proof {
            lemma2_to64();
            lemma2_to64_rest();
        }
        load_n(mem, addr, 1) as u8
    }

    fn load_atomic(mem: &MemoryRegion, addr: Address) -> (r: Self) {
        Self::load(mem, addr)
    }

    fn store(mem: &mut MemoryRegion, addr: Address, value: Self) {
        proof {
            lemma2_to64();
            lemma2_to64_rest();
        }
        store_n(mem, addr, 1, value as u64)
    }

    fn store_atomic(mem: &mut MemoryRegion, addr: Address, value: Self) {
        Self::store(mem, addr, value)
    }

    fn compare_exchange(mem: &mut MemoryRegion, addr: Address, current: Self, new: Self) -> (r: Result<Self, Self>) {
        let old_value = Self::load(mem, addr);
        if old_value == current {
            Self::store(mem, addr, new);
            Ok(old_value)
        } else {
            Err(old_value)
        }
    }

    fn fetch_add(mem: &mut MemoryRegion, addr: Address, value: Self) -> (r: Self) {
        proof {
            lemma2_to64();
            lemma2_to64_rest();
        }
        let old_value = Self::load(mem, addr);
        let sum: u128 = (old_value as u128 + value as u128) % 0x100;
        Self::store(mem, addr, sum as u8);
        old_value
    }

    fn fetch_sub(mem: &mut MemoryRegion, addr: Address, value: Self) -> (r: Self) {
        proof {
            lemma2_to64();
            lemma2_to64_rest();
        }
        let old_value = Self::load(mem, addr);
        let diff: u128 = (old_value as u128 + 0x100 - value as u128) % 0x100;
        Self::store(mem, addr, diff as u8);
        old_value
    }

    fn fetch_and(mem: &mut MemoryRegion, addr: Address, value: Self) -> (r: Self) {
        let old_value = Self::load(mem, addr);
        Self::store(mem, addr, old_value & value);
        old_value
    }

    fn fetch_or(mem: &mut MemoryRegion, addr: Address, value: Self) -> (r: Self) {
        let old_value = Self::load(mem, addr);
        Self::store(mem, addr, old_value | value);
        old_value
    }

    fn fetch_update<F: FnMut(Self) -> Option<Self>>(mem: &mut MemoryRegion, addr: Address, f: F) -> (r: Result<Self, Self>) {
        let mut f = f;
        let old_value = Self::load(mem, addr);
        match f(old_value) {
            Some(new_value) => {
                Self::store(mem, addr, new_value);
                Ok(old_value)
            },
            None => Err(old_value),
        }
    }
}

impl MetadataValue for u16 {
    open spec fn as_nat(self) -> nat {
        self as nat
    }

    open spec fn bytes() -> nat {
        2
    }

    open spec fn and_nat(self, other: Self) -> nat {
        (self & other) as nat
    }

    open spec fn or_nat(self, other: Self) -> nat {
        (self | other) as nat
    }

    fn load(mem: &MemoryRegion, addr: Address) -> (r: Self) {
        proof {
            lemma2_to64();
            lemma2_to64_rest();
        }
        load_n(mem, addr, 2) as u16
    }

    fn load_atomic(mem: &MemoryRegion, addr: Address) -> (r: Self) {
        Self::load(mem, addr)
    }

    fn store(mem: &mut MemoryRegion, addr: Address, value: Self) {
        proof {
            lemma2_to64();
            lemma2_to64_rest();
        }
        store_n(mem, addr, 2, value as u64)
    }

    fn store_atomic(mem: &mut MemoryRegion, addr: Address, value: Self) {
        Self::store(mem, addr, value)
    }

    fn compare_exchange(mem: &mut MemoryRegion, addr: Address, current: Self, new: Self) -> (r: Result<Self, Self>) {
        let old_value = Self::load(mem, addr);
        if old_value == current {
            Self::store(mem, addr, new);
            Ok(old_value)
        } else {
            Err(old_value)
        }
    }

    fn fetch_add(mem: &mut MemoryRegion, addr: Address, value: Self) -> (r: Self) {
        proof {
            lemma2_to64();
            lemma2_to64_rest();
        }
        let old_value = Self::load(mem, addr);
        let sum: u128 = (old_value as u128 + value as u128) % 0x1_0000;
        Self::store(mem, addr, sum as u16);
        old_value
    }

    fn fetch_sub(mem: &mut MemoryRegion, addr: Address, value: Self) -> (r: Self) {
        proof {
            lemma2_to64();
            lemma2_to64_rest();
        }
        let old_value = Self::load(mem, addr);
        let diff: u128 = (old_value as u128 + 0x1_0000 - value as u128) % 0x1_0000;
        Self::store(mem, addr, diff as u16);
        old_value
    }

    fn fetch_and(mem: &mut MemoryRegion, addr: Address, value: Self) -> (r: Self) {
        let old_value = Self::load(mem, addr);
        Self::store(mem, addr, old_value & value);
        old_value
    }

    fn fetch_or(mem: &mut MemoryRegion, addr: Address, value: Self) -> (r: Self) {
        let old_value = Self::load(mem, addr);
        Self::store(mem, addr, old_value | value);
        old_value
    }

    fn fetch_update<F: FnMut(Self) -> Option<Self>>(mem: &mut MemoryRegion, addr: Address, f: F) -> (r: Result<Self, Self>) {
        let mut f = f;
        let old_value = Self::load(mem, addr);
        match f(old_value) {
            Some(new_value) => {
                Self::store(mem, addr, new_value);
                Ok(old_value)
            },
            None => Err(old_value),
        }
    }
}

impl MetadataValue for u32 {
    open spec fn as_nat(self) -> nat {
        self as nat
    }

    open spec fn bytes() -> nat {
        4
    }

    open spec fn and_nat(self, other: Self) -> nat {
        (self & other) as nat
    }

    open spec fn or_nat(self, other: Self) -> nat {
        (self | other) as nat
    }

    fn load(mem: &MemoryRegion, addr: Address) -> (r: Self) {
        proof {
            lemma2_to64();
            lemma2_to64_rest();
        }
        load_n(mem, addr, 4) as u32
    }

    fn load_atomic(mem: &MemoryRegion, addr: Address) -> (r: Self) {
        Self::load(mem, addr)
    }

    fn store(mem: &mut MemoryRegion, addr: Address, value: Self) {
        proof {
            lemma2_to64();
            lemma2_to64_rest();
        }
        store_n(mem, addr, 4, value as u64)
    }

    fn store_atomic(mem: &mut MemoryRegion, addr: Address, value: Self) {
        Self::store(mem, addr, value)
    }

    fn compare_exchange(mem: &mut MemoryRegion, addr: Address, current: Self, new: Self) -> (r: Result<Self, Self>) {
        let old_value = Self::load(mem, addr);
        if old_value == current {
            Self::store(mem, addr, new);
            Ok(old_value)
        } else {
            Err(old_value)
        }
    }

    fn fetch_add(mem: &mut MemoryRegion, addr: Address, value: Self) -> (r: Self) {
        proof {
            lemma2_to64();
            lemma2_to64_rest();
        }
        let old_value = Self::load(mem, addr);
        let sum: u128 = (old_value as u128 + value as u128) % 0x1_0000_0000;
        Self::store(mem, addr, sum as u32);
        old_value
    }

    fn fetch_sub(mem: &mut MemoryRegion, addr: Address, value: Self) -> (r: Self) {
        proof {
            lemma2_to64();
            lemma2_to64_rest();
        }
        let old_value = Self::load(mem, addr);
        let diff: u128 = (old_value as u128 + 0x1_0000_0000 - value as u128) % 0x1_0000_0000;
        Self::store(mem, addr, diff as u32);
        old_value
    }

    fn fetch_and(mem: &mut MemoryRegion, addr: Address, value: Self) -> (r: Self) {
        let old_value = Self::load(mem, addr);
        Self::store(mem, addr, old_value & value);
        old_value
    }

    fn fetch_or(mem: &mut MemoryRegion, addr: Address, value: Self) -> (r: Self) {
        let old_value = Self::load(mem, addr);
        Self::store(mem, addr, old_value | value);
        old_value
    }

    fn fetch_update<F: FnMut(Self) -> Option<Self>>(mem: &mut MemoryRegion, addr: Address, f: F) -> (r: Result<Self, Self>) {
        let mut f = f;
        let old_value = Self::load(mem, addr);
        match f(old_value) {
            Some(new_value) => {
                Self::store(mem, addr, new_value);
                Ok(old_value)
            },
            None => Err(old_value),
        }
    }
}

impl MetadataValue for u64 {
    open spec fn as_nat(self) -> nat {
        self as nat
    }

    open spec fn bytes() -> nat {
        8
    }

    open spec fn and_nat(self, other: Self) -> nat {
        (self & other) as nat
    }

    open spec fn or_nat(self, other: Self) -> nat {
        (self | other) as nat
    }

    fn load(mem: &MemoryRegion, addr: Address) -> (r: Self) {
        proof {
            lemma2_to64();
            lemma2_to64_rest();
        }
        load_n(mem, addr, 8) as u64
    }

    fn load_atomic(mem: &MemoryRegion, addr: Address) -> (r: Self) {
        Self::load(mem, addr)
    }

    fn store(mem: &mut MemoryRegion, addr: Address, value: Self) {
        proof {
            lemma2_to64();
            lemma2_to64_rest();
        }
        store_n(mem, addr, 8, value as u64)
    }

    fn store_atomic(mem: &mut MemoryRegion, addr: Address, value: Self) {
        Self::store(mem, addr, value)
    }

    fn compare_exchange(mem: &mut MemoryRegion, addr: Address, current: Self, new: Self) -> (r: Result<Self, Self>) {
        let old_value = Self::load(mem, addr);
        if old_value == current {
            Self::store(mem, addr, new);
            Ok(old_value)
        } else {
            Err(old_value)
        }
    }

    fn fetch_add(mem: &mut MemoryRegion, addr: Address, value: Self) -> (r: Self) {
        proof {
            lemma2_to64();
            lemma2_to64_rest();
        }
        let old_value = Self::load(mem, addr);
        let sum: u128 = (old_value as u128 + value as u128) % 0x1_0000_0000_0000_0000;
        Self::store(mem, addr, sum as u64);
        old_value
    }

    fn fetch_sub(mem: &mut MemoryRegion, addr: Address, value: Self) -> (r: Self) {
        proof {
            lemma2_to64();
            lemma2_to64_rest();
        }
        let old_value = Self::load(mem, addr);
        let diff: u128 = (old_value as u128 + 0x1_0000_0000_0000_0000 - value as u128) % 0x1_0000_0000_0000_0000;
        Self::store(mem, addr, diff as u64);
        old_value
    }

    fn fetch_and(mem: &mut MemoryRegion, addr: Address, value: Self) -> (r: Self) {
        let old_value = Self::load(mem, addr);
        Self::store(mem, addr, old_value & value);
        old_value
    }

    fn fetch_or(mem: &mut MemoryRegion, addr: Address, value: Self) -> (r: Self) {
        let old_value = Self::load(mem, addr);
        Self::store(mem, addr, old_value | value);
        old_value
    }

    fn fetch_update<F: FnMut(Self) -> Option<Self>>(mem: &mut MemoryRegion, addr: Address, f: F) -> (r: Result<Self, Self>) {
        let mut f = f;
        let old_value = Self::load(mem, addr);
        match f(old_value) {
            Some(new_value) => {
                Self::store(mem, addr, new_value);
                Ok(old_value)
            },
            None => Err(old_value),
        }
    }
}

} // verus!
