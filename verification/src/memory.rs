//! A model of mapped memory: a contiguous range of bytes starting at an
//! address. Metadata tables and object headers are read and written through it.
use vstd::prelude::*;
use vstd::arithmetic::power2::{pow2, lemma2_to64, lemma_pow2_pos, lemma_pow2_adds};
use vstd::arithmetic::div_mod::*;
use vstd::arithmetic::mul::*;
use crate::address::Address;

verus! {

/// The little-endian value of the bytes `s`.
pub open spec fn le_value(s: Seq<u8>) -> nat
    decreases s.len(),
{
    if s.len() == 0 {
        0
    } else {
        s[0] as nat + 256 * le_value(s.drop_first())
    }
}

/// The little-endian value of `n` bytes is below `2^(8n)`.
pub proof fn lemma_le_value_bound(s: Seq<u8>)
    ensures
        le_value(s) < pow2(8 * s.len()),
    decreases s.len(),
{
    if s.len() == 0 {
        lemma2_to64();
    } else {
        lemma_le_value_bound(s.drop_first());
        lemma_pow2_adds(8 * (s.len() - 1) as nat, 8);
        lemma2_to64();
        assert(8 * (s.len() - 1) + 8 == 8 * s.len());
        let p = pow2(8 * (s.len() - 1) as nat) as int;
        lemma_mul_inequality(le_value(s.drop_first()) as int + 1, p, 256);
        lemma_mul_is_commutative(p, 256);
    }
}

/// The bytes `v / 256^i % 256` have the little-endian value `v % 256^n`.
pub proof fn lemma_le_value_of_digits(s: Seq<u8>, v: nat)
    requires
        forall|i: int| 0 <= i < s.len() ==> s[i] as nat == (v / pow2(8 * i as nat)) % 256,
    ensures
        le_value(s) == v % pow2(8 * s.len()),
    decreases s.len(),
{
    lemma2_to64();
    if s.len() == 0 {
        lemma_mod_bound(v as int, 1);
    } else {
        let t = s.drop_first();
        assert forall|i: int| 0 <= i < t.len() implies t[i] as nat == ((v / 256) / pow2(8 * i as nat)) % 256 by {
            lemma_pow2_adds(8, 8 * i as nat);
            lemma_pow2_pos(8 * i as nat);
            lemma_div_denominator(v as int, 256, pow2(8 * i as nat) as int);
            assert(8 * (i + 1) == 8 + 8 * i);
        }
        lemma_le_value_of_digits(t, v / 256);
        lemma_pow2_pos(8 * t.len());
        lemma_mod_breakdown(v as int, 256, pow2(8 * t.len()) as int);
        lemma_pow2_adds(8, 8 * t.len());
        assert(8 + 8 * t.len() == 8 * s.len());
        assert(s[0] as nat == v % 256) by {
            assert(s[0] as nat == (v / pow2(8 * 0int as nat)) % 256);
            assert(pow2(0) == 1);
            lemma_div_basics(v as int);
        }
    }
}

/// Byte `j` of a little-endian value is its digit `j` in base 256.
pub proof fn lemma_le_value_byte(s: Seq<u8>, j: int)
    requires
        0 <= j < s.len(),
    ensures
        s[j] as nat == (le_value(s) / pow2(8 * j as nat)) % 256,
    decreases j,
{
    let t = s.drop_first();
    assert(le_value(s) == s[0] as nat + 256 * le_value(t));
    lemma_fundamental_div_mod_converse(le_value(s) as int, 256, le_value(t) as int, s[0] as int);
    if j == 0 {
        lemma2_to64();
        lemma_div_basics(le_value(s) as int);
    } else {
        lemma_le_value_byte(t, j - 1);
        assert(t[j - 1] == s[j]);
        lemma_pow2_adds(8, 8 * (j - 1) as nat);
        assert(8 + 8 * (j - 1) as nat == 8 * j as nat);
        lemma2_to64();
        lemma_pow2_pos(8 * (j - 1) as nat);
        lemma_div_denominator(le_value(s) as int, 256, pow2(8 * (j - 1) as nat) as int);
    }
}

/// A mapped range of memory: the bytes from `start` (inclusive) to
/// `start + len` (exclusive).
pub struct MemoryRegion {
    start: Address,
    bytes: Vec<u8>,
}

impl MemoryRegion {
    /// The first address of the region.
    pub closed spec fn start_spec(&self) -> int {
        self.start as int
    }

    /// The contents of the region.
    pub closed spec fn bytes_spec(&self) -> Seq<u8> {
        self.bytes@
    }

    /// The region lies within the address space.
    pub open spec fn wf(&self) -> bool {
        self.start_spec() + self.bytes_spec().len() <= u64::MAX
    }

    /// The address `addr` is mapped.
    pub open spec fn contains(&self, addr: int) -> bool {
        self.start_spec() <= addr < self.start_spec() + self.bytes_spec().len()
    }

    /// The addresses `[addr, addr + n)` are mapped.
    pub open spec fn contains_range(&self, addr: int, n: int) -> bool {
        self.start_spec() <= addr && addr + n <= self.start_spec() + self.bytes_spec().len()
    }

    /// The byte at a mapped address.
    pub open spec fn byte(&self, addr: int) -> u8 {
        self.bytes_spec()[addr - self.start_spec()]
    }

    /// The bytes `[addr, addr + n)`.
    pub open spec fn range(&self, addr: int, n: int) -> Seq<u8> {
        self.bytes_spec().subrange(addr - self.start_spec(), addr - self.start_spec() + n)
    }

    /// The little-endian value of the `n` bytes at `addr`.
    pub open spec fn le_at(&self, addr: int, n: int) -> nat {
        le_value(self.range(addr, n))
    }

    /// A zero-filled region of `size` bytes at `start` (freshly mapped memory is zeroed).
    pub fn new_zeroed(start: Address, size: usize) -> (r: MemoryRegion)
        requires
            start + size <= u64::MAX,
        ensures
            r.wf(),
            r.start_spec() == start,
            r.bytes_spec().len() == size,
            forall|i: int| 0 <= i < size ==> r.bytes_spec()[i] == 0,
    {
        let mut bytes: Vec<u8> = Vec::new();
        let mut i: usize = 0;
        while i < size
            invariant
                i <= size,
                bytes@.len() == i,
                forall|j: int| 0 <= j < i ==> bytes@[j] == 0,
            decreases size - i,
        {
            bytes.push(0);
            i = i + 1;
        }
        MemoryRegion { start, bytes }
    }

    /// The first address of the region.
    pub fn start(&self) -> (r: Address)
        ensures
            r == self.start_spec(),
    {
        self.start
    }

    /// The number of bytes in the region.
    pub fn size(&self) -> (r: usize)
        ensures
            r == self.bytes_spec().len(),
    {
        self.bytes.len()
    }

    /// Is the address `addr` mapped?
    pub fn is_mapped(&self, addr: Address) -> (r: bool)
        requires
            self.wf(),
        ensures
            r == self.contains(addr as int),
    {
        addr >= self.start && addr - self.start < self.bytes.len() as u64
    }

    /// Are the addresses `[addr, addr + n)` mapped?
    pub fn is_range_mapped(&self, addr: Address, n: u64) -> (r: bool)
        requires
            self.wf(),
        ensures
            r == self.contains_range(addr as int, n as int),
    {
        addr >= self.start && (addr - self.start) as u128 + n as u128 <= self.bytes.len() as u128
    }

    /// Load the byte at `addr`.
    pub fn load_u8(&self, addr: Address) -> (r: u8)
        requires
            self.contains(addr as int),
        ensures
            r == self.byte(addr as int),
    {
        let off = addr - self.start;
        let len = self.bytes.len();
        assert(off < len);
        let i = off as usize;
        self.bytes[i]
    }

    /// Store `value` to the byte at `addr`.
    pub fn store_u8(&mut self, addr: Address, value: u8)
        requires
            old(self).contains(addr as int),
        ensures
            final(self).start_spec() == old(self).start_spec(),
            final(self).wf() == old(self).wf(),
            final(self).bytes_spec() == old(self).bytes_spec().update(addr - old(self).start_spec(), value),
    {
        let off = addr - self.start;
        let len = self.bytes.len();
        assert(off < len);
        let i = off as usize;
        self.bytes.set(i, value);
    }

    /// Store `value` to every byte in `[from, to)`.
    pub fn fill(&mut self, from: Address, to: Address, value: u8)
        requires
            old(self).wf(),
            from <= to,
            old(self).contains_range(from as int, to - from),
        ensures
            final(self).start_spec() == old(self).start_spec(),
            final(self).wf() == old(self).wf(),
            final(self).bytes_spec().len() == old(self).bytes_spec().len(),
            forall|x: int| from <= x < to ==> #[trigger] final(self).byte(x) == value,
            forall|x: int| #![trigger final(self).byte(x)] old(self).contains(x) && !(from <= x < to) ==> final(self).byte(x) == old(self).byte(x),
    {
        let mut a = from;
        while a < to
            invariant
                from <= a <= to,
                old(self).wf(),
                self.start_spec() == old(self).start_spec(),
                self.wf() == old(self).wf(),
                self.bytes_spec().len() == old(self).bytes_spec().len(),
                old(self).contains_range(from as int, to - from),
                forall|x: int| from <= x < a ==> #[trigger] self.byte(x) == value,
                forall|x: int| #![trigger self.byte(x)] old(self).contains(x) && !(from <= x < a) ==> self.byte(x) == old(self).byte(x),
            decreases to - a,
        {
            let ghost prev = *self;
            self.store_u8(a, value);
            assert forall|x: int| #![trigger self.byte(x)] prev.contains(x) implies self.byte(x) == (if x == a { value } else { prev.byte(x) }) by {
                assert(self.byte(x) == self.bytes_spec()[x - self.start_spec()]);
            }
            a = a + 1;
        }
    }

    /// Load the little-endian value of the `n` bytes at `addr`.
    pub fn load_le(&self, addr: Address, n: u64) -> (r: u64)
        requires
            self.wf(),
            1 <= n <= 8,
            self.contains_range(addr as int, n as int),
        ensures
            r == self.le_at(addr as int, n as int),
    {
        let mut v: u64 = 0;
        let mut i: u64 = n;
        while i > 0
            invariant
                0 <= i <= n <= 8,
                self.wf(),
                self.contains_range(addr as int, n as int),
                v == le_value(self.range(addr + i, n - i)),
            decreases i,
        {
            let ghost tail = self.range(addr + i, n - i);
            i = i - 1;
            let b = self.load_u8(addr + i);
            proof {
                let s = self.range(addr + i, n - i);
                assert(s.drop_first() =~= tail);
                assert(s[0] == b);
                lemma_le_value_bound(tail);
                lemma2_to64();
                assert(8 * tail.len() <= 56);
                if 8 * tail.len() < 56 {
                    vstd::arithmetic::power2::lemma_pow2_strictly_increases(8 * tail.len(), 56);
                }
                assert(pow2(56) == 0x100000000000000) by {
                    vstd::arithmetic::power2::lemma2_to64_rest();
                }
            }
            v = b as u64 + 256 * v;
        }
        proof {
            assert(self.range(addr + 0, n - 0) =~= self.range(addr as int, n as int));
        }
        v
    }

    /// Store `value` as `n` little-endian bytes at `addr`.
    pub fn store_le(&mut self, addr: Address, n: u64, value: u64)
        requires
            old(self).wf(),
            1 <= n <= 8,
            old(self).contains_range(addr as int, n as int),
            value < pow2(8 * n as nat),
        ensures
            final(self).start_spec() == old(self).start_spec(),
            final(self).wf() == old(self).wf(),
            final(self).bytes_spec().len() == old(self).bytes_spec().len(),
            final(self).le_at(addr as int, n as int) == value,
            forall|x: int| #![trigger final(self).byte(x)] old(self).contains(x) && !(addr <= x < addr + n) ==> final(self).byte(x) == old(self).byte(x),
    {
        let mut w = value;
        let mut i: u64 = 0;
        proof {
            lemma2_to64();
            lemma_div_basics(value as int);
        }
        while i < n
            invariant
                0 <= i <= n <= 8,
                old(self).wf(),
                self.start_spec() == old(self).start_spec(),
                self.wf() == old(self).wf(),
                self.bytes_spec().len() == old(self).bytes_spec().len(),
                old(self).contains_range(addr as int, n as int),
                w == value as nat / pow2(8 * i as nat),
                forall|j: int| 0 <= j < i ==> #[trigger] self.byte(addr + j) as nat == (value as nat / pow2(8 * j as nat)) % 256,
                forall|x: int| #![trigger self.byte(x)] old(self).contains(x) && !(addr <= x < addr + i) ==> self.byte(x) == old(self).byte(x),
            decreases n - i,
        {
            proof {
                lemma2_to64();
                lemma_pow2_pos(8 * i as nat);
                lemma_pow2_adds(8 * i as nat, 8);
                lemma_div_denominator(value as int, pow2(8 * i as nat) as int, 256);
                assert(8 * (i + 1) == 8 * i + 8);
            }
            let ghost prev = *self;
            self.store_u8(addr + i, (w % 256) as u8);
            assert forall|x: int| #![trigger self.byte(x)] prev.contains(x) implies self.byte(x) == (if x == addr + i { (w % 256) as u8 } else { prev.byte(x) }) by {
                assert(self.byte(x) == self.bytes_spec()[x - self.start_spec()]);
            }
            w = w / 256;
            i = i + 1;
        }
        proof {
            let s = self.range(addr as int, n as int);
            assert forall|j: int| 0 <= j < s.len() implies s[j] as nat == (value as nat / pow2(8 * j as nat)) % 256 by {
                assert(s[j] == self.byte(addr + j));
            }
            lemma_le_value_of_digits(s, value as nat);
            lemma_small_mod(value as nat, pow2(8 * n as nat));
        }
    }
}

} // verus!
