//! The specification of a side metadata bit-set, and the arithmetic that maps
//! data addresses to metadata addresses.
use vstd::prelude::*;
use vstd::arithmetic::power2::pow2;
use crate::address::Address;

verus! {

/// 2^k as a machine integer.
pub fn pow2_u64(k: u64) -> (r: u64)
    requires
        k < 64,
    ensures
        r == pow2(k as nat),
        r > 0,
{
    proof {
        vstd::bits::lemma_u64_pow2_no_overflow(k as nat);
        vstd::arithmetic::power2::lemma_pow2_pos(k as nat);
        vstd::arithmetic::mul::lemma_mul_basics(pow2(k as nat) as int);
        vstd::bits::lemma_u64_shl_is_mul(1, k);
    }
    1u64 << k
}

/// The offset of a side metadata bit-set: the address of its first metadata
/// byte (contiguous side metadata, used for every spec on 64-bit targets).
#[derive(Clone, Copy, Debug, PartialEq, Eq, Structural)]
pub struct SideMetadataOffset {
    value: u64,
}

impl SideMetadataOffset {
    /// The offset as a number.
    pub closed spec fn value_spec(self) -> u64 {
        self.value
    }

    /// An offset at a fixed address.
    pub fn addr(addr: Address) -> (r: SideMetadataOffset)
        ensures
            r.value_spec() == addr,
    {
        SideMetadataOffset { value: addr }
    }

    /// An offset relative to the start of a metadata chunk.
    pub fn rel(rel_offset: u64) -> (r: SideMetadataOffset)
        ensures
            r.value_spec() == rel_offset,
    {
        SideMetadataOffset { value: rel_offset }
    }

    /// The offset as an address.
    pub fn addr_value(&self) -> (r: Address)
        ensures
            r == self.value_spec(),
    {
        self.value
    }

    /// The offset just after `spec`, where the next spec is laid out.
    pub fn layout_after(spec: &SideMetadataSpec) -> (r: SideMetadataOffset)
        requires
            spec.wf(),
            spec.offset.value_spec() + spec.range_size_spec() <= u64::MAX,
        ensures
            r.value_spec() == spec.offset.value_spec() + spec.range_size_spec(),
    {
        spec.upper_bound_offset()
    }
}

/// The specification of a side metadata bit-set: `2^log_num_of_bits` bits of
/// metadata for every `2^log_bytes_in_region` bytes of data.
#[derive(Clone, Copy, Debug, PartialEq, Eq)]
pub struct SideMetadataSpec {
    pub name: &'static str,
    pub is_global: bool,
    pub offset: SideMetadataOffset,
    /// Number of bits needed per region. E.g. 0 = 1 bit, 1 = 2 bit.
    pub log_num_of_bits: usize,
    /// Number of bytes of the region. E.g. 3 = 8 bytes, 12 = 4096 bytes (page).
    pub log_bytes_in_region: usize,
}

/// log2 of the address space the heap layout uses.
pub open spec fn log_arch_address_space() -> nat {
    47
}

impl SideMetadataSpec {
    /// The spec describes up to 64 bits per region, and its metadata for the
    /// whole address space fits in that address space.
    pub open spec fn wf(self) -> bool {
        &&& self.log_num_of_bits <= 6
        &&& self.log_bytes_in_region < 64
        &&& self.log_num_of_bits <= 3 + self.log_bytes_in_region
        &&& 3 + self.log_bytes_in_region - self.log_num_of_bits <= log_arch_address_space()
    }

    /// log2 of the ratio of data bytes to metadata bytes.
    pub open spec fn rshift_spec(self) -> nat {
        (3 + self.log_bytes_in_region - self.log_num_of_bits) as nat
    }

    /// The size of the metadata address range for the whole address space.
    pub open spec fn range_size_spec(self) -> nat {
        pow2((log_arch_address_space() - self.rshift_spec()) as nat)
    }

    /// The number of metadata bits per region.
    pub open spec fn num_bits_spec(self) -> nat {
        pow2(self.log_num_of_bits as nat)
    }

    /// The index of the region that holds `data_addr`.
    pub open spec fn region_index(self, data_addr: int) -> int {
        data_addr / pow2(self.log_bytes_in_region as nat) as int
    }

    /// The metadata address of `data_addr`, relative to the spec's offset.
    pub open spec fn meta_rel_spec(self, data_addr: int) -> int {
        if self.log_num_of_bits <= 3 {
            self.region_index(data_addr) / pow2((3 - self.log_num_of_bits) as nat) as int
        } else {
            self.region_index(data_addr) * pow2((self.log_num_of_bits - 3) as nat) as int
        }
    }

    /// The metadata address of `data_addr`.
    pub open spec fn meta_addr_spec(self, data_addr: int) -> int {
        self.offset.value_spec() + self.meta_rel_spec(data_addr)
    }

    /// The metadata address of `data_addr` fits in an address.
    pub open spec fn meta_addr_fits(self, data_addr: int) -> bool {
        &&& self.log_num_of_bits > 3 ==> self.region_index(data_addr) * pow2((self.log_num_of_bits - 3) as nat) as int <= u64::MAX
        &&& self.meta_addr_spec(data_addr) <= u64::MAX
    }

    /// The position of the lowest metadata bit of `data_addr` in its metadata byte.
    pub open spec fn lshift_spec(self, data_addr: int) -> int {
        if self.log_num_of_bits >= 3 {
            0
        } else {
            (self.region_index(data_addr) % pow2((3 - self.log_num_of_bits) as nat) as int)
                * pow2(self.log_num_of_bits as nat) as int
        }
    }

    /// Is offset for this spec an address? (Always on 64-bit targets.)
    pub fn is_absolute_offset(&self) -> (r: bool)
        ensures
            r,
    {
        true
    }

    /// Is offset for this spec relative to a chunk? (Never on 64-bit targets.)
    pub fn is_rel_offset(&self) -> (r: bool)
        ensures
            !r,
    {
        !self.is_absolute_offset()
    }

    /// The offset of this spec as an address.
    pub fn get_absolute_offset(&self) -> (r: Address)
        ensures
            r == self.offset.value_spec(),
    {
        self.offset.value
    }

    /// The offset just after this spec's metadata: the next spec is laid out here.
    pub fn upper_bound_offset(&self) -> (r: SideMetadataOffset)
        requires
            self.wf(),
            self.offset.value_spec() + self.range_size_spec() <= u64::MAX,
        ensures
            r.value_spec() == self.offset.value_spec() + self.range_size_spec(),
    {
        let size = metadata_address_range_size(self);
        SideMetadataOffset { value: self.offset.value + size }
    }

    /// The bound that every metadata address of this spec stays below.
    pub fn upper_bound_address_for_contiguous(&self) -> (r: Address)
        requires
            self.wf(),
            self.offset.value_spec() + self.range_size_spec() <= u64::MAX,
        ensures
            r == self.offset.value_spec() + self.range_size_spec(),
    {
        self.upper_bound_offset().value
    }
}

/// log2 of the number of data bytes covered by one metadata byte.
pub fn addr_rshift(metadata_spec: &SideMetadataSpec) -> (r: u64)
    requires
        metadata_spec.wf(),
    ensures
        r == metadata_spec.rshift_spec(),
        r <= 47,
{
    (3 + metadata_spec.log_bytes_in_region - metadata_spec.log_num_of_bits) as u64
}

/// The size of the metadata address range of `metadata_spec` for the whole address space.
pub fn metadata_address_range_size(metadata_spec: &SideMetadataSpec) -> (r: u64)
    requires
        metadata_spec.wf(),
    ensures
        r == metadata_spec.range_size_spec(),
{
    let rshift = addr_rshift(metadata_spec);
    pow2_u64(47 - rshift)
}

} // verus!
