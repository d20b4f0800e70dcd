//! Reference counting: a sticky 2-bit count per 8 bytes of object envelope,
//! kept in a side table, and the straddle marks of objects that span lines.
use vstd::prelude::*;
use vstd::arithmetic::power2::pow2;
use crate::address::Address;
use crate::memory::MemoryRegion;
use crate::metadata::side_metadata::spec::SideMetadataSpec;
use crate::metadata::side_metadata::helpers::address_to_meta_address;

verus! {

/// log2 of the number of bits of a reference count.
pub const LOG_REF_COUNT_BITS: u64 = 1;
/// The number of bits of a reference count.
pub const REF_COUNT_BITS: u8 = 2;
/// The mask of a reference count.
pub const REF_COUNT_MASK: u8 = 3;
/// The largest count: a count that reaches it sticks.
pub const MAX_REF_COUNT: u8 = 3;
/// log2 of the minimum object size.
pub const LOG_MIN_OBJECT_SIZE: u64 = 3;
/// The minimum object size.
pub const MIN_OBJECT_SIZE: u64 = 8;
/// log2 of the number of bytes in a line.
pub const LOG_BYTES_IN_LINE: u64 = 8;
/// The number of bytes in a line.
pub const BYTES_IN_LINE: u64 = 256;
/// log2 of the number of bytes in a block of lines.
pub const LOG_BYTES_IN_BLOCK: u64 = 15;
/// The number of bytes in a block of lines.
pub const BYTES_IN_BLOCK: u64 = 32768;

/// The bounds of the offset of an object reference from the start of the
/// object's storage, as a VM binding declares them.
#[derive(Clone, Copy, Debug)]
pub struct ObjectRefOffsets {
    pub lower_bound: isize,
    pub upper_bound: isize,
}

impl ObjectRefOffsets {
    /// The upper bound is not below the lower bound, and not negative.
    pub open spec fn wf(self) -> bool {
        0 <= self.upper_bound && self.lower_bound <= self.upper_bound
    }

    /// The slack that an envelope reserves: the width of the offset range.
    pub open spec fn slack_spec(self) -> int {
        self.upper_bound - self.lower_bound
    }
}

/// The envelope of an object: the range from the lowest address that its
/// storage may start at, so that every object reference maps to one envelope.
#[derive(Clone, Copy, Debug, PartialEq, Eq, Structural)]
pub struct ObjectEnvelope(pub Address);

impl ObjectEnvelope {
    /// The slack of an envelope: the width of the range of reference offsets.
    pub fn slack(offsets: &ObjectRefOffsets) -> (r: u64)
        requires
            offsets.wf(),
        ensures
            r == offsets.slack_spec(),
    {
        let s: i128 = offsets.upper_bound as i128 - offsets.lower_bound as i128;
        s as u64
    }

    fn offset(offsets: &ObjectRefOffsets) -> (r: u64)
        requires
            offsets.wf(),
        ensures
            r == offsets.upper_bound,
    {
        offsets.upper_bound as u64
    }

    /// The end of the envelope of an object of `size` bytes.
    pub fn end(self, offsets: &ObjectRefOffsets, size: u64) -> (r: Address)
        requires
            offsets.wf(),
            self.0 + size + offsets.slack_spec() <= u64::MAX,
        ensures
            r == self.0 + size + offsets.slack_spec(),
    {
        self.0 + size + Self::slack(offsets)
    }

    /// An object of `size` bytes may span a line boundary.
    pub fn needs_straddle_marks(offsets: &ObjectRefOffsets, size: u64) -> (r: bool)
        requires
            offsets.wf(),
            size + offsets.slack_spec() <= u64::MAX,
        ensures
            r == (size + offsets.slack_spec() > BYTES_IN_LINE),
    {
        size + Self::slack(offsets) > BYTES_IN_LINE
    }

    /// The envelope of the object referenced by `o`.
    pub fn of(offsets: &ObjectRefOffsets, o: Address) -> (r: Self)
        requires
            offsets.wf(),
            offsets.upper_bound <= o,
        ensures
            r.0 == o - offsets.upper_bound,
    {
        ObjectEnvelope(o - Self::offset(offsets))
    }

    /// The envelope that starts at `a`.
    pub fn from_start(a: Address) -> (r: Self)
        ensures
            r.0 == a,
    {
        ObjectEnvelope(a)
    }

    /// The reference of the object in this envelope.
    pub fn to_object_reference(self, offsets: &ObjectRefOffsets) -> (r: Address)
        requires
            offsets.wf(),
            self.0 + offsets.upper_bound <= u64::MAX,
        ensures
            r == self.0 + offsets.upper_bound,
    {
        self.0 + Self::offset(offsets)
    }

    /// The start of the envelope.
    pub fn start(self) -> (r: Address)
        ensures
            r == self.0,
    {
        self.0
    }

    /// The start of the line that the envelope starts in.
    pub fn line(self) -> (r: Address)
        ensures
            r == self.0 - self.0 % BYTES_IN_LINE,
    {
        self.0 - self.0 % BYTES_IN_LINE
    }
}

/// An envelope and back give the same object reference.
pub proof fn lemma_envelope_round_trip(offsets: ObjectRefOffsets, o: Address)
    requires
        offsets.wf(),
        offsets.upper_bound <= o,
    ensures
        (o - offsets.upper_bound) + offsets.upper_bound == o,
{
}

/// Access to the reference counts and straddle marks.
#[derive(Clone, Copy, Debug)]
pub struct RefCountHelper {
    /// The side table of reference counts: 2 bits per 8 bytes.
    pub rc_table: SideMetadataSpec,
    /// The side table of straddle marks: a byte per line.
    pub straddle_lines: SideMetadataSpec,
    /// The bounds of object reference offsets.
    pub offsets: ObjectRefOffsets,
}

/// The count after an increment: sticky at the maximum.
pub open spec fn inc_result(x: u64) -> Option<u64> {
    if x == MAX_REF_COUNT { None } else { Some((x + 1) as u64) }
}

/// The count after a decrement: never below zero, sticky at the maximum.
pub open spec fn dec_result(x: u64) -> Option<u64> {
    if x == 0 || x == MAX_REF_COUNT { None } else { Some((x - 1) as u64) }
}

/// The count after sticking: the maximum, unless it is there already.
pub open spec fn stick_result(x: u64) -> Option<u64> {
    if x == MAX_REF_COUNT { None } else { Some(MAX_REF_COUNT as u64) }
}

impl RefCountHelper {
    /// The tables have the layout that reference counting needs.
    pub open spec fn wf(self) -> bool {
        &&& self.rc_table.wf()
        &&& self.rc_table.log_num_of_bits == LOG_REF_COUNT_BITS
        &&& self.rc_table.log_bytes_in_region == LOG_MIN_OBJECT_SIZE
        &&& self.straddle_lines.wf()
        &&& self.straddle_lines.log_num_of_bits == 3
        &&& self.straddle_lines.log_bytes_in_region == LOG_BYTES_IN_LINE
        &&& self.offsets.wf()
    }

    /// The reference count slot of the object referenced by `o`: its envelope start.
    pub open spec fn slot(self, o: Address) -> int {
        o - self.offsets.upper_bound
    }

    /// The count of `o` can be accessed in `mem`.
    pub open spec fn usable(self, mem: MemoryRegion, o: Address) -> bool {
        &&& self.wf()
        &&& self.offsets.upper_bound <= o
        &&& self.rc_table.accessible(mem, self.slot(o))
    }

    /// The reference count of `o` in `mem`.
    pub open spec fn count_spec(self, mem: MemoryRegion, o: Address) -> nat {
        self.rc_table.value_in(mem, self.slot(o))
    }

    fn rc_slot(&self, o: Address) -> (r: Address)
        requires
            self.wf(),
            self.offsets.upper_bound <= o,
        ensures
            r == self.slot(o),
    {
        ObjectEnvelope::of(&self.offsets, o).start()
    }

    /// A count is below 4.
    proof fn lemma_count_bound(self, mem: MemoryRegion, o: Address)
        requires
            self.usable(mem, o),
        ensures
            self.count_spec(mem, o) <= MAX_REF_COUNT,
            pow2(self.rc_table.num_bits_spec()) == 4,
    {
        vstd::arithmetic::power2::lemma2_to64();
        self.rc_table.lemma_value_bound(mem, self.slot(o) as int);
    }

    /// The reference count of `o`.
    pub fn count(&self, mem: &MemoryRegion, o: Address) -> (r: u8)
        requires
            self.usable(*mem, o),
        ensures
            r == self.count_spec(*mem, o),
    {
        proof {
            self.lemma_count_bound(*mem, o);
        }
        self.rc_table.load_atomic(mem, self.rc_slot(o)) as u8
    }

    /// The reference count stored for the region that starts at `addr`.
    pub fn count_by_address(&self, mem: &MemoryRegion, addr: Address) -> (r: u8)
        requires
            self.wf(),
            self.rc_table.accessible(*mem, addr as int),
        ensures
            r == self.rc_table.value_in(*mem, addr as int),
    {
        proof {
            vstd::arithmetic::power2::lemma2_to64();
            self.rc_table.lemma_value_bound(*mem, addr as int);
        }
        self.rc_table.load_atomic(mem, addr) as u8
    }

    /// The count of `o` is stuck at the maximum.
    pub fn is_stuck(&self, mem: &MemoryRegion, o: Address) -> (r: bool)
        requires
            self.usable(*mem, o),
        ensures
            r == (self.count_spec(*mem, o) == MAX_REF_COUNT),
    {
        self.count(mem, o) == MAX_REF_COUNT
    }

    /// The count of `o` is zero.
    pub fn is_dead(&self, mem: &MemoryRegion, o: Address) -> (r: bool)
        requires
            self.usable(*mem, o),
        ensures
            r == (self.count_spec(*mem, o) == 0),
    {
        self.count(mem, o) == 0
    }

    /// The count of `o` is zero or stuck.
    pub fn is_dead_or_stuck(&self, mem: &MemoryRegion, o: Address) -> (r: bool)
        requires
            self.usable(*mem, o),
        ensures
            r == (self.count_spec(*mem, o) == 0 || self.count_spec(*mem, o) == MAX_REF_COUNT),
    {
        let v = self.count(mem, o);
        v == 0 || v == MAX_REF_COUNT
    }

    /// The whole count byte of `o` is zero: `o` and the objects (or line) that
    /// share the byte are dead.
    pub fn object_or_line_is_dead(&self, mem: &MemoryRegion, o: Address) -> (r: bool)
        requires
            self.usable(*mem, o),
        ensures
            r == (mem.byte(self.rc_table.meta_addr_spec(self.slot(o))) == 0),
    {
        let m = address_to_meta_address(&self.rc_table, self.rc_slot(o));
        mem.load_u8(m) == 0
    }

    /// Set the count of `o`.
    pub fn set(&self, mem: &mut MemoryRegion, o: Address, count: u8)
        requires
            self.usable(*old(mem), o),
            count <= MAX_REF_COUNT,
        ensures
            self.rc_table.stored(*old(mem), *final(mem), self.slot(o), count as nat),
    {
        proof {
            self.lemma_count_bound(*mem, o);
        }
        self.rc_table.store_atomic(mem, self.rc_slot(o), count as u64)
    }

    /// Set the count of `o`, where no other thread accesses it.
    pub fn set_relaxed(&self, mem: &mut MemoryRegion, o: Address, count: u8)
        requires
            self.usable(*old(mem), o),
            count <= MAX_REF_COUNT,
        ensures
            self.rc_table.stored(*old(mem), *final(mem), self.slot(o), count as nat),
    {
        proof {
            self.lemma_count_bound(*mem, o);
        }
        self.rc_table.store(mem, self.rc_slot(o), count as u64)
    }

    /// Set the count stored at the start of the line `line`, where no other
    /// thread accesses it.
    pub fn set_line_relaxed(&self, mem: &mut MemoryRegion, line: Address, count: u8)
        requires
            self.wf(),
            self.rc_table.accessible(*old(mem), line as int),
            count <= MAX_REF_COUNT,
        ensures
            self.rc_table.stored(*old(mem), *final(mem), line as int, count as nat),
    {
        proof {
            vstd::arithmetic::power2::lemma2_to64();
        }
        self.rc_table.store(mem, line, count as u64)
    }

    /// Update the count of `o` by `f` if it gives a new count.
    pub fn fetch_update<F: Fn(u64) -> Option<u64>>(&self, mem: &mut MemoryRegion, o: Address, f: F) -> (r: Result<u8, u8>)
        requires
            self.usable(*old(mem), o),
            forall|x: u64| x <= MAX_REF_COUNT ==> call_requires(f, (x,)),
            forall|x: u64, n: Option<u64>| x <= MAX_REF_COUNT && call_ensures(f, (x,), n) && n is Some ==> n->0 <= MAX_REF_COUNT,
        ensures
            match r {
                Ok(v) => v == self.count_spec(*old(mem), o)
                    && exists|n: u64| call_ensures(f, (v as u64,), Some(n)) && self.rc_table.stored(*old(mem), *final(mem), self.slot(o), n as nat),
                Err(v) => v == self.count_spec(*old(mem), o)
                    && call_ensures(f, (v as u64,), None) && *final(mem) == *old(mem),
            },
    {
        proof {
            self.lemma_count_bound(*mem, o);
        }
        let slot = self.rc_slot(o);
        match self.rc_table.fetch_update_atomic(mem, slot, f) {
            Ok(v) => Ok(v as u8),
            Err(v) => Err(v as u8),
        }
    }

    /// Increment the count of `o` unless it is stuck. Returns the old count:
    /// `Ok` if it changed, `Err` if it was stuck.
    pub fn inc(&self, mem: &mut MemoryRegion, o: Address) -> (r: Result<u8, u8>)
        requires
            self.usable(*old(mem), o),
        ensures
            ({
                let c = self.count_spec(*old(mem), o);
                &&& c == MAX_REF_COUNT ==> r == Err::<u8, u8>(c as u8) && *final(mem) == *old(mem)
                &&& c != MAX_REF_COUNT ==> r == Ok::<u8, u8>(c as u8) && self.rc_table.stored(*old(mem), *final(mem), self.slot(o), c + 1)
            }),
    {
        proof {
            self.lemma_count_bound(*mem, o);
        }
        let f = |x: u64| -> (r: Option<u64>)
            requires
                x <= MAX_REF_COUNT,
            ensures
                r == inc_result(x),
        {
            if x == MAX_REF_COUNT as u64 {
                None
            } else {
                Some(x + 1)
            }
        };
        self.fetch_update(mem, o, f)
    }

    /// Decrement the count of `o` unless it is zero or stuck. Returns the old
    /// count: `Ok` if it changed, `Err` if not.
    pub fn dec(&self, mem: &mut MemoryRegion, o: Address) -> (r: Result<u8, u8>)
        requires
            self.usable(*old(mem), o),
        ensures
            ({
                let c = self.count_spec(*old(mem), o);
                &&& (c == 0 || c == MAX_REF_COUNT) ==> r == Err::<u8, u8>(c as u8) && *final(mem) == *old(mem)
                &&& (c != 0 && c != MAX_REF_COUNT) ==> r == Ok::<u8, u8>(c as u8)
                    && self.rc_table.stored(*old(mem), *final(mem), self.slot(o), (c - 1) as nat)
            }),
    {
        proof {
            self.lemma_count_bound(*mem, o);
        }
        let f = |x: u64| -> (r: Option<u64>)
            requires
                x <= MAX_REF_COUNT,
            ensures
                r == dec_result(x),
        {
            if x == 0 || x == MAX_REF_COUNT as u64 {
                None
            } else {
                Some(x - 1)
            }
        };
        self.fetch_update(mem, o, f)
    }

    /// Make the count of `o` stick at the maximum. Returns the old count: `Ok`
    /// if it changed, `Err` if it was stuck already.
    pub fn stick(&self, mem: &mut MemoryRegion, o: Address) -> (r: Result<u8, u8>)
        requires
            self.usable(*old(mem), o),
        ensures
            ({
                let c = self.count_spec(*old(mem), o);
                &&& c == MAX_REF_COUNT ==> r == Err::<u8, u8>(c as u8) && *final(mem) == *old(mem)
                &&& c != MAX_REF_COUNT ==> r == Ok::<u8, u8>(c as u8)
                    && self.rc_table.stored(*old(mem), *final(mem), self.slot(o), MAX_REF_COUNT as nat)
            }),
    {
        proof {
            self.lemma_count_bound(*mem, o);
        }
        let f = |x: u64| -> (r: Option<u64>)
            requires
                x <= MAX_REF_COUNT,
            ensures
                r == stick_result(x),
        {
            if x == MAX_REF_COUNT as u64 {
                None
            } else {
                Some(MAX_REF_COUNT as u64)
            }
        };
        self.fetch_update(mem, o, f)
    }

    /// `o` is in a line that an object straddles (without looking at its count).
    pub fn object_is_in_straddle_line_no_rc_check(&self, mem: &MemoryRegion, o: Address) -> (r: bool)
        requires
            self.wf(),
            self.offsets.upper_bound <= o,
            self.straddle_lines.accessible(*mem, self.slot(o)),
        ensures
            r == (self.straddle_lines.value_in(*mem, self.slot(o)) != 0),
    {
        self.straddle_lines.load(mem, self.rc_slot(o)) != 0
    }

    /// `o` is alive and in a line that an object straddles.
    pub fn object_is_in_straddle_line(&self, mem: &MemoryRegion, o: Address) -> (r: bool)
        requires
            self.usable(*mem, o),
            self.straddle_lines.accessible(*mem, self.slot(o) - self.slot(o) % BYTES_IN_LINE as int),
        ensures
            r == (self.count_spec(*mem, o) != 0
                && self.straddle_lines.value_in(*mem, self.slot(o) - self.slot(o) % BYTES_IN_LINE as int) != 0),
    {
        let line = ObjectEnvelope::of(&self.offsets, o).line();
        self.count(mem, o) != 0 && self.straddle_lines.load(mem, line) != 0
    }

    /// The counts of the 8-byte regions of the envelope of an object of `size`
    /// bytes are all zero.
    pub fn assert_zero_ref_count(&self, mem: &MemoryRegion, o: Address, size: u64) -> (r: bool)
        requires
            self.wf(),
            self.offsets.upper_bound <= o,
            self.slot(o) + size <= u64::MAX,
            forall|a: int| self.slot(o) <= a < self.slot(o) + size ==> #[trigger] self.rc_table.accessible(*mem, a),
        ensures
            r == (forall|a: int| self.slot(o) <= a < self.slot(o) + size && (a - self.slot(o)) % MIN_OBJECT_SIZE as int == 0
                ==> #[trigger] self.rc_table.value_in(*mem, a) == 0),
    {
        let start = ObjectEnvelope::of(&self.offsets, o).start();
        let mut i: u64 = 0;
        while i < size
            invariant
                self.wf(),
                start == self.slot(o),
                start + size <= u64::MAX,
                forall|a: int| start <= a < start + size ==> #[trigger] self.rc_table.accessible(*mem, a),
                i % MIN_OBJECT_SIZE == 0,
                forall|a: int| start <= a < start + i && a < start + size && (a - start) % MIN_OBJECT_SIZE as int == 0
                    ==> #[trigger] self.rc_table.value_in(*mem, a) == 0,
            decreases size - i,
        {
            let a = start + i;
            if self.count_by_address(mem, a) != 0 {
                return false;
            }
            if size - i < MIN_OBJECT_SIZE {
                return true;
            }
            i = i + MIN_OBJECT_SIZE;
        }
        true
    }
}

/// `l` is one of the lines in `[lo, hi)`, counted in whole lines from `lo`.
pub open spec fn line_in(lo: int, hi: int, l: int) -> bool {
    lo <= l < hi && (l - lo) % BYTES_IN_LINE as int == 0
}

impl RefCountHelper {
    /// The first line that the straddle marks of `o` cover: the line after
    /// the one its envelope starts in.
    pub open spec fn straddle_start(self, o: Address) -> int {
        let e = self.slot(o);
        e - e % BYTES_IN_LINE as int + BYTES_IN_LINE
    }

    /// The end of the lines that the straddle marks of `o` (of `size` bytes)
    /// cover: the line that its envelope ends in, but not past the end of the
    /// block of `o`, and not before the first line.
    pub open spec fn straddle_end(self, o: Address, size: int) -> int {
        let end = self.slot(o) + size + self.offsets.slack_spec();
        let end_line = end - end % BYTES_IN_LINE as int;
        let block_end = o - o % BYTES_IN_BLOCK + BYTES_IN_BLOCK;
        let clamped = if end_line > block_end { block_end } else { end_line };
        if clamped < self.straddle_start(o) { self.straddle_start(o) } else { clamped }
    }

    /// The count byte of no line in `[lo, hi)` is the straddle byte of a line
    /// in `[lo, hi)`.
    pub open spec fn marks_apart(self, lo: int, hi: int) -> bool {
        forall|l1: int, l2: int| #![trigger line_in(lo, hi, l1), line_in(lo, hi, l2)]
            line_in(lo, hi, l1) && line_in(lo, hi, l2)
                ==> self.rc_table.meta_addr_spec(l1) != self.straddle_lines.meta_addr_spec(l2)
    }

    /// The count and the straddle mark of each line in `[lo, hi)` can be accessed in `mem`.
    pub open spec fn lines_accessible(self, mem: MemoryRegion, lo: int, hi: int) -> bool {
        forall|l: int| #[trigger] line_in(lo, hi, l)
            ==> self.rc_table.accessible(mem, l) && self.straddle_lines.accessible(mem, l)
    }

    /// `x` is the count byte or the straddle byte of a line in `[lo, hi)`.
    pub open spec fn line_mark_byte(self, lo: int, hi: int, x: int) -> bool {
        exists|l: int| #[trigger] line_in(lo, hi, l)
            && (x == self.rc_table.meta_addr_spec(l) || x == self.straddle_lines.meta_addr_spec(l))
    }

    /// The count of `a` shares a region with a line in `[lo, hi)`, or lies in
    /// the straddle byte of one.
    pub open spec fn count_touched(self, lo: int, hi: int, a: int) -> bool {
        exists|l: int| #[trigger] line_in(lo, hi, l)
            && (self.rc_table.region_index(a) == self.rc_table.region_index(l)
                || self.rc_table.meta_addr_spec(a) == self.straddle_lines.meta_addr_spec(l))
    }

    /// The straddle mark of `b` is that of a line in `[lo, hi)`, or lies in
    /// the count byte of one.
    pub open spec fn straddle_touched(self, lo: int, hi: int, b: int) -> bool {
        exists|l: int| #[trigger] line_in(lo, hi, l)
            && (self.straddle_lines.region_index(b) == self.straddle_lines.region_index(l)
                || self.straddle_lines.meta_addr_spec(b) == self.rc_table.meta_addr_spec(l))
    }

    /// `new` is `old` with the count and the straddle mark of each line in
    /// `[lo, hi)` set to `v`: every other byte, every other count and every
    /// other straddle mark is unchanged.
    pub open spec fn lines_marked(self, old_mem: MemoryRegion, new_mem: MemoryRegion, lo: int, hi: int, v: nat) -> bool {
        &&& new_mem.start_spec() == old_mem.start_spec()
        &&& new_mem.bytes_spec().len() == old_mem.bytes_spec().len()
        &&& new_mem.wf() == old_mem.wf()
        &&& forall|l: int| #[trigger] line_in(lo, hi, l)
            ==> self.rc_table.value_in(new_mem, l) == v && self.straddle_lines.value_in(new_mem, l) == v
        &&& forall|x: int| old_mem.contains(x) && !self.line_mark_byte(lo, hi, x)
            ==> #[trigger] new_mem.byte(x) == old_mem.byte(x)
        &&& forall|a: int| self.rc_table.accessible(old_mem, a) && !self.count_touched(lo, hi, a)
            ==> #[trigger] self.rc_table.value_in(new_mem, a) == self.rc_table.value_in(old_mem, a)
        &&& forall|b: int| self.straddle_lines.accessible(old_mem, b) && !self.straddle_touched(lo, hi, b)
            ==> #[trigger] self.straddle_lines.value_in(new_mem, b) == self.straddle_lines.value_in(old_mem, b)
    }
}

/// After a line `line` of `[lo, hi)`, whose lines are `BYTES_IN_LINE` apart,
/// the next line is still at most `hi`.
proof fn lemma_next_line(lo: int, line: int, hi: int)
    requires
        lo <= line < hi,
        (line - lo) % BYTES_IN_LINE as int == 0,
        (hi - lo) % BYTES_IN_LINE as int == 0,
    ensures
        line + BYTES_IN_LINE <= hi,
        (line + BYTES_IN_LINE - lo) % BYTES_IN_LINE as int == 0,
        line_in(lo, hi, line),
{
    let m = BYTES_IN_LINE as int;
    vstd::arithmetic::div_mod::lemma_fundamental_div_mod(line - lo, m);
    vstd::arithmetic::div_mod::lemma_fundamental_div_mod(hi - lo, m);
    let q1 = (line - lo) / m;
    let q2 = (hi - lo) / m;
    assert(q1 < q2) by (nonlinear_arith)
        requires line - lo == m * q1, hi - lo == m * q2, line < hi, m == 256;
    assert(line + m - lo == m * (q1 + 1)) by (nonlinear_arith)
        requires line - lo == m * q1;
    assert(m * (q1 + 1) <= m * q2) by (nonlinear_arith)
        requires q1 < q2, m == 256;
    vstd::arithmetic::div_mod::lemma_mod_multiples_basic(q1 + 1, m);
}

/// The line after the one that the envelope start `e` lies in, the line that
/// the envelope end `end` lies in, and the end of the block of `o` are all
/// line starts.
proof fn lemma_line_bounds(e: int, end: int, o: int)
    requires
        0 <= e,
        0 <= end,
        0 <= o,
    ensures
        (e - e % BYTES_IN_LINE as int + BYTES_IN_LINE) % BYTES_IN_LINE as int == 0,
        (end - end % BYTES_IN_LINE as int) % BYTES_IN_LINE as int == 0,
        (o - o % BYTES_IN_BLOCK as int + BYTES_IN_BLOCK) % BYTES_IN_LINE as int == 0,
{
    let m = BYTES_IN_LINE as int;
    vstd::arithmetic::div_mod::lemma_fundamental_div_mod(e, m);
    vstd::arithmetic::div_mod::lemma_mod_multiples_basic(e / m + 1, m);
    assert(e - e % m + m == (e / m + 1) * m) by (nonlinear_arith)
        requires e == m * (e / m) + e % m;
    vstd::arithmetic::div_mod::lemma_fundamental_div_mod(end, m);
    vstd::arithmetic::div_mod::lemma_mod_multiples_basic(end / m, m);
    assert(end - end % m == (end / m) * m) by (nonlinear_arith)
        requires end == m * (end / m) + end % m;
    let bm = BYTES_IN_BLOCK as int;
    vstd::arithmetic::div_mod::lemma_fundamental_div_mod(o, bm);
    vstd::arithmetic::div_mod::lemma_mod_multiples_basic(128 * (o / bm) + 128, m);
    assert(o - o % bm + bm == (128 * (o / bm) + 128) * m) by (nonlinear_arith)
        requires o == bm * (o / bm) + o % bm, bm == 32768, m == 256;
}

/// Two line starts differ by whole lines.
proof fn lemma_lines_apart(a: int, b: int)
    requires
        a % BYTES_IN_LINE as int == 0,
        b % BYTES_IN_LINE as int == 0,
    ensures
        (b - a) % BYTES_IN_LINE as int == 0,
{
    vstd::arithmetic::div_mod::lemma_sub_mod_noop(b, a, BYTES_IN_LINE as int);
}

/// A value of at most eight bits is read from one byte: two memories that
/// agree on that byte agree on the value.
proof fn lemma_byte_value(spec: SideMetadataSpec, m1: MemoryRegion, m2: MemoryRegion, a: int)
    requires
        spec.accessible(m1, a),
        spec.log_num_of_bits <= 3,
        m1.start_spec() == m2.start_spec(),
        m1.bytes_spec().len() == m2.bytes_spec().len(),
        m1.byte(spec.meta_addr_spec(a)) == m2.byte(spec.meta_addr_spec(a)),
    ensures
        spec.value_in(m1, a) == spec.value_in(m2, a),
{
    if spec.log_num_of_bits == 3 {
        let m = spec.meta_addr_spec(a);
        assert(spec.bytes_per_value() == 1) by {
            vstd::arithmetic::power2::lemma2_to64();
        }
        assert(m1.range(m, 1) =~= m2.range(m, 1)) by {
            assert(m1.range(m, 1)[0] == m1.byte(m));
            assert(m2.range(m, 1)[0] == m2.byte(m));
        }
    }
}

impl RefCountHelper {
    /// A line before `c` lies in another region than `c` in both tables.
    proof fn lemma_other_line(self, lo: int, c: int, l: int)
        requires
            self.wf(),
            lo % BYTES_IN_LINE as int == 0,
            (c - lo) % BYTES_IN_LINE as int == 0,
            line_in(lo, c, l),
        ensures
            self.rc_table.region_index(l) != self.rc_table.region_index(c),
            self.straddle_lines.region_index(l) != self.straddle_lines.region_index(c),
    {
        vstd::arithmetic::power2::lemma2_to64();
        assert(l % 256 == 0 && c % 256 == 0);
        assert(self.rc_table.region_index(l) == l / 8 && self.rc_table.region_index(c) == c / 8);
        assert(self.straddle_lines.region_index(l) == l / 256 && self.straddle_lines.region_index(c) == c / 256);
    }

    /// After marking one more line `c`, the lines `[lo, c + 256)` hold `v`.
    proof fn lemma_mark_step_values(self, m0: MemoryRegion, m1: MemoryRegion, m2: MemoryRegion, m3: MemoryRegion,
        lo: int, c: int, v: nat)
        requires
            self.wf(),
            lo % BYTES_IN_LINE as int == 0,
            lo <= c,
            (c - lo) % BYTES_IN_LINE as int == 0,
            self.lines_accessible(m0, lo, c + BYTES_IN_LINE),
            self.marks_apart(lo, c + BYTES_IN_LINE),
            self.lines_marked(m0, m1, lo, c, v),
            self.straddle_lines.stored(m1, m2, c, v),
            self.rc_table.stored(m2, m3, c, v),
        ensures
            forall|l: int| #[trigger] line_in(lo, c + BYTES_IN_LINE, l)
                ==> self.rc_table.value_in(m3, l) == v && self.straddle_lines.value_in(m3, l) == v,
    {
        assert forall|l: int| #[trigger] line_in(lo, c + BYTES_IN_LINE, l)
            implies self.rc_table.value_in(m3, l) == v && self.straddle_lines.value_in(m3, l) == v by {
            self.lemma_mark_step_line(m0, m1, m2, m3, lo, c, v, l);
        }
    }

    /// After marking one more line `c`, the line `l` of `[lo, c + 256)` holds `v`.
    proof fn lemma_mark_step_line(self, m0: MemoryRegion, m1: MemoryRegion, m2: MemoryRegion, m3: MemoryRegion,
        lo: int, c: int, v: nat, l: int)
        requires
            self.wf(),
            lo % BYTES_IN_LINE as int == 0,
            lo <= c,
            (c - lo) % BYTES_IN_LINE as int == 0,
            self.lines_accessible(m0, lo, c + BYTES_IN_LINE),
            self.marks_apart(lo, c + BYTES_IN_LINE),
            self.lines_marked(m0, m1, lo, c, v),
            self.straddle_lines.stored(m1, m2, c, v),
            self.rc_table.stored(m2, m3, c, v),
            line_in(lo, c + BYTES_IN_LINE, l),
        ensures
            self.rc_table.value_in(m3, l) == v,
            self.straddle_lines.value_in(m3, l) == v,
    {
        let hi = c + BYTES_IN_LINE;
        let rc = self.rc_table;
        let st = self.straddle_lines;
        vstd::arithmetic::power2::lemma2_to64();
        assert(line_in(lo, hi, c));
        assert(rc.accessible(m0, l) && st.accessible(m0, l));
        assert(rc.accessible(m0, c) && st.accessible(m0, c));
        assert(rc.meta_addr_spec(c) != st.meta_addr_spec(c));
        if l == c {
            lemma_byte_value(st, m2, m3, c);
        } else {
            assert(line_in(lo, c, l));
            self.lemma_other_line(lo, c, l);
            assert(rc.value_in(m1, l) == v && st.value_in(m1, l) == v);
            st.lemma_store_then_load(m1, m2, c, v, l);
            assert(rc.meta_addr_spec(l) != st.meta_addr_spec(c));
            lemma_byte_value(rc, m1, m2, l);
            rc.lemma_store_then_load(m2, m3, c, v, l);
            assert(st.meta_addr_spec(l) != rc.meta_addr_spec(c));
            lemma_byte_value(st, m2, m3, l);
        }
    }

    /// After marking one more line `c`, the bytes, counts and straddle marks
    /// outside the lines `[lo, c + 256)` are unchanged.
    proof fn lemma_mark_step_frame(self, m0: MemoryRegion, m1: MemoryRegion, m2: MemoryRegion, m3: MemoryRegion,
        lo: int, c: int, v: nat)
        requires
            self.wf(),
            lo % BYTES_IN_LINE as int == 0,
            lo <= c,
            (c - lo) % BYTES_IN_LINE as int == 0,
            self.lines_accessible(m0, lo, c + BYTES_IN_LINE),
            self.lines_marked(m0, m1, lo, c, v),
            self.straddle_lines.stored(m1, m2, c, v),
            self.rc_table.stored(m2, m3, c, v),
        ensures
            forall|x: int| m0.contains(x) && !self.line_mark_byte(lo, c + BYTES_IN_LINE, x)
                ==> #[trigger] m3.byte(x) == m0.byte(x),
            forall|a: int| self.rc_table.accessible(m0, a) && !self.count_touched(lo, c + BYTES_IN_LINE, a)
                ==> #[trigger] self.rc_table.value_in(m3, a) == self.rc_table.value_in(m0, a),
            forall|b: int| self.straddle_lines.accessible(m0, b) && !self.straddle_touched(lo, c + BYTES_IN_LINE, b)
                ==> #[trigger] self.straddle_lines.value_in(m3, b) == self.straddle_lines.value_in(m0, b),
    {
        let hi = c + BYTES_IN_LINE;
        let rc = self.rc_table;
        let st = self.straddle_lines;
        vstd::arithmetic::power2::lemma2_to64();
        assert(line_in(lo, hi, c));
        assert(rc.accessible(m0, c) && st.accessible(m0, c));
        assert forall|x: int| m0.contains(x) && !self.line_mark_byte(lo, hi, x)
            implies #[trigger] m3.byte(x) == m0.byte(x) by {
            if self.line_mark_byte(lo, c, x) {
                let l = choose|l: int| #[trigger] line_in(lo, c, l)
                    && (x == rc.meta_addr_spec(l) || x == st.meta_addr_spec(l));
                assert(line_in(lo, hi, l));
            }
            assert(m1.byte(x) == m0.byte(x));
            assert(x != st.meta_addr_spec(c) && x != rc.meta_addr_spec(c));
            assert(m2.byte(x) == m1.byte(x));
        }
        assert forall|a: int| rc.accessible(m0, a) && !self.count_touched(lo, hi, a)
            implies #[trigger] rc.value_in(m3, a) == rc.value_in(m0, a) by {
            if self.count_touched(lo, c, a) {
                let l = choose|l: int| #[trigger] line_in(lo, c, l)
                    && (rc.region_index(a) == rc.region_index(l) || rc.meta_addr_spec(a) == st.meta_addr_spec(l));
                assert(line_in(lo, hi, l));
            }
            assert(rc.value_in(m1, a) == rc.value_in(m0, a));
            assert(rc.meta_addr_spec(a) != st.meta_addr_spec(c));
            lemma_byte_value(rc, m1, m2, a);
            rc.lemma_store_then_load(m2, m3, c, v, a);
        }
        assert forall|b: int| st.accessible(m0, b) && !self.straddle_touched(lo, hi, b)
            implies #[trigger] st.value_in(m3, b) == st.value_in(m0, b) by {
            if self.straddle_touched(lo, c, b) {
                let l = choose|l: int| #[trigger] line_in(lo, c, l)
                    && (st.region_index(b) == st.region_index(l) || st.meta_addr_spec(b) == rc.meta_addr_spec(l));
                assert(line_in(lo, hi, l));
            }
            assert(st.value_in(m1, b) == st.value_in(m0, b));
            st.lemma_store_then_load(m1, m2, c, v, b);
            assert(st.meta_addr_spec(b) != rc.meta_addr_spec(c));
            lemma_byte_value(st, m2, m3, b);
        }
    }

    /// Marking one more line, `c`, after the lines `[lo, c)`: storing its
    /// straddle mark and then its count gives the lines `[lo, c + 256)` marked.
    proof fn lemma_mark_step(self, m0: MemoryRegion, m1: MemoryRegion, m2: MemoryRegion, m3: MemoryRegion,
        lo: int, c: int, v: nat)
        requires
            self.wf(),
            lo % BYTES_IN_LINE as int == 0,
            lo <= c,
            (c - lo) % BYTES_IN_LINE as int == 0,
            self.lines_accessible(m0, lo, c + BYTES_IN_LINE),
            self.marks_apart(lo, c + BYTES_IN_LINE),
            self.lines_marked(m0, m1, lo, c, v),
            self.straddle_lines.stored(m1, m2, c, v),
            self.rc_table.stored(m2, m3, c, v),
        ensures
            self.lines_marked(m0, m3, lo, c + BYTES_IN_LINE, v),
    {
        self.lemma_mark_step_values(m0, m1, m2, m3, lo, c, v);
        self.lemma_mark_step_frame(m0, m1, m2, m3, lo, c, v);
    }

    /// What holds of the lines `[lo, hi)` holds of the lines `[lo, mid)`.
    proof fn lemma_fewer_lines(self, mem: MemoryRegion, lo: int, mid: int, hi: int)
        requires
            mid <= hi,
            self.lines_accessible(mem, lo, hi),
            self.marks_apart(lo, hi),
        ensures
            self.lines_accessible(mem, lo, mid),
            self.marks_apart(lo, mid),
    {
        assert forall|l: int| #[trigger] line_in(lo, mid, l) implies line_in(lo, hi, l) by {}
        assert forall|l1: int, l2: int| #![trigger line_in(lo, mid, l1), line_in(lo, mid, l2)]
            line_in(lo, mid, l1) && line_in(lo, mid, l2)
            implies self.rc_table.meta_addr_spec(l1) != self.straddle_lines.meta_addr_spec(l2) by {
            assert(line_in(lo, hi, l1) && line_in(lo, hi, l2));
        }
    }

    /// Set the count and the straddle mark of each line in `[lo, hi)` to `v`.
    #[verifier::rlimit(30)]
    fn mark_lines(&self, mem: &mut MemoryRegion, lo: Address, hi: Address, v: u8)
        requires
            self.wf(),
            lo % BYTES_IN_LINE == 0,
            lo <= hi,
            (hi - lo) % BYTES_IN_LINE as int == 0,
            v <= 1,
            self.lines_accessible(*old(mem), lo as int, hi as int),
            self.marks_apart(lo as int, hi as int),
        ensures
            self.lines_marked(*old(mem), *final(mem), lo as int, hi as int, v as nat),
    {
        let ghost m0 = *mem;
        let mut line = lo;
        while line != hi
            invariant
                self.wf(),
                lo % BYTES_IN_LINE == 0,
                lo <= line <= hi,
                (line - lo) % BYTES_IN_LINE as int == 0,
                (hi - lo) % BYTES_IN_LINE as int == 0,
                v <= 1,
                self.lines_accessible(m0, lo as int, hi as int),
                self.marks_apart(lo as int, hi as int),
                self.lines_marked(m0, *mem, lo as int, line as int, v as nat),
            decreases hi - line,
        {
            proof {
                lemma_next_line(lo as int, line as int, hi as int);
                assert(v < pow2(self.straddle_lines.num_bits_spec())) by {
                    vstd::arithmetic::power2::lemma2_to64();
                }
            }
            let ghost m1 = *mem;
            self.straddle_lines.store(mem, line, v as u64);
            let ghost m2 = *mem;
            self.set_line_relaxed(mem, line, v);
            proof {
                self.lemma_fewer_lines(m0, lo as int, line + BYTES_IN_LINE, hi as int);
                self.lemma_mark_step(m0, m1, m2, *mem, lo as int, line as int, v as nat);
            }
            line = line + BYTES_IN_LINE;
        }
    }

    /// The lines that the straddle marks of `o` (of `size` bytes) cover.
    fn straddle_line_range(&self, o: Address, size: u64) -> (r: (Address, Address))
        requires
            self.wf(),
            self.offsets.upper_bound <= o,
            o + BYTES_IN_BLOCK <= u64::MAX,
            self.slot(o) + size + self.offsets.slack_spec() <= u64::MAX,
        ensures
            r.0 == self.straddle_start(o),
            r.1 == self.straddle_end(o, size as int),
            r.0 % BYTES_IN_LINE == 0,
            r.0 <= r.1,
            (r.1 - r.0) % BYTES_IN_LINE as int == 0,
    {
        let envelope = ObjectEnvelope::of(&self.offsets, o);
        let start_line = envelope.line() + BYTES_IN_LINE;
        let end = envelope.end(&self.offsets, size);
        let end_line = end - end % BYTES_IN_LINE;
        let block_end_line = o - o % BYTES_IN_BLOCK + BYTES_IN_BLOCK;
        let end_line = if end_line > block_end_line { block_end_line } else { end_line };
        proof {
            lemma_line_bounds(envelope.0 as int, end as int, o as int);
            lemma_lines_apart(start_line as int, end_line as int);
        }
        if end_line < start_line {
            (start_line, start_line)
        } else {
            (start_line, end_line)
        }
    }

    /// Mark each line but the first that the envelope of `o` (of `size` bytes)
    /// spans, up to the end of its block, as a straddle line: its straddle
    /// mark and its count become 1, so that `o` can be found from any of them.
    pub fn mark_straddle_object(&self, mem: &mut MemoryRegion, o: Address, size: u64)
        requires
            self.wf(),
            self.offsets.upper_bound <= o,
            o + BYTES_IN_BLOCK <= u64::MAX,
            self.slot(o) + size + self.offsets.slack_spec() <= u64::MAX,
            size + self.offsets.slack_spec() > BYTES_IN_LINE,
            self.lines_accessible(*old(mem), self.straddle_start(o), self.straddle_end(o, size as int)),
            self.marks_apart(self.straddle_start(o), self.straddle_end(o, size as int)),
        ensures
            self.lines_marked(*old(mem), *final(mem), self.straddle_start(o), self.straddle_end(o, size as int), 1),
    {
        let (start_line, end_line) = self.straddle_line_range(o, size);
        self.mark_lines(mem, start_line, end_line, 1);
    }

    /// Clear the straddle marks and the counts that `mark_straddle_object`
    /// sets for `o` (of `size` bytes), where an object of its size has them.
    pub fn unmark_straddle_object(&self, mem: &mut MemoryRegion, o: Address, size: u64)
        requires
            self.wf(),
            self.offsets.upper_bound <= o,
            o + BYTES_IN_BLOCK <= u64::MAX,
            self.slot(o) + size + self.offsets.slack_spec() <= u64::MAX,
            self.lines_accessible(*old(mem), self.straddle_start(o), self.straddle_end(o, size as int)),
            self.marks_apart(self.straddle_start(o), self.straddle_end(o, size as int)),
        ensures
            size + self.offsets.slack_spec() > BYTES_IN_LINE
                ==> self.lines_marked(*old(mem), *final(mem), self.straddle_start(o), self.straddle_end(o, size as int), 0),
            size + self.offsets.slack_spec() <= BYTES_IN_LINE ==> *final(mem) == *old(mem),
    {
        if ObjectEnvelope::needs_straddle_marks(&self.offsets, size) {
            let (start_line, end_line) = self.straddle_line_range(o, size);
            self.mark_lines(mem, start_line, end_line, 0);
        }
    }

    /// Promote `o` (of `size` bytes) to the mature space: mark it as a
    /// straddle object if an object of its size spans lines.
    pub fn promote(&self, mem: &mut MemoryRegion, o: Address, size: u64)
        requires
            self.wf(),
            self.offsets.upper_bound <= o,
            o + BYTES_IN_BLOCK <= u64::MAX,
            self.slot(o) + size + self.offsets.slack_spec() <= u64::MAX,
            self.lines_accessible(*old(mem), self.straddle_start(o), self.straddle_end(o, size as int)),
            self.marks_apart(self.straddle_start(o), self.straddle_end(o, size as int)),
        ensures
            size + self.offsets.slack_spec() > BYTES_IN_LINE
                ==> self.lines_marked(*old(mem), *final(mem), self.straddle_start(o), self.straddle_end(o, size as int), 1),
            size + self.offsets.slack_spec() <= BYTES_IN_LINE ==> *final(mem) == *old(mem),
    {
        if ObjectEnvelope::needs_straddle_marks(&self.offsets, size) {
            self.mark_straddle_object(mem, o, size);
        }
    }

    /// `promote`, with the size of `o` given by the caller.
    pub fn promote_with_size(&self, mem: &mut MemoryRegion, o: Address, size: u64)
        requires
            self.wf(),
            self.offsets.upper_bound <= o,
            o + BYTES_IN_BLOCK <= u64::MAX,
            self.slot(o) + size + self.offsets.slack_spec() <= u64::MAX,
            self.lines_accessible(*old(mem), self.straddle_start(o), self.straddle_end(o, size as int)),
            self.marks_apart(self.straddle_start(o), self.straddle_end(o, size as int)),
        ensures
            size + self.offsets.slack_spec() > BYTES_IN_LINE
                ==> self.lines_marked(*old(mem), *final(mem), self.straddle_start(o), self.straddle_end(o, size as int), 1),
            size + self.offsets.slack_spec() <= BYTES_IN_LINE ==> *final(mem) == *old(mem),
    {
        self.promote(mem, o, size)
    }
}

/// Unmarking an object after marking it leaves no stray mark: the two
/// together set the count and the straddle mark of each of its lines to 0 and
/// change nothing else, as `unmark_straddle_object` alone would.
pub proof fn lemma_unmark_after_mark(h: RefCountHelper, m0: MemoryRegion, m1: MemoryRegion, m2: MemoryRegion,
    o: Address, size: int)
    requires
        h.wf(),
        h.lines_marked(m0, m1, h.straddle_start(o), h.straddle_end(o, size), 1),
        h.lines_marked(m1, m2, h.straddle_start(o), h.straddle_end(o, size), 0),
    ensures
        h.lines_marked(m0, m2, h.straddle_start(o), h.straddle_end(o, size), 0),
{
    let lo = h.straddle_start(o);
    let hi = h.straddle_end(o, size);
    assert forall|x: int| m0.contains(x) && !h.line_mark_byte(lo, hi, x) implies #[trigger] m2.byte(x) == m0.byte(x) by {
        assert(m1.byte(x) == m0.byte(x));
        assert(m1.contains(x));
    }
    assert forall|a: int| h.rc_table.accessible(m0, a) && !h.count_touched(lo, hi, a)
        implies #[trigger] h.rc_table.value_in(m2, a) == h.rc_table.value_in(m0, a) by {
        assert(h.rc_table.value_in(m1, a) == h.rc_table.value_in(m0, a));
        assert(h.rc_table.accessible(m1, a));
    }
    assert forall|b: int| h.straddle_lines.accessible(m0, b) && !h.straddle_touched(lo, hi, b)
        implies #[trigger] h.straddle_lines.value_in(m2, b) == h.straddle_lines.value_in(m0, b) by {
        assert(h.straddle_lines.value_in(m1, b) == h.straddle_lines.value_in(m0, b));
        assert(h.straddle_lines.accessible(m1, b));
    }
}

/// The reference count is sticky: an increment, decrement or stick on a
/// stuck count fails and changes nothing, so a stuck count stays stuck; and
/// increments and decrements keep counts within `0..=MAX_REF_COUNT`.
pub proof fn lemma_sticky_count(x: u64)
    requires
        x <= MAX_REF_COUNT,
    ensures
        x == MAX_REF_COUNT ==> inc_result(x) is None && dec_result(x) is None && stick_result(x) is None,
        inc_result(x) matches Some(n) ==> n <= MAX_REF_COUNT && n == x + 1,
        dec_result(x) matches Some(n) ==> n < MAX_REF_COUNT && n == x - 1,
        x == 0 ==> dec_result(x) is None,
{
}

} // verus!
