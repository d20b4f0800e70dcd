//! The GC byte of an object (a byte of its header that the collector owns)
//! and its forwarding word.
use vstd::prelude::*;
use crate::address::Address;
use crate::memory::MemoryRegion;

verus! {

/// Where a VM binding keeps the GC byte of its objects.
#[derive(Clone, Copy, Debug)]
pub struct GcByteLayout {
    /// Objects have a GC byte.
    pub has_gc_byte: bool,
    /// The offset of the GC byte from the object reference.
    pub gc_byte_offset: isize,
}

/// The address of the GC byte of `object`.
pub open spec fn gc_byte_addr(layout: GcByteLayout, object: Address) -> int {
    object + layout.gc_byte_offset
}

/// The GC byte of the object.
pub struct GCByte {}

impl GCByte {
    /// The address of the GC byte of `object`.
    fn get_gc_byte(layout: &GcByteLayout, object: Address) -> (r: Address)
        requires
            layout.has_gc_byte,
            0 <= gc_byte_addr(*layout, object) <= u64::MAX,
        ensures
            r == gc_byte_addr(*layout, object),
    {
        let off = layout.gc_byte_offset;
        if off >= 0 {
            object + off as u64
        } else {
            object - (-(off as i128)) as u64
        }
    }

    /// The GC byte of the object.
    pub fn read(layout: &GcByteLayout, mem: &MemoryRegion, object: Address) -> (r: u8)
        requires
            layout.has_gc_byte,
            0 <= gc_byte_addr(*layout, object) <= u64::MAX,
            mem.contains(gc_byte_addr(*layout, object)),
        ensures
            r == mem.byte(gc_byte_addr(*layout, object)),
    {
        let a = Self::get_gc_byte(layout, object);
        mem.load_u8(a)
    }

    /// Set the GC byte of the object.
    pub fn write(layout: &GcByteLayout, mem: &mut MemoryRegion, object: Address, val: u8)
        requires
            layout.has_gc_byte,
            0 <= gc_byte_addr(*layout, object) <= u64::MAX,
            old(mem).contains(gc_byte_addr(*layout, object)),
        ensures
            final(mem).start_spec() == old(mem).start_spec(),
            final(mem).wf() == old(mem).wf(),
            final(mem).bytes_spec() == old(mem).bytes_spec().update(gc_byte_addr(*layout, object) - old(mem).start_spec(), val),
    {
        let a = Self::get_gc_byte(layout, object);
        mem.store_u8(a, val);
    }

    /// Replace the GC byte `old_val` by `new_val`; returns whether it was `old_val`.
    pub fn compare_exchange(layout: &GcByteLayout, mem: &mut MemoryRegion, object: Address, old_val: u8, new_val: u8) -> (r: bool)
        requires
            layout.has_gc_byte,
            0 <= gc_byte_addr(*layout, object) <= u64::MAX,
            old(mem).contains(gc_byte_addr(*layout, object)),
        ensures
            r == (old(mem).byte(gc_byte_addr(*layout, object)) == old_val),
            r ==> final(mem).start_spec() == old(mem).start_spec() && final(mem).wf() == old(mem).wf()
                && final(mem).bytes_spec() == old(mem).bytes_spec().update(gc_byte_addr(*layout, object) - old(mem).start_spec(), new_val),
            !r ==> *final(mem) == *old(mem),
    {
        let a = Self::get_gc_byte(layout, object);
        if mem.load_u8(a) == old_val {
            mem.store_u8(a, new_val);
            true
        } else {
            false
        }
    }
}

/// The offset of the forwarding word from the GC byte, if the GC byte is the
/// lowest or the highest byte of a word.
pub fn unifiable_gcbyte_forwarding_word_offset(layout: &GcByteLayout) -> (r: Option<isize>)
    ensures
        r == (if layout.has_gc_byte && layout.gc_byte_offset % 8 == 0 {
            Some(0isize)
        } else if layout.has_gc_byte && layout.gc_byte_offset % 8 == 7 {
            Some(-7isize)
        } else {
            None
        }),
{
    let gcbyte_dealignment = layout.gc_byte_offset % 8;
    let d = if gcbyte_dealignment < 0 { gcbyte_dealignment + 8 } else { gcbyte_dealignment };
    if layout.has_gc_byte {
        if d == 0 {
            Some(0)
        } else if d == 7 {
            Some(1 - 8)
        } else {
            None
        }
    } else {
        None
    }
}

/// The address of the forwarding word of `object`, whose storage starts at
/// `obj_lowest_addr`: next to the GC byte if they share a word, else the first
/// word of the storage, or the second if the GC byte lies in the first.
pub open spec fn status_word_addr(layout: GcByteLayout, object: Address, obj_lowest_addr: Address) -> int {
    if layout.has_gc_byte && layout.gc_byte_offset % 8 == 0 {
        object + layout.gc_byte_offset
    } else if layout.has_gc_byte && layout.gc_byte_offset % 8 == 7 {
        object + layout.gc_byte_offset - 7
    } else if layout.has_gc_byte && (object - obj_lowest_addr) + layout.gc_byte_offset < 8 {
        obj_lowest_addr + 8
    } else {
        obj_lowest_addr as int
    }
}

/// The forwarding word of the object.
pub struct GCForwardingWord {}

impl GCForwardingWord {
    /// The address of the forwarding word of `object`, whose storage starts at `obj_lowest_addr`.
    pub fn get_object_status_word_address(layout: &GcByteLayout, object: Address, obj_lowest_addr: Address) -> (r: Address)
        requires
            obj_lowest_addr <= object,
            obj_lowest_addr + 8 <= u64::MAX,
            0 <= object + layout.gc_byte_offset - 7,
            object + layout.gc_byte_offset <= u64::MAX,
        ensures
            r == status_word_addr(*layout, object, obj_lowest_addr),
    {
        match unifiable_gcbyte_forwarding_word_offset(layout) {
            Some(fw_offset) => {
                let a: i128 = object as i128 + layout.gc_byte_offset as i128 + fw_offset as i128;
                a as u64
            },
            None => {
                if layout.has_gc_byte {
                    let abs_gc_byte_offset: i128 = (object - obj_lowest_addr) as i128 + layout.gc_byte_offset as i128;
                    if abs_gc_byte_offset >= 8 {
                        obj_lowest_addr
                    } else {
                        obj_lowest_addr + 8
                    }
                } else {
                    obj_lowest_addr
                }
            },
        }
    }

    /// The forwarding word of the object.
    pub fn read(layout: &GcByteLayout, mem: &MemoryRegion, object: Address, obj_lowest_addr: Address) -> (r: u64)
        requires
            obj_lowest_addr <= object,
            obj_lowest_addr + 8 <= u64::MAX,
            0 <= object + layout.gc_byte_offset - 7,
            object + layout.gc_byte_offset <= u64::MAX,
            mem.wf(),
            mem.contains_range(status_word_addr(*layout, object, obj_lowest_addr), 8),
        ensures
            r == mem.le_at(status_word_addr(*layout, object, obj_lowest_addr), 8),
    {
        let a = Self::get_object_status_word_address(layout, object, obj_lowest_addr);
        mem.load_le(a, 8)
    }

    /// Set the forwarding word of the object.
    pub fn write(layout: &GcByteLayout, mem: &mut MemoryRegion, object: Address, obj_lowest_addr: Address, val: u64)
        requires
            obj_lowest_addr <= object,
            obj_lowest_addr + 8 <= u64::MAX,
            0 <= object + layout.gc_byte_offset - 7,
            object + layout.gc_byte_offset <= u64::MAX,
            old(mem).wf(),
            old(mem).contains_range(status_word_addr(*layout, object, obj_lowest_addr), 8),
        ensures
            final(mem).wf(),
            final(mem).start_spec() == old(mem).start_spec(),
            final(mem).bytes_spec().len() == old(mem).bytes_spec().len(),
            final(mem).le_at(status_word_addr(*layout, object, obj_lowest_addr), 8) == val,
            forall|x: int| #![trigger final(mem).byte(x)] old(mem).contains(x) && !(status_word_addr(*layout, object, obj_lowest_addr) <= x
                < status_word_addr(*layout, object, obj_lowest_addr) + 8) ==> final(mem).byte(x) == old(mem).byte(x),
    {
        let a = Self::get_object_status_word_address(layout, object, obj_lowest_addr);
        proof {
            vstd::arithmetic::power2::lemma2_to64();
            vstd::arithmetic::power2::lemma2_to64_rest();
        }
        mem.store_le(a, 8, val);
    }

    /// Replace the forwarding word `old_word` by `new_word`; returns whether it was `old_word`.
    pub fn compare_exchange(layout: &GcByteLayout, mem: &mut MemoryRegion, object: Address, obj_lowest_addr: Address, old_word: u64, new_word: u64) -> (r: bool)
        requires
            obj_lowest_addr <= object,
            obj_lowest_addr + 8 <= u64::MAX,
            0 <= object + layout.gc_byte_offset - 7,
            object + layout.gc_byte_offset <= u64::MAX,
            old(mem).wf(),
            old(mem).contains_range(status_word_addr(*layout, object, obj_lowest_addr), 8),
        ensures
            r == (old(mem).le_at(status_word_addr(*layout, object, obj_lowest_addr), 8) == old_word),
            r ==> final(mem).le_at(status_word_addr(*layout, object, obj_lowest_addr), 8) == new_word
                && final(mem).wf() && final(mem).start_spec() == old(mem).start_spec()
                && final(mem).bytes_spec().len() == old(mem).bytes_spec().len(),
            r ==> forall|x: int| #![trigger final(mem).byte(x)] old(mem).contains(x) && !(status_word_addr(*layout, object, obj_lowest_addr) <= x
                < status_word_addr(*layout, object, obj_lowest_addr) + 8) ==> final(mem).byte(x) == old(mem).byte(x),
            !r ==> *final(mem) == *old(mem),
    {
        let a = Self::get_object_status_word_address(layout, object, obj_lowest_addr);
        proof {
            vstd::arithmetic::power2::lemma2_to64();
            vstd::arithmetic::power2::lemma2_to64_rest();
        }
        if mem.load_le(a, 8) == old_word {
            mem.store_le(a, 8, new_word);
            true
        } else {
            false
        }
    }
}

} // verus!
