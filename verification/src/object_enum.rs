//! Enumerating the objects of a space: an enumerator visits single objects and
//! address ranges, in which the objects are those whose valid-object bit is set.
use vstd::prelude::*;
use crate::address::Address;
use crate::memory::MemoryRegion;
use crate::metadata::vo_bit::{vo_value, vo_accessible, is_vo_bit_set, get_object_ref_for_vo_addr};

verus! {

/// The valid-object bits of `[start, end)` can be read in `mem`.
pub open spec fn vo_range_accessible(mem: MemoryRegion, start: int, end: int) -> bool {
    forall|a: int| start <= a < end ==> #[trigger] vo_accessible(mem, a)
}

/// `objs` are the objects of `[start, end)` in `mem`, in ascending order: each
/// word-aligned address of the range whose valid-object bit is set, once.
pub open spec fn objects_in(mem: MemoryRegion, start: int, end: int, objs: Seq<Address>) -> bool {
    &&& forall|i: int, j: int| 0 <= i < j < objs.len() ==> objs[i] < objs[j]
    &&& forall|i: int| 0 <= i < objs.len() ==> {
        &&& start <= #[trigger] objs[i] < end
        &&& objs[i] % 8 == 0
        &&& vo_value(mem, objs[i] as int) == 1
    }
    &&& forall|a: Address| start <= a < end && a % 8 == 0 && vo_value(mem, a as int) == 1
        ==> #[trigger] objs.contains(a)
}

/// The objects of `[start, end)`: the word-aligned addresses whose valid-object
/// bit is set, in ascending order.
pub fn objects_in_range(mem: &MemoryRegion, start: Address, end: Address) -> (r: Vec<Address>)
    requires
        start % 8 == 0,
        end + 8 <= u64::MAX,
        vo_range_accessible(*mem, start as int, end as int),
    ensures
        objects_in(*mem, start as int, end as int, r@),
{
    let mut objs: Vec<Address> = Vec::new();
    let mut a = start;
    while a < end
        invariant
            start <= a,
            a % 8 == 0,
            a == start || a < end + 8,
            end + 8 <= u64::MAX,
            vo_range_accessible(*mem, start as int, end as int),
            forall|i: int, j: int| 0 <= i < j < objs@.len() ==> objs@[i] < objs@[j],
            forall|i: int| 0 <= i < objs@.len() ==> {
                &&& start <= #[trigger] objs@[i] < a
                &&& objs@[i] < end
                &&& objs@[i] % 8 == 0
                &&& vo_value(*mem, objs@[i] as int) == 1
            },
            forall|b: Address| start <= b < a && b < end && b % 8 == 0 && vo_value(*mem, b as int) == 1
                ==> #[trigger] objs@.contains(b),
        decreases end + 8 - a,
    {
        assert(vo_accessible(*mem, a as int));
        if is_vo_bit_set(mem, a) {
            let ghost before = objs@;
            objs.push(a);
            proof {
                assert(objs@[objs@.len() - 1] == a);
                assert forall|b: Address| start <= b < a + 8 && b < end && b % 8 == 0 && vo_value(*mem, b as int) == 1
                    implies #[trigger] objs@.contains(b) by {
                    if b < a {
                        assert(before.contains(b));
                        let k = choose|k: int| 0 <= k < before.len() && before[k] == b;
                        assert(objs@[k] == b);
                    } else {
                        assert(b == a);
                        assert(objs@[objs@.len() - 1] == b);
                    }
                }
            }
        } else {
            proof {
                assert forall|b: Address| start <= b < a + 8 && b < end && b % 8 == 0 && vo_value(*mem, b as int) == 1
                    implies #[trigger] objs@.contains(b) by {
                    if b >= a {
                        assert(b == a);
                    }
                }
            }
        }
        a = a + 8;
    }
    objs
}

/// Visits the objects of a space: single objects, and address ranges that
/// may hold objects.
pub trait ObjectEnumerator {
    /// The enumerator is ready to visit objects.
    spec fn ready(&self) -> bool;

    /// Visit a single object.
    fn visit_object(&mut self, object: Address)
        requires
            old(self).ready(),
        ensures
            final(self).ready();

    /// Visit an address range that may hold objects, with the valid-object
    /// bits in `mem`.
    fn visit_address_range(&mut self, mem: &MemoryRegion, start: Address, end: Address)
        requires
            old(self).ready(),
            start % 8 == 0,
            end + 8 <= u64::MAX,
            vo_range_accessible(*mem, start as int, end as int),
        ensures
            final(self).ready();
}

/// An enumerator that hands each object to a callback.
pub struct ClosureObjectEnumerator<F: FnMut(Address)> {
    object_callback: F,
}

impl<F: FnMut(Address)> ClosureObjectEnumerator<F> {
    /// An enumerator that hands each object to `object_callback`.
    pub fn new(object_callback: F) -> (r: Self)
        ensures
            r.callback() == object_callback,
    {
        ClosureObjectEnumerator { object_callback }
    }

    /// The callback.
    pub closed spec fn callback(self) -> F {
        self.object_callback
    }
}

impl<F: FnMut(Address)> ObjectEnumerator for ClosureObjectEnumerator<F> {
    /// The callback can be called on any object, whatever it did before.
    open spec fn ready(&self) -> bool {
        forall|f: F, object: Address| call_requires(f, (object,))
    }

    /// The callback is called on `object`.
    fn visit_object(&mut self, object: Address)
        ensures
            call_ensures(old(self).callback(), (object,), ()),
    {
        (self.object_callback)(object);
    }

    /// The callback is called on each object of the range: each word-aligned
    /// address in it whose valid-object bit is set.
    fn visit_address_range(&mut self, mem: &MemoryRegion, start: Address, end: Address)
        ensures
            forall|o: Address| start <= o < end && o % 8 == 0 && vo_value(*mem, o as int) == 1
                ==> #[trigger] call_ensures(old(self).callback(), (o,), ()),
    {
        let objs = objects_in_range(mem, start, end);
        let ghost cb = self.object_callback;
        let mut i: usize = 0;
        while i < objs.len()
            invariant
                i <= objs@.len(),
                objects_in(*mem, start as int, end as int, objs@),
                end + 8 <= u64::MAX,
                vo_range_accessible(*mem, start as int, end as int),
                forall|f: F, object: Address| call_requires(f, (object,)),
                self.object_callback == cb,
                forall|k: int| 0 <= k < i ==> #[trigger] call_ensures(cb, (objs@[k],), ()),
            decreases objs@.len() - i,
        {
            let vo_addr = objs[i];
            assert(vo_accessible(*mem, vo_addr as int));
            let object = get_object_ref_for_vo_addr(mem, vo_addr);
            (self.object_callback)(object);
            i = i + 1;
        }
        proof {
            assert forall|o: Address| start <= o < end && o % 8 == 0 && vo_value(*mem, o as int) == 1
                implies #[trigger] call_ensures(cb, (o,), ()) by {
                assert(objs@.contains(o));
                let k = choose|k: int| 0 <= k < objs@.len() && objs@[k] == o;
                assert(call_ensures(cb, (objs@[k],), ()));
            }
        }
    }
}

} // verus!
