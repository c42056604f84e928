//! Selection of a device memory type by its property flags.

use vstd::prelude::*;

verus! {

/// One memory type as the device advertises it: the set of property flags
/// it supports.
#[derive(Clone, Copy, PartialEq, Eq, Structural, Debug)]
pub struct MemoryType {
    pub property_flags: u32,
}

/// The position of the first memory type supporting every requested flag,
/// if any does.
pub fn find_memorytype_index(memory_types: &Vec<MemoryType>, flags: u32) -> (r: Option<u32>)
    requires
        memory_types@.len() <= u32::MAX,
    ensures
        r matches Some(i) ==> {
            &&& i < memory_types@.len()
            &&& memory_types@[i as int].property_flags & flags == flags
            &&& forall|j: int|
                0 <= j < i ==> (#[trigger] memory_types@[j].property_flags) & flags != flags
        },
        r is None ==> forall|j: int|
            0 <= j < memory_types@.len() ==> (#[trigger] memory_types@[j].property_flags) & flags
                != flags,
{
    let mut i: usize = 0;
    while i < memory_types.len()
        invariant
            memory_types@.len() <= u32::MAX,
            0 <= i <= memory_types@.len(),
            forall|j: int|
                0 <= j < i ==> (#[trigger] memory_types@[j].property_flags) & flags != flags,
        decreases memory_types@.len() - i,
    {
        if memory_types[i].property_flags & flags == flags {
            return Some(i as u32);
        }
        i = i + 1;
    }
    None
}

} // verus!
