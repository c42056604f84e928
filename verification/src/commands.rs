//! Handle bookkeeping for recorded command streams: the mapping from object
//! identifiers to raw handles, and the resolution of placeholder objects
//! against a specialization set.

use vstd::prelude::*;

use std::collections::HashMap;

verus! {

broadcast use vstd::std_specs::hash::group_hash_axioms;

/// Maps object identifiers to raw 64-bit handles.
pub struct HandleMap {
    pub map: HashMap<u64, u64>,
}

impl HandleMap {
    /// An empty handle map.
    pub fn new() -> (r: HandleMap)
        ensures
            r.map@ == Map::<u64, u64>::empty(),
    {
        HandleMap { map: HashMap::new() }
    }

    /// The underlying identifier-to-handle map.
    pub fn get_raw_map(&self) -> (r: &HashMap<u64, u64>)
        ensures
            r@ == self.map@,
    {
        &self.map
    }

    /// The underlying identifier-to-handle map, for mutation.
    pub fn get_raw_map_mut(&mut self) -> (r: &mut HashMap<u64, u64>)
        ensures
            *r == old(self).map,
            final(self).map == *final(r),
    {
        &mut self.map
    }
}

/// How one semaphore operation synchronizes: a plain binary semaphore or a
/// timeline semaphore with a target value.
pub enum SemaphoreOpInfo {
    BinarySemaphore(),
    TimelineSemaphore(u64),
}

/// The raw handles chosen for placeholder buffers and images.
pub struct SpecializationSet {
    pub buffers: HashMap<u64, u64>,
    pub images: HashMap<u64, u64>,
}

impl SpecializationSet {
    /// An empty specialization set.
    pub fn new() -> (r: SpecializationSet)
        ensures
            r.buffers@ == Map::<u64, u64>::empty(),
            r.images@ == Map::<u64, u64>::empty(),
    {
        SpecializationSet { buffers: HashMap::new(), images: HashMap::new() }
    }

    /// Chooses the handle for a placeholder buffer.
    pub fn set_buffer(&mut self, id: u64, buffer: u64)
        ensures
            final(self).buffers@ == old(self).buffers@.insert(id, buffer),
            final(self).images@ == old(self).images@,
    {
        self.buffers.insert(id, buffer);
    }

    /// Chooses the handle for a placeholder image.
    pub fn set_image(&mut self, id: u64, image: u64)
        ensures
            final(self).images@ == old(self).images@.insert(id, image),
            final(self).buffers@ == old(self).buffers@,
    {
        self.images.insert(id, image);
    }

    /// The handle chosen for a buffer, if any.
    pub fn get_buffer(&self, id: u64) -> (r: Option<u64>)
        ensures
            r is Some <==> self.buffers@.contains_key(id),
            r matches Some(h) ==> h == self.buffers@[id],
    {
        match self.buffers.get(&id) {
            Some(h) => Some(*h),
            None => None,
        }
    }

    /// The handle chosen for an image, if any.
    pub fn get_image(&self, id: u64) -> (r: Option<u64>)
        ensures
            r is Some <==> self.images@.contains_key(id),
            r matches Some(h) ==> h == self.images@[id],
    {
        match self.images.get(&id) {
            Some(h) => Some(*h),
            None => None,
        }
    }
}

/// A map extended with explicit identifier/handle pairs, first to last.
pub open spec fn map_with_pairs(m: Map<u64, u64>, pairs: Seq<(u64, u64)>) -> Map<u64, u64>
    decreases pairs.len(),
{
    if pairs.len() == 0 {
        m
    } else {
        map_with_pairs(m, pairs.drop_last()).insert(pairs.last().0, pairs.last().1)
    }
}

/// A map extended with one entry per identifier, the handle looked up in
/// `lookup`.
pub open spec fn map_with_handles(
    m: Map<u64, u64>,
    ids: Seq<u64>,
    lookup: Map<u64, u64>,
) -> Map<u64, u64>
    decreases ids.len(),
{
    if ids.len() == 0 {
        m
    } else {
        map_with_handles(m, ids.drop_last(), lookup).insert(ids.last(), lookup[ids.last()])
    }
}

/// The handles already resolved plus the placeholder objects that still wait
/// for a choice from a [`SpecializationSet`].
pub struct ResourceSpecializationInfo {
    pub specialized: Vec<(u64, u64)>,
    pub pending_buffers: Vec<u64>,
    pub pending_images: Vec<u64>,
}

impl ResourceSpecializationInfo {
    /// Resolves every pending placeholder against `specialization_set` and
    /// returns the complete identifier-to-handle map, or reports the first
    /// kind of object for which a choice is missing.
    pub fn specialize_resources(&self, specialization_set: &SpecializationSet) -> (r: Result<
        HashMap<u64, u64>,
        &'static str,
    >)
        ensures
            r is Ok <==> ((forall|k: int|
                0 <= k < self.pending_buffers@.len()
                    ==> specialization_set.buffers@.contains_key(
                    #[trigger] self.pending_buffers@[k],
                )) && (forall|k: int|
                0 <= k < self.pending_images@.len() ==> specialization_set.images@.contains_key(
                    #[trigger] self.pending_images@[k],
                ))),
            r matches Ok(m) ==> m@ == map_with_handles(
                map_with_handles(
                    map_with_pairs(Map::<u64, u64>::empty(), self.specialized@),
                    self.pending_buffers@,
                    specialization_set.buffers@,
                ),
                self.pending_images@,
                specialization_set.images@,
            ),
    {
        let mut result: HashMap<u64, u64> = HashMap::new();
        let mut i: usize = 0;
        while i < self.specialized.len()
            invariant
                0 <= i <= self.specialized@.len(),
                result@ == map_with_pairs(
                    Map::<u64, u64>::empty(),
                    self.specialized@.take(i as int),
                ),
            decreases self.specialized@.len() - i,
        {
            let pair = self.specialized[i];
            result.insert(pair.0, pair.1);
            proof {
                assert(self.specialized@.take(i as int + 1).drop_last() =~= self.specialized@.take(
                    i as int,
                ));
            }
            i = i + 1;
        }
        proof {
            assert(self.specialized@.take(self.specialized@.len() as int) =~= self.specialized@);
        }
        let mut i: usize = 0;
        while i < self.pending_buffers.len()
            invariant
                0 <= i <= self.pending_buffers@.len(),
                forall|k: int|
                    0 <= k < i ==> specialization_set.buffers@.contains_key(
                        #[trigger] self.pending_buffers@[k],
                    ),
                result@ == map_with_handles(
                    map_with_pairs(Map::<u64, u64>::empty(), self.specialized@),
                    self.pending_buffers@.take(i as int),
                    specialization_set.buffers@,
                ),
            decreases self.pending_buffers@.len() - i,
        {
            let id = self.pending_buffers[i];
            match specialization_set.get_buffer(id) {
                Some(handle) => {
                    result.insert(id, handle);
                },
                None => {
                    return Err("Missing buffer in specialization set");
                },
            }
            proof {
                assert(self.pending_buffers@.take(i as int + 1).drop_last()
                    =~= self.pending_buffers@.take(i as int));
            }
            i = i + 1;
        }
        proof {
            assert(self.pending_buffers@.take(self.pending_buffers@.len() as int)
                =~= self.pending_buffers@);
        }
        let mut i: usize = 0;
        while i < self.pending_images.len()
            invariant
                0 <= i <= self.pending_images@.len(),
                forall|k: int|
                    0 <= k < self.pending_buffers@.len()
                        ==> specialization_set.buffers@.contains_key(
                        #[trigger] self.pending_buffers@[k],
                    ),
                forall|k: int|
                    0 <= k < i ==> specialization_set.images@.contains_key(
                        #[trigger] self.pending_images@[k],
                    ),
                result@ == map_with_handles(
                    map_with_handles(
                        map_with_pairs(Map::<u64, u64>::empty(), self.specialized@),
                        self.pending_buffers@,
                        specialization_set.buffers@,
                    ),
                    self.pending_images@.take(i as int),
                    specialization_set.images@,
                ),
            decreases self.pending_images@.len() - i,
        {
            let id = self.pending_images[i];
            match specialization_set.get_image(id) {
                Some(handle) => {
                    result.insert(id, handle);
                },
                None => {
                    return Err("Missing image in specialization set");
                },
            }
            proof {
                assert(self.pending_images@.take(i as int + 1).drop_last()
                    =~= self.pending_images@.take(i as int));
            }
            i = i + 1;
        }
        proof {
            assert(self.pending_images@.take(self.pending_images@.len() as int)
                =~= self.pending_images@);
        }
        Ok(result)
    }
}

} // verus!
