//! The history chain of per-region state records.
//!
//! A [`HistoryTracker`] owns a chain of [`RegionInfo`] records describing the
//! history of state changes over one resource's addressable domain.  Records
//! near the front of the chain are newer and shadow the older, coarser ones
//! behind them.  The tracker supports a non-destructive `update` (read) pass
//! and a destructive `override` (write) pass, both driven by a caller-supplied
//! list of disjoint target regions and a pluggable [`TransitionSystem`].

use vstd::prelude::*;

use crate::region::{
    covered, pairwise_disjoint, sum_vol, vol_cap, lemma_sum_vol_bounds, lemma_vol_cap_table,
    lemma_region_congruence, Region, MAX_DIM,
};

verus! {

/// The pluggable policy object consumers implement to react to overlaps.
/// It is called with the affected sub-regions, the record's current value
/// and the containing region, for each of update/override/clear, and it
/// supplies the initial value when untouched space is first written.
///
/// Nothing is assumed about an implementation's behaviour.
pub trait TransitionSystem<V>: Sized {
    fn on_update(&mut self, affected_regions: &Vec<Region>, value: &mut V, value_region: &Region);

    fn on_override(
        &mut self,
        affected_regions: &Vec<Region>,
        value: &mut V,
        value_region: &Region,
    );

    fn on_clear(&mut self, affected_regions: &Vec<Region>, value: &mut V, value_region: &Region);

    fn on_create(&mut self, value_region: &Region) -> V;
}

/// One record of the history chain: a region, the cached volume of the part
/// of it not yet superseded by newer records, the tracked value, and the
/// disjoint sub-regions that make up that remaining part.
pub struct RegionInfo<V> {
    pub region: Region,
    pub active_volume: i128,
    pub value: V,
    pub remainder: Vec<Region>,
}

impl<V> RegionInfo<V> {
    /// Everything [`RegionInfo::wf`] demands except that some remaining
    /// volume is left: a positive-volume region, a remainder made of disjoint
    /// positive sub-regions of it, and an exact cached volume.
    pub open spec fn wf_loose(self) -> bool {
        &&& self.region.valid()
        &&& self.region.strict()
        &&& forall|k: int|
            0 <= k < self.remainder@.len() ==> (#[trigger] self.remainder@[k]).valid()
                && self.remainder@[k].strict() && self.remainder@[k].same_dims(self.region)
        &&& pairwise_disjoint(self.remainder@)
        &&& forall|k: int, p: Seq<int>|
            0 <= k < self.remainder@.len() && #[trigger] self.remainder@[k].contains(p)
                ==> self.region.contains(p)
        &&& self.active_volume == sum_vol(self.remainder@)
        &&& sum_vol(self.remainder@) <= vol_cap(MAX_DIM as int)
    }

    /// Record well-formedness: [`RegionInfo::wf_loose`] plus a non-empty
    /// remainder — a record whose active volume reaches zero is removed.
    pub open spec fn wf(self) -> bool {
        &&& self.wf_loose()
        &&& self.remainder@.len() > 0
    }

    /// True when `p` belongs to the part of this record not shadowed by
    /// newer records.
    pub open spec fn live(self, p: Seq<int>) -> bool {
        covered(self.remainder@, p)
    }
}

/// True when some part of the record's remaining volume lies outside the
/// footprint: the record survives an override by that footprint.
pub open spec fn record_survives<V>(ri: RegionInfo<V>, footprint: Seq<Region>) -> bool {
    exists|p: Seq<int>| ri.live(p) && !covered(footprint, p)
}

/// The subsequence of records that survive an override by `footprint`, in
/// chain order.
pub open spec fn surviving_records<V>(
    chain: Seq<RegionInfo<V>>,
    footprint: Seq<Region>,
) -> Seq<RegionInfo<V>>
    decreases chain.len(),
{
    if chain.len() == 0 {
        Seq::empty()
    } else if record_survives(chain.last(), footprint) {
        surviving_records(chain.drop_last(), footprint).push(chain.last())
    } else {
        surviving_records(chain.drop_last(), footprint)
    }
}

/// Tracks the full known state history of one resource's addressable domain
/// as a chain of [`RegionInfo`] records, newest first.
pub struct HistoryTracker<V> {
    pub chain: Vec<RegionInfo<V>>,
    pub dims: usize,
}

impl<V> HistoryTracker<V> {
    /// Dimension count of every region this tracker handles.
    pub open spec fn spec_dims(self) -> nat {
        self.dims as nat
    }

    /// True when a record before position `k` already claims the point `p`.
    pub open spec fn shadowed(self, k: int, p: Seq<int>) -> bool {
        exists|j: int| 0 <= j < k && (#[trigger] self.chain@[j]).region.contains(p)
    }

    /// True when some record's region contains `p`: the point has been
    /// written at least once.
    pub open spec fn covers(self, p: Seq<int>) -> bool {
        exists|k: int|
            0 <= k < self.chain@.len() && (#[trigger] self.chain@[k]).region.contains(p)
    }

    /// Tracker well-formedness: well-formed records of matching dimension,
    /// and each record live exactly on the part of its region that no newer
    /// record claims.
    pub open spec fn wf(self) -> bool {
        &&& 1 <= self.dims <= MAX_DIM
        &&& forall|k: int|
            0 <= k < self.chain@.len() ==> (#[trigger] self.chain@[k]).wf()
                && self.chain@[k].region.dims() == self.spec_dims()
        &&& forall|k: int, p: Seq<int>|
            0 <= k < self.chain@.len() ==> ((#[trigger] self.chain@[k].live(p)) <==> (
            self.chain@[k].region.contains(p) && !self.shadowed(k, p)))
    }

    /// Creates an empty tracker: the entire domain starts in the implicit
    /// untouched state.
    pub fn new(dims: usize) -> (t: Self)
        requires
            1 <= dims <= MAX_DIM,
        ensures
            t.wf(),
            t.chain@.len() == 0,
            t.spec_dims() == dims,
            forall|p: Seq<int>| !t.covers(p),
    {
        HistoryTracker { chain: Vec::new(), dims }
    }

    /// True when no record exists yet.
    pub fn is_empty(&self) -> (r: bool)
        ensures
            r == (self.chain@.len() == 0),
    {
        self.chain.len() == 0
    }

    /// Non-destructive read pass.  Walks the chain front to back; each
    /// record consumes the part of `regions` that its region overlaps and,
    /// when that part is non-empty, reports it to
    /// [`TransitionSystem::on_update`] together with the record's value.
    /// `regions` is left holding the part of the original footprint that no
    /// record covers; `tmp_vec` is scratch space.  Returns, for each record
    /// position, the reported sub-regions.
    pub fn update_regions_vec<S: TransitionSystem<V>>(
        &mut self,
        transition_system: &mut S,
        regions: &mut Vec<Region>,
        tmp_vec: &mut Vec<Region>,
    ) -> (trace: Ghost<Seq<Seq<Region>>>)
        requires
            old(self).wf(),
            old(regions)@.len() > 0,
            forall|k: int|
                0 <= k < old(regions)@.len() ==> (#[trigger] old(regions)@[k]).valid() && old(regions)@[k].strict() && old(regions)@[k].dims() == old(self).spec_dims(),
            pairwise_disjoint(old(regions)@),
            sum_vol(old(regions)@) <= vol_cap(MAX_DIM as int),
        ensures
            final(self).wf(),
            final(self).dims == old(self).dims,
            final(self).chain@.len() == old(self).chain@.len(),
            forall|k: int|
                0 <= k < final(self).chain@.len() ==> (#[trigger] final(self).chain@[k]).region
                    == old(self).chain@[k].region && final(self).chain@[k].active_volume == old(self).chain@[k].active_volume && final(self).chain@[k].remainder == old(self).chain@[k].remainder,
            forall|k: int|
                0 <= k < final(regions)@.len() ==> (#[trigger] final(regions)@[k]).valid() && final(regions)@[k].strict() && final(regions)@[k].dims() == old(self).spec_dims(),
            pairwise_disjoint(final(regions)@),
            sum_vol(final(regions)@) <= vol_cap(MAX_DIM as int),
            forall|p: Seq<int>|
                #![trigger covered(final(regions)@, p)]
                #![trigger old(self).covers(p)]
                covered(final(regions)@, p) <==> (covered(old(regions)@, p) && !old(self).covers(
                    p,
                )),
            forall|p: Seq<int>|
                #[trigger] final(self).covers(p) == old(self).covers(p),
            trace@.len() == old(self).chain@.len(),
            forall|k: int, p: Seq<int>|
                0 <= k < trace@.len() ==> ((#[trigger] covered(trace@[k], p)) <==> (covered(
                    old(regions)@,
                    p,
                ) && old(self).chain@[k].region.contains(p) && !old(self).shadowed(k, p))),
            forall|k: int, j: int|
                0 <= k < trace@.len() && 0 <= j < trace@[k].len() ==> (
                #[trigger] trace@[k][j]).valid() && trace@[k][j].strict(),
            old(self).chain@.len() == 0 ==> *final(transition_system) == *old(transition_system)
                && *final(regions) == *old(regions) && *final(tmp_vec) == *old(tmp_vec),
    {
        let ghost r0 = old(regions)@;
        let ghost mut trace: Seq<Seq<Region>> = Seq::empty();
        let mut k: usize = 0;
        while k < self.chain.len()
            invariant
                self.wf(),
                0 <= k <= self.chain@.len(),
                self.dims == old(self).dims,
                self.chain@.len() == old(self).chain@.len(),
                forall|m: int|
                    0 <= m < self.chain@.len() ==> (#[trigger] self.chain@[m]).region == old(self).chain@[m].region && self.chain@[m].active_volume == old(self).chain@[m].active_volume && self.chain@[m].remainder == old(self).chain@[m].remainder,
                r0 == old(regions)@,
                old(self).wf(),
                forall|m: int|
                    0 <= m < regions@.len() ==> (#[trigger] regions@[m]).valid()
                        && regions@[m].strict() && regions@[m].dims() == old(self).spec_dims(),
                pairwise_disjoint(regions@),
                sum_vol(regions@) <= vol_cap(MAX_DIM as int),
                forall|p: Seq<int>|
                    #![trigger covered(regions@, p)]
                    #![trigger covered(r0, p)]
                    covered(regions@, p) <==> (covered(r0, p) && !old(self).shadowed(k as int, p)),
                trace.len() == k,
                forall|m: int, p: Seq<int>|
                    0 <= m < k ==> ((#[trigger] covered(trace[m], p)) <==> (covered(r0, p) && old(self).chain@[m].region.contains(p) && !old(self).shadowed(m, p))),
                forall|m: int, j: int|
                    0 <= m < k && 0 <= j < trace[m].len() ==> (#[trigger] trace[m][j]).valid()
                        && trace[m][j].strict(),
                old(self).chain@.len() == 0 ==> *transition_system == *old(transition_system)
                    && *regions == *old(regions) && *tmp_vec == *old(tmp_vec),
            decreases self.chain@.len() - k,
        {
            tmp_vec.clear();
            let ghost pre_regions = regions@;
            let reg = self.chain[k].region.duplicate();
            proof {
                lemma_region_congruence(reg, self.chain@[k as int].region);
            }
            let _claimed = reg.cut_regions(regions, tmp_vec);
            proof {
                assert(tmp_vec@.skip(0) =~= tmp_vec@);
                let pieces = tmp_vec@;
                let kk = k as int;
                assert forall|p: Seq<int>| #[trigger] covered(pieces, p) <==> (covered(r0, p)
                    && old(self).chain@[kk].region.contains(p) && !old(self).shadowed(kk, p)) by {
                    if covered(pieces, p) {
                        assert(covered(pre_regions, p));
                        assert(reg.contains(p)) by {
                            let j = choose|j: int|
                                0 <= j < pieces.len() && (#[trigger] pieces[j]).contains(p);
                        }
                    }
                    if covered(pre_regions, p) && reg.contains(p) {
                        if covered(regions@, p) {
                            assert(!reg.contains(p));
                        }
                        assert(covered(pieces, p));
                    }
                }
                trace = trace.push(tmp_vec@);
                assert forall|p: Seq<int>|
                    #![trigger covered(regions@, p)]
                    #![trigger covered(r0, p)]
                    covered(regions@, p) <==> (covered(r0, p) && !old(self).shadowed(
                        kk + 1,
                        p,
                    )) by {
                    if covered(regions@, p) {
                        assert(covered(pre_regions, p));
                        assert(!reg.contains(p));
                        assert(!old(self).shadowed(kk, p));
                        assert forall|j: int|
                            0 <= j < kk + 1 implies !(#[trigger] old(self).chain@[j]).region.contains(
                            p,
                        ) by {
                            if j < kk {
                                assert(!old(self).shadowed(kk, p));
                            } else {
                                assert(!reg.contains(p));
                            }
                        }
                    }
                    if covered(r0, p) && !old(self).shadowed(kk + 1, p) {
                        assert(!old(self).shadowed(kk, p)) by {
                            if old(self).shadowed(kk, p) {
                                let j = choose|j: int|
                                    0 <= j < kk && (#[trigger] old(self).chain@[j]).region.contains(
                                        p,
                                    );
                            }
                        }
                        assert(covered(pre_regions, p));
                        assert(!old(self).chain@[kk].region.contains(p));
                        assert(!reg.contains(p));
                        assert(!covered(pieces, p));
                        assert(covered(regions@, p));
                    }
                }
            }
            if tmp_vec.len() > 0 {
                let node = &mut self.chain[k];
                transition_system.on_update(tmp_vec, &mut node.value, &reg);
            }
            proof {
                assert forall|m: int, p: Seq<int>| 0 <= m < self.chain@.len() implies ((
                #[trigger] self.chain@[m].live(p)) <==> (self.chain@[m].region.contains(p)
                    && !self.shadowed(m, p))) by {
                    assert(self.chain@[m].remainder == old(self).chain@[m].remainder);
                    assert(self.chain@[m].region == old(self).chain@[m].region);
                    assert(old(self).chain@[m].live(p) <==> (old(self).chain@[m].region.contains(p)
                        && !old(self).shadowed(m, p)));
                    if self.shadowed(m, p) {
                        let j = choose|j: int|
                            0 <= j < m && (#[trigger] self.chain@[j]).region.contains(p);
                        assert(old(self).chain@[j].region.contains(p));
                    }
                    if old(self).shadowed(m, p) {
                        let j = choose|j: int|
                            0 <= j < m && (#[trigger] old(self).chain@[j]).region.contains(p);
                        assert(self.chain@[j].region.contains(p));
                    }
                }
                assert forall|m: int| 0 <= m < self.chain@.len() implies (
                #[trigger] self.chain@[m]).wf() && self.chain@[m].region.dims()
                    == self.spec_dims() by {
                    assert(self.chain@[m].remainder == old(self).chain@[m].remainder);
                    assert(self.chain@[m].region == old(self).chain@[m].region);
                    assert(self.chain@[m].active_volume == old(self).chain@[m].active_volume);
                    assert(old(self).chain@[m].wf());
                }
            }
            k = k + 1;
        }
        proof {
            assert forall|p: Seq<int>| #[trigger] self.covers(p) == old(self).covers(p) by {
                if self.covers(p) {
                    let j = choose|j: int|
                        0 <= j < self.chain@.len() && (#[trigger] self.chain@[j]).region.contains(
                            p,
                        );
                    assert(old(self).chain@[j].region.contains(p));
                }
                if old(self).covers(p) {
                    let j = choose|j: int|
                        0 <= j < old(self).chain@.len() && (
                        #[trigger] old(self).chain@[j]).region.contains(p);
                    assert(self.chain@[j].region.contains(p));
                }
            }
            let len = old(self).chain@.len() as int;
            assert forall|p: Seq<int>| #[trigger] old(self).covers(p) == old(self).shadowed(
                len,
                p,
            ) by {
                if old(self).covers(p) {
                    let j = choose|j: int|
                        0 <= j < len && (#[trigger] old(self).chain@[j]).region.contains(p);
                }
                if old(self).shadowed(len, p) {
                    let j = choose|j: int|
                        0 <= j < len && (#[trigger] old(self).chain@[j]).region.contains(p);
                }
            }
        }
        Ghost(trace)
    }

    /// Destructive write pass.  Fresh records covering exactly the given
    /// footprint are created — via [`TransitionSystem::on_create`], one per
    /// region, in list order — and prepended ahead of the old chain, newest
    /// first.  Each old record loses the part of its remaining volume that
    /// the footprint covers, reported to [`TransitionSystem::on_override`],
    /// and records whose active volume reaches zero are removed.  Afterwards
    /// the tracker covers exactly its old coverage plus the footprint.
    pub fn override_regions_vec<S: TransitionSystem<V>>(
        &mut self,
        transition_system: &mut S,
        regions: &mut Vec<Region>,
        tmp_vec: &mut Vec<Region>,
    ) -> (trace: Ghost<Seq<Seq<Region>>>)
        requires
            old(self).wf(),
            old(regions)@.len() > 0,
            forall|k: int|
                0 <= k < old(regions)@.len() ==> (#[trigger] old(regions)@[k]).valid()
                    && old(regions)@[k].strict() && old(regions)@[k].dims() == old(self).spec_dims(),
            pairwise_disjoint(old(regions)@),
            sum_vol(old(regions)@) <= vol_cap(MAX_DIM as int),
        ensures
            final(self).wf(),
            final(self).dims == old(self).dims,
            final(self).chain@.len() >= old(regions)@.len(),
            forall|j: int|
                0 <= j < old(regions)@.len() ==> (#[trigger] final(self).chain@[j]).region.start@
                    == old(regions)@[old(regions)@.len() - 1 - j].start@
                    && final(self).chain@[j].region.end@
                    == old(regions)@[old(regions)@.len() - 1 - j].end@,
            forall|p: Seq<int>|
                #![trigger final(self).covers(p)]
                #![trigger old(self).covers(p)]
                final(self).covers(p) <==> (old(self).covers(p) || covered(old(regions)@, p)),
            trace@.len() == old(self).chain@.len(),
            forall|k: int, p: Seq<int>|
                0 <= k < trace@.len() ==> ((#[trigger] covered(trace@[k], p)) <==> (covered(
                    old(regions)@,
                    p,
                ) && old(self).chain@[k].region.contains(p) && !old(self).shadowed(k, p))),
            forall|k: int, j: int|
                0 <= k < trace@.len() && 0 <= j < trace@[k].len() ==> (
                #[trigger] trace@[k][j]).valid() && trace@[k][j].strict(),
            final(self).chain@.len() == old(regions)@.len() + surviving_records(
                old(self).chain@,
                old(regions)@,
            ).len(),
            forall|m: int|
                0 <= m < surviving_records(old(self).chain@, old(regions)@).len() ==> (
                #[trigger] final(self).chain@[old(regions)@.len() + m]).region
                    == surviving_records(old(self).chain@, old(regions)@)[m].region,
            forall|m: int, p: Seq<int>|
                0 <= m < surviving_records(old(self).chain@, old(regions)@).len() ==> ((
                #[trigger] final(self).chain@[old(regions)@.len() + m].live(p)) <==> (
                surviving_records(old(self).chain@, old(regions)@)[m].live(p) && !covered(
                    old(regions)@,
                    p,
                ))),
    {
        let ghost mut trace: Seq<Seq<Region>> = Seq::empty();
        let ghost r0 = old(regions)@;
        let ghost c0 = old(self).chain@;
        let n = regions.len();

        // Phase 1: one fresh record per footprint region, prepended in list
        // order so that the last region ends up at the front.
        let mut fresh: Vec<RegionInfo<V>> = Vec::new();
        let mut j: usize = 0;
        while j < n
            invariant
                n == r0.len(),
                r0 == old(regions)@,
                *regions == *old(regions),
                old(self).wf(),
                forall|k: int|
                    0 <= k < r0.len() ==> (#[trigger] r0[k]).valid() && r0[k].strict()
                        && r0[k].dims() == old(self).spec_dims(),
                pairwise_disjoint(r0),
                0 <= j <= n,
                fresh@.len() == j,
                forall|t: int|
                    0 <= t < j ==> (#[trigger] fresh@[t]).region.start@ == r0[j - 1 - t].start@
                        && fresh@[t].region.end@ == r0[j - 1 - t].end@,
                forall|t: int|
                    0 <= t < j ==> (#[trigger] fresh@[t]).wf() && fresh@[t].region.dims() == old(self).spec_dims(),
                forall|t: int, p: Seq<int>|
                    0 <= t < j ==> ((#[trigger] fresh@[t].live(p)) <==> fresh@[t].region.contains(p)),
            decreases n - j,
        {
            let ghost fresh_pre = fresh@;
            let value = transition_system.on_create(&regions[j]);
            let reg = regions[j].duplicate();
            let av = reg.volume();
            let mut rem: Vec<Region> = Vec::new();
            rem.push(regions[j].duplicate());
            proof {
                lemma_region_congruence(reg, regions@[j as int]);
                lemma_region_congruence(rem@[0], regions@[j as int]);
                lemma_vol_cap_table();
                assert(rem@.drop_last() =~= Seq::<Region>::empty());
                assert(sum_vol(rem@) == sum_vol(rem@.drop_last()) + rem@.last().spec_volume());
                assert(sum_vol(rem@.drop_last()) == 0);
                assert(rem@.last() == rem@[0]);
            }
            let node = RegionInfo { region: reg, active_volume: av, value, remainder: rem };
            fresh.insert(0, node);
            proof {
                assert(fresh@ =~= seq![node] + fresh_pre);
                assert forall|t: int, p: Seq<int>| 0 <= t < j + 1 implies ((
                #[trigger] fresh@[t].live(p)) <==> fresh@[t].region.contains(p)) by {
                    if t == 0 {
                        assert(fresh@[0] == node);
                        if fresh@[0].live(p) {
                            let q = choose|q: int|
                                0 <= q < fresh@[0].remainder@.len() && (
                                #[trigger] fresh@[0].remainder@[q]).contains(p);
                        }
                        if fresh@[0].region.contains(p) {
                            assert(fresh@[0].remainder@[0].contains(p));
                        }
                    } else {
                        assert(fresh@[t] == fresh_pre[t - 1]);
                        assert(fresh_pre[t - 1].live(p) <==> fresh_pre[t - 1].region.contains(p));
                    }
                }
            }
            j = j + 1;
        }

        // Phase 2: walk the old chain front to back; each record gives up
        // the part of the footprint it still holds.
        let mut k: usize = 0;
        while k < self.chain.len()
            invariant
                self.dims == old(self).dims,
                1 <= self.dims <= MAX_DIM,
                c0 == old(self).chain@,
                r0 == old(regions)@,
                old(self).wf(),
                0 <= k <= self.chain@.len(),
                self.chain@.len() == c0.len(),
                forall|m: int|
                    0 <= m < c0.len() ==> (#[trigger] self.chain@[m]).region == c0[m].region,
                forall|m: int|
                    k <= m < c0.len() ==> (#[trigger] self.chain@[m]).remainder == c0[m].remainder
                        && self.chain@[m].active_volume == c0[m].active_volume,
                forall|m: int|
                    0 <= m < c0.len() ==> (#[trigger] self.chain@[m]).wf_loose()
                        && self.chain@[m].region.dims() == old(self).spec_dims(),
                forall|m: int|
                    0 <= m < regions@.len() ==> (#[trigger] regions@[m]).valid()
                        && regions@[m].strict() && regions@[m].dims() == old(self).spec_dims(),
                pairwise_disjoint(regions@),
                sum_vol(regions@) <= vol_cap(MAX_DIM as int),
                forall|p: Seq<int>|
                    #![trigger covered(regions@, p)]
                    #![trigger covered(r0, p)]
                    covered(regions@, p) <==> (covered(r0, p) && !old(self).shadowed(k as int, p)),
                forall|m: int, p: Seq<int>|
                    0 <= m < k ==> ((#[trigger] self.chain@[m].live(p)) <==> (c0[m].live(p)
                        && !covered(r0, p))),
                trace.len() == k,
                forall|m: int, p: Seq<int>|
                    0 <= m < k ==> ((#[trigger] covered(trace[m], p)) <==> (covered(r0, p)
                        && c0[m].region.contains(p) && !old(self).shadowed(m, p))),
                forall|m: int, j: int|
                    0 <= m < k && 0 <= j < trace[m].len() ==> (#[trigger] trace[m][j]).valid()
                        && trace[m][j].strict(),
                fresh@.len() == n,
                n == r0.len(),
                forall|t: int|
                    0 <= t < n ==> (#[trigger] fresh@[t]).region.start@ == r0[n - 1 - t].start@
                        && fresh@[t].region.end@ == r0[n - 1 - t].end@,
                forall|t: int|
                    0 <= t < n ==> (#[trigger] fresh@[t]).wf() && fresh@[t].region.dims() == old(self).spec_dims(),
                forall|t: int, p: Seq<int>|
                    0 <= t < n ==> ((#[trigger] fresh@[t].live(p)) <==> fresh@[t].region.contains(p)),
            decreases self.chain@.len() - k,
        {
            tmp_vec.clear();
            let ghost pre_regions = regions@;
            let reg = self.chain[k].region.duplicate();
            proof {
                lemma_region_congruence(reg, self.chain@[k as int].region);
            }
            let _claimed = reg.cut_regions(regions, tmp_vec);
            let ghost pieces = tmp_vec@;
            proof {
                assert(tmp_vec@.skip(0) =~= tmp_vec@);
                assert forall|p: Seq<int>| #[trigger] covered(pieces, p) <==> (covered(r0, p)
                    && c0[k as int].region.contains(p) && !old(self).shadowed(k as int, p)) by {
                    if covered(pieces, p) {
                        assert(covered(pre_regions, p));
                        assert(reg.contains(p)) by {
                            let q = choose|q: int|
                                0 <= q < pieces.len() && (#[trigger] pieces[q]).contains(p);
                        }
                    }
                    if covered(pre_regions, p) && reg.contains(p) {
                        if covered(regions@, p) {
                            assert(!reg.contains(p));
                        }
                        assert(covered(pieces, p));
                    }
                }
                trace = trace.push(pieces);
                assert forall|p: Seq<int>|
                    #![trigger covered(regions@, p)]
                    #![trigger covered(r0, p)]
                    covered(regions@, p) <==> (covered(r0, p) && !old(self).shadowed(
                        k as int + 1,
                        p,
                    )) by {
                    if covered(regions@, p) {
                        assert(covered(pre_regions, p));
                        assert(!reg.contains(p));
                        assert(!old(self).shadowed(k as int, p));
                        assert forall|q: int|
                            0 <= q < k as int + 1 implies !(
                        #[trigger] old(self).chain@[q]).region.contains(p) by {
                            if q < k as int {
                                assert(!old(self).shadowed(k as int, p));
                            } else {
                                assert(!reg.contains(p));
                            }
                        }
                    }
                    if covered(r0, p) && !old(self).shadowed(k as int + 1, p) {
                        assert(!old(self).shadowed(k as int, p)) by {
                            if old(self).shadowed(k as int, p) {
                                let q = choose|q: int|
                                    0 <= q < k as int && (
                                    #[trigger] old(self).chain@[q]).region.contains(p);
                            }
                        }
                        assert(covered(pre_regions, p));
                        assert(!old(self).chain@[k as int].region.contains(p));
                        assert(!reg.contains(p));
                        assert(!covered(pieces, p));
                        assert(covered(regions@, p));
                    }
                }
            }
            if tmp_vec.len() > 0 {
                let node = &mut self.chain[k];
                transition_system.on_override(tmp_vec, &mut node.value, &reg);
            }
            // Subtract the claimed pieces from the record's remainder.
            let ghost chain_pre = self.chain@;
            let ghost rem_init = self.chain@[k as int].remainder@;
            let mut scratch: Vec<Region> = Vec::new();
            let mut removed: i128 = 0;
            let mut t: usize = 0;
            proof {
                assert(pieces.take(0) =~= Seq::<Region>::empty());
                lemma_sum_vol_bounds(rem_init);
            }
            while t < tmp_vec.len()
                invariant
                    0 <= t <= tmp_vec@.len(),
                    pieces == tmp_vec@,
                    self.dims == old(self).dims,
                    1 <= self.dims <= MAX_DIM,
                    k < self.chain@.len(),
                    self.chain@.len() == chain_pre.len(),
                    forall|m: int|
                        0 <= m < chain_pre.len() && m != k ==> #[trigger] self.chain@[m]
                            == chain_pre[m],
                    self.chain@[k as int].region == chain_pre[k as int].region,
                    self.chain@[k as int].value == chain_pre[k as int].value,
                    self.chain@[k as int].active_volume == chain_pre[k as int].active_volume,
                    self.chain@[k as int].region.valid(),
                    self.chain@[k as int].region.strict(),
                    forall|q: int|
                        0 <= q < pieces.len() ==> (#[trigger] pieces[q]).valid()
                            && pieces[q].strict() && pieces[q].same_dims(self.chain@[k as int].region),
                    forall|q: int|
                        0 <= q < self.chain@[k as int].remainder@.len() ==> (
                        #[trigger] self.chain@[k as int].remainder@[q]).valid()
                            && self.chain@[k as int].remainder@[q].strict()
                            && self.chain@[k as int].remainder@[q].same_dims(self.chain@[k as int].region),
                    pairwise_disjoint(self.chain@[k as int].remainder@),
                    forall|p: Seq<int>|
                        #![trigger covered(rem_init, p)]
                        #![trigger covered(self.chain@[k as int].remainder@, p)]
                        covered(self.chain@[k as int].remainder@, p) <==> (covered(rem_init, p)
                            && !covered(pieces.take(t as int), p)),
                    removed == sum_vol(rem_init) - sum_vol(self.chain@[k as int].remainder@),
                    0 <= sum_vol(self.chain@[k as int].remainder@) <= sum_vol(rem_init),
                    sum_vol(rem_init) <= vol_cap(MAX_DIM as int),
                decreases tmp_vec@.len() - t,
            {
                let ghost rem_pre = self.chain@[k as int].remainder@;
                let piece = tmp_vec[t].duplicate();
                proof {
                    lemma_region_congruence(piece, tmp_vec@[t as int]);
                }
                let node = &mut self.chain[k];
                let v = piece.cut_regions(&mut node.remainder, &mut scratch);
                proof {
                    lemma_vol_cap_table();
                }
                removed = removed + v;
                proof {
                    let rem_now = self.chain@[k as int].remainder@;
                    lemma_sum_vol_bounds(rem_now);
                    assert(pieces.take(t as int + 1) =~= pieces.take(t as int).push(pieces[t as int]));
                    assert forall|p: Seq<int>|
                        #![trigger covered(rem_init, p)]
                        #![trigger covered(rem_now, p)]
                        covered(rem_now, p) <==> (covered(rem_init, p) && !covered(
                            pieces.take(t as int + 1),
                            p,
                        )) by {
                        crate::region::lemma_covered_push(pieces.take(t as int), pieces[t as int], p);
                        if covered(rem_now, p) {
                            assert(covered(rem_pre, p));
                            assert(!piece.contains(p));
                        }
                        if covered(rem_init, p) && !covered(pieces.take(t as int + 1), p) {
                            assert(covered(rem_pre, p));
                            assert(!piece.contains(p));
                            assert(covered(rem_now, p));
                        }
                    }
                }
                t = t + 1;
            }
            proof {
                assert(pieces.take(pieces.len() as int) =~= pieces);
            }
            let node = &mut self.chain[k];
            node.active_volume = node.active_volume - removed;
            proof {
                let rem_fin = self.chain@[k as int].remainder@;
                assert forall|p: Seq<int>| ((#[trigger] self.chain@[k as int].live(p)) <==> (
                c0[k as int].live(p) && !covered(r0, p))) by {
                    assert(covered(rem_fin, p) <==> (covered(rem_init, p) && !covered(pieces, p)));
                    assert(c0[k as int].live(p) == covered(rem_init, p));
                    if covered(rem_init, p) {
                        assert(c0[k as int].live(p));
                        assert(c0[k as int].region.contains(p) && !old(self).shadowed(k as int, p));
                        assert(covered(pieces, p) <==> covered(r0, p));
                    }
                }
                assert forall|q: int, p: Seq<int>|
                    0 <= q < self.chain@[k as int].remainder@.len() && #[trigger] self.chain@[
                        k as int
                    ].remainder@[q].contains(p) implies self.chain@[k as int].region.contains(
                    p,
                ) by {
                    assert(covered(rem_fin, p)) by {
                        assert(rem_fin[q].contains(p));
                    }
                    assert(covered(rem_init, p));
                    let w = choose|w: int|
                        0 <= w < rem_init.len() && (#[trigger] rem_init[w]).contains(p);
                    assert(c0[k as int].wf());
                }
                assert(self.chain@[k as int].wf_loose());
                assert forall|m: int, p: Seq<int>|
                    0 <= m < k as int + 1 implies ((#[trigger] self.chain@[m].live(p)) <==> (
                c0[m].live(p) && !covered(r0, p))) by {
                    if m < k as int {
                        assert(self.chain@[m] == chain_pre[m]);
                    }
                }
            }
            k = k + 1;
        }

        // Phase 3: records whose active volume reached zero are removed.
        let ghost cmid = self.chain@;
        let ghost mut qq: int = 0;
        let mut m: usize = 0;
        proof {
            assert(cmid.len() == c0.len());
            assert forall|k: int, p: Seq<int>|
                0 <= k < cmid.len() implies ((#[trigger] cmid[k].live(p)) <==> (c0[k].live(p)
                    && !covered(r0, p))) by {}
            assert forall|k: int|
                0 <= k < cmid.len() implies (#[trigger] cmid[k]).region == c0[k].region by {}
            assert forall|q: int, p: Seq<int>|
                0 <= q < self.chain@.len() implies ((#[trigger] self.chain@[q].live(p)) <==> (
            self.chain@[q].region.contains(p) && !self.shadowed(q, p) && !covered(r0, p))) by {
                assert(c0[q].live(p) <==> (c0[q].region.contains(p) && !old(self).shadowed(q, p)));
                assert(self.chain@[q].region == c0[q].region);
                if self.shadowed(q, p) {
                    let w = choose|w: int|
                        0 <= w < q && (#[trigger] self.chain@[w]).region.contains(p);
                    assert(old(self).chain@[w].region.contains(p));
                }
                if old(self).shadowed(q, p) {
                    let w = choose|w: int|
                        0 <= w < q && (#[trigger] old(self).chain@[w]).region.contains(p);
                    assert(self.chain@[w].region.contains(p));
                }
            }
            assert forall|p: Seq<int>|
                #![trigger old(self).covers(p)]
                #![trigger covered(r0, p)]
                ((self.covers(p) || covered(r0, p)) <==> (old(self).covers(p) || covered(
                    r0,
                    p,
                ))) by {
                if self.covers(p) {
                    let w = choose|w: int|
                        0 <= w < self.chain@.len() && (#[trigger] self.chain@[w]).region.contains(p);
                    assert(old(self).chain@[w].region.contains(p));
                }
                if old(self).covers(p) {
                    let w = choose|w: int|
                        0 <= w < c0.len() && (#[trigger] old(self).chain@[w]).region.contains(p);
                    assert(self.chain@[w].region.contains(p));
                }
            }
        }
        while m < self.chain.len()
            invariant
                self.dims == old(self).dims,
                1 <= self.dims <= MAX_DIM,
                r0 == old(regions)@,
                old(self).wf(),
                0 <= m <= self.chain@.len(),
                forall|q: int|
                    0 <= q < self.chain@.len() ==> (#[trigger] self.chain@[q]).wf_loose()
                        && self.chain@[q].region.dims() == old(self).spec_dims(),
                forall|q: int| 0 <= q < m ==> (#[trigger] self.chain@[q]).remainder@.len() > 0,
                forall|q: int, p: Seq<int>|
                    0 <= q < self.chain@.len() ==> ((#[trigger] self.chain@[q].live(p)) <==> (
                    self.chain@[q].region.contains(p) && !self.shadowed(q, p) && !covered(
                        r0,
                        p,
                    ))),
                forall|p: Seq<int>|
                    #![trigger old(self).covers(p)]
                    #![trigger covered(r0, p)]
                    ((self.covers(p) || covered(r0, p)) <==> (old(self).covers(p) || covered(
                        r0,
                        p,
                    ))),
                cmid.len() == c0.len(),
                forall|k: int, p: Seq<int>|
                    0 <= k < cmid.len() ==> ((#[trigger] cmid[k].live(p)) <==> (c0[k].live(p)
                        && !covered(r0, p))),
                forall|k: int| 0 <= k < cmid.len() ==> (#[trigger] cmid[k]).region == c0[k].region,
                m <= qq <= cmid.len(),
                self.chain@.len() == m + (cmid.len() - qq),
                forall|j: int|
                    m <= j < self.chain@.len() ==> #[trigger] self.chain@[j] == cmid[qq + (j - m)],
                m == surviving_records(c0.take(qq), r0).len(),
                forall|j: int|
                    0 <= j < m ==> (#[trigger] self.chain@[j]).region == surviving_records(
                        c0.take(qq),
                        r0,
                    )[j].region,
                forall|j: int, p: Seq<int>|
                    0 <= j < m ==> ((#[trigger] self.chain@[j].live(p)) <==> (surviving_records(
                        c0.take(qq),
                        r0,
                    )[j].live(p) && !covered(r0, p))),
            decreases self.chain@.len() - m,
        {
            let ghost cpre = self.chain@;
            if self.chain[m].active_volume == 0 {
                proof {
                    lemma_sum_vol_bounds(self.chain@[m as int].remainder@);
                    assert(self.chain@[m as int].remainder@.len() == 0);
                    assert(cpre[m as int] == cmid[qq]);
                    assert(!record_survives(c0[qq], r0)) by {
                        if record_survives(c0[qq], r0) {
                            let p = choose|p: Seq<int>| c0[qq].live(p) && !covered(r0, p);
                            assert(cmid[qq].live(p));
                        }
                    }
                    assert(c0.take(qq + 1).drop_last() =~= c0.take(qq));
                    assert(c0.take(qq + 1).last() == c0[qq]);
                    assert(surviving_records(c0.take(qq + 1), r0) == surviving_records(
                        c0.take(qq),
                        r0,
                    ));
                    qq = qq + 1;
                }
                let _dead = self.chain.remove(m);
                proof {
                    let cnow = self.chain@;
                    assert(cnow =~= cpre.remove(m as int));
                    assert(cnow.len() == cpre.len() - 1);
                    assert forall|q: int|
                        0 <= q < cnow.len() implies #[trigger] cnow[q] == (if q < m {
                        cpre[q]
                    } else {
                        cpre[q + 1]
                    }) by {}
                    // The dead record's region lies under newer records or
                    // under the footprint, so dropping it changes nothing.
                    assert forall|p: Seq<int>|
                        #[trigger] cpre[m as int].region.contains(p) implies (exists|w: int|
                            0 <= w < m && (#[trigger] cpre[w]).region.contains(p)) || covered(
                            r0,
                            p,
                        ) by {
                        assert(!cpre[m as int].live(p));
                    }
                    assert forall|q: int, p: Seq<int>|
                        0 <= q < cnow.len() implies ((#[trigger] cnow[q].live(p)) <==> (
                    cnow[q].region.contains(p) && !self.shadowed(q, p) && !covered(r0, p))) by {
                        let qo: int = if q < m {
                            q
                        } else {
                            q + 1
                        };
                        assert(cnow[q] == cpre[qo]);
                        if self.shadowed(q, p) {
                            let w = choose|w: int|
                                0 <= w < q && (#[trigger] cnow[w]).region.contains(p);
                            let wo: int = if w < m {
                                w
                            } else {
                                w + 1
                            };
                            assert(cpre[wo].region.contains(p));
                            assert(exists|w2: int|
                                0 <= w2 < qo && (#[trigger] cpre[w2]).region.contains(p));
                        }
                        if exists|w: int| 0 <= w < qo && (#[trigger] cpre[w]).region.contains(p) {
                            let w = choose|w: int|
                                0 <= w < qo && (#[trigger] cpre[w]).region.contains(p);
                            if w == m {
                                if !covered(r0, p) {
                                    let w2 = choose|w2: int|
                                        0 <= w2 < m && (#[trigger] cpre[w2]).region.contains(p);
                                    assert(cnow[w2].region.contains(p));
                                    assert(self.shadowed(q, p));
                                }
                            } else {
                                let wn: int = if w < m {
                                    w
                                } else {
                                    w - 1
                                };
                                assert(cnow[wn] == cpre[w]);
                                assert(wn < q);
                                assert(self.shadowed(q, p));
                            }
                        }
                    }
                    assert forall|p: Seq<int>|
                        #![trigger old(self).covers(p)]
                        #![trigger covered(r0, p)]
                        ((self.covers(p) || covered(r0, p)) <==> (old(self).covers(p) || covered(
                            r0,
                            p,
                        ))) by {
                        if self.covers(p) {
                            let w = choose|w: int|
                                0 <= w < cnow.len() && (#[trigger] cnow[w]).region.contains(p);
                            let wo: int = if w < m {
                                w
                            } else {
                                w + 1
                            };
                            assert(cpre[wo].region.contains(p));
                            assert(exists|w2: int|
                                0 <= w2 < cpre.len() && (#[trigger] cpre[w2]).region.contains(p));
                        }
                        if old(self).covers(p) && !covered(r0, p) {
                            assert(exists|w: int|
                                0 <= w < cpre.len() && (#[trigger] cpre[w]).region.contains(p));
                            let w = choose|w: int|
                                0 <= w < cpre.len() && (#[trigger] cpre[w]).region.contains(p);
                            if w == m {
                                let w2 = choose|w2: int|
                                    0 <= w2 < m && (#[trigger] cpre[w2]).region.contains(p);
                                assert(cnow[w2].region.contains(p));
                            } else {
                                let wn: int = if w < m {
                                    w
                                } else {
                                    w - 1
                                };
                                assert(cnow[wn].region.contains(p));
                            }
                        }
                    }
                }
            } else {
                proof {
                    lemma_sum_vol_bounds(self.chain@[m as int].remainder@);
                    if self.chain@[m as int].remainder@.len() == 0 {
                        assert(self.chain@[m as int].remainder@ =~= Seq::<Region>::empty());
                        assert(sum_vol(self.chain@[m as int].remainder@) == 0);
                    }
                    assert(cpre[m as int] == cmid[qq]);
                    crate::region::lemma_strict_witness(self.chain@[m as int].remainder@[0]);
                    let p = choose|p: Seq<int>|
                        self.chain@[m as int].remainder@[0].contains(p);
                    assert(cmid[qq].live(p)) by {
                        assert(cmid[qq].remainder@[0].contains(p));
                    }
                    assert(c0[qq].live(p) && !covered(r0, p));
                    assert(record_survives(c0[qq], r0));
                    assert(c0.take(qq + 1).drop_last() =~= c0.take(qq));
                    assert(c0.take(qq + 1).last() == c0[qq]);
                    assert(surviving_records(c0.take(qq + 1), r0) == surviving_records(
                        c0.take(qq),
                        r0,
                    ).push(c0[qq]));
                    qq = qq + 1;
                }
                m = m + 1;
            }
        }

        // Phase 4: the fresh records stand in front of what survives.
        let ghost surv = self.chain@;
        let ghost fr = fresh@;
        fresh.append(&mut self.chain);
        self.chain = fresh;
        proof {
            let cf = self.chain@;
            assert(cf =~= fr + surv);
            let nn = n as int;
            // Fresh-prefix coverage is exactly the footprint.
            assert forall|p: Seq<int>| (exists|t: int|
                0 <= t < nn && (#[trigger] fr[t]).region.contains(p)) == covered(r0, p) by {
                if exists|t: int| 0 <= t < nn && (#[trigger] fr[t]).region.contains(p) {
                    let t = choose|t: int| 0 <= t < nn && (#[trigger] fr[t]).region.contains(p);
                    lemma_region_congruence(fr[t].region, r0[nn - 1 - t]);
                    assert(r0[nn - 1 - t].contains(p));
                }
                if covered(r0, p) {
                    let w = choose|w: int| 0 <= w < r0.len() && (#[trigger] r0[w]).contains(p);
                    lemma_region_congruence(fr[nn - 1 - w].region, r0[w]);
                    assert(fr[nn - 1 - w].region.contains(p));
                }
            }
            // Well-formed records throughout.
            assert forall|q: int|
                0 <= q < cf.len() implies (#[trigger] cf[q]).wf() && cf[q].region.dims()
                    == old(self).spec_dims() by {
                if q < nn {
                    assert(cf[q] == fr[q]);
                } else {
                    assert(cf[q] == surv[q - nn]);
                    assert(surv[q - nn].wf_loose() && surv[q - nn].remainder@.len() > 0);
                }
            }
            // Each record is live exactly where no newer record claims.
            assert forall|q: int, p: Seq<int>|
                0 <= q < cf.len() implies ((#[trigger] cf[q].live(p)) <==> (
            cf[q].region.contains(p) && !self.shadowed(q, p))) by {
                if q < nn {
                    assert(cf[q] == fr[q]);
                    assert(fr[q].live(p) <==> fr[q].region.contains(p));
                    if fr[q].region.contains(p) && self.shadowed(q, p) {
                        let w = choose|w: int| 0 <= w < q && (#[trigger] cf[w]).region.contains(p);
                        assert(cf[w] == fr[w]);
                        lemma_region_congruence(fr[w].region, r0[nn - 1 - w]);
                        lemma_region_congruence(fr[q].region, r0[nn - 1 - q]);
                        assert(r0[nn - 1 - w].contains(p) && r0[nn - 1 - q].contains(p));
                        crate::region::lemma_contains_overlap(r0[nn - 1 - w], r0[nn - 1 - q], p);
                    }
                } else {
                    let qs = q - nn;
                    assert(cf[q] == surv[qs]);
                    // The record's own shadowing splits into the fresh
                    // prefix — the footprint — and older survivors.
                    if cf[q].live(p) {
                        assert(surv[qs].region.contains(p) && !covered(r0, p));
                        if self.shadowed(q, p) {
                            let w = choose|w: int|
                                0 <= w < q && (#[trigger] cf[w]).region.contains(p);
                            if w < nn {
                                assert(fr[w].region.contains(p));
                                assert(covered(r0, p));
                            } else {
                                assert(surv[w - nn].region.contains(p));
                                assert(exists|w2: int|
                                    0 <= w2 < qs && (#[trigger] surv[w2]).region.contains(p));
                            }
                        }
                    }
                    if cf[q].region.contains(p) && !self.shadowed(q, p) {
                        assert(!covered(r0, p)) by {
                            if covered(r0, p) {
                                let w = choose|w: int|
                                    0 <= w < r0.len() && (#[trigger] r0[w]).contains(p);
                                lemma_region_congruence(fr[nn - 1 - w].region, r0[w]);
                                assert(cf[nn - 1 - w].region.contains(p));
                                assert(self.shadowed(q, p));
                            }
                        }
                        assert(!(exists|w2: int|
                            0 <= w2 < qs && (#[trigger] surv[w2]).region.contains(p))) by {
                            if exists|w2: int|
                                0 <= w2 < qs && (#[trigger] surv[w2]).region.contains(p) {
                                let w2 = choose|w2: int|
                                    0 <= w2 < qs && (#[trigger] surv[w2]).region.contains(p);
                                assert(cf[nn + w2].region.contains(p));
                                assert(self.shadowed(q, p));
                            }
                        }
                        assert(surv[qs].live(p));
                    }
                }
            }
            // The final coverage is the old coverage plus the footprint.
            assert forall|p: Seq<int>|
                #![trigger self.covers(p)]
                #![trigger old(self).covers(p)]
                (self.covers(p) <==> (old(self).covers(p) || covered(r0, p))) by {
                if self.covers(p) {
                    let w = choose|w: int|
                        0 <= w < cf.len() && (#[trigger] cf[w]).region.contains(p);
                    if w < nn {
                        assert(fr[w].region.contains(p));
                        assert(covered(r0, p));
                    } else {
                        assert(surv[w - nn].region.contains(p));
                        assert(exists|w2: int|
                            0 <= w2 < surv.len() && (#[trigger] surv[w2]).region.contains(p));
                    }
                }
                if covered(r0, p) {
                    let w = choose|w: int| 0 <= w < r0.len() && (#[trigger] r0[w]).contains(p);
                    lemma_region_congruence(fr[nn - 1 - w].region, r0[w]);
                    assert(cf[nn - 1 - w].region.contains(p));
                }
                if old(self).covers(p) && !covered(r0, p) {
                    assert(exists|w2: int|
                        0 <= w2 < surv.len() && (#[trigger] surv[w2]).region.contains(p));
                    let w2 = choose|w2: int|
                        0 <= w2 < surv.len() && (#[trigger] surv[w2]).region.contains(p);
                    assert(cf[nn + w2].region.contains(p));
                }
            }
            assert forall|jx: int|
                0 <= jx < nn implies (#[trigger] cf[jx]).region.start@ == r0[nn - 1 - jx].start@
                    && cf[jx].region.end@ == r0[nn - 1 - jx].end@ by {
                assert(cf[jx] == fr[jx]);
            }
            // what stands behind the fresh prefix is exactly the surviving
            // old records, in order, their live parts reduced by the
            // footprint
            assert(c0.take(c0.len() as int) =~= c0);
            assert(surv.len() == surviving_records(c0, r0).len());
            assert forall|mx: int|
                0 <= mx < surviving_records(c0, r0).len() implies (#[trigger] cf[nn + mx]).region
                    == surviving_records(c0, r0)[mx].region by {
                assert(cf[nn + mx] == surv[mx]);
            }
            assert forall|mx: int, p: Seq<int>|
                0 <= mx < surviving_records(c0, r0).len() implies ((#[trigger] cf[nn + mx].live(
                    p,
                )) <==> (surviving_records(c0, r0)[mx].live(p) && !covered(r0, p))) by {
                assert(cf[nn + mx] == surv[mx]);
            }
        }
        Ghost(trace)
    }
}


/// No overlaps: two distinct records of a well-formed tracker are never
/// live at the same point, so the live parts are pairwise disjoint.
pub proof fn lemma_live_parts_disjoint<V>(t: HistoryTracker<V>, j: int, k: int, p: Seq<int>)
    requires
        t.wf(),
        0 <= j < t.chain@.len(),
        0 <= k < t.chain@.len(),
        j != k,
    ensures
        !(t.chain@[j].live(p) && t.chain@[k].live(p)),
{
    let lo: int = if j < k {
        j
    } else {
        k
    };
    let hi: int = if j < k {
        k
    } else {
        j
    };
    if t.chain@[lo].live(p) && t.chain@[hi].live(p) {
        assert(t.chain@[lo].region.contains(p));
        assert(t.shadowed(hi, p));
    }
}

/// Helper for [`lemma_no_gaps`]: from position `k` on, the first record
/// whose region contains `p` is still live at `p`.
proof fn lemma_live_from<V>(t: HistoryTracker<V>, k: int, p: Seq<int>)
    requires
        t.wf(),
        0 <= k < t.chain@.len(),
        forall|j: int| 0 <= j < k ==> !(#[trigger] t.chain@[j]).region.contains(p),
        exists|j: int| k <= j < t.chain@.len() && (#[trigger] t.chain@[j]).region.contains(p),
    ensures
        exists|j: int| 0 <= j < t.chain@.len() && (#[trigger] t.chain@[j]).live(p),
    decreases t.chain@.len() - k,
{
    if t.chain@[k].region.contains(p) {
        assert(!t.shadowed(k, p)) by {
            if t.shadowed(k, p) {
                let j = choose|j: int| 0 <= j < k && (#[trigger] t.chain@[j]).region.contains(p);
            }
        }
        assert(t.chain@[k].live(p));
    } else {
        let w = choose|j: int|
            k <= j < t.chain@.len() && (#[trigger] t.chain@[j]).region.contains(p);
        assert(k + 1 <= w);
        lemma_live_from(t, k + 1, p);
    }
}

/// No gaps: every point some record's region contains — every point ever
/// written — is live in some record; shadowing never loses coverage.
pub proof fn lemma_no_gaps<V>(t: HistoryTracker<V>, p: Seq<int>)
    requires
        t.wf(),
        t.covers(p),
    ensures
        exists|j: int| 0 <= j < t.chain@.len() && (#[trigger] t.chain@[j]).live(p),
{
    lemma_live_from(t, 0, p);
}

/// Re-querying covered space is idempotent: an update whose footprint is a
/// single region fully contained in one record's region — and touching no
/// other record — is reported exactly once, as that full region at that
/// record, with nothing reported anywhere else.  The `trace` argument is
/// the per-record report returned by
/// [`HistoryTracker::update_regions_vec`] for the footprint `[q]`, described
/// by that function's contract.
pub proof fn lemma_update_reports_once<V>(
    t: HistoryTracker<V>,
    q: Region,
    k: int,
    trace: Seq<Seq<Region>>,
)
    requires
        t.wf(),
        0 <= k < t.chain@.len(),
        q.valid(),
        q.strict(),
        forall|p: Seq<int>| #[trigger] q.contains(p) ==> t.chain@[k].region.contains(p),
        forall|j: int|
            0 <= j < t.chain@.len() && j != k ==> !(#[trigger] t.chain@[j]).region.overlaps(q),
        trace.len() == t.chain@.len(),
        forall|m: int, p: Seq<int>|
            0 <= m < trace.len() ==> ((#[trigger] covered(trace[m], p)) <==> (q.contains(p)
                && t.chain@[m].region.contains(p) && !t.shadowed(m, p))),
        forall|m: int, j: int|
            0 <= m < trace.len() && 0 <= j < trace[m].len() ==> (#[trigger] trace[m][j]).valid()
                && trace[m][j].strict(),
    ensures
        forall|p: Seq<int>| #[trigger] covered(trace[k], p) == q.contains(p),
        forall|m: int| 0 <= m < trace.len() && m != k ==> trace[m].len() == 0,
{
    assert forall|p: Seq<int>| #[trigger] covered(trace[k], p) == q.contains(p) by {
        if q.contains(p) {
            assert(t.chain@[k].region.contains(p));
            assert(!t.shadowed(k, p)) by {
                if t.shadowed(k, p) {
                    let j = choose|j: int|
                        0 <= j < k && (#[trigger] t.chain@[j]).region.contains(p);
                    crate::region::lemma_contains_overlap(t.chain@[j].region, q, p);
                }
            }
            assert(covered(trace[k], p));
        }
    }
    assert forall|m: int| 0 <= m < trace.len() && m != k implies trace[m].len() == 0 by {
        if trace[m].len() > 0 {
            crate::region::lemma_strict_witness(trace[m][0]);
            let p = choose|p: Seq<int>| trace[m][0].contains(p);
            assert(covered(trace[m], p));
            assert(q.contains(p) && t.chain@[m].region.contains(p));
            crate::region::lemma_contains_overlap(t.chain@[m].region, q, p);
        }
    }
}

} // verus!
