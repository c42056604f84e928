//! The simpler, non-history partition variant used for basic allocation
//! bookkeeping: a flat set of pairwise-disjoint extents, each carrying a
//! value, re-partitioned in place as extents with transition decisions
//! arrive.

use vstd::prelude::*;

use crate::region::{
    lemma_contains_overlap, lemma_overlap_sym, lemma_overlap_witness, lemma_overlaps_iff_nonempty,
    lemma_inter_contains, lemma_region_congruence, lemma_strict_witness, lemma_sum_vol_bounds,
    lemma_volume_nonneg, covered, sum_vol, Region, MAX_DIM,
};

verus! {

/// Describes an axis-aligned rectangular volume.  `start` must always be
/// less than or equal to `end` in all its entries.
pub type Extent = Region;

impl Region {
    /// Per-dimension `max(start)` / `min(end)`, or absent when the extents
    /// share no volume.
    pub fn get_overlap(&self, other: &Region) -> (r: Option<Region>)
        requires
            self.valid(),
            other.valid(),
            self.same_dims(*other),
        ensures
            r.is_some() == self.nonempty_inter(*other),
            r matches Some(x) ==> {
                &&& x.valid()
                &&& x.strict()
                &&& x.same_dims(*self)
                &&& forall|i: int|
                    0 <= i < x.dims() ==> #[trigger] x.start@[i] == self.inter_start(*other, i)
                &&& forall|i: int|
                    0 <= i < x.dims() ==> #[trigger] x.end@[i] == self.inter_end(*other, i)
            },
    {
        self.intersection(other)
    }
}

/// What a [`TransitionFunction`] decides for one affected extent: leave the
/// recorded state alone, replace it with a new value, or clear it.
pub enum TransitionAction<V> {
    Ignore,
    Update(V),
    Clear,
}

/// The decision procedure handed to [`Partition::transition`]: it is called
/// with each overlap of the declared extent with a recorded entry — and
/// with each uncovered part, where no current value exists — and picks the
/// action to apply there.  Nothing is assumed of an implementation.
pub trait TransitionFunction<V>: Sized {
    fn apply(&mut self, extent: &Region, current: Option<&V>) -> TransitionAction<V>;
}


/// After carving one entry — the entry at `kf` shrinks to the overlap of
/// its old extent with `piece`, and the leftover slices are appended with
/// the old value — the extents are still pairwise disjoint, and outside
/// `piece` every point keeps exactly its values.
proof fn lemma_carve<V>(
    pre: Seq<Entry<V>>,
    now: Seq<Entry<V>>,
    kf: int,
    e_old: Region,
    oldv: V,
    slabs: Seq<Region>,
    piece: Region,
    d: nat,
)
    requires
        0 <= kf < pre.len(),
        now.len() == pre.len() + slabs.len(),
        forall|k: int|
            0 <= k < pre.len() ==> (#[trigger] pre[k]).extent.valid() && pre[k].extent.strict()
                && pre[k].extent.dims() == d,
        forall|j: int, k: int|
            0 <= j < pre.len() && 0 <= k < pre.len() && j != k ==> !(
            #[trigger] pre[j]).extent.overlaps(#[trigger] pre[k].extent),
        pre[kf].extent == e_old,
        pre[kf].value == oldv,
        piece.valid(),
        piece.strict(),
        piece.dims() == d,
        forall|m: int| 0 <= m < pre.len() && m != kf ==> #[trigger] now[m] == pre[m],
        now[kf].extent.valid() && now[kf].extent.strict() && now[kf].extent.dims() == d,
        forall|p: Seq<int>|
            #[trigger] now[kf].extent.contains(p) == (e_old.contains(p) && piece.contains(p)),
        forall|m: int|
            pre.len() <= m < now.len() ==> (#[trigger] now[m]).extent.start@ == slabs[m
                - pre.len()].start@ && now[m].extent.end@ == slabs[m - pre.len()].end@
                && now[m].value == oldv,
        forall|k: int|
            0 <= k < slabs.len() ==> (#[trigger] slabs[k]).valid() && slabs[k].strict()
                && slabs[k].same_dims(e_old),
        forall|j: int, k: int|
            0 <= j < slabs.len() && 0 <= k < slabs.len() && j != k ==> !(
            #[trigger] slabs[j]).overlaps(#[trigger] slabs[k]),
        forall|k: int| 0 <= k < slabs.len() ==> !(#[trigger] slabs[k]).overlaps(now[kf].extent),
        forall|k: int| 0 <= k < slabs.len() ==> !(#[trigger] slabs[k]).overlaps(piece),
        forall|p: Seq<int>|
            #[trigger] e_old.contains(p) <==> (now[kf].extent.contains(p) || crate::region::covered(
                slabs,
                p,
            )),
    ensures
        forall|k: int|
            0 <= k < now.len() ==> (#[trigger] now[k]).extent.valid() && now[k].extent.strict()
                && now[k].extent.dims() == d,
        forall|j: int, k: int|
            0 <= j < now.len() && 0 <= k < now.len() && j != k ==> !(
            #[trigger] now[j]).extent.overlaps(#[trigger] now[k].extent),
        forall|p: Seq<int>, v: V|
            !piece.contains(p) ==> ((#[trigger] seq_maps(now, p, v)) <==> seq_maps(pre, p, v)),
        forall|p: Seq<int>|
            #[trigger] seq_covers(now, p) ==> (seq_covers(pre, p) || piece.contains(p)),
{
    let n0 = pre.len() as int;
    assert forall|k: int|
        0 <= k < now.len() implies (#[trigger] now[k]).extent.valid() && now[k].extent.strict()
            && now[k].extent.dims() == d by {
        if k >= n0 {
            lemma_region_congruence(now[k].extent, slabs[k - n0]);
        }
    }
    assert forall|k: int, p: Seq<int>|
        0 <= k < now.len() && #[trigger] now[k].extent.contains(p) implies (e_old.contains(p)
            || (k < n0 && k != kf && pre[k].extent.contains(p))) by {
        if k == kf {
        } else if k >= n0 {
            lemma_region_congruence(now[k].extent, slabs[k - n0]);
            assert(crate::region::covered(slabs, p)) by {
                assert(slabs[k - n0].contains(p));
            }
        }
    }
    assert forall|j: int, k: int|
        0 <= j < now.len() && 0 <= k < now.len() && j != k implies !(
    #[trigger] now[j]).extent.overlaps(#[trigger] now[k].extent) by {
        if now[j].extent.overlaps(now[k].extent) {
            lemma_overlap_witness(now[j].extent, now[k].extent);
            let p = choose|p: Seq<int>| now[j].extent.contains(p) && now[k].extent.contains(p);
            if j < n0 && k < n0 && j != kf && k != kf {
                lemma_contains_overlap(pre[j].extent, pre[k].extent, p);
            } else if j >= n0 && k >= n0 {
                lemma_region_congruence(now[j].extent, slabs[j - n0]);
                lemma_region_congruence(now[k].extent, slabs[k - n0]);
                lemma_contains_overlap(slabs[j - n0], slabs[k - n0], p);
            } else if j == kf || k == kf {
                let o = if j == kf {
                    k
                } else {
                    j
                };
                assert(now[kf].extent.contains(p) && now[o].extent.contains(p));
                assert(e_old.contains(p));
                if o < n0 {
                    lemma_contains_overlap(pre[o].extent, e_old, p);
                } else {
                    lemma_region_congruence(now[o].extent, slabs[o - n0]);
                    lemma_contains_overlap(slabs[o - n0], now[kf].extent, p);
                }
            } else {
                let (s, o) = if j >= n0 {
                    (j, k)
                } else {
                    (k, j)
                };
                assert(now[s].extent.contains(p) && now[o].extent.contains(p));
                lemma_region_congruence(now[s].extent, slabs[s - n0]);
                assert(slabs[s - n0].contains(p));
                assert(e_old.contains(p)) by {
                    assert(crate::region::covered(slabs, p)) by {
                        assert(slabs[s - n0].contains(p));
                    }
                }
                assert(o < n0 && o != kf);
                lemma_contains_overlap(pre[o].extent, e_old, p);
            }
        }
    }
    assert forall|p: Seq<int>, v: V|
        !piece.contains(p) implies ((#[trigger] seq_maps(now, p, v)) <==> seq_maps(pre, p, v)) by {
        if seq_maps(now, p, v) {
            let m = choose|m: int|
                0 <= m < now.len() && (#[trigger] now[m]).extent.contains(p) && now[m].value == v;
            if m == kf {
                assert(piece.contains(p));
            } else if m < n0 {
                assert(pre[m].extent.contains(p) && pre[m].value == v);
            } else {
                lemma_region_congruence(now[m].extent, slabs[m - n0]);
                assert(crate::region::covered(slabs, p)) by {
                    assert(slabs[m - n0].contains(p));
                }
                assert(e_old.contains(p));
                assert(pre[kf].extent.contains(p) && pre[kf].value == v);
            }
        }
        if seq_maps(pre, p, v) {
            let m = choose|m: int|
                0 <= m < pre.len() && (#[trigger] pre[m]).extent.contains(p) && pre[m].value == v;
            if m != kf {
                assert(now[m].extent.contains(p) && now[m].value == v);
            } else {
                assert(e_old.contains(p));
                assert(!now[kf].extent.contains(p));
                assert(crate::region::covered(slabs, p));
                let s = choose|s: int|
                    0 <= s < slabs.len() && (#[trigger] slabs[s]).contains(p);
                lemma_region_congruence(now[n0 + s].extent, slabs[s]);
                assert(now[n0 + s].extent.contains(p) && now[n0 + s].value == v);
            }
        }
    }
    assert forall|p: Seq<int>| #[trigger] seq_covers(now, p) implies (seq_covers(pre, p)
        || piece.contains(p)) by {
        let m = choose|m: int| 0 <= m < now.len() && (#[trigger] now[m]).extent.contains(p);
        if e_old.contains(p) {
            assert(pre[kf].extent.contains(p));
        } else {
            assert(m < n0 && m != kf && pre[m].extent.contains(p));
        }
    }
}

/// One consultation of the transition function, recorded in the ghost trace
/// that [`Partition::transition`] returns: the consulted piece's
/// coordinates, the value the partition carried there — absent for
/// uncovered space — and the action the function chose for it.
pub struct TransitionEvent<V> {
    pub start: Seq<i64>,
    pub end: Seq<i64>,
    pub current: Option<V>,
    pub action: TransitionAction<V>,
}

impl<V> TransitionEvent<V> {
    /// True when `p` lies inside the consulted piece.
    pub open spec fn contains(self, p: Seq<int>) -> bool {
        &&& p.len() == self.start.len()
        &&& self.start.len() == self.end.len()
        &&& forall|i: int|
            0 <= i < self.start.len() ==> self.start[i] <= #[trigger] p[i] && p[i] < self.end[i]
    }

    /// Piece well-formedness: the partition's dimension count and a
    /// positive extent in every dimension.
    pub open spec fn wf(self, d: nat) -> bool {
        &&& self.start.len() == d
        &&& self.end.len() == d
        &&& forall|i: int| 0 <= i < d ==> #[trigger] self.start[i] < self.end[i]
    }
}

/// A well-formed partition that covers no point holds no entries.
pub proof fn lemma_partition_uncovered_empty<V: Copy>(part: Partition<V>)
    requires
        part.wf(),
        forall|p: Seq<int>| !part.covers(p),
    ensures
        part.entries@.len() == 0,
{
    if part.entries@.len() > 0 {
        lemma_strict_witness(part.entries@[0].extent);
        let p = choose|p: Seq<int>| part.entries@[0].extent.contains(p);
        assert(part.covers(p));
    }
}

/// A transition whose declared extent covers every recorded entry, and
/// whose function chose `Clear` at every consulted piece, leaves the
/// partition empty.  The `trace` and the relations between `pre`, `post`
/// and `extent` are the ones [`Partition::transition`]'s contract supplies.
pub proof fn lemma_clear_all_empties<V: Copy>(
    pre: Partition<V>,
    post: Partition<V>,
    extent: Region,
    trace: Seq<TransitionEvent<V>>,
)
    requires
        post.wf(),
        forall|p: Seq<int>| #[trigger] seq_covers(pre.entries@, p) ==> extent.contains(p),
        forall|t: int| 0 <= t < trace.len() ==> (#[trigger] trace[t]).action is Clear,
        forall|p: Seq<int>|
            #[trigger] extent.contains(p) ==> exists|t: int|
                0 <= t < trace.len() && (#[trigger] trace[t]).contains(p),
        forall|t: int, p: Seq<int>|
            0 <= t < trace.len() && trace[t].action is Clear && #[trigger] trace[t].contains(p)
                ==> !seq_covers(post.entries@, p),
        forall|p: Seq<int>|
            #[trigger] seq_covers(post.entries@, p) ==> (seq_covers(pre.entries@, p)
                || extent.contains(p)),
    ensures
        post.entries@.len() == 0,
{
    assert forall|p: Seq<int>| !(#[trigger] post.covers(p)) by {
        if seq_covers(post.entries@, p) {
            assert(extent.contains(p));
            let t = choose|t: int| 0 <= t < trace.len() && (#[trigger] trace[t]).contains(p);
            assert(!seq_covers(post.entries@, p));
        }
    }
    lemma_partition_uncovered_empty(post);
}

/// One recorded entry: an extent and the value tracked for it.
pub struct Entry<V> {
    pub extent: Region,
    pub value: V,
}

/// True when some entry of `es` has an extent containing `p`.
pub open spec fn seq_covers<V>(es: Seq<Entry<V>>, p: Seq<int>) -> bool {
    exists|k: int| 0 <= k < es.len() && (#[trigger] es[k]).extent.contains(p)
}

/// True when some entry of `es` maps the point `p` to the value `v`.
pub open spec fn seq_maps<V>(es: Seq<Entry<V>>, p: Seq<int>, v: V) -> bool {
    exists|k: int|
        0 <= k < es.len() && (#[trigger] es[k]).extent.contains(p) && es[k].value == v
}

/// A set of pairwise-disjoint extents, each carrying a value.
pub struct Partition<V> {
    pub entries: Vec<Entry<V>>,
    pub dims: usize,
}

/// Snapshot iterator over the `(extent, value)` pairs of a [`Partition`].
pub struct PartitionIterator<V> {
    pub items: Vec<(Region, V)>,
    pub pos: usize,
}

impl<V: Copy> PartitionIterator<V> {
    /// Hands out the next `(extent, value)` pair, if one is left.
    pub fn next(&mut self) -> (r: Option<(Region, V)>)
        ensures
            final(self).items == old(self).items,
            old(self).pos < old(self).items@.len() ==> {
                &&& final(self).pos == old(self).pos + 1
                &&& r matches Some(x) && x.0.start@ == old(self).items@[old(self).pos as int].0.start@
                    && x.0.end@ == old(self).items@[old(self).pos as int].0.end@ && x.1 == old(self).items@[old(self).pos as int].1
            },
            old(self).pos >= old(self).items@.len() ==> r is None && final(self).pos == old(self).pos,
    {
        if self.pos < self.items.len() {
            let ext = self.items[self.pos].0.duplicate();
            let val = self.items[self.pos].1;
            self.pos = self.pos + 1;
            Some((ext, val))
        } else {
            None
        }
    }
}

impl<V: Copy> Partition<V> {
    /// Dimension count of every extent this partition handles.
    pub open spec fn spec_dims(self) -> nat {
        self.dims as nat
    }

    /// Partition well-formedness: supported dimension count and pairwise
    /// disjoint, positive-volume extents.
    pub open spec fn wf(self) -> bool {
        &&& 1 <= self.dims <= MAX_DIM
        &&& forall|k: int|
            0 <= k < self.entries@.len() ==> (#[trigger] self.entries@[k]).extent.valid()
                && self.entries@[k].extent.strict() && self.entries@[k].extent.dims()
                == self.spec_dims()
        &&& forall|j: int, k: int|
            0 <= j < self.entries@.len() && 0 <= k < self.entries@.len() && j != k ==> !(
            #[trigger] self.entries@[j]).extent.overlaps(#[trigger] self.entries@[k].extent)
    }

    /// True when some entry's extent contains the point `p`.
    pub open spec fn covers(self, p: Seq<int>) -> bool {
        seq_covers(self.entries@, p)
    }

    /// True when some entry maps the point `p` to the value `v`.
    pub open spec fn maps(self, p: Seq<int>, v: V) -> bool {
        seq_maps(self.entries@, p, v)
    }

    /// Creates an empty partition.
    pub fn new(dims: usize) -> (part: Self)
        requires
            1 <= dims <= MAX_DIM,
        ensures
            part.wf(),
            part.entries@.len() == 0,
            part.spec_dims() == dims,
            forall|p: Seq<int>| !part.covers(p),
    {
        Partition { entries: Vec::new(), dims }
    }

    /// True when no extent is recorded.
    pub fn is_empty(&self) -> (r: bool)
        ensures
            r == (self.entries@.len() == 0),
    {
        self.entries.len() == 0
    }

    /// A snapshot of the live `(extent, value)` pairs, in storage order.
    pub fn iter(&self) -> (it: PartitionIterator<V>)
        ensures
            it.pos == 0,
            it.items@.len() == self.entries@.len(),
            forall|k: int|
                0 <= k < self.entries@.len() ==> (#[trigger] it.items@[k]).0.start@
                    == self.entries@[k].extent.start@ && it.items@[k].0.end@
                    == self.entries@[k].extent.end@ && it.items@[k].1 == self.entries@[k].value,
    {
        let mut items: Vec<(Region, V)> = Vec::new();
        let mut k: usize = 0;
        while k < self.entries.len()
            invariant
                0 <= k <= self.entries@.len(),
                items@.len() == k,
                forall|m: int|
                    0 <= m < k ==> (#[trigger] items@[m]).0.start@
                        == self.entries@[m].extent.start@ && items@[m].0.end@
                        == self.entries@[m].extent.end@ && items@[m].1 == self.entries@[m].value,
            decreases self.entries@.len() - k,
        {
            items.push((self.entries[k].extent.duplicate(), self.entries[k].value));
            k = k + 1;
        }
        PartitionIterator { items, pos: 0 }
    }

    /// The position of the first entry whose extent overlaps `piece`.
    fn find_overlap(entries: &Vec<Entry<V>>, piece: &Region) -> (r: Option<usize>)
        requires
            piece.valid(),
            forall|k: int|
                0 <= k < entries@.len() ==> (#[trigger] entries@[k]).extent.valid()
                    && entries@[k].extent.dims() == piece.dims(),
        ensures
            match r {
                Option::Some(kf) => kf < entries@.len() && entries@[kf as int].extent.overlaps(
                    *piece,
                ) && forall|j: int|
                    0 <= j < kf ==> !(#[trigger] entries@[j]).extent.overlaps(*piece),
                Option::None => forall|j: int|
                    0 <= j < entries@.len() ==> !(#[trigger] entries@[j]).extent.overlaps(*piece),
            },
    {
        let mut k: usize = 0;
        while k < entries.len()
            invariant
                0 <= k <= entries@.len(),
                piece.valid(),
                forall|m: int|
                    0 <= m < entries@.len() ==> (#[trigger] entries@[m]).extent.valid()
                        && entries@[m].extent.dims() == piece.dims(),
                forall|j: int| 0 <= j < k ==> !(#[trigger] entries@[j]).extent.overlaps(*piece),
            decreases entries@.len() - k,
        {
            if entries[k].extent.intersects(piece) {
                return Some(k);
            }
            k = k + 1;
        }
        None
    }

    /// Declares that the caller accesses `extent`.  For every part of
    /// `extent` overlapping a recorded entry, `f` is consulted with that
    /// overlap and the entry's value: `Ignore` keeps the entry as it is,
    /// `Update` re-partitions the entry so that exactly the overlap carries
    /// the new value, and `Clear` re-partitions the entry and drops the
    /// overlap.  For every part of `extent` that no entry covers, `f` is
    /// consulted with no current value and may create an entry there via
    /// `Update`.  State outside `extent` is never touched.
    /// Declares that the caller accesses `extent`.  For every part of
    /// `extent` overlapping a recorded entry, `f` is consulted with that
    /// overlap and the entry's value: `Ignore` keeps the entry as it is,
    /// `Update` re-partitions the entry so that exactly the overlap carries
    /// the new value, and `Clear` re-partitions the entry and drops the
    /// overlap.  For every part of `extent` that no entry covers, `f` is
    /// consulted with no current value and may create an entry there via
    /// `Update`.  State outside `extent` is never touched.
    ///
    /// Returns the trace of consultations: disjoint pieces that tile
    /// `extent` exactly, each carrying the value the partition held there
    /// and the action chosen, whose per-piece effect the contract pins.
    #[verifier::rlimit(100)]
    pub fn transition<F: TransitionFunction<V>>(&mut self, extent: &Region, f: &mut F) -> (trace:
        Ghost<Seq<TransitionEvent<V>>>)
        requires
            old(self).wf(),
            extent.valid(),
            extent.strict(),
            extent.dims() == old(self).spec_dims(),
        ensures
            final(self).wf(),
            final(self).dims == old(self).dims,
            forall|p: Seq<int>, v: V|
                !extent.contains(p) ==> ((#[trigger] final(self).maps(p, v)) <==> old(self).maps(
                    p,
                    v,
                )),
            forall|p: Seq<int>|
                #[trigger] final(self).covers(p) ==> (old(self).covers(p) || extent.contains(p)),
            forall|t: int| 0 <= t < trace@.len() ==> (#[trigger] trace@[t]).wf(old(self).spec_dims()),
            forall|t: int, p: Seq<int>|
                0 <= t < trace@.len() && #[trigger] trace@[t].contains(p) ==> extent.contains(p),
            forall|t1: int, t2: int, p: Seq<int>|
                0 <= t1 < trace@.len() && 0 <= t2 < trace@.len() && t1 != t2
                    && #[trigger] trace@[t1].contains(p) ==> !(#[trigger] trace@[t2].contains(p)),
            forall|p: Seq<int>|
                #[trigger] extent.contains(p) ==> exists|t: int|
                    0 <= t < trace@.len() && (#[trigger] trace@[t]).contains(p),
            forall|t: int, p: Seq<int>|
                0 <= t < trace@.len() && #[trigger] trace@[t].contains(p) ==> (
                trace@[t].current matches Option::Some(v) ==> seq_maps(old(self).entries@, p, v)),
            forall|t: int, p: Seq<int>|
                0 <= t < trace@.len() && trace@[t].current is None && #[trigger] trace@[t].contains(
                    p,
                ) ==> !seq_covers(old(self).entries@, p),
            forall|t: int, p: Seq<int>, w: V|
                #![trigger trace@[t].contains(p), seq_maps(final(self).entries@, p, w)]
                0 <= t < trace@.len() && trace@[t].action is Ignore && trace@[t].contains(p) ==> (
                seq_maps(final(self).entries@, p, w) <==> seq_maps(old(self).entries@, p, w)),
            forall|t: int, p: Seq<int>, w: V|
                #![trigger trace@[t].contains(p), seq_maps(final(self).entries@, p, w)]
                0 <= t < trace@.len() && trace@[t].contains(p) ==> (
                trace@[t].action matches TransitionAction::Update(v) ==> (seq_maps(
                    final(self).entries@,
                    p,
                    w,
                ) <==> w == v)),
            forall|t: int, p: Seq<int>|
                0 <= t < trace@.len() && trace@[t].action is Clear && #[trigger] trace@[t].contains(
                    p,
                ) ==> !seq_covers(final(self).entries@, p),
            (forall|k: int|
                0 <= k < old(self).entries@.len() ==> !(#[trigger] old(self).entries@[k]).extent.overlaps(*extent)) ==> {
                &&& trace@.len() == 1
                &&& trace@[0].start == extent.start@
                &&& trace@[0].end == extent.end@
                &&& trace@[0].current is None
                &&& (trace@[0].action matches TransitionAction::Update(v) ==> final(self).entries@.len() == old(self).entries@.len() + 1 && final(self).entries@.subrange(
                    0,
                    old(self).entries@.len() as int,
                ) == old(self).entries@ && final(self).entries@.last().extent.start@
                    == extent.start@ && final(self).entries@.last().extent.end@ == extent.end@
                    && final(self).entries@.last().value == v)
                &&& (!(trace@[0].action is Update) ==> final(self).entries == old(self).entries)
            },
    {
        let ghost mut evs: Seq<TransitionEvent<V>> = Seq::empty();
        let mut remaining: Vec<Region> = Vec::new();
        remaining.push(extent.duplicate());
        proof {
            assert(remaining@.drop_last() =~= Seq::<Region>::empty());
            lemma_region_congruence(remaining@[0], *extent);
            lemma_volume_nonneg(remaining@[0]);
            assert(remaining@.last() == remaining@[0]);
            assert(sum_vol(remaining@) == sum_vol(remaining@.drop_last())
                + remaining@.last().spec_volume());
            assert(sum_vol(remaining@.drop_last()) == 0);
        }
        while remaining.len() > 0
            invariant
                self.wf(),
                self.dims == old(self).dims,
                old(self).wf(),
                extent.valid(),
                extent.strict(),
                extent.dims() == old(self).spec_dims(),
                forall|k: int|
                    0 <= k < remaining@.len() ==> (#[trigger] remaining@[k]).valid()
                        && remaining@[k].strict() && remaining@[k].dims() == old(self).spec_dims(),
                forall|j: int, k: int|
                    0 <= j < remaining@.len() && 0 <= k < remaining@.len() && j != k ==> !(
                    #[trigger] remaining@[j]).overlaps(#[trigger] remaining@[k]),
                forall|k: int, p: Seq<int>|
                    0 <= k < remaining@.len() && #[trigger] remaining@[k].contains(p)
                        ==> extent.contains(p),
                forall|p: Seq<int>, v: V|
                    !extent.contains(p) ==> ((#[trigger] seq_maps(self.entries@, p, v)) <==> seq_maps(
                        old(self).entries@,
                        p,
                        v,
                    )),
                forall|p: Seq<int>|
                    #[trigger] seq_covers(self.entries@, p) ==> (seq_covers(old(self).entries@, p)
                        || extent.contains(p)),
                sum_vol(remaining@) >= 0,
                forall|t: int| 0 <= t < evs.len() ==> (#[trigger] evs[t]).wf(old(self).spec_dims()),
                forall|t: int, p: Seq<int>|
                    0 <= t < evs.len() && #[trigger] evs[t].contains(p) ==> extent.contains(p),
                forall|t1: int, t2: int, p: Seq<int>|
                    0 <= t1 < evs.len() && 0 <= t2 < evs.len() && t1 != t2
                        && #[trigger] evs[t1].contains(p) ==> !(#[trigger] evs[t2].contains(p)),
                forall|t: int, p: Seq<int>|
                    0 <= t < evs.len() && #[trigger] evs[t].contains(p) ==> !covered(remaining@, p),
                forall|p: Seq<int>|
                    #[trigger] extent.contains(p) ==> covered(remaining@, p) || exists|t: int|
                        0 <= t < evs.len() && (#[trigger] evs[t]).contains(p),
                forall|p: Seq<int>, v: V|
                    covered(remaining@, p) ==> ((#[trigger] seq_maps(self.entries@, p, v)) <==> seq_maps(
                        old(self).entries@,
                        p,
                        v,
                    )),
                forall|t: int, p: Seq<int>|
                    0 <= t < evs.len() && #[trigger] evs[t].contains(p) ==> (
                    evs[t].current matches Option::Some(v) ==> seq_maps(old(self).entries@, p, v)),
                forall|t: int, p: Seq<int>|
                    0 <= t < evs.len() && evs[t].current is None && #[trigger] evs[t].contains(p)
                        ==> !seq_covers(old(self).entries@, p),
                forall|t: int, p: Seq<int>, w: V|
                    #![trigger evs[t].contains(p), seq_maps(self.entries@, p, w)]
                    0 <= t < evs.len() && evs[t].action is Ignore && evs[t].contains(p) ==> (
                    seq_maps(self.entries@, p, w) <==> seq_maps(old(self).entries@, p, w)),
                forall|t: int, p: Seq<int>, w: V|
                    #![trigger evs[t].contains(p), seq_maps(self.entries@, p, w)]
                    0 <= t < evs.len() && evs[t].contains(p) ==> (
                    evs[t].action matches TransitionAction::Update(v) ==> (seq_maps(
                        self.entries@,
                        p,
                        w,
                    ) <==> w == v)),
                forall|t: int, p: Seq<int>|
                    0 <= t < evs.len() && evs[t].action is Clear && #[trigger] evs[t].contains(p)
                        ==> !seq_covers(self.entries@, p),
                (forall|k: int|
                    0 <= k < old(self).entries@.len() ==> !(#[trigger] old(self).entries@[k]).extent.overlaps(*extent)) ==> {
                    ||| (evs.len() == 0 && remaining@.len() == 1 && remaining@[0].start@
                        == extent.start@ && remaining@[0].end@ == extent.end@ && self.entries
                        == old(self).entries)
                    ||| (evs.len() == 1 && remaining@.len() == 0 && evs[0].start == extent.start@
                        && evs[0].end == extent.end@ && evs[0].current is None && (
                    evs[0].action matches TransitionAction::Update(v) ==> self.entries@.len()
                        == old(self).entries@.len() + 1 && self.entries@.subrange(
                        0,
                        old(self).entries@.len() as int,
                    ) == old(self).entries@ && self.entries@.last().extent.start@ == extent.start@
                        && self.entries@.last().extent.end@ == extent.end@
                        && self.entries@.last().value == v) && (!(evs[0].action is Update)
                        ==> self.entries == old(self).entries))
                },
            decreases sum_vol(remaining@),
        {
            let ghost evs0 = evs;
            let ghost ents_pre = self.entries@;
            let ghost rem_prepop = remaining@;
            let piece = match remaining.pop() {
                Option::Some(x) => x,
                Option::None => vstd::pervasive::unreached(),
            };
            let ghost rem0 = remaining@;
            proof {
                assert(rem_prepop =~= rem0.push(piece));
                assert(rem0.push(piece).drop_last() =~= rem0);
                assert(sum_vol(rem_prepop) == sum_vol(rem0) + piece.spec_volume());
                lemma_sum_vol_bounds(rem0);
                lemma_volume_nonneg(piece);
                assert(piece == rem_prepop[rem0.len() as int]);
            }
            let found = Self::find_overlap(&self.entries, &piece);
            match found {
                Option::Some(kf) => {
                    proof {
                        if forall|k2: int|
                            0 <= k2 < old(self).entries@.len() ==> !(#[trigger] old(self).entries@[k2]).extent.overlaps(*extent) {
                            // Impossible: under a fully disjoint footprint
                            // the first piece is the whole extent and no
                            // entry can overlap it.
                            assert(remaining@.len() == 0 && rem_prepop.len() == 1);
                            lemma_region_congruence(piece, *extent);
                            assert(old(self).entries@[kf as int].extent.overlaps(*extent));
                            assert(false);
                        }
                    }
                    let ghost e_old = self.entries@[kf as int].extent;
                    let ghost cur_val = self.entries@[kf as int].value;
                    let overlap = match self.entries[kf].extent.intersection(&piece) {
                        Option::Some(o) => o,
                        Option::None => {
                            proof {
                                lemma_overlaps_iff_nonempty(e_old, piece);
                            }
                            vstd::pervasive::unreached()
                        },
                    };
                    proof {
                        lemma_inter_contains(e_old, piece, overlap);
                        lemma_strict_witness(overlap);
                    }
                    let act = f.apply(&overlap, Some(&self.entries[kf].value));
                    let ghost gact = act;
                    match act {
                        TransitionAction::Ignore => {
                            proof {
                                lemma_overlap_sym(ents_pre[kf as int].extent, piece);
                            }
                            let mut pc = piece;
                            let res = pc.cut(&self.entries[kf].extent, &mut remaining);
                            proof {
                                if res is None {
                                    assert(false);
                                }
                                lemma_inter_contains(piece, e_old, pc);

                                {
                                    let slabs2 = remaining@.skip(rem0.len() as int);
                                    assert(remaining@ =~= rem0 + slabs2);
                                    crate::region::lemma_sum_vol_concat(rem0, slabs2);
                                    lemma_volume_nonneg(pc);
                                    assert(sum_vol(remaining@) < sum_vol(rem_prepop));
                                    assert forall|j2: int, k2: int|
                                        0 <= j2 < remaining@.len() && 0 <= k2 < remaining@.len()
                                            && j2 != k2 implies !(
                                    #[trigger] remaining@[j2]).overlaps(
                                    #[trigger] remaining@[k2]) by {
                                        if remaining@[j2].overlaps(remaining@[k2]) {
                                            lemma_overlap_witness(remaining@[j2], remaining@[k2]);
                                            let p = choose|p: Seq<int>|
                                                remaining@[j2].contains(p)
                                                    && remaining@[k2].contains(p);
                                            if j2 < rem0.len() && k2 < rem0.len() {
                                                assert(rem_prepop[j2].contains(p));
                                                assert(rem_prepop[k2].contains(p));
                                            } else if j2 >= rem0.len() && k2 >= rem0.len() {
                                                assert(slabs2[j2 - rem0.len()].contains(p));
                                                assert(slabs2[k2 - rem0.len()].contains(p));
                                            } else {
                                                let (lo, hi) = if j2 < rem0.len() {
                                                    (j2, k2)
                                                } else {
                                                    (k2, j2)
                                                };
                                                assert(rem0[lo].contains(p));
                                                assert(slabs2[hi - rem0.len()].contains(p));
                                                assert(piece.contains(p));
                                                assert(rem_prepop[lo].contains(p));
                                                assert(rem_prepop[rem0.len() as int].contains(p));
                                                lemma_contains_overlap(
                                                    rem_prepop[lo],
                                                    rem_prepop[rem0.len() as int],
                                                    p,
                                                );
                                            }
                                        }
                                    }
                                    assert forall|k2: int, p: Seq<int>|
                                        0 <= k2 < remaining@.len()
                                            && #[trigger] remaining@[k2].contains(p)
                                            implies extent.contains(p) by {
                                        if k2 < rem0.len() {
                                            assert(rem_prepop[k2].contains(p));
                                        } else {
                                            assert(slabs2[k2 - rem0.len()].contains(p));
                                            assert(piece.contains(p));
                                            assert(rem_prepop[rem0.len() as int].contains(p));
                                        }
                                    }
                                    assert forall|p: Seq<int>| #[trigger] covered(remaining@, p)
                                        implies covered(rem_prepop, p) by {
                                        let k2 = choose|k2: int|
                                            0 <= k2 < remaining@.len() && (
                                            #[trigger] remaining@[k2]).contains(p);
                                        if k2 < rem0.len() {
                                            assert(rem_prepop[k2].contains(p));
                                        } else {
                                            assert(slabs2[k2 - rem0.len()].contains(p));
                                            assert(piece.contains(p));
                                            assert(rem_prepop[rem0.len() as int].contains(p));
                                        }
                                    }
                                }
                                evs = evs.push(
                                    TransitionEvent {
                                        start: overlap.start@,
                                        end: overlap.end@,
                                        current: Option::Some(cur_val),
                                        action: gact,
                                    },
                                );

                                assert forall|p: Seq<int>| #[trigger] evs.last().contains(p)
                                    implies overlap.contains(p) by {}
                                assert forall|p: Seq<int>| #[trigger] overlap.contains(p)
                                    implies evs.last().contains(p) by {}
                                assert(evs.last().wf(old(self).spec_dims()));
                                assert forall|p: Seq<int>| #[trigger] evs.last().contains(p)
                                    implies piece.contains(p) by {
                                    assert(overlap.contains(p));
                                }
                                // the value handed to the function is the one
                                // recorded over the whole consulted piece
                                assert forall|p: Seq<int>| #[trigger] evs.last().contains(p)
                                    implies seq_maps(old(self).entries@, p, cur_val) by {
                                    assert(overlap.contains(p));
                                    assert(e_old.contains(p) && piece.contains(p));
                                    assert(ents_pre[kf as int].extent.contains(p));
                                    assert(seq_maps(ents_pre, p, cur_val));
                                    assert(covered(rem_prepop, p)) by {
                                        assert(rem_prepop[rem0.len() as int].contains(p));
                                    }
                                }
                                assert forall|p: Seq<int>, w: V|
                                    #![trigger seq_maps(self.entries@, p, w)]
                                    !evs.last().contains(p) implies (seq_maps(self.entries@, p, w)
                                    <==> seq_maps(ents_pre, p, w)) by {}
                                assert forall|p: Seq<int>| #[trigger] seq_covers(self.entries@, p)
                                    implies (seq_covers(ents_pre, p) || evs.last().contains(
                                    p,
                                )) by {}

                                // nothing changed; the piece keeps exactly
                                // the values it had when it was consulted
                                assert forall|p: Seq<int>, w: V|
                                    #![trigger seq_maps(self.entries@, p, w)]
                                    evs.last().contains(p) implies (seq_maps(self.entries@, p, w)
                                    <==> seq_maps(old(self).entries@, p, w)) by {
                                    assert(piece.contains(p));
                                    assert(covered(rem_prepop, p)) by {
                                        assert(rem_prepop[rem0.len() as int].contains(p));
                                    }
                                }
                                assert forall|p: Seq<int>| #[trigger] evs.last().contains(p)
                                    implies !covered(remaining@, p) by {
                                    if covered(remaining@, p) {
                                        let k2 = choose|k2: int|
                                            0 <= k2 < remaining@.len() && (
                                            #[trigger] remaining@[k2]).contains(p);
                                        if k2 < rem0.len() {
                                            assert(piece.contains(p));
                                            assert(rem_prepop[k2].contains(p));
                                            assert(rem_prepop[rem0.len() as int].contains(p));
                                            lemma_contains_overlap(
                                                rem_prepop[k2],
                                                rem_prepop[rem0.len() as int],
                                                p,
                                            );
                                        } else {
                                            let slabs2 = remaining@.skip(rem0.len() as int);
                                            assert(slabs2[k2 - rem0.len()].contains(p));
                                            assert(!slabs2[k2 - rem0.len()].overlaps(e_old));
                                            assert(e_old.contains(p));
                                            lemma_contains_overlap(
                                                slabs2[k2 - rem0.len()],
                                                e_old,
                                                p,
                                            );
                                        }
                                    }
                                }
                                assert forall|p: Seq<int>| #[trigger] piece.contains(p)
                                    implies evs.last().contains(p) || covered(remaining@, p) by {
                                    if !pc.contains(p) {
                                        let slabs2 = remaining@.skip(rem0.len() as int);
                                        assert(covered(slabs2, p));
                                        let k2 = choose|k2: int|
                                            0 <= k2 < slabs2.len() && (
                                            #[trigger] slabs2[k2]).contains(p);
                                        assert(remaining@[rem0.len() + k2].contains(p));
                                    } else {
                                        assert(e_old.contains(p) && piece.contains(p));
                                        assert(overlap.contains(p));
                                    }
                                }
                            }
                        },
                        TransitionAction::Update(v) => {
                            let oldv = self.entries[kf].value;
                            let mut slabs: Vec<Region> = Vec::new();
                            let node = &mut self.entries[kf];
                            let res = node.extent.cut(&piece, &mut slabs);
                            node.value = v;
                            proof {
                                if res is None {
                                    assert(false);
                                }
                            }
                            let ghost ents_mid = self.entries@;
                            let mut t: usize = 0;
                            while t < slabs.len()
                                invariant
                                    0 <= t <= slabs@.len(),
                                    self.entries@.len() == ents_mid.len() + t,
                                    self.dims == old(self).dims,
                                    forall|m: int|
                                        0 <= m < ents_mid.len() ==> #[trigger] self.entries@[m]
                                            == ents_mid[m],
                                    forall|m: int|
                                        ents_mid.len() <= m < self.entries@.len() ==> (
                                        #[trigger] self.entries@[m]).extent.start@ == slabs@[m
                                            - ents_mid.len()].start@ && self.entries@[m].extent.end@
                                            == slabs@[m - ents_mid.len()].end@
                                            && self.entries@[m].value == oldv,
                                decreases slabs@.len() - t,
                            {
                                self.entries.push(
                                    Entry { extent: slabs[t].duplicate(), value: oldv },
                                );
                                t = t + 1;
                            }
                            proof {
                                assert(slabs@.skip(0) =~= slabs@);
                                lemma_inter_contains(e_old, piece, self.entries@[kf as int].extent);
                                assert(self.entries@[kf as int].extent.start@ =~= overlap.start@);
                                assert(self.entries@[kf as int].extent.end@ =~= overlap.end@);
                                lemma_region_congruence(
                                    self.entries@[kf as int].extent,
                                    overlap,
                                );
                                assert forall|p: Seq<int>| #[trigger] self.entries@[
                                    kf as int
                                ].extent.contains(p) == (e_old.contains(p) && overlap.contains(
                                    p,
                                )) by {}
                                lemma_carve(
                                    ents_pre,
                                    self.entries@,
                                    kf as int,
                                    e_old,
                                    oldv,
                                    slabs@,
                                    overlap,
                                    old(self).spec_dims(),
                                );
                                assert forall|p: Seq<int>, v2: V|
                                    !extent.contains(p) implies ((#[trigger] seq_maps(
                                        self.entries@,
                                        p,
                                        v2,
                                    )) <==> seq_maps(ents_pre, p, v2)) by {
                                    assert(!overlap.contains(p));
                                }
                                assert forall|p: Seq<int>| #[trigger] seq_covers(
                                    self.entries@,
                                    p,
                                ) implies (seq_covers(ents_pre, p) || extent.contains(p)) by {}
                            }
                            let mut pc = piece;
                            let res2 = pc.cut(&overlap, &mut remaining);
                            proof {
                                let wp = choose|wp: Seq<int>| overlap.contains(wp);
                                assert(e_old.contains(wp) && piece.contains(wp));
                                lemma_contains_overlap(pc, overlap, wp);
                                if res2 is None {
                                    assert(false);
                                }
                                lemma_inter_contains(piece, overlap, pc);

                                {
                                    let slabs2 = remaining@.skip(rem0.len() as int);
                                    assert(remaining@ =~= rem0 + slabs2);
                                    crate::region::lemma_sum_vol_concat(rem0, slabs2);
                                    lemma_volume_nonneg(pc);
                                    assert(sum_vol(remaining@) < sum_vol(rem_prepop));
                                    assert forall|j2: int, k2: int|
                                        0 <= j2 < remaining@.len() && 0 <= k2 < remaining@.len()
                                            && j2 != k2 implies !(
                                    #[trigger] remaining@[j2]).overlaps(
                                    #[trigger] remaining@[k2]) by {
                                        if remaining@[j2].overlaps(remaining@[k2]) {
                                            lemma_overlap_witness(remaining@[j2], remaining@[k2]);
                                            let p = choose|p: Seq<int>|
                                                remaining@[j2].contains(p)
                                                    && remaining@[k2].contains(p);
                                            if j2 < rem0.len() && k2 < rem0.len() {
                                                assert(rem_prepop[j2].contains(p));
                                                assert(rem_prepop[k2].contains(p));
                                            } else if j2 >= rem0.len() && k2 >= rem0.len() {
                                                assert(slabs2[j2 - rem0.len()].contains(p));
                                                assert(slabs2[k2 - rem0.len()].contains(p));
                                            } else {
                                                let (lo, hi) = if j2 < rem0.len() {
                                                    (j2, k2)
                                                } else {
                                                    (k2, j2)
                                                };
                                                assert(rem0[lo].contains(p));
                                                assert(slabs2[hi - rem0.len()].contains(p));
                                                assert(piece.contains(p));
                                                assert(rem_prepop[lo].contains(p));
                                                assert(rem_prepop[rem0.len() as int].contains(p));
                                                lemma_contains_overlap(
                                                    rem_prepop[lo],
                                                    rem_prepop[rem0.len() as int],
                                                    p,
                                                );
                                            }
                                        }
                                    }
                                    assert forall|k2: int, p: Seq<int>|
                                        0 <= k2 < remaining@.len()
                                            && #[trigger] remaining@[k2].contains(p)
                                            implies extent.contains(p) by {
                                        if k2 < rem0.len() {
                                            assert(rem_prepop[k2].contains(p));
                                        } else {
                                            assert(slabs2[k2 - rem0.len()].contains(p));
                                            assert(piece.contains(p));
                                            assert(rem_prepop[rem0.len() as int].contains(p));
                                        }
                                    }
                                    assert forall|p: Seq<int>| #[trigger] covered(remaining@, p)
                                        implies covered(rem_prepop, p) by {
                                        let k2 = choose|k2: int|
                                            0 <= k2 < remaining@.len() && (
                                            #[trigger] remaining@[k2]).contains(p);
                                        if k2 < rem0.len() {
                                            assert(rem_prepop[k2].contains(p));
                                        } else {
                                            assert(slabs2[k2 - rem0.len()].contains(p));
                                            assert(piece.contains(p));
                                            assert(rem_prepop[rem0.len() as int].contains(p));
                                        }
                                    }
                                }
                                evs = evs.push(
                                    TransitionEvent {
                                        start: overlap.start@,
                                        end: overlap.end@,
                                        current: Option::Some(cur_val),
                                        action: gact,
                                    },
                                );

                                assert forall|p: Seq<int>| #[trigger] evs.last().contains(p)
                                    implies overlap.contains(p) by {}
                                assert forall|p: Seq<int>| #[trigger] overlap.contains(p)
                                    implies evs.last().contains(p) by {}
                                assert(evs.last().wf(old(self).spec_dims()));
                                assert forall|p: Seq<int>| #[trigger] evs.last().contains(p)
                                    implies piece.contains(p) by {
                                    assert(overlap.contains(p));
                                }
                                // the value handed to the function is the one
                                // recorded over the whole consulted piece
                                assert forall|p: Seq<int>| #[trigger] evs.last().contains(p)
                                    implies seq_maps(old(self).entries@, p, cur_val) by {
                                    assert(overlap.contains(p));
                                    assert(e_old.contains(p) && piece.contains(p));
                                    assert(ents_pre[kf as int].extent.contains(p));
                                    assert(seq_maps(ents_pre, p, cur_val));
                                    assert(covered(rem_prepop, p)) by {
                                        assert(rem_prepop[rem0.len() as int].contains(p));
                                    }
                                }
                                assert forall|p: Seq<int>, w: V|
                                    #![trigger seq_maps(self.entries@, p, w)]
                                    !evs.last().contains(p) implies (seq_maps(self.entries@, p, w)
                                    <==> seq_maps(ents_pre, p, w)) by {}
                                assert forall|p: Seq<int>| #[trigger] seq_covers(self.entries@, p)
                                    implies (seq_covers(ents_pre, p) || evs.last().contains(
                                    p,
                                )) by {}

                                // the consulted piece now carries exactly
                                // the new value
                                assert forall|p: Seq<int>, w: V|
                                    #![trigger seq_maps(self.entries@, p, w)]
                                    evs.last().contains(p) implies (seq_maps(self.entries@, p, w)
                                    <==> w == v) by {
                                    assert(overlap.contains(p));
                                    if w == v {
                                        assert(self.entries@[kf as int].extent.contains(p));
                                        assert(seq_maps(self.entries@, p, w));
                                    }
                                    if seq_maps(self.entries@, p, w) {
                                        let m = choose|m: int|
                                            0 <= m < self.entries@.len() && (
                                            #[trigger] self.entries@[m]).extent.contains(p)
                                                && self.entries@[m].value == w;
                                        if m == kf {
                                        } else if m < ents_pre.len() {
                                            assert(ents_pre[m].extent.contains(p));
                                            assert(e_old.contains(p));
                                            lemma_contains_overlap(
                                                ents_pre[m].extent,
                                                e_old,
                                                p,
                                            );
                                            assert(false);
                                        } else {
                                            lemma_region_congruence(
                                                self.entries@[m].extent,
                                                slabs@[m - ents_pre.len()],
                                            );
                                            assert(slabs@[m - ents_pre.len()].contains(p));
                                            assert(!slabs@[m - ents_pre.len()].overlaps(
                                                self.entries@[kf as int].extent,
                                            ));
                                            lemma_contains_overlap(
                                                slabs@[m - ents_pre.len()],
                                                self.entries@[kf as int].extent,
                                                p,
                                            );
                                            assert(false);
                                        }
                                    }
                                }
                                assert forall|p: Seq<int>| #[trigger] evs.last().contains(p)
                                    implies !covered(remaining@, p) by {
                                    if covered(remaining@, p) {
                                        let k2 = choose|k2: int|
                                            0 <= k2 < remaining@.len() && (
                                            #[trigger] remaining@[k2]).contains(p);
                                        if k2 < rem0.len() {
                                            assert(piece.contains(p));
                                            assert(rem_prepop[k2].contains(p));
                                            assert(rem_prepop[rem0.len() as int].contains(p));
                                            lemma_contains_overlap(
                                                rem_prepop[k2],
                                                rem_prepop[rem0.len() as int],
                                                p,
                                            );
                                        } else {
                                            let slabs2 = remaining@.skip(rem0.len() as int);
                                            assert(slabs2[k2 - rem0.len()].contains(p));
                                            assert(!slabs2[k2 - rem0.len()].overlaps(overlap));
                                            assert(overlap.contains(p));
                                            lemma_contains_overlap(
                                                slabs2[k2 - rem0.len()],
                                                overlap,
                                                p,
                                            );
                                        }
                                    }
                                }
                                assert forall|p: Seq<int>| #[trigger] piece.contains(p)
                                    implies evs.last().contains(p) || covered(remaining@, p) by {
                                    if !pc.contains(p) {
                                        let slabs2 = remaining@.skip(rem0.len() as int);
                                        assert(covered(slabs2, p));
                                        let k2 = choose|k2: int|
                                            0 <= k2 < slabs2.len() && (
                                            #[trigger] slabs2[k2]).contains(p);
                                        assert(remaining@[rem0.len() + k2].contains(p));
                                    } else {
                                        assert(overlap.contains(p));
                                    }
                                }
                            }
                        },
                        TransitionAction::Clear => {
                            let oldv = self.entries[kf].value;
                            let mut slabs: Vec<Region> = Vec::new();
                            let node = &mut self.entries[kf];
                            let res = node.extent.cut(&piece, &mut slabs);
                            proof {
                                if res is None {
                                    assert(false);
                                }
                            }
                            let ghost ents_mid = self.entries@;
                            let mut t: usize = 0;
                            while t < slabs.len()
                                invariant
                                    0 <= t <= slabs@.len(),
                                    self.entries@.len() == ents_mid.len() + t,
                                    self.dims == old(self).dims,
                                    forall|m: int|
                                        0 <= m < ents_mid.len() ==> #[trigger] self.entries@[m]
                                            == ents_mid[m],
                                    forall|m: int|
                                        ents_mid.len() <= m < self.entries@.len() ==> (
                                        #[trigger] self.entries@[m]).extent.start@ == slabs@[m
                                            - ents_mid.len()].start@ && self.entries@[m].extent.end@
                                            == slabs@[m - ents_mid.len()].end@
                                            && self.entries@[m].value == oldv,
                                decreases slabs@.len() - t,
                            {
                                self.entries.push(
                                    Entry { extent: slabs[t].duplicate(), value: oldv },
                                );
                                t = t + 1;
                            }
                            let ghost grown = self.entries@;
                            proof {
                                assert(slabs@.skip(0) =~= slabs@);
                                lemma_inter_contains(e_old, piece, grown[kf as int].extent);
                                assert(grown[kf as int].extent.start@ =~= overlap.start@);
                                assert(grown[kf as int].extent.end@ =~= overlap.end@);
                                lemma_region_congruence(grown[kf as int].extent, overlap);
                                assert forall|p: Seq<int>| #[trigger] grown[kf as int].extent.contains(
                                    p,
                                ) == (e_old.contains(p) && overlap.contains(p)) by {}
                                lemma_carve(
                                    ents_pre,
                                    grown,
                                    kf as int,
                                    e_old,
                                    oldv,
                                    slabs@,
                                    overlap,
                                    old(self).spec_dims(),
                                );
                            }
                            let _gone = self.entries.swap_remove(kf);
                            proof {
                                let fin = self.entries@;
                                let glen = grown.len() as int;
                                assert forall|q: int|
                                    0 <= q < fin.len() implies #[trigger] fin[q] == (if q == kf {
                                    grown[glen - 1]
                                } else {
                                    grown[q]
                                }) by {}
                                assert forall|j2: int, k2: int|
                                    0 <= j2 < fin.len() && 0 <= k2 < fin.len() && j2 != k2
                                        implies !(#[trigger] fin[j2]).extent.overlaps(
                                    #[trigger] fin[k2].extent) by {
                                    let mj = if j2 == kf {
                                        glen - 1
                                    } else {
                                        j2
                                    };
                                    let mk = if k2 == kf {
                                        glen - 1
                                    } else {
                                        k2
                                    };
                                    assert(fin[j2] == grown[mj]);
                                    assert(fin[k2] == grown[mk]);
                                }
                                assert forall|p: Seq<int>, v2: V|
                                    !overlap.contains(p) implies ((#[trigger] seq_maps(
                                        fin,
                                        p,
                                        v2,
                                    )) <==> seq_maps(ents_pre, p, v2)) by {
                                    if seq_maps(fin, p, v2) {
                                        let q = choose|q: int|
                                            0 <= q < fin.len() && (#[trigger] fin[q]).extent.contains(
                                                p,
                                            ) && fin[q].value == v2;
                                        let mq = if q == kf {
                                            glen - 1
                                        } else {
                                            q
                                        };
                                        assert(grown[mq].extent.contains(p) && grown[mq].value
                                            == v2);
                                        assert(seq_maps(grown, p, v2));
                                    }
                                    if seq_maps(ents_pre, p, v2) {
                                        assert(seq_maps(grown, p, v2));
                                        let q = choose|q: int|
                                            0 <= q < grown.len() && (#[trigger] grown[q]).extent.contains(
                                                p,
                                            ) && grown[q].value == v2;
                                        assert(q != kf) by {
                                            if q == kf {
                                                assert(overlap.contains(p));
                                            }
                                        }
                                        if q == glen - 1 {
                                            assert(kf < fin.len());
                                            assert(fin[kf as int] == grown[q]);
                                        } else {
                                            assert(fin[q] == grown[q]);
                                        }
                                        assert(seq_maps(fin, p, v2));
                                    }
                                }
                                assert forall|p: Seq<int>| #[trigger] seq_covers(fin, p) implies (
                                seq_covers(ents_pre, p) || overlap.contains(p)) by {
                                    let q = choose|q: int|
                                        0 <= q < fin.len() && (#[trigger] fin[q]).extent.contains(
                                            p,
                                        );
                                    let mq = if q == kf {
                                        glen - 1
                                    } else {
                                        q
                                    };
                                    assert(grown[mq].extent.contains(p));
                                    assert(seq_covers(grown, p));
                                }
                                assert forall|p: Seq<int>, v2: V|
                                    !extent.contains(p) implies ((#[trigger] seq_maps(
                                        fin,
                                        p,
                                        v2,
                                    )) <==> seq_maps(ents_pre, p, v2)) by {
                                    assert(!overlap.contains(p)) by {
                                        if overlap.contains(p) {
                                            assert(piece.contains(p));
                                            assert(rem_prepop[rem0.len() as int].contains(p));
                                        }
                                    }
                                }
                                assert forall|p: Seq<int>| #[trigger] seq_covers(fin, p) implies (
                                seq_covers(ents_pre, p) || extent.contains(p)) by {
                                    if overlap.contains(p) {
                                        assert(piece.contains(p));
                                        assert(rem_prepop[rem0.len() as int].contains(p));
                                        assert(extent.contains(p));
                                    }
                                }
                                // the consulted piece is no longer covered
                                assert forall|p: Seq<int>| #[trigger] overlap.contains(p)
                                    implies !seq_covers(fin, p) by {
                                    if seq_covers(fin, p) {
                                        let q = choose|q: int|
                                            0 <= q < fin.len() && (#[trigger] fin[q]).extent.contains(
                                                p,
                                            );
                                        let mq = if q == kf {
                                            glen - 1
                                        } else {
                                            q
                                        };
                                        assert(grown[mq].extent.contains(p));
                                        if mq == kf {
                                            assert(q == kf && glen - 1 == kf);
                                            assert(false);
                                        } else if mq < ents_pre.len() {
                                            assert(ents_pre[mq].extent.contains(p));
                                            assert(e_old.contains(p));
                                            lemma_contains_overlap(
                                                ents_pre[mq].extent,
                                                e_old,
                                                p,
                                            );
                                            assert(false);
                                        } else {
                                            lemma_region_congruence(
                                                grown[mq].extent,
                                                slabs@[mq - ents_pre.len()],
                                            );
                                            assert(slabs@[mq - ents_pre.len()].contains(p));
                                            assert(!slabs@[mq - ents_pre.len()].overlaps(
                                                grown[kf as int].extent,
                                            ));
                                            assert(grown[kf as int].extent.contains(p));
                                            lemma_contains_overlap(
                                                slabs@[mq - ents_pre.len()],
                                                grown[kf as int].extent,
                                                p,
                                            );
                                            assert(false);
                                        }
                                    }
                                }
                            }
                            let mut pc = piece;
                            let res2 = pc.cut(&overlap, &mut remaining);
                            proof {
                                let wp = choose|wp: Seq<int>| overlap.contains(wp);
                                assert(e_old.contains(wp) && piece.contains(wp));
                                lemma_contains_overlap(pc, overlap, wp);
                                if res2 is None {
                                    assert(false);
                                }
                                lemma_inter_contains(piece, overlap, pc);

                                {
                                    let slabs2 = remaining@.skip(rem0.len() as int);
                                    assert(remaining@ =~= rem0 + slabs2);
                                    crate::region::lemma_sum_vol_concat(rem0, slabs2);
                                    lemma_volume_nonneg(pc);
                                    assert(sum_vol(remaining@) < sum_vol(rem_prepop));
                                    assert forall|j2: int, k2: int|
                                        0 <= j2 < remaining@.len() && 0 <= k2 < remaining@.len()
                                            && j2 != k2 implies !(
                                    #[trigger] remaining@[j2]).overlaps(
                                    #[trigger] remaining@[k2]) by {
                                        if remaining@[j2].overlaps(remaining@[k2]) {
                                            lemma_overlap_witness(remaining@[j2], remaining@[k2]);
                                            let p = choose|p: Seq<int>|
                                                remaining@[j2].contains(p)
                                                    && remaining@[k2].contains(p);
                                            if j2 < rem0.len() && k2 < rem0.len() {
                                                assert(rem_prepop[j2].contains(p));
                                                assert(rem_prepop[k2].contains(p));
                                            } else if j2 >= rem0.len() && k2 >= rem0.len() {
                                                assert(slabs2[j2 - rem0.len()].contains(p));
                                                assert(slabs2[k2 - rem0.len()].contains(p));
                                            } else {
                                                let (lo, hi) = if j2 < rem0.len() {
                                                    (j2, k2)
                                                } else {
                                                    (k2, j2)
                                                };
                                                assert(rem0[lo].contains(p));
                                                assert(slabs2[hi - rem0.len()].contains(p));
                                                assert(piece.contains(p));
                                                assert(rem_prepop[lo].contains(p));
                                                assert(rem_prepop[rem0.len() as int].contains(p));
                                                lemma_contains_overlap(
                                                    rem_prepop[lo],
                                                    rem_prepop[rem0.len() as int],
                                                    p,
                                                );
                                            }
                                        }
                                    }
                                    assert forall|k2: int, p: Seq<int>|
                                        0 <= k2 < remaining@.len()
                                            && #[trigger] remaining@[k2].contains(p)
                                            implies extent.contains(p) by {
                                        if k2 < rem0.len() {
                                            assert(rem_prepop[k2].contains(p));
                                        } else {
                                            assert(slabs2[k2 - rem0.len()].contains(p));
                                            assert(piece.contains(p));
                                            assert(rem_prepop[rem0.len() as int].contains(p));
                                        }
                                    }
                                    assert forall|p: Seq<int>| #[trigger] covered(remaining@, p)
                                        implies covered(rem_prepop, p) by {
                                        let k2 = choose|k2: int|
                                            0 <= k2 < remaining@.len() && (
                                            #[trigger] remaining@[k2]).contains(p);
                                        if k2 < rem0.len() {
                                            assert(rem_prepop[k2].contains(p));
                                        } else {
                                            assert(slabs2[k2 - rem0.len()].contains(p));
                                            assert(piece.contains(p));
                                            assert(rem_prepop[rem0.len() as int].contains(p));
                                        }
                                    }
                                }
                                evs = evs.push(
                                    TransitionEvent {
                                        start: overlap.start@,
                                        end: overlap.end@,
                                        current: Option::Some(cur_val),
                                        action: gact,
                                    },
                                );

                                assert forall|p: Seq<int>| #[trigger] evs.last().contains(p)
                                    implies overlap.contains(p) by {}
                                assert forall|p: Seq<int>| #[trigger] overlap.contains(p)
                                    implies evs.last().contains(p) by {}
                                assert(evs.last().wf(old(self).spec_dims()));
                                assert forall|p: Seq<int>| #[trigger] evs.last().contains(p)
                                    implies piece.contains(p) by {
                                    assert(overlap.contains(p));
                                }
                                // the value handed to the function is the one
                                // recorded over the whole consulted piece
                                assert forall|p: Seq<int>| #[trigger] evs.last().contains(p)
                                    implies seq_maps(old(self).entries@, p, cur_val) by {
                                    assert(overlap.contains(p));
                                    assert(e_old.contains(p) && piece.contains(p));
                                    assert(ents_pre[kf as int].extent.contains(p));
                                    assert(seq_maps(ents_pre, p, cur_val));
                                    assert(covered(rem_prepop, p)) by {
                                        assert(rem_prepop[rem0.len() as int].contains(p));
                                    }
                                }
                                assert forall|p: Seq<int>, w: V|
                                    #![trigger seq_maps(self.entries@, p, w)]
                                    !evs.last().contains(p) implies (seq_maps(self.entries@, p, w)
                                    <==> seq_maps(ents_pre, p, w)) by {}
                                assert forall|p: Seq<int>| #[trigger] seq_covers(self.entries@, p)
                                    implies (seq_covers(ents_pre, p) || evs.last().contains(
                                    p,
                                )) by {}

                                assert forall|p: Seq<int>| evs.last().contains(p)
                                    implies !seq_covers(self.entries@, p) by {
                                    assert(overlap.contains(p));
                                }
                                assert forall|p: Seq<int>| #[trigger] evs.last().contains(p)
                                    implies !covered(remaining@, p) by {
                                    if covered(remaining@, p) {
                                        let k2 = choose|k2: int|
                                            0 <= k2 < remaining@.len() && (
                                            #[trigger] remaining@[k2]).contains(p);
                                        if k2 < rem0.len() {
                                            assert(piece.contains(p));
                                            assert(rem_prepop[k2].contains(p));
                                            assert(rem_prepop[rem0.len() as int].contains(p));
                                            lemma_contains_overlap(
                                                rem_prepop[k2],
                                                rem_prepop[rem0.len() as int],
                                                p,
                                            );
                                        } else {
                                            let slabs2 = remaining@.skip(rem0.len() as int);
                                            assert(slabs2[k2 - rem0.len()].contains(p));
                                            assert(!slabs2[k2 - rem0.len()].overlaps(overlap));
                                            assert(overlap.contains(p));
                                            lemma_contains_overlap(
                                                slabs2[k2 - rem0.len()],
                                                overlap,
                                                p,
                                            );
                                        }
                                    }
                                }
                                assert forall|p: Seq<int>| #[trigger] piece.contains(p)
                                    implies evs.last().contains(p) || covered(remaining@, p) by {
                                    if !pc.contains(p) {
                                        let slabs2 = remaining@.skip(rem0.len() as int);
                                        assert(covered(slabs2, p));
                                        let k2 = choose|k2: int|
                                            0 <= k2 < slabs2.len() && (
                                            #[trigger] slabs2[k2]).contains(p);
                                        assert(remaining@[rem0.len() + k2].contains(p));
                                    } else {
                                        assert(overlap.contains(p));
                                    }
                                }
                            }
                        },
                    }
                },
                Option::None => {
                    let act = f.apply(&piece, None);
                    let ghost gact = act;
                    proof {
                        // nothing recorded reaches into this piece
                        assert forall|p: Seq<int>| #[trigger] piece.contains(p)
                            implies !seq_covers(ents_pre, p) by {
                            if seq_covers(ents_pre, p) {
                                let m = choose|m: int|
                                    0 <= m < ents_pre.len() && (
                                    #[trigger] ents_pre[m]).extent.contains(p);
                                lemma_contains_overlap(ents_pre[m].extent, piece, p);
                            }
                        }
                    }
                    match act {
                        TransitionAction::Update(v) => {
                            self.entries.push(Entry { extent: piece, value: v });
                            proof {
                                let now = self.entries@;
                                let last = now.len() - 1;
                                assert forall|j2: int, k2: int|
                                    0 <= j2 < now.len() && 0 <= k2 < now.len() && j2 != k2
                                        implies !(#[trigger] now[j2]).extent.overlaps(
                                    #[trigger] now[k2].extent) by {
                                    if j2 == last {
                                        assert(!ents_pre[k2].extent.overlaps(now[last].extent));
                                        if now[j2].extent.overlaps(now[k2].extent) {
                                            lemma_overlap_sym(now[j2].extent, now[k2].extent);
                                        }
                                    } else if k2 == last {
                                        assert(!ents_pre[j2].extent.overlaps(now[last].extent));
                                    } else {
                                        assert(now[j2] == ents_pre[j2]);
                                        assert(now[k2] == ents_pre[k2]);
                                    }
                                }
                                assert forall|p: Seq<int>, v2: V|
                                    !piece.contains(p) implies ((#[trigger] seq_maps(
                                        now,
                                        p,
                                        v2,
                                    )) <==> seq_maps(ents_pre, p, v2)) by {
                                    if seq_maps(now, p, v2) {
                                        let m = choose|m: int|
                                            0 <= m < now.len() && (#[trigger] now[m]).extent.contains(
                                                p,
                                            ) && now[m].value == v2;
                                        assert(m < ents_pre.len());
                                        assert(seq_maps(ents_pre, p, v2));
                                    }
                                    if seq_maps(ents_pre, p, v2) {
                                        let m = choose|m: int|
                                            0 <= m < ents_pre.len() && (
                                            #[trigger] ents_pre[m]).extent.contains(p)
                                                && ents_pre[m].value == v2;
                                        assert(now[m].extent.contains(p) && now[m].value == v2);
                                        assert(seq_maps(now, p, v2));
                                    }
                                }
                                assert forall|p: Seq<int>, v2: V|
                                    !extent.contains(p) implies ((#[trigger] seq_maps(
                                        now,
                                        p,
                                        v2,
                                    )) <==> seq_maps(ents_pre, p, v2)) by {
                                    assert(!piece.contains(p)) by {
                                        if piece.contains(p) {
                                            assert(rem_prepop[rem0.len() as int].contains(p));
                                        }
                                    }
                                }
                                assert forall|p: Seq<int>| #[trigger] seq_covers(now, p) implies (
                                seq_covers(ents_pre, p) || piece.contains(p)) by {
                                    let m = choose|m: int|
                                        0 <= m < now.len() && (#[trigger] now[m]).extent.contains(
                                            p,
                                        );
                                    if m < ents_pre.len() {
                                        assert(seq_covers(ents_pre, p));
                                    }
                                }
                                assert forall|p: Seq<int>| #[trigger] seq_covers(now, p) implies (
                                seq_covers(ents_pre, p) || extent.contains(p)) by {
                                    if piece.contains(p) {
                                        assert(rem_prepop[rem0.len() as int].contains(p));
                                        assert(extent.contains(p));
                                    }
                                }
                                // the consulted piece now carries exactly
                                // the created value
                                assert forall|p: Seq<int>, w: V|
                                    #![trigger seq_maps(self.entries@, p, w)]
                                    piece.contains(p) implies (seq_maps(self.entries@, p, w)
                                    <==> w == v) by {
                                    if w == v {
                                        assert(now[last].extent.contains(p));
                                        assert(seq_maps(now, p, w));
                                    }
                                    if seq_maps(now, p, w) {
                                        let m = choose|m: int|
                                            0 <= m < now.len() && (#[trigger] now[m]).extent.contains(
                                                p,
                                            ) && now[m].value == w;
                                        if m < ents_pre.len() {
                                            assert(seq_covers(ents_pre, p));
                                            assert(false);
                                        }
                                    }
                                }
                            }
                        },
                        _ => {
                        },
                    }
                    proof {
                        evs = evs.push(
                            TransitionEvent {
                                start: piece.start@,
                                end: piece.end@,
                                current: Option::None,
                                action: gact,
                            },
                        );
                        assert forall|p: Seq<int>| #[trigger] evs.last().contains(p)
                            implies piece.contains(p) by {}
                        assert forall|p: Seq<int>| #[trigger] piece.contains(p)
                            implies evs.last().contains(p) by {}
                        assert(evs.last().wf(old(self).spec_dims()));
                        // the piece really was uncovered, in the partition
                        // as consulted and in the starting one alike
                        assert forall|p: Seq<int>| #[trigger] evs.last().contains(p)
                            implies !seq_covers(old(self).entries@, p) by {
                            assert(piece.contains(p));
                            assert(covered(rem_prepop, p)) by {
                                assert(rem_prepop[rem0.len() as int].contains(p));
                            }
                            if seq_covers(old(self).entries@, p) {
                                let w0 = choose|w0: int|
                                    0 <= w0 < old(self).entries@.len() && (#[trigger] old(self).entries@[w0]).extent.contains(p);
                                assert(seq_maps(
                                    old(self).entries@,
                                    p,
                                    old(self).entries@[w0].value,
                                ));
                                assert(seq_maps(ents_pre, p, old(self).entries@[w0].value));
                                assert(seq_covers(ents_pre, p));
                            }
                        }
                        assert forall|p: Seq<int>| #[trigger] evs.last().contains(p)
                            implies !covered(remaining@, p) by {
                            if covered(remaining@, p) {
                                let k2 = choose|k2: int|
                                    0 <= k2 < remaining@.len() && (
                                    #[trigger] remaining@[k2]).contains(p);
                                assert(piece.contains(p));
                                assert(rem_prepop[k2].contains(p));
                                assert(rem_prepop[rem0.len() as int].contains(p));
                                lemma_contains_overlap(
                                    rem_prepop[k2],
                                    rem_prepop[rem0.len() as int],
                                    p,
                                );
                            }
                        }
                        assert forall|p: Seq<int>| #[trigger] covered(remaining@, p)
                            implies covered(rem_prepop, p) by {
                            let k2 = choose|k2: int|
                                0 <= k2 < remaining@.len() && (#[trigger] remaining@[k2]).contains(
                                    p,
                                );
                            assert(rem_prepop[k2].contains(p));
                        }

                        assert forall|p: Seq<int>, w: V|
                            #![trigger seq_maps(self.entries@, p, w)]
                            !evs.last().contains(p) implies (seq_maps(self.entries@, p, w)
                            <==> seq_maps(ents_pre, p, w)) by {}
                        assert forall|p: Seq<int>| #[trigger] seq_covers(self.entries@, p)
                            implies (seq_covers(ents_pre, p) || evs.last().contains(
                            p,
                        )) by {}
                        // per-action effect on the piece
                        if gact is Ignore {
                            assert forall|p: Seq<int>, w: V|
                                #![trigger seq_maps(self.entries@, p, w)]
                                evs.last().contains(p) implies (seq_maps(self.entries@, p, w)
                                <==> seq_maps(old(self).entries@, p, w)) by {
                                assert(piece.contains(p));
                                assert(covered(rem_prepop, p)) by {
                                    assert(rem_prepop[rem0.len() as int].contains(p));
                                }
                            }
                        }
                        if gact is Clear {
                            assert forall|p: Seq<int>| evs.last().contains(p)
                                implies !seq_covers(self.entries@, p) by {
                                assert(piece.contains(p));
                            }
                        }
                    }
                },
            }

            proof {
                let enow = self.entries@;
                assert(evs.drop_last() =~= evs0);
                assert(evs.len() == evs0.len() + 1);
                // the pieces consulted earlier lie outside this pass's piece
                assert forall|t: int, p: Seq<int>|
                    0 <= t < evs0.len() && #[trigger] evs0[t].contains(p) implies !piece.contains(
                    p,
                ) && !evs.last().contains(p) && !covered(remaining@, p) by {
                    assert(!covered(rem_prepop, p));
                    if piece.contains(p) {
                        assert(rem_prepop[rem0.len() as int].contains(p));
                    }
                }
                assert forall|t: int| 0 <= t < evs.len() implies (#[trigger] evs[t]).wf(
                    old(self).spec_dims(),
                ) by {
                    if t < evs0.len() {
                        assert(evs[t] == evs0[t]);
                    }
                }
                assert forall|t: int, p: Seq<int>|
                    0 <= t < evs.len() && #[trigger] evs[t].contains(p)
                    implies extent.contains(p) by {
                    if t < evs0.len() {
                        assert(evs[t] == evs0[t]);
                        assert(evs0[t].contains(p));
                    } else {
                        assert(evs.last().contains(p));
                        assert(piece.contains(p));
                        assert(rem_prepop[rem0.len() as int].contains(p));
                    }
                }
                assert forall|t1: int, t2: int, p: Seq<int>|
                    0 <= t1 < evs.len() && 0 <= t2 < evs.len() && t1 != t2
                        && #[trigger] evs[t1].contains(p) implies !(#[trigger] evs[t2].contains(
                    p,
                )) by {
                    if t1 < evs0.len() && t2 < evs0.len() {
                        assert(evs0[t1].contains(p) ==> !evs0[t2].contains(p));
                    } else if t1 == evs0.len() {
                        if evs0[t2].contains(p) {
                            assert(!evs.last().contains(p));
                        }
                    } else {
                        assert(evs0[t1].contains(p));
                        assert(!evs.last().contains(p));
                    }
                }
                assert forall|t: int, p: Seq<int>|
                    0 <= t < evs.len() && #[trigger] evs[t].contains(p) implies !covered(
                    remaining@,
                    p,
                ) by {
                    if t < evs0.len() {
                        assert(evs0[t].contains(p));
                    }
                }
                assert forall|p: Seq<int>| #[trigger] extent.contains(p) implies covered(
                    remaining@,
                    p,
                ) || exists|t: int| 0 <= t < evs.len() && (#[trigger] evs[t]).contains(p) by {
                    if covered(rem_prepop, p) {
                        let k2 = choose|k2: int|
                            0 <= k2 < rem_prepop.len() && (#[trigger] rem_prepop[k2]).contains(p);
                        if k2 < rem0.len() {
                            assert(remaining@[k2] == rem0[k2]);
                            assert(remaining@[k2].contains(p));
                        } else {
                            assert(piece.contains(p));
                            assert(evs.last().contains(p) || covered(remaining@, p));
                        }
                    } else {
                        let t = choose|t: int|
                            0 <= t < evs0.len() && (#[trigger] evs0[t]).contains(p);
                        assert(evs[t].contains(p));
                    }
                }
                assert forall|p: Seq<int>, v: V|
                    covered(remaining@, p) implies ((#[trigger] seq_maps(enow, p, v)) <==> seq_maps(
                        old(self).entries@,
                        p,
                        v,
                    )) by {
                    assert(covered(rem_prepop, p));
                    assert(!evs.last().contains(p));
                }
                assert forall|t: int, p: Seq<int>|
                    0 <= t < evs.len() && #[trigger] evs[t].contains(p) implies (
                evs[t].current matches Option::Some(v) ==> seq_maps(
                    old(self).entries@,
                    p,
                    v,
                )) by {
                    if t < evs0.len() {
                        assert(evs[t] == evs0[t]);
                        assert(evs0[t].contains(p));
                    }
                }
                assert forall|t: int, p: Seq<int>|
                    0 <= t < evs.len() && evs[t].current is None && #[trigger] evs[t].contains(p)
                    implies !seq_covers(old(self).entries@, p) by {
                    if t < evs0.len() {
                        assert(evs[t] == evs0[t]);
                        assert(evs0[t].contains(p));
                    }
                }
                assert forall|t: int, p: Seq<int>, w: V|
                    #![trigger evs[t].contains(p), seq_maps(enow, p, w)]
                    0 <= t < evs.len() && evs[t].action is Ignore && evs[t].contains(p) implies (
                seq_maps(enow, p, w) <==> seq_maps(old(self).entries@, p, w)) by {
                    if t < evs0.len() {
                        assert(evs[t] == evs0[t]);
                        assert(evs0[t].contains(p));
                        assert(!piece.contains(p) && !evs.last().contains(p));
                        assert(seq_maps(enow, p, w) <==> seq_maps(ents_pre, p, w));
                        assert(seq_maps(ents_pre, p, w) <==> seq_maps(old(self).entries@, p, w));
                    } else {
                        assert(evs.last().contains(p));
                    }
                }
                assert forall|t: int, p: Seq<int>, w: V|
                    #![trigger evs[t].contains(p), seq_maps(enow, p, w)]
                    0 <= t < evs.len() && evs[t].contains(p) implies (
                evs[t].action matches TransitionAction::Update(v) ==> (seq_maps(enow, p, w)
                    <==> w == v)) by {
                    if t < evs0.len() {
                        assert(evs[t] == evs0[t]);
                        assert(evs0[t].contains(p));
                        assert(!piece.contains(p) && !evs.last().contains(p));
                        assert(seq_maps(enow, p, w) <==> seq_maps(ents_pre, p, w));
                    } else {
                        assert(evs.last().contains(p));
                    }
                }
                assert forall|t: int, p: Seq<int>|
                    0 <= t < evs.len() && evs[t].action is Clear && #[trigger] evs[t].contains(p)
                    implies !seq_covers(enow, p) by {
                    if t < evs0.len() {
                        assert(evs[t] == evs0[t]);
                        assert(evs0[t].contains(p));
                        assert(!piece.contains(p) && !evs.last().contains(p));
                        assert(!seq_covers(ents_pre, p));
                        if seq_covers(enow, p) {
                            assert(seq_covers(ents_pre, p) || evs.last().contains(p));
                        }
                    } else {
                        assert(evs.last().contains(p));
                    }
                }
            }

            proof {
                lemma_sum_vol_bounds(remaining@);
            }
        }
        proof {
            assert forall|p: Seq<int>, v: V|
                !extent.contains(p) implies ((#[trigger] self.maps(p, v)) <==> old(self).maps(
                    p,
                    v,
                )) by {
                assert(seq_maps(self.entries@, p, v) == seq_maps(old(self).entries@, p, v));
            }
            assert forall|p: Seq<int>| #[trigger] self.covers(p) implies (old(self).covers(p)
                || extent.contains(p)) by {
                assert(seq_covers(self.entries@, p) ==> (seq_covers(old(self).entries@, p)
                    || extent.contains(p)));
            }
            assert forall|p: Seq<int>| #[trigger] extent.contains(p) implies exists|t: int|
                0 <= t < evs.len() && (#[trigger] evs[t]).contains(p) by {
                assert(!covered(remaining@, p));
            }
        }
        Ghost(evs)
    }
}

} // verus!
