//! Axis-aligned, half-open, N-dimensional integer regions.
//!
//! A [`Region`] spans the points between `start` (inclusive) and `end`
//! (exclusive) in every dimension.  Coordinates are kept within
//! [`coord_bound`] — wider for fewer dimensions — and the number of
//! dimensions within [`MAX_DIM`], so that every volume computation fits
//! comfortably in an `i128` accumulator.

use vstd::prelude::*;

verus! {

/// Largest number of dimensions a region may have.
pub const MAX_DIM: usize = 4;

/// Coordinates of a `d`-dimensional region must lie in
/// `[-coord_bound(d), coord_bound(d)]`: the fewer the dimensions, the wider
/// the admissible range, chosen so that any volume stays within
/// `vol_cap(MAX_DIM)`.  One-dimensional byte ranges may span the full
/// sixty-two-bit offset space.
pub open spec fn coord_bound(d: nat) -> int {
    if d <= 1 {
        0x3FFF_FFFF_FFFF_FFFF
    } else if d == 2 {
        0x2000_0000_0000_0000
    } else if d == 3 {
        0x100_0000_0000
    } else {
        0x4000_0000
    }
}

/// Largest extent one dimension of a `d`-dimensional region can have.
pub open spec fn factor_cap(d: nat) -> int {
    2 * coord_bound(d)
}

/// Upper bound for a product of `k` extents of a `d`-dimensional region.
pub open spec fn dim_vol_cap(d: nat, k: int) -> int
    decreases k,
{
    if k <= 0 {
        1
    } else {
        dim_vol_cap(d, k - 1) * factor_cap(d)
    }
}

/// Start coordinates clipped to the tool on the first `a` dimensions.
pub open spec fn clip_start(s: Seq<i64>, ts: Seq<i64>, a: int) -> Seq<i64> {
    Seq::new(
        s.len(),
        |i: int|
            if i < a && s[i] < ts[i] {
                ts[i]
            } else {
                s[i]
            },
    )
}

/// End coordinates clipped to the tool on the first `a` dimensions.
pub open spec fn clip_end(e: Seq<i64>, te: Seq<i64>, a: int) -> Seq<i64> {
    Seq::new(
        e.len(),
        |i: int|
            if i < a && e[i] > te[i] {
                te[i]
            } else {
                e[i]
            },
    )
}

/// The slab pieces [`Region::cut`] pushes while processing the first `k`
/// dimensions, as (start, end) coordinate pairs in push order: dimensions
/// in ascending order, per dimension first the low-side slab, then the
/// high-side slab, each present exactly when the region extends past the
/// tool on that side, and each full-height in all not-yet-processed
/// dimensions.
pub open spec fn cut_slab_views(
    s: Seq<i64>,
    e: Seq<i64>,
    ts: Seq<i64>,
    te: Seq<i64>,
    k: int,
) -> Seq<(Seq<i64>, Seq<i64>)>
    decreases k,
{
    if k <= 0 {
        Seq::empty()
    } else {
        let a = k - 1;
        let low: Seq<(Seq<i64>, Seq<i64>)> = if s[a] < ts[a] {
            seq![(clip_start(s, ts, a), clip_end(e, te, a).update(a, ts[a]))]
        } else {
            Seq::empty()
        };
        let high: Seq<(Seq<i64>, Seq<i64>)> = if e[a] > te[a] {
            seq![(clip_start(s, ts, a).update(a, te[a]), clip_end(e, te, a))]
        } else {
            Seq::empty()
        };
        cut_slab_views(s, e, ts, te, a) + low + high
    }
}

/// Describes an axis-aligned rectangular volume.
///
/// The volume is the set of points between `start` (inclusive) and `end`
/// (exclusive).  `start` must always be less than or equal to `end` in all
/// its entries.  Some operations require `start` to be strictly less than
/// `end` to avoid zero volume.
#[derive(Clone, Debug, PartialEq, Eq)]
pub struct Region {
    pub start: Vec<i64>,
    pub end: Vec<i64>,
}

/// Product of the extents of the first `k` dimensions.
pub open spec fn vol_prefix(s: Seq<i64>, e: Seq<i64>, k: int) -> int
    decreases k,
{
    if k <= 0 {
        1
    } else {
        vol_prefix(s, e, k - 1) * (e[k - 1] - s[k - 1])
    }
}

/// The overall volume cap: an upper bound for any product of extents a
/// valid region can have, whatever its dimension count.
pub open spec fn vol_cap(k: int) -> int
    decreases k,
{
    if k <= 0 {
        1
    } else {
        vol_cap(k - 1) * 0x8000_0000
    }
}

/// True when `r`'s box lies inside some region of `parents`.
pub open spec fn within_one(r: Region, parents: Seq<Region>) -> bool {
    exists|j: int| 0 <= j < parents.len() && r.within(#[trigger] parents[j])
}

/// Sum of the volumes of a sequence of regions.
pub open spec fn sum_vol(rs: Seq<Region>) -> int
    decreases rs.len(),
{
    if rs.len() == 0 {
        0
    } else {
        sum_vol(rs.drop_last()) + rs.last().spec_volume()
    }
}

/// True when some region of `rs` contains the point `p`.
pub open spec fn covered(rs: Seq<Region>, p: Seq<int>) -> bool {
    exists|k: int| 0 <= k < rs.len() && (#[trigger] rs[k]).contains(p)
}

/// True when the regions of `rs` are pairwise non-overlapping.
pub open spec fn pairwise_disjoint(rs: Seq<Region>) -> bool {
    forall|j: int, k: int|
        0 <= j < rs.len() && 0 <= k < rs.len() && j != k ==> !(#[trigger] rs[j]).overlaps(
            #[trigger] rs[k],
        )
}

impl Region {
    /// Number of dimensions.
    pub open spec fn dims(self) -> nat {
        self.start@.len()
    }

    /// Structural well-formedness: matching dimension counts, a supported
    /// number of dimensions, bounded coordinates, and `start <= end`.
    pub open spec fn valid(self) -> bool {
        &&& self.start@.len() == self.end@.len()
        &&& 1 <= self.dims() <= MAX_DIM
        &&& forall|i: int|
            0 <= i < self.dims() ==> -coord_bound(self.dims()) <= #[trigger] self.start@[i]
                && self.start@[i] <= self.end@[i] && self.end@[i] <= coord_bound(self.dims())
    }

    /// Strict positivity: a non-zero extent in every dimension.
    pub open spec fn strict(self) -> bool {
        forall|i: int| 0 <= i < self.dims() ==> #[trigger] self.start@[i] < self.end@[i]
    }

    /// The two regions span the same number of dimensions.
    pub open spec fn same_dims(self, other: Region) -> bool {
        self.dims() == other.dims()
    }

    /// Mathematical volume: the product over all dimensions of
    /// `end[i] - start[i]`.
    pub open spec fn spec_volume(self) -> int {
        vol_prefix(self.start@, self.end@, self.dims() as int)
    }

    /// True when `p` lies inside the region.
    pub open spec fn contains(self, p: Seq<int>) -> bool {
        &&& p.len() == self.dims()
        &&& forall|i: int|
            0 <= i < self.dims() ==> self.start@[i] <= #[trigger] p[i] && p[i] < self.end@[i]
    }

    /// True when this region's box lies inside `outer`'s box.
    pub open spec fn within(self, outer: Region) -> bool {
        &&& self.same_dims(outer)
        &&& forall|i: int|
            0 <= i < self.dims() ==> outer.start@[i] <= #[trigger] self.start@[i]
                && self.end@[i] <= outer.end@[i]
    }

    /// True when the regions have positive overlap in dimension `i`.
    pub open spec fn dim_overlap(self, other: Region, i: int) -> bool {
        &&& self.start@[i] < other.end@[i]
        &&& other.start@[i] < self.end@[i]
    }

    /// True when the regions have positive overlap in every dimension.
    pub open spec fn overlaps(self, other: Region) -> bool {
        &&& self.same_dims(other)
        &&& forall|i: int| 0 <= i < self.dims() ==> #[trigger] self.dim_overlap(other, i)
    }

    /// Start coordinate of the intersection in dimension `i`: the larger of
    /// the two starts.
    pub open spec fn inter_start(self, other: Region, i: int) -> int {
        if self.start@[i] >= other.start@[i] {
            self.start@[i] as int
        } else {
            other.start@[i] as int
        }
    }

    /// End coordinate of the intersection in dimension `i`: the smaller of
    /// the two ends.
    pub open spec fn inter_end(self, other: Region, i: int) -> int {
        if self.end@[i] <= other.end@[i] {
            self.end@[i] as int
        } else {
            other.end@[i] as int
        }
    }

    /// True when the intersection has a positive extent in every dimension.
    pub open spec fn nonempty_inter(self, other: Region) -> bool {
        &&& self.same_dims(other)
        &&& forall|i: int|
            0 <= i < self.dims() ==> #[trigger] self.inter_start(other, i) < self.inter_end(
                other,
                i,
            )
    }

    /// Calculates the volume of the region.
    pub fn volume(&self) -> (v: i128)
        requires
            self.valid(),
        ensures
            v == self.spec_volume(),
            0 <= v <= vol_cap(MAX_DIM as int),
    {
        let d = self.start.len();
        let mut result: i128 = 1;
        let mut i: usize = 0;
        while i < d
            invariant
                self.valid(),
                d == self.dims(),
                0 <= i <= d,
                result == vol_prefix(self.start@, self.end@, i as int),
                0 <= result <= dim_vol_cap(d as nat, i as int),
            decreases d - i,
        {
            let factor: i64 = self.end[i] - self.start[i];
            proof {
                lemma_vol_cap_table();
                lemma_dim_vol_cap_table(d as nat);
                assert(dim_vol_cap(d as nat, i as int + 1) == dim_vol_cap(d as nat, i as int)
                    * factor_cap(d as nat));
                assert(0 <= result * (factor as int) <= dim_vol_cap(d as nat, i as int)
                    * factor_cap(d as nat)) by (nonlinear_arith)
                    requires
                        0 <= result <= dim_vol_cap(d as nat, i as int),
                        0 <= factor <= factor_cap(d as nat),
                ;
            }
            result = result * (factor as i128);
            i = i + 1;
        }
        proof {
            lemma_dim_vol_cap_table(d as nat);
            lemma_vol_cap_table();
        }
        result
    }

    /// True when the two regions share volume.  Touching boundaries do not
    /// count as overlap, consistent with the half-open bounds.
    pub fn intersects(&self, other: &Region) -> (r: bool)
        requires
            self.valid(),
            other.valid(),
            self.same_dims(*other),
        ensures
            r == self.overlaps(*other),
    {
        let d = self.start.len();
        let mut i: usize = 0;
        while i < d
            invariant
                self.valid(),
                other.valid(),
                self.same_dims(*other),
                d == self.dims(),
                0 <= i <= d,
                forall|j: int| 0 <= j < i ==> #[trigger] self.dim_overlap(*other, j),
            decreases d - i,
        {
            if !(self.end[i] > other.start[i] && other.end[i] > self.start[i]) {
                assert(!self.dim_overlap(*other, i as int));
                return false;
            }
            i = i + 1;
        }
        true
    }

    /// Per-dimension `max(start)` / `min(end)`; absent when any dimension's
    /// computed end is not past its computed start.
    pub fn intersection(&self, other: &Region) -> (r: Option<Region>)
        requires
            self.valid(),
            other.valid(),
            self.same_dims(*other),
        ensures
            r.is_some() == self.nonempty_inter(*other),
            r matches Some(x) ==> {
                &&& x.valid()
                &&& x.strict()
                &&& x.same_dims(*self)
                &&& forall|i: int|
                    0 <= i < x.dims() ==> #[trigger] x.start@[i] == self.inter_start(*other, i)
                &&& forall|i: int|
                    0 <= i < x.dims() ==> #[trigger] x.end@[i] == self.inter_end(*other, i)
            },
    {
        let d = self.start.len();
        let mut rs: Vec<i64> = Vec::new();
        let mut re: Vec<i64> = Vec::new();
        let mut i: usize = 0;
        while i < d
            invariant
                self.valid(),
                other.valid(),
                self.same_dims(*other),
                d == self.dims(),
                0 <= i <= d,
                rs@.len() == i,
                re@.len() == i,
                forall|j: int| 0 <= j < i ==> #[trigger] rs@[j] == self.inter_start(*other, j),
                forall|j: int| 0 <= j < i ==> #[trigger] re@[j] == self.inter_end(*other, j),
                forall|j: int|
                    0 <= j < i ==> #[trigger] self.inter_start(*other, j) < self.inter_end(
                        *other,
                        j,
                    ),
            decreases d - i,
        {
            let s: i64 = if self.start[i] >= other.start[i] {
                self.start[i]
            } else {
                other.start[i]
            };
            let e: i64 = if self.end[i] <= other.end[i] {
                self.end[i]
            } else {
                other.end[i]
            };
            if e <= s {
                assert(self.inter_end(*other, i as int) <= self.inter_start(*other, i as int));
                return None;
            }
            rs.push(s);
            re.push(e);
            i = i + 1;
        }
        Some(Region { start: rs, end: re })
    }
}

/// Copies a coordinate list element by element.
fn copy_coords(v: &Vec<i64>) -> (r: Vec<i64>)
    ensures
        r@ == v@,
{
    let mut r: Vec<i64> = Vec::new();
    let mut i: usize = 0;
    while i < v.len()
        invariant
            0 <= i <= v@.len(),
            r@ == v@.subrange(0, i as int),
        decreases v@.len() - i,
    {
        r.push(v[i]);
        proof {
            assert(r@ =~= v@.subrange(0, i as int + 1));
        }
        i = i + 1;
    }
    proof {
        assert(r@ =~= v@);
    }
    r
}

impl Region {
    /// An element-by-element copy with coordinate equality in its contract.
    pub fn duplicate(&self) -> (r: Region)
        ensures
            r.start@ == self.start@,
            r.end@ == self.end@,
    {
        Region { start: copy_coords(&self.start), end: copy_coords(&self.end) }
    }

    /// Destructively shrinks `self` to exactly `self ∩ tool` and pushes the
    /// non-overlapping leftover slices onto `splits`, one slab per side per
    /// dimension, with the exact coordinates [`cut_slab_views`] prescribes.
    /// Returns the number of slices pushed, or `None` — with no mutation at
    /// all — when the regions do not intersect.
    #[verifier::rlimit(100)]
    pub fn cut(&mut self, tool: &Region, splits: &mut Vec<Region>) -> (r: Option<u8>)
        requires
            old(self).valid(),
            old(self).strict(),
            tool.valid(),
            tool.strict(),
            old(self).same_dims(*tool),
        ensures
            match r {
                Option::None => {
                    &&& *final(self) == *old(self)
                    &&& *final(splits) == *old(splits)
                    &&& !old(self).overlaps(*tool)
                },
                Option::Some(count) => {
                    &&& old(self).overlaps(*tool)
                    &&& count <= 2 * old(self).dims()
                    &&& count as int == cut_slab_views(
                        old(self).start@,
                        old(self).end@,
                        tool.start@,
                        tool.end@,
                        old(self).dims() as int,
                    ).len()
                    &&& forall|k: int|
                        old(splits)@.len() <= k < final(splits)@.len() ==> (#[trigger] final(splits)@[k]).start@ == cut_slab_views(
                            old(self).start@,
                            old(self).end@,
                            tool.start@,
                            tool.end@,
                            old(self).dims() as int,
                        )[k - old(splits)@.len()].0 && final(splits)@[k].end@ == cut_slab_views(
                            old(self).start@,
                            old(self).end@,
                            tool.start@,
                            tool.end@,
                            old(self).dims() as int,
                        )[k - old(splits)@.len()].1
                    &&& final(splits)@.len() == old(splits)@.len() + count
                    &&& final(splits)@.subrange(0, old(splits)@.len() as int) == old(splits)@
                    &&& final(self).valid()
                    &&& final(self).strict()
                    &&& final(self).same_dims(*old(self))
                    &&& forall|i: int|
                        0 <= i < final(self).dims() ==> #[trigger] final(self).start@[i] == old(self).inter_start(*tool, i)
                    &&& forall|i: int|
                        0 <= i < final(self).dims() ==> #[trigger] final(self).end@[i] == old(self).inter_end(
                            *tool,
                            i,
                        )
                    &&& forall|k: int|
                        old(splits)@.len() <= k < final(splits)@.len() ==> (#[trigger] final(splits)@[k]).valid()
                            && final(splits)@[k].strict() && final(splits)@[k].same_dims(*old(self))
                    &&& old(self).spec_volume() == final(self).spec_volume() + sum_vol(
                        final(splits)@.skip(old(splits)@.len() as int),
                    )
                    &&& forall|p: Seq<int>|
                        #![trigger old(self).contains(p)]
                        #![trigger final(self).contains(p)]
                        old(self).contains(p) <==> (final(self).contains(p) || covered(
                            final(splits)@.skip(old(splits)@.len() as int),
                            p,
                        ))
                    &&& final(self).within(*old(self))
                    &&& forall|k: int|
                        old(splits)@.len() <= k < final(splits)@.len() ==> (#[trigger] final(splits)@[k]).within(*old(self))
                    &&& pairwise_disjoint(final(splits)@.skip(old(splits)@.len() as int))
                    &&& forall|k: int|
                        old(splits)@.len() <= k < final(splits)@.len() ==> !(#[trigger] final(splits)@[k]).overlaps(
                            *final(self),
                        )
                    &&& forall|k: int|
                        old(splits)@.len() <= k < final(splits)@.len() ==> !(#[trigger] final(splits)@[k]).overlaps(
                            *tool,
                        )
                },
            },
    {
        if !self.intersects(tool) {
            return None;
        }
        let ghost s0 = *self;
        let ghost n0 = old(splits)@.len() as int;
        let d = self.start.len();
        let mut count: u8 = 0;
        let mut a: usize = 0;
        while a < d
            invariant
                self.valid(),
                self.strict(),
                tool.valid(),
                tool.strict(),
                s0.valid(),
                s0.strict(),
                s0.same_dims(*tool),
                s0.overlaps(*tool),
                d == s0.dims(),
                self.dims() == d,
                0 <= a <= d,
                n0 == old(splits)@.len() as int,
                splits@.len() == n0 + count,
                count <= 2 * a,
                count as int == cut_slab_views(
                    s0.start@,
                    s0.end@,
                    tool.start@,
                    tool.end@,
                    a as int,
                ).len(),
                forall|k: int|
                    n0 <= k < splits@.len() ==> (#[trigger] splits@[k]).start@ == cut_slab_views(
                        s0.start@,
                        s0.end@,
                        tool.start@,
                        tool.end@,
                        a as int,
                    )[k - n0].0 && splits@[k].end@ == cut_slab_views(
                        s0.start@,
                        s0.end@,
                        tool.start@,
                        tool.end@,
                        a as int,
                    )[k - n0].1,
                splits@.subrange(0, n0) == old(splits)@,
                forall|i: int| 0 <= i < a ==> #[trigger] self.start@[i] == s0.inter_start(*tool, i),
                forall|i: int| 0 <= i < a ==> #[trigger] self.end@[i] == s0.inter_end(*tool, i),
                forall|i: int| a <= i < d ==> #[trigger] self.start@[i] == s0.start@[i],
                forall|i: int| a <= i < d ==> #[trigger] self.end@[i] == s0.end@[i],
                forall|k: int|
                    n0 <= k < splits@.len() ==> (#[trigger] splits@[k]).valid()
                        && splits@[k].strict() && splits@[k].same_dims(s0),
                self.within(s0),
                forall|k: int| n0 <= k < splits@.len() ==> (#[trigger] splits@[k]).within(s0),
                s0.spec_volume() == self.spec_volume() + sum_vol(splits@.skip(n0)),
                forall|p: Seq<int>|
                    #![trigger s0.contains(p)]
                    #![trigger self.contains(p)]
                    s0.contains(p) <==> (self.contains(p) || covered(splits@.skip(n0), p)),
                forall|k: int, p: Seq<int>|
                    n0 <= k < splits@.len() && #[trigger] splits@[k].contains(p)
                        ==> !self.contains(p),
                forall|k: int, k2: int, p: Seq<int>|
                    n0 <= k < k2 < splits@.len() && #[trigger] splits@[k].contains(p) ==> !(#[trigger] splits@[k2].contains(p)),
                forall|k: int, p: Seq<int>|
                    n0 <= k < splits@.len() && #[trigger] splits@[k].contains(p)
                        ==> !tool.contains(p),
            decreases d - a,
        {
            proof {
                assert(s0.dim_overlap(*tool, a as int));
            }
            if self.start[a] < tool.start[a] {
                let ghost pre_self = *self;
                let ghost pre_added = splits@.skip(n0);
                let m: i64 = tool.start[a];
                let mut slab_end = copy_coords(&self.end);
                slab_end.set(a, m);
                let slab = Region { start: copy_coords(&self.start), end: slab_end };
                splits.push(slab);
                self.start.set(a, m);
                count = count + 1;
                proof {
                    assert(splits@.subrange(0, n0) =~= old(splits)@);
                    assert(splits@.skip(n0) =~= pre_added.push(slab));
                    assert(splits@.skip(n0).drop_last() =~= pre_added);
                    assert(pre_self.start@ =~= clip_start(s0.start@, tool.start@, a as int));
                    assert(pre_self.end@ =~= clip_end(s0.end@, tool.end@, a as int));
                    assert(slab.end@ =~= clip_end(s0.end@, tool.end@, a as int).update(
                        a as int,
                        m,
                    ));
                    lemma_vol_split(pre_self.start@, pre_self.end@, a as int, m, d as int);
                    assert(slab.spec_volume() == vol_prefix(
                        pre_self.start@,
                        pre_self.end@.update(a as int, m),
                        d as int,
                    ));
                    assert(self.spec_volume() == vol_prefix(
                        pre_self.start@.update(a as int, m),
                        pre_self.end@,
                        d as int,
                    ));
                    assert(sum_vol(splits@.skip(n0)) == sum_vol(pre_added) + slab.spec_volume());
                    assert forall|p: Seq<int>|
                        #![trigger s0.contains(p)]
                        #![trigger self.contains(p)]
                        s0.contains(p) <==> (self.contains(p) || covered(
                            splits@.skip(n0),
                            p,
                        )) by {
                        lemma_covered_push(pre_added, slab, p);
                        if pre_self.contains(p) {
                            if p[a as int] < m {
                                assert(slab.contains(p));
                            } else {
                                assert(self.contains(p));
                            }
                        }
                        if slab.contains(p) {
                            assert(pre_self.contains(p));
                        }
                        if self.contains(p) {
                            assert(pre_self.contains(p));
                        }
                    }
                    assert forall|k: int, p: Seq<int>|
                        n0 <= k < splits@.len() && #[trigger] splits@[k].contains(p)
                            implies !self.contains(p) by {
                        if k < splits@.len() - 1 {
                            assert(pre_added[k - n0].contains(p));
                        } else {
                            assert(slab.contains(p));
                            assert(p[a as int] < m);
                        }
                    }
                    assert forall|k: int, k2: int, p: Seq<int>|
                        n0 <= k < k2 < splits@.len() && #[trigger] splits@[k].contains(p)
                            implies !(#[trigger] splits@[k2].contains(p)) by {
                        assert(pre_added[k - n0].contains(p));
                        if k2 < splits@.len() - 1 {
                            assert(splits@[k2] == pre_added[k2 - n0]);
                        } else {
                            assert(splits@[k2] == slab);
                            if slab.contains(p) {
                                assert(pre_self.contains(p));
                            }
                        }
                    }
                    assert forall|k: int, p: Seq<int>|
                        n0 <= k < splits@.len() && #[trigger] splits@[k].contains(p)
                            implies !tool.contains(p) by {
                        if k < splits@.len() - 1 {
                            assert(pre_added[k - n0].contains(p));
                        } else {
                            assert(slab.contains(p));
                            assert(p[a as int] < m);
                        }
                    }
                }
            }
            if self.end[a] > tool.end[a] {
                let ghost pre_self = *self;
                let ghost pre_added = splits@.skip(n0);
                let m: i64 = tool.end[a];
                let mut slab_start = copy_coords(&self.start);
                slab_start.set(a, m);
                let slab = Region { start: slab_start, end: copy_coords(&self.end) };
                splits.push(slab);
                self.end.set(a, m);
                count = count + 1;
                proof {
                    assert(splits@.subrange(0, n0) =~= old(splits)@);
                    assert(splits@.skip(n0) =~= pre_added.push(slab));
                    assert(splits@.skip(n0).drop_last() =~= pre_added);
                    assert(slab.start@ =~= clip_start(s0.start@, tool.start@, a as int).update(
                        a as int,
                        m,
                    ));
                    assert(pre_self.end@ =~= clip_end(s0.end@, tool.end@, a as int));
                    assert(slab.end@ =~= clip_end(s0.end@, tool.end@, a as int));
                    lemma_vol_split(pre_self.start@, pre_self.end@, a as int, m, d as int);
                    assert(slab.spec_volume() == vol_prefix(
                        pre_self.start@.update(a as int, m),
                        pre_self.end@,
                        d as int,
                    ));
                    assert(self.spec_volume() == vol_prefix(
                        pre_self.start@,
                        pre_self.end@.update(a as int, m),
                        d as int,
                    ));
                    assert(sum_vol(splits@.skip(n0)) == sum_vol(pre_added) + slab.spec_volume());
                    assert forall|p: Seq<int>|
                        #![trigger s0.contains(p)]
                        #![trigger self.contains(p)]
                        s0.contains(p) <==> (self.contains(p) || covered(
                            splits@.skip(n0),
                            p,
                        )) by {
                        lemma_covered_push(pre_added, slab, p);
                        if pre_self.contains(p) {
                            if p[a as int] >= m {
                                assert(slab.contains(p));
                            } else {
                                assert(self.contains(p));
                            }
                        }
                        if slab.contains(p) {
                            assert(pre_self.contains(p));
                        }
                        if self.contains(p) {
                            assert(pre_self.contains(p));
                        }
                    }
                    assert forall|k: int, p: Seq<int>|
                        n0 <= k < splits@.len() && #[trigger] splits@[k].contains(p)
                            implies !self.contains(p) by {
                        if k < splits@.len() - 1 {
                            assert(pre_added[k - n0].contains(p));
                        } else {
                            assert(slab.contains(p));
                            assert(p[a as int] >= m);
                        }
                    }
                    assert forall|k: int, k2: int, p: Seq<int>|
                        n0 <= k < k2 < splits@.len() && #[trigger] splits@[k].contains(p)
                            implies !(#[trigger] splits@[k2].contains(p)) by {
                        assert(pre_added[k - n0].contains(p));
                        if k2 < splits@.len() - 1 {
                            assert(splits@[k2] == pre_added[k2 - n0]);
                        } else {
                            assert(splits@[k2] == slab);
                            if slab.contains(p) {
                                assert(pre_self.contains(p));
                            }
                        }
                    }
                    assert forall|k: int, p: Seq<int>|
                        n0 <= k < splits@.len() && #[trigger] splits@[k].contains(p)
                            implies !tool.contains(p) by {
                        if k < splits@.len() - 1 {
                            assert(pre_added[k - n0].contains(p));
                        } else {
                            assert(slab.contains(p));
                            assert(p[a as int] >= m);
                        }
                    }
                }
            }
            proof {
                assert(self.start@[a as int] == s0.inter_start(*tool, a as int));
                assert(self.end@[a as int] == s0.inter_end(*tool, a as int));
                let vs_a = cut_slab_views(s0.start@, s0.end@, tool.start@, tool.end@, a as int);
                let vs_a1 = cut_slab_views(
                    s0.start@,
                    s0.end@,
                    tool.start@,
                    tool.end@,
                    a as int + 1,
                );
                assert forall|k: int|
                    n0 <= k < splits@.len() implies (#[trigger] splits@[k]).start@ == vs_a1[k
                    - n0].0 && splits@[k].end@ == vs_a1[k - n0].1 by {
                    if k - n0 < vs_a.len() {
                        assert(vs_a1[k - n0] == vs_a[k - n0]);
                    }
                }
                assert(splits@.len() - n0 == vs_a1.len());
                assert(count as int == vs_a1.len());
            }
            a = a + 1;
        }
        proof {
            let added = splits@.skip(n0);
            assert forall|j: int, k: int|
                0 <= j < added.len() && 0 <= k < added.len() && j != k implies !(
            #[trigger] added[j]).overlaps(#[trigger] added[k]) by {
                if added[j].overlaps(added[k]) {
                    lemma_overlap_witness(added[j], added[k]);
                    let p = choose|p: Seq<int>| added[j].contains(p) && added[k].contains(p);
                    if j < k {
                        assert(splits@[n0 + j].contains(p));
                        assert(splits@[n0 + k].contains(p));
                    } else {
                        assert(splits@[n0 + k].contains(p));
                        assert(splits@[n0 + j].contains(p));
                    }
                }
            }
            assert forall|k: int| n0 <= k < splits@.len() implies !(
            #[trigger] splits@[k]).overlaps(*self) by {
                if splits@[k].overlaps(*self) {
                    lemma_overlap_witness(splits@[k], *self);
                    let p = choose|p: Seq<int>| splits@[k].contains(p) && self.contains(p);
                }
            }
            assert forall|k: int| n0 <= k < splits@.len() implies !(
            #[trigger] splits@[k]).overlaps(*tool) by {
                if splits@[k].overlaps(*tool) {
                    lemma_overlap_witness(splits@[k], *tool);
                    let p = choose|p: Seq<int>| splits@[k].contains(p) && tool.contains(p);
                }
            }
        }
        Some(count)
    }

    /// Cuts every region of `regions` against `self`.  Regions overlapping
    /// `self` are replaced in place (by swap-with-last) by their leftover
    /// slices, while the overlapping parts are appended to `intersections`.
    /// Entries appended during the pass are visited by the same scan.
    /// Returns the total intersected volume.
    #[verifier::rlimit(100)]
    pub fn cut_regions(&self, regions: &mut Vec<Region>, intersections: &mut Vec<Region>) -> (vol:
        i128)
        requires
            self.valid(),
            self.strict(),
            forall|k: int|
                0 <= k < old(regions)@.len() ==> (#[trigger] old(regions)@[k]).valid() && old(regions)@[k].strict() && old(regions)@[k].same_dims(*self),
            pairwise_disjoint(old(regions)@),
            sum_vol(old(regions)@) <= vol_cap(MAX_DIM as int),
        ensures
            forall|k: int|
                0 <= k < final(regions)@.len() ==> (#[trigger] final(regions)@[k]).valid() && final(regions)@[k].strict() && final(regions)@[k].same_dims(*self),
            forall|k: int|
                0 <= k < final(regions)@.len() ==> !(#[trigger] final(regions)@[k]).overlaps(*self),
            pairwise_disjoint(final(regions)@),
            final(intersections)@.len() >= old(intersections)@.len(),
            final(intersections)@.subrange(0, old(intersections)@.len() as int) == old(intersections)@,
            forall|k: int|
                old(intersections)@.len() <= k < final(intersections)@.len() ==> (#[trigger] final(intersections)@[k]).valid() && final(intersections)@[k].strict() && final(intersections)@[k].same_dims(*self),
            pairwise_disjoint(final(intersections)@.skip(old(intersections)@.len() as int)),
            forall|k: int, p: Seq<int>|
                old(intersections)@.len() <= k < final(intersections)@.len() && #[trigger] final(intersections)@[k].contains(p) ==> self.contains(p),
            forall|k: int, p: Seq<int>|
                0 <= k < final(regions)@.len() && #[trigger] final(regions)@[k].contains(p)
                    ==> !self.contains(p),
            forall|p: Seq<int>|
                #![trigger covered(old(regions)@, p)]
                #![trigger covered(final(regions)@, p)]
                covered(old(regions)@, p) <==> (covered(final(regions)@, p) || covered(
                    final(intersections)@.skip(old(intersections)@.len() as int),
                    p,
                )),
            vol == sum_vol(final(intersections)@.skip(old(intersections)@.len() as int)),
            sum_vol(final(regions)@) + vol == sum_vol(old(regions)@),
            0 <= vol <= sum_vol(old(regions)@),
            vol == 0 ==> final(intersections)@.len() == old(intersections)@.len(),
            forall|k: int|
                0 <= k < final(regions)@.len() ==> #[trigger] within_one(
                    final(regions)@[k],
                    old(regions)@,
                ),
            forall|k: int|
                old(intersections)@.len() <= k < final(intersections)@.len()
                    ==> #[trigger] within_one(final(intersections)@[k], old(regions)@),
            (forall|k: int|
                0 <= k < old(regions)@.len() ==> !(#[trigger] old(regions)@[k]).overlaps(*self))
                ==> *final(regions) == *old(regions) && *final(intersections) == *old(
                intersections,
            ),
    {
        let ghost r0 = old(regions)@;
        let ghost i0 = old(intersections)@.len() as int;
        let mut vol: i128 = 0;
        let mut tool_count: usize = regions.len();
        let mut tail_count: usize = 0;
        let mut i: usize = 0;
        proof {
            lemma_sum_vol_bounds(r0);
            assert(intersections@.skip(i0) =~= Seq::<Region>::empty());
            assert(intersections@.subrange(0, i0) =~= intersections@);
        }
        while i < tool_count
            invariant
                self.valid(),
                self.strict(),
                0 <= i <= tool_count,
                tool_count <= regions@.len(),
                tail_count == regions@.len() - tool_count,
                i0 == old(intersections)@.len() as int,
                r0 == old(regions)@,
                forall|k: int|
                    0 <= k < regions@.len() ==> (#[trigger] regions@[k]).valid()
                        && regions@[k].strict() && regions@[k].same_dims(*self),
                pairwise_disjoint(regions@),
                forall|k: int|
                    (0 <= k < i || tool_count <= k < regions@.len()) ==> !(
                    #[trigger] regions@[k]).overlaps(*self),
                intersections@.len() >= i0,
                intersections@.subrange(0, i0) == old(intersections)@,
                forall|k: int|
                    i0 <= k < intersections@.len() ==> (#[trigger] intersections@[k]).valid()
                        && intersections@[k].strict() && intersections@[k].same_dims(*self),
                pairwise_disjoint(intersections@.skip(i0)),
                forall|k: int, p: Seq<int>|
                    i0 <= k < intersections@.len() && #[trigger] intersections@[k].contains(p)
                        ==> self.contains(p),
                forall|j: int, k: int|
                    0 <= j < regions@.len() && i0 <= k < intersections@.len() ==> !(
                    #[trigger] regions@[j]).overlaps(#[trigger] intersections@[k]),
                forall|p: Seq<int>|
                    #![trigger covered(r0, p)]
                    #![trigger covered(regions@, p)]
                    covered(r0, p) <==> (covered(regions@, p) || covered(
                        intersections@.skip(i0),
                        p,
                    )),
                vol == sum_vol(intersections@.skip(i0)),
                sum_vol(regions@) + vol == sum_vol(r0),
                forall|k: int|
                    0 <= k < regions@.len() ==> #[trigger] within_one(regions@[k], r0),
                forall|k: int|
                    i0 <= k < intersections@.len() ==> #[trigger] within_one(
                        intersections@[k],
                        r0,
                    ),
                (forall|k: int| 0 <= k < r0.len() ==> !(#[trigger] r0[k]).overlaps(*self))
                    ==> *regions == *old(regions) && *intersections == *old(intersections),
                sum_vol(r0) <= vol_cap(MAX_DIM as int),
                vol >= intersections@.len() - i0,
                0 <= vol,
            decreases tool_count - i,
        {
            let ghost pre = regions@;
            let ghost pre_added = intersections@.skip(i0);
            let mut current = regions[i].duplicate();
            let ghost cur0 = current;
            proof {
                lemma_region_congruence(cur0, pre[i as int]);
            }
            let res = current.cut(self, regions);
            match res {
                Option::None => {
                    proof {
                        assert(!regions@[i as int].overlaps(*self));
                    }
                    i = i + 1;
                }
                Option::Some(count) => {
                    let ghost mid = regions@;
                    let ghost n = pre.len() as int;
                    let ghost slabs = mid.skip(n);
                    let ghost newlen = mid.len() as int - 1;
                    proof {
                        assert(mid =~= pre + slabs);
                        assert(mid.subrange(0, n) =~= pre);
                        if forall|k2: int|
                            0 <= k2 < r0.len() ==> !(#[trigger] r0[k2]).overlaps(*self) {
                            assert(pre[i as int] == r0[i as int]);
                            assert(!r0[i as int].overlaps(*self));
                            assert(cur0.overlaps(*self));
                            assert(false);
                        }
                    }
                    let cur_len = regions.len();
                    proof {
                        assert(tail_count + count as usize <= cur_len);
                    }
                    tail_count = tail_count + (count as usize);
                    let _removed = regions.swap_remove(i);
                    let cv = current.volume();
                    proof {
                        // Volume bookkeeping before the accumulator update.
                        lemma_sum_vol_concat(pre, slabs);
                        lemma_sum_vol_swap_remove(mid, i as int);
                        assert(sum_vol(regions@) == sum_vol(pre) + sum_vol(slabs) - pre[
                            i as int
                        ].spec_volume());
                        assert(pre[i as int].spec_volume() == current.spec_volume() + sum_vol(
                            slabs,
                        ));
                        assert(sum_vol(regions@) == sum_vol(pre) - current.spec_volume());
                        assert forall|k: int|
                            0 <= k < regions@.len() implies (#[trigger] regions@[k]).valid()
                                && regions@[k].strict() && regions@[k].same_dims(*self) by {
                            if k == i {
                                assert(regions@[k] == mid[newlen]);
                            } else {
                                assert(regions@[k] == mid[k]);
                            }
                        }
                        lemma_sum_vol_bounds(regions@);
                        lemma_vol_cap_table();
                        lemma_volume_nonneg(current);
                        assert(vol + cv == sum_vol(r0) - sum_vol(regions@));
                        assert(vol + cv <= vol_cap(MAX_DIM as int));
                    }
                    vol = vol + cv;
                    intersections.push(current);
                    proof {
                        let rnow = regions@;
                        let added = intersections@.skip(i0);
                        assert(intersections@.subrange(0, i0) =~= old(intersections)@);
                        assert(added =~= pre_added.push(current));
                        assert(added.drop_last() =~= pre_added);
                        // Every point of the shrunken copy lies in the tool.
                        assert forall|p: Seq<int>| #[trigger] current.contains(p)
                            implies self.contains(p) by {
                            assert forall|dd: int| 0 <= dd < self.dims() implies self.start@[dd]
                                <= #[trigger] p[dd] && p[dd] < self.end@[dd] by {
                                assert(current.start@[dd] == cur0.inter_start(*self, dd));
                                assert(current.end@[dd] == cur0.inter_end(*self, dd));
                                assert(current.start@[dd] <= p[dd] && p[dd] < current.end@[dd]);
                            }
                        }
                        // Pairs of surviving entries never overlap.
                        assert forall|x: int, y: int|
                            0 <= x <= newlen && 0 <= y <= newlen && x != y && x != i && y != i
                                implies !(#[trigger] mid[x]).overlaps(#[trigger] mid[y]) by {
                            if mid[x].overlaps(mid[y]) {
                                if x < n && y < n {
                                    assert(pre[x].overlaps(pre[y]));
                                } else if x >= n && y >= n {
                                    assert(slabs[x - n].overlaps(slabs[y - n]));
                                } else {
                                    let (xp, ys) = if x < n {
                                        (x, y)
                                    } else {
                                        (y, x)
                                    };
                                    if mid[xp].overlaps(mid[ys]) {
                                        lemma_overlap_witness(mid[xp], mid[ys]);
                                    } else {
                                        lemma_overlap_witness(mid[ys], mid[xp]);
                                    }
                                    let p = choose|p: Seq<int>|
                                        mid[xp].contains(p) && mid[ys].contains(p);
                                    assert(covered(slabs, p)) by {
                                        assert(slabs[ys - n].contains(p));
                                    }
                                    assert(cur0.contains(p));
                                    assert(pre[i as int].contains(p));
                                    lemma_contains_overlap(pre[xp], pre[i as int], p);
                                }
                            }
                        }
                        assert forall|j: int, k: int|
                            0 <= j < rnow.len() && 0 <= k < rnow.len() && j != k implies !(
                        #[trigger] rnow[j]).overlaps(#[trigger] rnow[k]) by {
                            let mj = if j == i {
                                newlen
                            } else {
                                j
                            };
                            let mk = if k == i {
                                newlen
                            } else {
                                k
                            };
                            assert(rnow[j] == mid[mj]);
                            assert(rnow[k] == mid[mk]);
                        }
                        // The new piece is disjoint from everything that remains.
                        assert forall|j: int, k: int|
                            0 <= j < rnow.len() && i0 <= k < intersections@.len() implies !(
                        #[trigger] rnow[j]).overlaps(#[trigger] intersections@[k]) by {
                            let mj = if j == i {
                                newlen
                            } else {
                                j
                            };
                            assert(rnow[j] == mid[mj]);
                            if rnow[j].overlaps(intersections@[k]) {
                                lemma_overlap_witness(mid[mj], intersections@[k]);
                                let p = choose|p: Seq<int>|
                                    mid[mj].contains(p) && intersections@[k].contains(p);
                                if k < intersections@.len() - 1 {
                                    // An already collected piece against a survivor.
                                    assert(pre_added[k - i0].contains(p));
                                    if mj < n {
                                        lemma_contains_overlap(pre[mj], intersections@[k], p);
                                    } else {
                                        assert(covered(slabs, p)) by {
                                            assert(slabs[mj - n].contains(p));
                                        }
                                        assert(cur0.contains(p));
                                        assert(pre[i as int].contains(p));
                                        lemma_contains_overlap(pre[i as int], intersections@[k], p);
                                    }
                                } else {
                                    // The freshly cut piece against a survivor.
                                    assert(intersections@[k] == current);
                                    assert(cur0.contains(p));
                                    assert(pre[i as int].contains(p));
                                    if mj < n {
                                        lemma_contains_overlap(pre[mj], pre[i as int], p);
                                    } else {
                                        assert(!mid[mj].overlaps(current));
                                        lemma_contains_overlap(mid[mj], current, p);
                                    }
                                }
                            }
                        }
                        assert forall|j: int, k: int|
                            0 <= j < added.len() && 0 <= k < added.len() && j != k implies !(
                        #[trigger] added[j]).overlaps(#[trigger] added[k]) by {
                            if added[j].overlaps(added[k]) {
                                lemma_overlap_witness(added[j], added[k]);
                                let p = choose|p: Seq<int>| added[j].contains(p) && added[k].contains(p);
                                if j < added.len() - 1 && k < added.len() - 1 {
                                    assert(pre_added[j].overlaps(pre_added[k])) by {
                                        lemma_contains_overlap(pre_added[j], pre_added[k], p);
                                    }
                                } else {
                                    let o = if j < added.len() - 1 {
                                        j
                                    } else {
                                        k
                                    };
                                    assert(added[o].contains(p) && current.contains(p));
                                    assert(cur0.contains(p));
                                    assert(pre[i as int].contains(p));
                                    lemma_contains_overlap(pre[i as int], pre_added[o], p);
                                }
                            }
                        }
                        // Point-for-point conservation.
                        assert forall|p: Seq<int>|
                            #![trigger covered(r0, p)]
                            #![trigger covered(rnow, p)]
                            covered(r0, p) <==> (covered(rnow, p) || covered(added, p)) by {
                            lemma_covered_swap_remove(mid, i as int, p);
                            lemma_covered_push(pre_added, current, p);
                            if covered(r0, p) {
                                if covered(pre_added, p) {
                                    assert(covered(added, p));
                                } else {
                                    assert(covered(pre, p));
                                    let k = choose|k: int|
                                        0 <= k < pre.len() && (#[trigger] pre[k]).contains(p);
                                    if k == i {
                                        assert(cur0.contains(p));
                                        if current.contains(p) {
                                            assert(covered(added, p));
                                        } else {
                                            assert(covered(slabs, p));
                                            let ks = choose|ks: int|
                                                0 <= ks < slabs.len() && (
                                                #[trigger] slabs[ks]).contains(p);
                                            if n + ks == newlen {
                                                assert(rnow[i as int] == mid[newlen]);
                                                assert(rnow[i as int].contains(p));
                                            } else {
                                                assert(rnow[n + ks] == mid[n + ks]);
                                                assert(rnow[n + ks].contains(p));
                                            }
                                            assert(covered(rnow, p));
                                        }
                                    } else {
                                        if k == newlen {
                                            assert(rnow[i as int] == mid[newlen]);
                                            assert(rnow[i as int].contains(p));
                                        } else {
                                            assert(rnow[k] == mid[k]);
                                            assert(rnow[k].contains(p));
                                        }
                                        assert(covered(rnow, p));
                                    }
                                }
                            }
                            if covered(rnow, p) {
                                assert(covered(mid, p));
                                let k = choose|k: int|
                                    0 <= k < mid.len() && (#[trigger] mid[k]).contains(p);
                                if k < n {
                                    assert(pre[k].contains(p));
                                    assert(covered(pre, p));
                                } else {
                                    assert(slabs[k - n].contains(p));
                                    assert(covered(slabs, p));
                                    assert(cur0.contains(p));
                                    assert(pre[i as int].contains(p));
                                    assert(covered(pre, p));
                                }
                                assert(covered(r0, p));
                            }
                            if covered(added, p) {
                                if current.contains(p) {
                                    assert(cur0.contains(p));
                                    assert(pre[i as int].contains(p));
                                    assert(covered(pre, p));
                                } else {
                                    assert(covered(pre_added, p));
                                }
                                assert(covered(r0, p));
                            }
                        }
                        // every surviving piece stays inside the one
                        // original candidate it was carved from
                        assert(within_one(pre[i as int], r0));
                        let jp = choose|jp: int|
                            0 <= jp < r0.len() && pre[i as int].within(#[trigger] r0[jp]);
                        assert(cur0.within(r0[jp]));
                        assert forall|k: int|
                            0 <= k < rnow.len() implies #[trigger] within_one(rnow[k], r0) by {
                            let mk = if k == i {
                                newlen
                            } else {
                                k
                            };
                            assert(rnow[k] == mid[mk]);
                            if mk < n {
                                assert(within_one(pre[mk], r0));
                            } else {
                                assert(mid[mk].within(cur0));
                                lemma_within_trans(mid[mk], cur0, r0[jp]);
                            }
                        }
                        assert forall|k: int|
                            i0 <= k < intersections@.len() implies #[trigger] within_one(
                            intersections@[k],
                            r0,
                        ) by {
                            if k < intersections@.len() - 1 {
                                assert(within_one(pre_added[k - i0], r0));
                            } else {
                                assert(current.within(cur0));
                                lemma_within_trans(current, cur0, r0[jp]);
                            }
                        }
                    }
                    let ghost i_rm = i as int;
                    if tail_count == 0 {
                        proof {
                            assert(count == 0 && slabs.len() == 0);
                        }
                        tool_count = tool_count - 1;
                        proof {
                            assert(regions@.len() == tool_count);
                            assert forall|k: int| 0 <= k < i implies !(
                            #[trigger] regions@[k]).overlaps(*self) by {
                                assert(regions@[k] == mid[k]);
                                assert(mid[k] == pre[k]);
                            }
                        }
                    } else {
                        proof {
                            assert(regions@[i as int] == mid[newlen]);
                            if newlen >= n {
                                assert(mid[newlen] == slabs[newlen - n]);
                            } else {
                                assert(mid[newlen] == pre[newlen]);
                            }
                            assert(!regions@[i as int].overlaps(*self));
                        }
                        i = i + 1;
                        tail_count = tail_count - 1;
                        proof {
                            assert forall|k: int|
                                (0 <= k < i || tool_count <= k < regions@.len()) implies !(
                            #[trigger] regions@[k]).overlaps(*self) by {
                                if k != i_rm {
                                    assert(regions@[k] == mid[k]);
                                    if k < n {
                                        assert(mid[k] == pre[k]);
                                    } else {
                                        assert(mid[k] == slabs[k - n]);
                                    }
                                }
                            }
                        }
                    }
                }
            }
        }
        proof {
            assert forall|k: int, p: Seq<int>|
                0 <= k < regions@.len() && #[trigger] regions@[k].contains(p)
                    implies !self.contains(p) by {
                if self.contains(p) {
                    lemma_contains_overlap(regions@[k], *self, p);
                }
            }
            lemma_sum_vol_bounds(regions@);
            if vol == 0 {
                lemma_sum_vol_bounds(intersections@.skip(i0));
                assert(intersections@.skip(i0).len() == 0);
            }
        }
        vol
    }
}

/// Intersection is symmetric: both argument orders agree on whether an
/// intersection exists and on every coordinate of the result.
pub proof fn lemma_intersection_symmetric(a: Region, b: Region)
    requires
        a.valid(),
        b.valid(),
        a.same_dims(b),
    ensures
        a.nonempty_inter(b) == b.nonempty_inter(a),
        forall|i: int| 0 <= i < a.dims() ==> #[trigger] a.inter_start(b, i) == b.inter_start(a, i),
        forall|i: int| 0 <= i < a.dims() ==> #[trigger] a.inter_end(b, i) == b.inter_end(a, i),
{
    assert forall|i: int| 0 <= i < a.dims() implies #[trigger] a.inter_start(b, i) == b.inter_start(
        a,
        i,
    ) by {}
    assert forall|i: int| 0 <= i < a.dims() implies #[trigger] a.inter_end(b, i) == b.inter_end(
        a,
        i,
    ) by {}
    if a.nonempty_inter(b) {
        assert forall|i: int| 0 <= i < b.dims() implies #[trigger] b.inter_start(a, i)
            < b.inter_end(a, i) by {
            assert(a.inter_start(b, i) < a.inter_end(b, i));
        }
        assert(b.nonempty_inter(a));
    }
    if b.nonempty_inter(a) {
        assert forall|i: int| 0 <= i < a.dims() implies #[trigger] a.inter_start(b, i)
            < a.inter_end(b, i) by {
            assert(b.inter_start(a, i) < b.inter_end(a, i));
        }
        assert(a.nonempty_inter(b));
    }
}

/// If two regions fail to overlap in at least one dimension, their
/// intersection is absent.
pub proof fn lemma_intersection_degenerate(a: Region, b: Region, i: int)
    requires
        a.valid(),
        b.valid(),
        a.same_dims(b),
        0 <= i < a.dims(),
        !a.dim_overlap(b, i),
    ensures
        !a.nonempty_inter(b),
{
    assert(a.inter_end(b, i) <= a.inter_start(b, i));
}

/// For regions of positive volume, overlap coincides with a non-empty
/// intersection.
pub proof fn lemma_overlaps_iff_nonempty(a: Region, b: Region)
    requires
        a.valid(),
        b.valid(),
        a.same_dims(b),
        a.strict(),
        b.strict(),
    ensures
        a.overlaps(b) == a.nonempty_inter(b),
{
    if a.overlaps(b) {
        assert forall|i: int| 0 <= i < a.dims() implies #[trigger] a.inter_start(b, i)
            < a.inter_end(b, i) by {
            assert(a.dim_overlap(b, i));
        }
    }
    if a.nonempty_inter(b) {
        assert forall|i: int| 0 <= i < a.dims() implies #[trigger] a.dim_overlap(b, i) by {
            assert(a.inter_start(b, i) < a.inter_end(b, i));
        }
    }
}

/// Two overlapping regions of positive volume share a point.
pub proof fn lemma_overlap_witness(a: Region, b: Region)
    requires
        a.valid(),
        b.valid(),
        a.same_dims(b),
        a.strict(),
        b.strict(),
        a.overlaps(b),
    ensures
        exists|p: Seq<int>| a.contains(p) && b.contains(p),
{
    let p = Seq::new(a.dims(), |i: int| a.inter_start(b, i));
    assert forall|i: int| 0 <= i < a.dims() implies a.start@[i] <= #[trigger] p[i] && p[i]
        < a.end@[i] && b.start@[i] <= p[i] && p[i] < b.end@[i] by {
        assert(a.dim_overlap(b, i));
    }
    assert(a.contains(p));
    assert(b.contains(p));
}

/// `vol_prefix` only reads the first `k` entries of each coordinate list.
pub proof fn lemma_vol_prefix_congruence(
    s1: Seq<i64>,
    e1: Seq<i64>,
    s2: Seq<i64>,
    e2: Seq<i64>,
    k: int,
)
    requires
        forall|i: int| 0 <= i < k ==> #[trigger] s1[i] == s2[i] && e1[i] == e2[i],
    ensures
        vol_prefix(s1, e1, k) == vol_prefix(s2, e2, k),
    decreases k,
{
    if k > 0 {
        lemma_vol_prefix_congruence(s1, e1, s2, e2, k - 1);
    }
}

/// Splitting one dimension at a plane `m` splits the volume linearly: the
/// part below `m` and the part above `m` sum to the whole.
pub proof fn lemma_vol_split(s: Seq<i64>, e: Seq<i64>, a: int, m: i64, k: int)
    requires
        0 <= a < k,
        k <= s.len(),
        k <= e.len(),
    ensures
        vol_prefix(s, e.update(a, m), k) + vol_prefix(s.update(a, m), e, k) == vol_prefix(s, e, k),
    decreases k,
{
    let e2 = e.update(a, m);
    let s2 = s.update(a, m);
    if k - 1 == a {
        lemma_vol_prefix_congruence(s, e2, s, e, a);
        lemma_vol_prefix_congruence(s2, e, s, e, a);
        let p = vol_prefix(s, e, a);
        assert(p * (m - s[a]) + p * (e[a] - m) == p * (e[a] - s[a])) by (nonlinear_arith);
    } else {
        lemma_vol_split(s, e, a, m, k - 1);
        let f = (e[k - 1] - s[k - 1]) as int;
        let x = vol_prefix(s, e2, k - 1);
        let y = vol_prefix(s2, e, k - 1);
        let z = vol_prefix(s, e, k - 1);
        assert(x * f + y * f == z * f) by (nonlinear_arith)
            requires
                x + y == z,
        ;
    }
}

/// An ordered region has non-negative volume; a strictly ordered one has
/// positive volume.
pub proof fn lemma_vol_prefix_bounds(s: Seq<i64>, e: Seq<i64>, k: int)
    requires
        forall|i: int| 0 <= i < k ==> #[trigger] s[i] <= e[i],
    ensures
        vol_prefix(s, e, k) >= 0,
        (forall|i: int| 0 <= i < k ==> #[trigger] s[i] < e[i]) ==> vol_prefix(s, e, k) >= 1,
    decreases k,
{
    if k > 0 {
        lemma_vol_prefix_bounds(s, e, k - 1);
        let p = vol_prefix(s, e, k - 1);
        let f = (e[k - 1] - s[k - 1]) as int;
        assert(p * f >= 0) by (nonlinear_arith)
            requires
                p >= 0,
                f >= 0,
        ;
        if forall|i: int| 0 <= i < k ==> #[trigger] s[i] < e[i] {
            assert(p * f >= 1) by (nonlinear_arith)
                requires
                    p >= 1,
                    f >= 1,
            ;
        }
    }
}

/// Volume bounds restated for a region.
pub proof fn lemma_volume_nonneg(r: Region)
    requires
        r.valid(),
    ensures
        r.spec_volume() >= 0,
        r.strict() ==> r.spec_volume() >= 1,
{
    lemma_vol_prefix_bounds(r.start@, r.end@, r.dims() as int);
}

/// The summed volume of well-formed regions is non-negative, and at least
/// the region count when all of them are strictly ordered.
pub proof fn lemma_sum_vol_bounds(rs: Seq<Region>)
    requires
        forall|k: int| 0 <= k < rs.len() ==> (#[trigger] rs[k]).valid(),
    ensures
        sum_vol(rs) >= 0,
        (forall|k: int| 0 <= k < rs.len() ==> (#[trigger] rs[k]).strict()) ==> sum_vol(rs)
            >= rs.len(),
    decreases rs.len(),
{
    if rs.len() > 0 {
        lemma_sum_vol_bounds(rs.drop_last());
        lemma_volume_nonneg(rs.last());
    }
}

/// Coverage by a sequence extended with one region.
pub proof fn lemma_covered_push(rs: Seq<Region>, x: Region, p: Seq<int>)
    ensures
        covered(rs.push(x), p) == (covered(rs, p) || x.contains(p)),
{
    if covered(rs, p) {
        let k = choose|k: int| 0 <= k < rs.len() && (#[trigger] rs[k]).contains(p);
        assert(rs.push(x)[k].contains(p));
    }
    if x.contains(p) {
        assert(rs.push(x)[rs.len() as int].contains(p));
    }
    if covered(rs.push(x), p) {
        let k = choose|k: int| 0 <= k < rs.push(x).len() && (#[trigger] rs.push(x)[k]).contains(p);
        if k < rs.len() {
            assert(rs[k].contains(p));
        } else {
            assert(x.contains(p));
        }
    }
}

/// Summed volume distributes over concatenation.
pub proof fn lemma_sum_vol_concat(a: Seq<Region>, b: Seq<Region>)
    ensures
        sum_vol(a + b) == sum_vol(a) + sum_vol(b),
    decreases b.len(),
{
    if b.len() == 0 {
        assert(a + b =~= a);
    } else {
        lemma_sum_vol_concat(a, b.drop_last());
        assert((a + b).drop_last() =~= a + b.drop_last());
        assert((a + b).last() == b.last());
    }
}

/// Replacing one element adjusts the sum by the volume difference.
pub proof fn lemma_sum_vol_update(rs: Seq<Region>, i: int, x: Region)
    requires
        0 <= i < rs.len(),
    ensures
        sum_vol(rs.update(i, x)) == sum_vol(rs) - rs[i].spec_volume() + x.spec_volume(),
    decreases rs.len(),
{
    if i == rs.len() - 1 {
        assert(rs.update(i, x).drop_last() =~= rs.drop_last());
        assert(rs.update(i, x).last() == x);
    } else {
        lemma_sum_vol_update(rs.drop_last(), i, x);
        assert(rs.update(i, x).drop_last() =~= rs.drop_last().update(i, x));
        assert(rs.update(i, x).last() == rs.last());
    }
}

/// Removing index `i` by swapping in the last element subtracts exactly the
/// removed element's volume.
pub proof fn lemma_sum_vol_swap_remove(rs: Seq<Region>, i: int)
    requires
        0 <= i < rs.len(),
    ensures
        sum_vol(rs.update(i, rs.last()).drop_last()) == sum_vol(rs) - rs[i].spec_volume(),
{
    if i == rs.len() - 1 {
        assert(rs.update(i, rs.last()) =~= rs);
    } else {
        lemma_sum_vol_update(rs, i, rs.last());
        assert(rs.update(i, rs.last()).drop_last().push(rs.last()) =~= rs.update(i, rs.last()));
        lemma_sum_vol_concat(rs.update(i, rs.last()).drop_last(), seq![rs.last()]);
        assert(rs.update(i, rs.last()).drop_last() + seq![rs.last()] =~= rs.update(i, rs.last()));
        assert(sum_vol(seq![rs.last()]) == rs.last().spec_volume()) by {
            assert(seq![rs.last()].drop_last() =~= Seq::<Region>::empty());
        }
    }
}

/// Coverage by a sequence with one index removed by swap-with-last.
pub proof fn lemma_covered_swap_remove(rs: Seq<Region>, i: int, p: Seq<int>)
    requires
        0 <= i < rs.len(),
    ensures
        covered(rs.update(i, rs.last()).drop_last(), p) ==> covered(rs, p),
        covered(rs, p) ==> covered(rs.update(i, rs.last()).drop_last(), p) || rs[i].contains(p),
{
    let rs2 = rs.update(i, rs.last()).drop_last();
    if covered(rs2, p) {
        let k = choose|k: int| 0 <= k < rs2.len() && (#[trigger] rs2[k]).contains(p);
        if k == i {
            assert(rs[rs.len() - 1].contains(p));
        } else {
            assert(rs[k].contains(p));
        }
    }
    if covered(rs, p) && !rs[i].contains(p) {
        let k = choose|k: int| 0 <= k < rs.len() && (#[trigger] rs[k]).contains(p);
        if k == rs.len() - 1 {
            assert(i < rs.len() - 1);
            assert(rs2[i].contains(p));
        } else {
            assert(rs2[k].contains(p));
        }
    }
}

/// Regions with equal coordinate views are interchangeable in every
/// geometric predicate.
pub proof fn lemma_region_congruence(a: Region, b: Region)
    requires
        a.start@ == b.start@,
        a.end@ == b.end@,
    ensures
        forall|c: Region| #[trigger] a.overlaps(c) == b.overlaps(c),
        forall|c: Region| #[trigger] c.overlaps(a) == c.overlaps(b),
        forall|c: Region| #[trigger] a.within(c) == b.within(c),
        forall|c: Region| #[trigger] c.within(a) == c.within(b),
        forall|p: Seq<int>| #[trigger] a.contains(p) == b.contains(p),
        a.spec_volume() == b.spec_volume(),
        a.valid() == b.valid(),
        a.strict() == b.strict(),
        a.dims() == b.dims(),
{
    assert forall|c: Region| #[trigger] a.within(c) == b.within(c) by {
        if a.within(c) {
            assert forall|i: int|
                0 <= i < b.dims() implies c.start@[i] <= #[trigger] b.start@[i] && b.end@[i]
                <= c.end@[i] by {
                assert(c.start@[i] <= a.start@[i]);
                assert(a.end@[i] <= c.end@[i]);
            }
        }
        if b.within(c) {
            assert forall|i: int|
                0 <= i < a.dims() implies c.start@[i] <= #[trigger] a.start@[i] && a.end@[i]
                <= c.end@[i] by {
                assert(c.start@[i] <= b.start@[i]);
                assert(b.end@[i] <= c.end@[i]);
            }
        }
    }
    assert forall|c: Region| #[trigger] c.within(a) == c.within(b) by {
        if c.within(a) {
            assert forall|i: int|
                0 <= i < c.dims() implies b.start@[i] <= #[trigger] c.start@[i] && c.end@[i]
                <= b.end@[i] by {
                assert(a.start@[i] <= c.start@[i]);
                assert(c.end@[i] <= a.end@[i]);
            }
        }
        if c.within(b) {
            assert forall|i: int|
                0 <= i < c.dims() implies a.start@[i] <= #[trigger] c.start@[i] && c.end@[i]
                <= a.end@[i] by {
                assert(b.start@[i] <= c.start@[i]);
                assert(c.end@[i] <= b.end@[i]);
            }
        }
    }
    assert forall|c: Region| #[trigger] a.overlaps(c) == b.overlaps(c) by {
        assert(forall|i: int| #![trigger a.dim_overlap(c, i), b.dim_overlap(c, i)] true);
        if a.overlaps(c) {
            assert forall|i: int| 0 <= i < b.dims() implies #[trigger] b.dim_overlap(c, i) by {
                assert(a.dim_overlap(c, i));
            }
        }
        if b.overlaps(c) {
            assert forall|i: int| 0 <= i < a.dims() implies #[trigger] a.dim_overlap(c, i) by {
                assert(b.dim_overlap(c, i));
            }
        }
    }
    assert forall|c: Region| #[trigger] c.overlaps(a) == c.overlaps(b) by {
        if c.overlaps(a) {
            assert forall|i: int| 0 <= i < c.dims() implies #[trigger] c.dim_overlap(b, i) by {
                assert(c.dim_overlap(a, i));
            }
        }
        if c.overlaps(b) {
            assert forall|i: int| 0 <= i < c.dims() implies #[trigger] c.dim_overlap(a, i) by {
                assert(c.dim_overlap(b, i));
            }
        }
    }
}

/// Box containment is transitive.
pub proof fn lemma_within_trans(a: Region, b: Region, c: Region)
    requires
        a.within(b),
        b.within(c),
    ensures
        a.within(c),
{
    assert(a.dims() == b.dims() && b.dims() == c.dims());
    assert forall|i: int| 0 <= i < a.dims() implies c.start@[i] <= #[trigger] a.start@[i]
        && a.end@[i] <= c.end@[i] by {
        assert(b.start@[i] <= a.start@[i]);
        assert(b.end@[i] >= a.end@[i]);
        assert(c.start@[i] <= b.start@[i]);
        assert(c.end@[i] >= b.end@[i]);
    }
}

/// Overlap is symmetric.
pub proof fn lemma_overlap_sym(a: Region, b: Region)
    requires
        a.overlaps(b),
    ensures
        b.overlaps(a),
{
    assert forall|i: int| 0 <= i < b.dims() implies #[trigger] b.dim_overlap(a, i) by {
        assert(a.dim_overlap(b, i));
    }
}

/// A region whose coordinates are the per-dimension `max(start)` /
/// `min(end)` of two others contains exactly their common points.
pub proof fn lemma_inter_contains(a: Region, b: Region, x: Region)
    requires
        a.valid(),
        b.valid(),
        a.same_dims(b),
        x.same_dims(a),
        forall|i: int| 0 <= i < x.dims() ==> #[trigger] x.start@[i] == a.inter_start(b, i),
        forall|i: int| 0 <= i < x.dims() ==> #[trigger] x.end@[i] == a.inter_end(b, i),
    ensures
        forall|p: Seq<int>| #[trigger] x.contains(p) == (a.contains(p) && b.contains(p)),
{
    assert forall|p: Seq<int>| #[trigger] x.contains(p) == (a.contains(p) && b.contains(p)) by {
        if x.contains(p) {
            assert forall|i: int| 0 <= i < a.dims() implies a.start@[i] <= #[trigger] p[i] && p[i]
                < a.end@[i] && b.start@[i] <= p[i] && p[i] < b.end@[i] by {
                assert(x.start@[i] <= p[i] && p[i] < x.end@[i]);
            }
        }
        if a.contains(p) && b.contains(p) {
            assert forall|i: int| 0 <= i < x.dims() implies x.start@[i] <= #[trigger] p[i] && p[i]
                < x.end@[i] by {
                assert(a.start@[i] <= p[i] && p[i] < a.end@[i]);
                assert(b.start@[i] <= p[i] && p[i] < b.end@[i]);
            }
        }
    }
}

/// A region of positive volume contains at least one point — its start
/// corner.
pub proof fn lemma_strict_witness(r: Region)
    requires
        r.valid(),
        r.strict(),
    ensures
        exists|p: Seq<int>| r.contains(p),
{
    let p = Seq::new(r.dims(), |i: int| r.start@[i] as int);
    assert forall|i: int| 0 <= i < r.dims() implies r.start@[i] <= #[trigger] p[i] && p[i]
        < r.end@[i] by {}
    assert(r.contains(p));
}

/// A shared point forces overlap.
pub proof fn lemma_contains_overlap(a: Region, b: Region, p: Seq<int>)
    requires
        a.contains(p),
        b.contains(p),
    ensures
        a.overlaps(b),
{
    assert forall|i: int| 0 <= i < a.dims() implies #[trigger] a.dim_overlap(b, i) by {
        assert(a.start@[i] <= p[i] && p[i] < a.end@[i]);
        assert(b.start@[i] <= p[i] && p[i] < b.end@[i]);
    }
}

/// The per-dimension volume caps stay within the overall cap: for every
/// supported dimension count `d`, the caps grow monotonically with the
/// number of factors and `dim_vol_cap(d, d)` is at most `vol_cap(MAX_DIM)`.
pub proof fn lemma_dim_vol_cap_table(d: nat)
    requires
        1 <= d <= MAX_DIM,
    ensures
        forall|j: int, k: int| 0 <= j <= k <= d ==> 1 <= #[trigger] dim_vol_cap(d, j)
            <= #[trigger] dim_vol_cap(d, k),
        dim_vol_cap(d, d as int) <= vol_cap(4),
{
    lemma_vol_cap_table();
    assert(dim_vol_cap(d, 0) == 1);
    assert(dim_vol_cap(d, 1) == dim_vol_cap(d, 0) * factor_cap(d));
    assert(dim_vol_cap(d, 2) == dim_vol_cap(d, 1) * factor_cap(d));
    assert(dim_vol_cap(d, 3) == dim_vol_cap(d, 2) * factor_cap(d));
    assert(dim_vol_cap(d, 4) == dim_vol_cap(d, 3) * factor_cap(d));
    if d == 1 {
        assert(factor_cap(d) == 0x7FFF_FFFF_FFFF_FFFE);
        assert(dim_vol_cap(d, 1) == 0x7FFF_FFFF_FFFF_FFFE);
    } else if d == 2 {
        assert(factor_cap(d) == 0x4000_0000_0000_0000);
        assert(dim_vol_cap(d, 1) == 0x4000_0000_0000_0000);
        assert(dim_vol_cap(d, 2) == 0x1000_0000_0000_0000_0000_0000_0000_0000);
    } else if d == 3 {
        assert(factor_cap(d) == 0x200_0000_0000);
        assert(dim_vol_cap(d, 1) == 0x200_0000_0000);
        assert(dim_vol_cap(d, 2) == 0x4_0000_0000_0000_0000_0000);
        assert(dim_vol_cap(d, 3) == 0x800_0000_0000_0000_0000_0000_0000_0000);
    } else {
        assert(factor_cap(d) == 0x8000_0000);
        assert(dim_vol_cap(d, 1) == 0x8000_0000);
        assert(dim_vol_cap(d, 2) == 0x4000_0000_0000_0000);
        assert(dim_vol_cap(d, 3) == 0x2000_0000_0000_0000_0000_0000);
        assert(dim_vol_cap(d, 4) == 0x1000_0000_0000_0000_0000_0000_0000_0000);
    }
}

/// The concrete values of `vol_cap` for every supported dimension count,
/// and the bounds that place them inside the `i128` range.
pub proof fn lemma_vol_cap_table()
    ensures
        vol_cap(0) == 1,
        vol_cap(1) == 0x8000_0000,
        vol_cap(2) == 0x4000_0000_0000_0000,
        vol_cap(3) == 0x2000_0000_0000_0000_0000_0000,
        vol_cap(4) == 0x1000_0000_0000_0000_0000_0000_0000_0000,
        forall|j: int, k: int| 0 <= j <= k <= 4 ==> 1 <= #[trigger] vol_cap(j) <= #[trigger] vol_cap(k),
{
    assert(vol_cap(0) == 1);
    assert(vol_cap(1) == vol_cap(0) * 0x8000_0000);
    assert(vol_cap(2) == vol_cap(1) * 0x8000_0000);
    assert(vol_cap(3) == vol_cap(2) * 0x8000_0000);
    assert(vol_cap(4) == vol_cap(3) * 0x8000_0000);
}

} // verus!
