use vstd::prelude::*;

use crate::geom::{
    clip_difference, clip_intersection, clip_union, copy_line, copy_polygon, difference,
    intersection, polygon_set_rings, polygons_in_range, polygons_ok, rings_of, union, LineString,
    PathSet, PathView, Polygon, PolygonSet, PolygonView,
};

verus! {

/// What a printed path is, for its colour and its order.
#[derive(Debug, Clone, Copy, PartialEq, Eq, Structural)]
pub enum PathTag {
    Region,
    Shell,
    Interior,
    Solid,
    Sparse,
    Unknown,
}

/// The kind of a collection of regions, fixed by its type.
pub trait RegionTag {
    spec fn tag_spec() -> PathTag;

    fn path_tag() -> (r: PathTag)
        ensures
            r == Self::tag_spec(),
    ;
}

pub struct OutlineRegionTag {}

pub struct InteriorRegionTag {}

pub struct SolidRegionTag {}

pub struct SparseRegionTag {}

pub struct UnknownRegionTag {}

impl RegionTag for OutlineRegionTag {
    open spec fn tag_spec() -> PathTag {
        PathTag::Region
    }

    fn path_tag() -> PathTag {
        PathTag::Region
    }
}

impl RegionTag for InteriorRegionTag {
    open spec fn tag_spec() -> PathTag {
        PathTag::Interior
    }

    fn path_tag() -> PathTag {
        PathTag::Interior
    }
}

impl RegionTag for SolidRegionTag {
    open spec fn tag_spec() -> PathTag {
        PathTag::Solid
    }

    fn path_tag() -> PathTag {
        PathTag::Solid
    }
}

impl RegionTag for SparseRegionTag {
    open spec fn tag_spec() -> PathTag {
        PathTag::Sparse
    }

    fn path_tag() -> PathTag {
        PathTag::Sparse
    }
}

impl RegionTag for UnknownRegionTag {
    open spec fn tag_spec() -> PathTag {
        PathTag::Unknown
    }

    fn path_tag() -> PathTag {
        PathTag::Unknown
    }
}

/// Hands out region ids, each once, in increasing order.
pub struct RegionIdCounter {
    pub next: u64,
}

impl RegionIdCounter {
    pub fn new() -> (r: RegionIdCounter)
        ensures
            r.next == 0,
    {
        RegionIdCounter { next: 0 }
    }
}

/// The next region id; the counter moves on by one.
pub fn get_next_region_id(counter: &mut RegionIdCounter) -> (r: u64)
    requires
        old(counter).next < u64::MAX,
    ensures
        r == old(counter).next,
        final(counter).next == old(counter).next + 1,
{
    let id = counter.next;
    counter.next = id + 1;
    id
}

/// A polygon and the id that follows it through offsets and clipping.
pub struct Region {
    pub poly: Polygon,
    pub id: u64,
}

impl View for Region {
    type V = (PolygonView, u64);

    open spec fn view(&self) -> (PolygonView, u64) {
        (self.poly@, self.id)
    }
}

pub open spec fn regions_view(rs: Seq<Region>) -> Seq<(PolygonView, u64)> {
    rs.map_values(|r: Region| r@)
}

pub open spec fn polys_of(rs: Seq<(PolygonView, u64)>) -> Seq<PolygonView> {
    rs.map_values(|r: (PolygonView, u64)| r.0)
}

/// The regions that an operation yields, given what it gives for each
/// region's polygon: each result polygon keeps the id of its region.
pub open spec fn expand(rs: Seq<(PolygonView, u64)>, res: Seq<Seq<PolygonView>>) -> Seq<
    (PolygonView, u64),
>
    decreases rs.len(),
{
    if rs.len() == 0 || res.len() == 0 {
        Seq::empty()
    } else {
        expand(rs.drop_last(), res.drop_last()) + res.last().map_values(
            |p: PolygonView| (p, rs.last().1),
        )
    }
}

/// Regions of one kind.
pub struct TaggedRegions<Tag: RegionTag> {
    pub regions: Vec<Region>,
    pub tag: std::marker::PhantomData<Tag>,
}

impl<Tag: RegionTag> TaggedRegions<Tag> {
    pub fn new(regions: Vec<Region>) -> (r: Self)
        ensures
            r.regions@ == regions@,
    {
        TaggedRegions { regions, tag: std::marker::PhantomData }
    }

    /// One region for each polygon, each with a fresh id taken in order.
    pub fn from_polygons(polys: &PolygonSet, counter: &mut RegionIdCounter) -> (r: Self)
        requires
            old(counter).next + polys@.len() <= u64::MAX,
        ensures
            r.regions@.len() == polys@.len(),
            forall|k: int|
                0 <= k < polys@.len() ==> (#[trigger] r.regions@[k])@ == (
                    polys@[k],
                    (old(counter).next + k) as u64,
                ),
            final(counter).next == old(counter).next + polys@.len(),
    {
        let mut out: Vec<Region> = Vec::new();
        let mut i: usize = 0;
        while i < polys.polygons.len()
            invariant
                i <= polys@.len(),
                polys@.len() == polys.polygons@.len(),
                counter.next == old(counter).next + i,
                old(counter).next + polys@.len() <= u64::MAX,
                out@.len() == i,
                forall|k: int|
                    0 <= k < i ==> (#[trigger] out@[k])@ == (
                        polys@[k],
                        (old(counter).next + k) as u64,
                    ),
            decreases polys@.len() - i,
        {
            let id = get_next_region_id(counter);
            let poly = copy_polygon(&polys.polygons[i]);
            out.push(Region { poly, id });
            i = i + 1;
        }
        TaggedRegions { regions: out, tag: std::marker::PhantomData }
    }

    /// The regions that an operation on each region's polygon yields, given
    /// its result for each region in order: every resulting polygon keeps
    /// the id of the region it came from.
    pub fn apply_mult(&self, results: &Vec<PolygonSet>) -> (r: Self)
        requires
            results@.len() == self.regions@.len(),
        ensures
            regions_view(r.regions@) == expand(
                regions_view(self.regions@),
                results@.map_values(|m: PolygonSet| m@),
            ),
    {
        let ghost rs = regions_view(self.regions@);
        let ghost res = results@.map_values(|m: PolygonSet| m@);
        let mut out: Vec<Region> = Vec::new();
        let mut k: usize = 0;
        assert(rs.take(0) =~= Seq::<(PolygonView, u64)>::empty());
        assert(regions_view(out@) =~= expand(rs.take(0), res.take(0)));
        while k < self.regions.len()
            invariant
                rs == regions_view(self.regions@),
                res == results@.map_values(|m: PolygonSet| m@),
                results@.len() == self.regions@.len(),
                k <= self.regions@.len(),
                regions_view(out@) == expand(rs.take(k as int), res.take(k as int)),
            decreases self.regions@.len() - k,
        {
            let id = self.regions[k].id;
            let polys = &results[k];
            let ghost before = regions_view(out@);
            let mut m: usize = 0;
            while m < polys.polygons.len()
                invariant
                    m <= polys.polygons@.len(),
                    out@.len() == before.len() + m,
                    forall|j: int| 0 <= j < before.len() ==> (#[trigger] out@[j])@ == before[j],
                    forall|j: int|
                        before.len() <= j < out@.len() ==> (#[trigger] out@[j])@ == (
                            polys.polygons@[j - before.len()]@,
                            id,
                        ),
                decreases polys.polygons@.len() - m,
            {
                out.push(Region { poly: copy_polygon(&polys.polygons[m]), id });
                m = m + 1;
            }
            proof {
                let added = res[k as int].map_values(|p: PolygonView| (p, rs[k as int].1));
                assert(res[k as int] == polys@);
                assert(rs[k as int].1 == id);
                assert(regions_view(out@) =~= before + added);
                assert(rs.take(k + 1).drop_last() =~= rs.take(k as int));
                assert(res.take(k + 1).drop_last() =~= res.take(k as int));
                assert(rs.take(k + 1).last() == rs[k as int]);
                assert(res.take(k + 1).last() == res[k as int]);
            }
            k = k + 1;
        }
        assert(rs.take(self.regions@.len() as int) =~= rs);
        assert(res.take(self.regions@.len() as int) =~= res);
        TaggedRegions { regions: out, tag: std::marker::PhantomData }
    }

    /// The regions' polygons, in order.
    pub fn polygons(&self) -> (r: PolygonSet)
        ensures
            r@ == polys_of(regions_view(self.regions@)),
    {
        let mut out: Vec<Polygon> = Vec::new();
        let mut i: usize = 0;
        while i < self.regions.len()
            invariant
                i <= self.regions@.len(),
                out@.len() == i,
                forall|j: int| 0 <= j < i ==> (#[trigger] out@[j])@ == self.regions@[j].poly@,
            decreases self.regions@.len() - i,
        {
            out.push(copy_polygon(&self.regions[i].poly));
            i = i + 1;
        }
        let r = PolygonSet { polygons: out };
        assert(r@ =~= polys_of(regions_view(self.regions@)));
        r
    }

    /// Every ring of every region as a path tagged with this kind.
    pub fn to_tagged_paths(&self) -> (r: Vec<TaggedPath>)
        ensures
            r@.len() == rings_of(polys_of(regions_view(self.regions@))).len(),
            forall|j: int|
                0 <= j < r@.len() ==> (#[trigger] r@[j]).tag == Tag::tag_spec() && r@[j].path@
                    == rings_of(polys_of(regions_view(self.regions@)))[j],
    {
        let polys = self.polygons();
        tag_paths(&polygon_set_rings(&polys), Tag::path_tag())
    }
}

/// A printed path and what it is.
pub struct TaggedPath {
    pub tag: PathTag,
    pub path: LineString,
}

/// Tags each path with `tag`.
pub fn tag_paths(paths: &Vec<LineString>, tag: PathTag) -> (r: Vec<TaggedPath>)
    ensures
        r@.len() == paths@.len(),
        forall|j: int|
            0 <= j < r@.len() ==> (#[trigger] r@[j]).tag == tag && r@[j].path@ == paths@[j]@,
{
    let mut out: Vec<TaggedPath> = Vec::new();
    let mut i: usize = 0;
    while i < paths.len()
        invariant
            i <= paths@.len(),
            out@.len() == i,
            forall|j: int|
                0 <= j < i ==> (#[trigger] out@[j]).tag == tag && out@[j].path@ == paths@[j]@,
        decreases paths@.len() - i,
    {
        out.push(TaggedPath { tag, path: copy_line(&paths[i]) });
        i = i + 1;
    }
    out
}

/// Identity preservation: every region that an operation yields carries the
/// id of a region it was applied to, and its polygon is among what the
/// operation gave for that region.
pub proof fn lemma_region_identity(
    rs: Seq<(PolygonView, u64)>,
    res: Seq<Seq<PolygonView>>,
    m: int,
)
    requires
        rs.len() == res.len(),
        0 <= m < expand(rs, res).len(),
    ensures
        exists|k: int|
            0 <= k < rs.len() && (#[trigger] rs[k]).1 == expand(rs, res)[m].1 && res[k].contains(
                expand(rs, res)[m].0,
            ),
    decreases rs.len(),
{
    let e = expand(rs, res);
    let prev = expand(rs.drop_last(), res.drop_last());
    let last = rs.len() - 1;
    if m < prev.len() {
        lemma_region_identity(rs.drop_last(), res.drop_last(), m);
        let k = choose|k: int|
            0 <= k < rs.drop_last().len() && (#[trigger] rs.drop_last()[k]).1 == prev[m].1
                && res.drop_last()[k].contains(prev[m].0);
        assert(e[m] == prev[m]);
        assert(rs[k] == rs.drop_last()[k]);
        assert(res[k] == res.drop_last()[k]);
    } else {
        let i = m - prev.len();
        assert(e[m] == (res.last()[i], rs.last().1));
        assert(res[last][i] == e[m].0);
        assert(rs[last] == rs.last());
    }
}

// ---------------------------------------------------------------- shells

/// One region's shells: for each rank, outermost first, its paths.
pub struct Shells {
    pub shells: Vec<PathSet>,
    pub region_id: u64,
}

/// The shells of every region of a layer.
pub struct LayerShells {
    pub shells: Vec<Shells>,
}

/// One shell path with the region and rank it belongs to.
pub struct SingleShell {
    pub shell: LineString,
    pub region_id: u64,
    pub rank: usize,
}

pub type ShellsView = (Seq<Seq<PathView>>, u64);

impl View for Shells {
    type V = ShellsView;

    open spec fn view(&self) -> ShellsView {
        (self.shells@.map_values(|m: PathSet| m@), self.region_id)
    }
}

impl View for SingleShell {
    type V = (PathView, u64, usize);

    open spec fn view(&self) -> (PathView, u64, usize) {
        (self.shell@, self.region_id, self.rank)
    }
}

/// The paths of ranks `0..ranks.len()` of one region, rank by rank.
pub open spec fn rank_singles(ranks: Seq<Seq<PathView>>, id: u64) -> Seq<(PathView, u64, usize)>
    decreases ranks.len(),
{
    if ranks.len() == 0 {
        Seq::empty()
    } else {
        rank_singles(ranks.drop_last(), id) + ranks.last().map_values(
            |l: PathView| (l, id, (ranks.len() - 1) as usize),
        )
    }
}

/// The shell paths of every region, region by region.
pub open spec fn layer_singles(ss: Seq<ShellsView>) -> Seq<(PathView, u64, usize)>
    decreases ss.len(),
{
    if ss.len() == 0 {
        Seq::empty()
    } else {
        layer_singles(ss.drop_last()) + rank_singles(ss.last().0, ss.last().1)
    }
}

pub open spec fn singles_view(v: Seq<SingleShell>) -> Seq<(PathView, u64, usize)> {
    v.map_values(|s: SingleShell| s@)
}

fn push_rank(out: &mut Vec<SingleShell>, lines: &PathSet, id: u64, rank: usize)
    ensures
        singles_view(final(out)@) == singles_view(old(out)@) + lines@.map_values(
            |l: PathView| (l, id, rank),
        ),
{
    let ghost before = singles_view(out@);
    let mut k: usize = 0;
    while k < lines.lines.len()
        invariant
            k <= lines.lines@.len(),
            before == singles_view(old(out)@),
            out@.len() == before.len() + k,
            forall|j: int| 0 <= j < before.len() ==> (#[trigger] out@[j])@ == before[j],
            forall|j: int|
                before.len() <= j < out@.len() ==> (#[trigger] out@[j])@ == (
                    lines.lines@[j - before.len()]@,
                    id,
                    rank,
                ),
        decreases lines.lines@.len() - k,
    {
        out.push(SingleShell { shell: copy_line(&lines.lines[k]), region_id: id, rank });
        k = k + 1;
    }
    assert(singles_view(out@) =~= before + lines@.map_values(|l: PathView| (l, id, rank)));
}

impl Shells {
    /// Each path of each rank, with the region's id and the rank.
    pub fn to_single_shells(&self) -> (r: Vec<SingleShell>)
        ensures
            singles_view(r@) == rank_singles(self@.0, self@.1),
    {
        let ghost ranks = self@.0;
        let mut out: Vec<SingleShell> = Vec::new();
        let mut i: usize = 0;
        assert(ranks.take(0) =~= Seq::<Seq<PathView>>::empty());
        assert(singles_view(out@) =~= rank_singles(ranks.take(0), self.region_id));
        while i < self.shells.len()
            invariant
                ranks == self@.0,
                i <= self.shells@.len(),
                singles_view(out@) == rank_singles(ranks.take(i as int), self.region_id),
            decreases self.shells@.len() - i,
        {
            push_rank(&mut out, &self.shells[i], self.region_id, i);
            proof {
                assert(ranks.take(i + 1).drop_last() =~= ranks.take(i as int));
                assert(ranks.take(i + 1).last() == self.shells@[i as int]@);
                assert(ranks.take(i + 1).len() - 1 == i);
            }
            i = i + 1;
        }
        assert(ranks.take(self.shells@.len() as int) =~= ranks);
        out
    }
}

impl LayerShells {
    /// Every shell path of the layer, region by region and rank by rank.
    pub fn to_single_shells(&self) -> (r: Vec<SingleShell>)
        ensures
            singles_view(r@) == layer_singles(self.shells@.map_values(|s: Shells| s@)),
    {
        let ghost ss = self.shells@.map_values(|s: Shells| s@);
        let mut out: Vec<SingleShell> = Vec::new();
        let mut i: usize = 0;
        assert(ss.take(0) =~= Seq::<ShellsView>::empty());
        assert(singles_view(out@) =~= layer_singles(ss.take(0)));
        while i < self.shells.len()
            invariant
                ss == self.shells@.map_values(|s: Shells| s@),
                i <= self.shells@.len(),
                singles_view(out@) == layer_singles(ss.take(i as int)),
            decreases self.shells@.len() - i,
        {
            let mut more = self.shells[i].to_single_shells();
            let ghost before = singles_view(out@);
            let ghost mv = singles_view(more@);
            let ghost old_out = out@;
            let ghost old_more = more@;
            out.append(&mut more);
            proof {
                assert(out@ == old_out + old_more);
            }
            proof {
                assert(singles_view(out@) =~= before + mv);
                assert(ss.take(i + 1).drop_last() =~= ss.take(i as int));
                assert(ss.take(i + 1).last() == self.shells@[i as int]@);
            }
            i = i + 1;
        }
        assert(ss.take(self.shells@.len() as int) =~= ss);
        out
    }
}

/// Bundles the shells of one region from the polygons that offsetting it
/// gave at each rank: each rank holds every ring of its polygons.
pub fn shells_from_offsets(region: &Region, ranks: &Vec<PolygonSet>) -> (r: Shells)
    ensures
        r.region_id == region.id,
        r.shells@.len() == ranks@.len(),
        forall|i: int| 0 <= i < ranks@.len() ==> (#[trigger] r.shells@[i])@ == rings_of(ranks@[i]@),
{
    let mut out: Vec<PathSet> = Vec::new();
    let mut i: usize = 0;
    while i < ranks.len()
        invariant
            i <= ranks@.len(),
            out@.len() == i,
            forall|j: int| 0 <= j < i ==> (#[trigger] out@[j])@ == rings_of(ranks@[j]@),
        decreases ranks@.len() - i,
    {
        let lines = polygon_set_rings(&ranks[i]);
        out.push(PathSet { lines });
        i = i + 1;
    }
    Shells { shells: out, region_id: region.id }
}

// ---------------------------------------------------------------- exposure

/// What of each layer no layer above covers: each layer less the next one,
/// and the topmost layer whole.
pub fn top_exposed(outlines: &Vec<PolygonSet>) -> (r: Vec<PolygonSet>)
    requires
        forall|i: int| 0 <= i < outlines@.len() ==> polygons_ok(#[trigger] outlines@[i]@),
    ensures
        r@.len() == outlines@.len(),
        forall|i: int|
            0 <= i < outlines@.len() - 1 ==> (#[trigger] r@[i])@ == clip_difference(
                outlines@[i]@,
                outlines@[i + 1]@,
            ),
        outlines@.len() > 0 ==> r@[outlines@.len() - 1]@ == outlines@[outlines@.len() - 1]@,
{
    let n = outlines.len();
    let mut out: Vec<PolygonSet> = Vec::new();
    let mut i: usize = 0;
    while i + 1 < n
        invariant
            n == outlines@.len(),
            forall|i: int| 0 <= i < outlines@.len() ==> polygons_ok(#[trigger] outlines@[i]@),
            i + 1 <= n || n == 0,
            i <= n,
            out@.len() == i,
            forall|j: int|
                0 <= j < i ==> (#[trigger] out@[j])@ == clip_difference(
                    outlines@[j]@,
                    outlines@[j + 1]@,
                ),
        decreases n - i,
    {
        out.push(difference(&outlines[i], &outlines[i + 1]));
        i = i + 1;
    }
    if n > 0 {
        out.push(crate::geom::copy_polygon_set(&outlines[n - 1]));
    }
    out
}

/// What of each layer no layer below covers: the bottommost layer whole,
/// and each other layer less the one under it.
pub fn bottom_exposed(outlines: &Vec<PolygonSet>) -> (r: Vec<PolygonSet>)
    requires
        forall|i: int| 0 <= i < outlines@.len() ==> polygons_ok(#[trigger] outlines@[i]@),
    ensures
        r@.len() == outlines@.len(),
        outlines@.len() > 0 ==> r@[0]@ == outlines@[0]@,
        forall|i: int|
            0 < i < outlines@.len() ==> (#[trigger] r@[i])@ == clip_difference(
                outlines@[i]@,
                outlines@[i - 1]@,
            ),
{
    let n = outlines.len();
    let mut out: Vec<PolygonSet> = Vec::new();
    if n == 0 {
        return out;
    }
    out.push(crate::geom::copy_polygon_set(&outlines[0]));
    let mut i: usize = 1;
    while i < n
        invariant
            n == outlines@.len(),
            forall|i: int| 0 <= i < outlines@.len() ==> polygons_ok(#[trigger] outlines@[i]@),
            1 <= i <= n,
            out@.len() == i,
            out@[0]@ == outlines@[0]@,
            forall|j: int|
                0 < j < i ==> (#[trigger] out@[j])@ == clip_difference(
                    outlines@[j]@,
                    outlines@[j - 1]@,
                ),
        decreases n - i,
    {
        out.push(difference(&outlines[i], &outlines[i - 1]));
        i = i + 1;
    }
    out
}

/// The polygons of the layers `lo` up to `hi`, layer after layer.
pub open spec fn gathered(v: Seq<Seq<PolygonView>>, lo: int, hi: int) -> Seq<PolygonView>
    decreases hi - lo,
{
    if lo >= hi {
        Seq::empty()
    } else {
        gathered(v, lo, hi - 1) + v[hi - 1]
    }
}

pub open spec fn sets_view(v: Seq<PolygonSet>) -> Seq<Seq<PolygonView>> {
    v.map_values(|m: PolygonSet| m@)
}

pub open spec fn min_int(a: int, b: int) -> int {
    if a < b {
        a
    } else {
        b
    }
}

pub open spec fn max_int(a: int, b: int) -> int {
    if a < b {
        b
    } else {
        a
    }
}

/// What layer `i` needs solid: the top-exposed polygons of layers `i` up to
/// `i + n_top` and the bottom-exposed polygons of the `n_bottom` layers up to
/// and including `i`.
pub open spec fn solid_window(
    top: Seq<Seq<PolygonView>>,
    bottom: Seq<Seq<PolygonView>>,
    n_top: int,
    n_bottom: int,
    i: int,
) -> Seq<PolygonView> {
    gathered(top, i, min_int(i + n_top, top.len() as int)) + gathered(
        bottom,
        max_int(0, i + 1 - n_bottom),
        i + 1,
    )
}

fn append_polygons(out: &mut Vec<Polygon>, m: &PolygonSet)
    ensures
        final(out)@.len() == old(out)@.len() + m.polygons@.len(),
        forall|j: int| 0 <= j < old(out)@.len() ==> (#[trigger] final(out)@[j]) == old(out)@[j],
        forall|j: int|
            old(out)@.len() <= j < final(out)@.len() ==> (#[trigger] final(out)@[j])@
                == m.polygons@[j - old(out)@.len()]@,
{
    let mut k: usize = 0;
    while k < m.polygons.len()
        invariant
            k <= m.polygons@.len(),
            out@.len() == old(out)@.len() + k,
            forall|j: int| 0 <= j < old(out)@.len() ==> (#[trigger] out@[j]) == old(out)@[j],
            forall|j: int|
                old(out)@.len() <= j < out@.len() ==> (#[trigger] out@[j])@ == m.polygons@[j
                    - old(out)@.len()]@,
        decreases m.polygons@.len() - k,
    {
        out.push(copy_polygon(&m.polygons[k]));
        k = k + 1;
    }
}

/// Gathers the polygons of layers `lo` up to `hi`.
fn gather(v: &Vec<PolygonSet>, lo: usize, hi: usize) -> (r: Vec<Polygon>)
    requires
        lo <= hi <= v@.len(),
    ensures
        crate::geom::polygons_view(r@) == gathered(sets_view(v@), lo as int, hi as int),
{
    let mut out: Vec<Polygon> = Vec::new();
    let mut k: usize = lo;
    assert(crate::geom::polygons_view(out@) =~= gathered(sets_view(v@), lo as int, lo as int));
    while k < hi
        invariant
            lo <= k <= hi <= v@.len(),
            crate::geom::polygons_view(out@) == gathered(sets_view(v@), lo as int, k as int),
        decreases hi - k,
    {
        let ghost before = crate::geom::polygons_view(out@);
        append_polygons(&mut out, &v[k]);
        k = k + 1;
        assert(sets_view(v@)[k - 1] == v@[k - 1]@);
        assert(crate::geom::polygons_view(out@) =~= before + v@[k - 1]@);
    }
    out
}

/// For each layer, the polygons that call for solid fill there: the
/// top-exposed polygons of the layers from it up to `n_top` layers, and the
/// bottom-exposed polygons of the `n_bottom` layers down to it.
pub fn solid_groupings(
    top: &Vec<PolygonSet>,
    bottom: &Vec<PolygonSet>,
    n_top: usize,
    n_bottom: usize,
) -> (r: Vec<PolygonSet>)
    requires
        top@.len() == bottom@.len(),
    ensures
        r@.len() == top@.len(),
        forall|i: int|
            0 <= i < r@.len() ==> (#[trigger] r@[i])@ == solid_window(
                sets_view(top@),
                sets_view(bottom@),
                n_top as int,
                n_bottom as int,
                i,
            ),
{
    let n = top.len();
    let mut out: Vec<PolygonSet> = Vec::new();
    let mut i: usize = 0;
    while i < n
        invariant
            n == top@.len(),
            top@.len() == bottom@.len(),
            i <= n,
            out@.len() == i,
            forall|j: int|
                0 <= j < i ==> (#[trigger] out@[j])@ == solid_window(
                    sets_view(top@),
                    sets_view(bottom@),
                    n_top as int,
                    n_bottom as int,
                    j,
                ),
        decreases n - i,
    {
        let hi: usize = if n - i < n_top {
            n
        } else {
            i + n_top
        };
        let lo: usize = if i + 1 < n_bottom {
            0
        } else {
            i + 1 - n_bottom
        };
        let mut polys = gather(top, i, hi);
        let lower = gather(bottom, lo, i + 1);
        let ghost upper_v = crate::geom::polygons_view(polys@);
        let mut k: usize = 0;
        while k < lower.len()
            invariant
                k <= lower@.len(),
                polys@.len() == upper_v.len() + k,
                forall|j: int| 0 <= j < upper_v.len() ==> (#[trigger] polys@[j])@ == upper_v[j],
                forall|j: int|
                    upper_v.len() <= j < polys@.len() ==> (#[trigger] polys@[j])@ == lower@[j
                        - upper_v.len()]@,
            decreases lower@.len() - k,
        {
            polys.push(copy_polygon(&lower[k]));
            k = k + 1;
        }
        let set = PolygonSet { polygons: polys };
        assert(set@ =~= upper_v + crate::geom::polygons_view(lower@));
        out.push(set);
        i = i + 1;
    }
    out
}

/// What of a layer's interior is printed solid: the union of its solid
/// grouping, clipped to the interior. Each polygon becomes a region with a
/// fresh id; none when the union leaves the kernel's range or the ids would
/// run out.
pub fn solid_regions(
    grouping: &PolygonSet,
    interior: &TaggedRegions<InteriorRegionTag>,
    counter: &mut RegionIdCounter,
) -> (r: Option<TaggedRegions<SolidRegionTag>>)
    requires
        polygons_ok(grouping@),
        polygons_ok(polys_of(regions_view(interior.regions@))),
    ensures
        ({
            let merged = clip_union(grouping@, Seq::empty());
            let polys = clip_intersection(merged, polys_of(regions_view(interior.regions@)));
            &&& r is None <==> !polygons_ok(merged) || old(counter).next + polys.len() > u64::MAX
            &&& r is None ==> final(counter).next == old(counter).next
            &&& r matches Some(t) ==> polys_of(regions_view(t.regions@)) == polys && (forall|k: int|
                0 <= k < t.regions@.len() ==> (#[trigger] t.regions@[k]).id == old(counter).next
                    + k) && final(counter).next == old(counter).next + t.regions@.len()
        }),
{
    let empty = PolygonSet { polygons: Vec::new() };
    assert(empty@ =~= Seq::<PolygonView>::empty());
    let merged = union(grouping, &empty);
    if !polygons_in_range(&merged) {
        return None;
    }
    let solid = intersection(&merged, &interior.polygons());
    fresh_regions(&solid, counter)
}

/// What of a layer's interior is printed sparse: the interior less the
/// solid regions. Each polygon becomes a region with a fresh id; none when
/// the ids would run out.
pub fn sparse_regions(
    interior: &TaggedRegions<InteriorRegionTag>,
    solid: &TaggedRegions<SolidRegionTag>,
    counter: &mut RegionIdCounter,
) -> (r: Option<TaggedRegions<SparseRegionTag>>)
    requires
        polygons_ok(polys_of(regions_view(interior.regions@))),
        polygons_ok(polys_of(regions_view(solid.regions@))),
    ensures
        ({
            let polys = clip_difference(
                polys_of(regions_view(interior.regions@)),
                polys_of(regions_view(solid.regions@)),
            );
            &&& r is None <==> old(counter).next + polys.len() > u64::MAX
            &&& r is None ==> final(counter).next == old(counter).next
            &&& r matches Some(t) ==> polys_of(regions_view(t.regions@)) == polys && (forall|k: int|
                0 <= k < t.regions@.len() ==> (#[trigger] t.regions@[k]).id == old(counter).next
                    + k) && final(counter).next == old(counter).next + t.regions@.len()
        }),
{
    let sparse = difference(&interior.polygons(), &solid.polygons());
    fresh_regions(&sparse, counter)
}

fn fresh_regions<Tag: RegionTag>(polys: &PolygonSet, counter: &mut RegionIdCounter) -> (r: Option<
    TaggedRegions<Tag>,
>)
    ensures
        r is None <==> old(counter).next + polys@.len() > u64::MAX,
        r is None ==> final(counter).next == old(counter).next,
        r matches Some(t) ==> polys_of(regions_view(t.regions@)) == polys@ && (forall|k: int|
            0 <= k < t.regions@.len() ==> (#[trigger] t.regions@[k]).id == old(counter).next + k)
            && final(counter).next == old(counter).next + t.regions@.len(),
{
    if polys.polygons.len() as u64 > u64::MAX - counter.next {
        return None;
    }
    let r = TaggedRegions::<Tag>::from_polygons(polys, counter);
    assert(polys_of(regions_view(r.regions@)) =~= polys@);
    Some(r)
}

} // verus!
