use vstd::prelude::*;

use geo_clipper::{ClipperInt, ClipperOpenInt};

verus! {

/// A point in fixed-point coordinates.
#[derive(Debug, Clone, Copy, PartialEq, Eq, Structural)]
pub struct Coord {
    pub x: i64,
    pub y: i64,
}

/// A path of points; closed when its last point equals its first.
#[derive(Debug, Clone)]
pub struct LineString {
    pub points: Vec<Coord>,
}

/// An exterior ring and zero or more interior rings.
#[derive(Debug, Clone)]
pub struct Polygon {
    pub exterior: LineString,
    pub interiors: Vec<LineString>,
}

#[derive(Debug, Clone)]
pub struct PolygonSet {
    pub polygons: Vec<Polygon>,
}

#[derive(Debug, Clone)]
pub struct PathSet {
    pub lines: Vec<LineString>,
}

/// An axis-aligned rectangle given by its lower and upper corners.
#[derive(Debug, Clone, Copy, PartialEq, Eq, Structural)]
pub struct Rect {
    pub min: Coord,
    pub max: Coord,
}

pub type PathView = Seq<(i64, i64)>;

pub type PolygonView = Seq<PathView>;

pub open spec fn coords_view(ps: Seq<Coord>) -> PathView {
    ps.map_values(|c: Coord| (c.x, c.y))
}

pub open spec fn paths_view(ls: Seq<LineString>) -> Seq<PathView> {
    ls.map_values(|l: LineString| l@)
}

pub open spec fn polygons_view(ps: Seq<Polygon>) -> Seq<PolygonView> {
    ps.map_values(|p: Polygon| p@)
}

impl View for LineString {
    type V = PathView;

    open spec fn view(&self) -> PathView {
        coords_view(self.points@)
    }
}

impl View for Polygon {
    /// The exterior ring first, then the interior rings in order.
    type V = PolygonView;

    open spec fn view(&self) -> PolygonView {
        seq![self.exterior@] + paths_view(self.interiors@)
    }
}

impl View for PolygonSet {
    type V = Seq<PolygonView>;

    open spec fn view(&self) -> Seq<PolygonView> {
        polygons_view(self.polygons@)
    }
}

impl View for PathSet {
    type V = Seq<PathView>;

    open spec fn view(&self) -> Seq<PathView> {
        paths_view(self.lines@)
    }
}

/// Every ring of every polygon, exteriors before their interiors.
pub open spec fn rings_of(ps: Seq<PolygonView>) -> Seq<PathView>
    decreases ps.len(),
{
    if ps.len() == 0 {
        Seq::empty()
    } else {
        rings_of(ps.drop_last()) + ps.last()
    }
}

/// Copies a path point for point.
pub fn copy_line(l: &LineString) -> (r: LineString)
    ensures
        r@ == l@,
{
    let mut points: Vec<Coord> = Vec::new();
    let mut i: usize = 0;
    while i < l.points.len()
        invariant
            i <= l.points@.len(),
            points@ == l.points@.take(i as int),
        decreases l.points@.len() - i,
    {
        points.push(l.points[i]);
        i = i + 1;
        assert(points@ =~= l.points@.take(i as int));
    }
    assert(l.points@.take(l.points@.len() as int) =~= l.points@);
    LineString { points }
}

/// Copies paths one by one.
pub fn copy_lines(ls: &Vec<LineString>) -> (r: Vec<LineString>)
    ensures
        paths_view(r@) == paths_view(ls@),
{
    let mut out: Vec<LineString> = Vec::new();
    let mut i: usize = 0;
    while i < ls.len()
        invariant
            i <= ls@.len(),
            out@.len() == i,
            forall|j: int| 0 <= j < i ==> (#[trigger] out@[j])@ == ls@[j]@,
        decreases ls@.len() - i,
    {
        out.push(copy_line(&ls[i]));
        i = i + 1;
    }
    assert(paths_view(out@) =~= paths_view(ls@));
    out
}

pub fn copy_polygon(p: &Polygon) -> (r: Polygon)
    ensures
        r@ == p@,
{
    Polygon { exterior: copy_line(&p.exterior), interiors: copy_lines(&p.interiors) }
}

pub fn copy_polygon_set(m: &PolygonSet) -> (r: PolygonSet)
    ensures
        r@ == m@,
{
    let mut out: Vec<Polygon> = Vec::new();
    let mut i: usize = 0;
    while i < m.polygons.len()
        invariant
            i <= m.polygons@.len(),
            out@.len() == i,
            forall|j: int| 0 <= j < i ==> (#[trigger] out@[j])@ == m.polygons@[j]@,
        decreases m.polygons@.len() - i,
    {
        out.push(copy_polygon(&m.polygons[i]));
        i = i + 1;
    }
    let r = PolygonSet { polygons: out };
    assert(r@ =~= m@);
    r
}

pub fn copy_path_set(m: &PathSet) -> (r: PathSet)
    ensures
        r@ == m@,
{
    PathSet { lines: copy_lines(&m.lines) }
}

/// The rings of a polygon as paths: the exterior, then the interiors.
pub fn polygon_rings(p: &Polygon) -> (r: Vec<LineString>)
    ensures
        paths_view(r@) == p@,
{
    let mut out: Vec<LineString> = Vec::new();
    out.push(copy_line(&p.exterior));
    let rest = copy_lines(&p.interiors);
    let mut i: usize = 0;
    while i < rest.len()
        invariant
            i <= rest@.len(),
            paths_view(rest@) == paths_view(p.interiors@),
            out@.len() == i + 1,
            out@[0]@ == p.exterior@,
            forall|j: int| 1 <= j < out@.len() ==> (#[trigger] out@[j])@ == rest@[j - 1]@,
        decreases rest@.len() - i,
    {
        out.push(copy_line(&rest[i]));
        i = i + 1;
    }
    assert forall|j: int| 0 <= j < rest@.len() implies rest@[j]@ == p.interiors@[j]@ by {
        assert(paths_view(rest@).len() == rest@.len());
        assert(paths_view(p.interiors@).len() == p.interiors@.len());
        assert(paths_view(rest@)[j] == paths_view(p.interiors@)[j]);
    }
    assert(paths_view(out@) =~= p@);
    out
}

/// All rings of all polygons, each polygon's exterior before its interiors.
pub fn polygon_set_rings(m: &PolygonSet) -> (r: Vec<LineString>)
    ensures
        paths_view(r@) == rings_of(m@),
{
    let mut out: Vec<LineString> = Vec::new();
    let mut i: usize = 0;
    assert(m@.take(0) =~= Seq::<PolygonView>::empty());
    while i < m.polygons.len()
        invariant
            i <= m.polygons@.len(),
            paths_view(out@) == rings_of(m@.take(i as int)),
        decreases m.polygons@.len() - i,
    {
        let rings = polygon_rings(&m.polygons[i]);
        let mut k: usize = 0;
        let ghost before = paths_view(out@);
        assert(paths_view(rings@).take(0) =~= Seq::<PathView>::empty());
        assert(before + paths_view(rings@).take(0) =~= before);
        while k < rings.len()
            invariant
                k <= rings@.len(),
                out@.len() == before.len() + k,
                forall|j: int| 0 <= j < before.len() ==> (#[trigger] out@[j])@ == before[j],
                forall|j: int|
                    before.len() <= j < out@.len() ==> (#[trigger] out@[j])@ == rings@[j
                        - before.len()]@,
            decreases rings@.len() - k,
        {
            out.push(copy_line(&rings[k]));
            k = k + 1;
        }
        assert(paths_view(out@) =~= before + paths_view(rings@));
        assert(m@.take(i + 1).drop_last() =~= m@.take(i as int));
        assert(m@.take(i + 1).last() == m.polygons@[i as int]@);
        i = i + 1;
    }
    assert(m@.take(m@.len() as int) =~= m@);
    out
}

// ---------------------------------------------------------------- kernel

/// Polygons as plain nested vectors: rings of points for each polygon.
pub type RawPolygons = Vec<Vec<Vec<(i64, i64)>>>;

/// Paths as plain nested vectors.
pub type RawPaths = Vec<Vec<(i64, i64)>>;

pub open spec fn raw_paths_view(v: Seq<Vec<(i64, i64)>>) -> Seq<PathView> {
    v.map_values(|r: Vec<(i64, i64)>| r@)
}

pub open spec fn raw_polygons_view(v: Seq<Vec<Vec<(i64, i64)>>>) -> Seq<PolygonView> {
    v.map_values(|p: Vec<Vec<(i64, i64)>>| raw_paths_view(p@))
}

/// Every polygon of the set has a ring at least.
pub open spec fn all_have_rings(v: Seq<PolygonView>) -> bool {
    forall|k: int| 0 <= k < v.len() ==> (#[trigger] v[k]).len() >= 1
}

fn path_to_raw(l: &LineString) -> (r: Vec<(i64, i64)>)
    ensures
        r@ == l@,
{
    let mut out: Vec<(i64, i64)> = Vec::new();
    let mut i: usize = 0;
    while i < l.points.len()
        invariant
            i <= l.points@.len(),
            out@ == coords_view(l.points@.take(i as int)),
        decreases l.points@.len() - i,
    {
        let c = l.points[i];
        out.push((c.x, c.y));
        i = i + 1;
        assert(out@ =~= coords_view(l.points@.take(i as int)));
    }
    assert(l.points@.take(l.points@.len() as int) =~= l.points@);
    out
}

fn path_from_raw(r: &Vec<(i64, i64)>) -> (l: LineString)
    ensures
        l@ == r@,
{
    let mut points: Vec<Coord> = Vec::new();
    let mut i: usize = 0;
    while i < r.len()
        invariant
            i <= r@.len(),
            points@.len() == i,
            forall|j: int| 0 <= j < i ==> (#[trigger] points@[j]).x == r@[j].0 && points@[j].y == r@[j].1,
        decreases r@.len() - i,
    {
        let (x, y) = r[i];
        points.push(Coord { x, y });
        i = i + 1;
    }
    let l = LineString { points };
    assert(l@ =~= r@);
    l
}

fn paths_to_raw(ls: &Vec<LineString>) -> (r: RawPaths)
    ensures
        raw_paths_view(r@) == paths_view(ls@),
{
    let mut out: RawPaths = Vec::new();
    let mut i: usize = 0;
    while i < ls.len()
        invariant
            i <= ls@.len(),
            out@.len() == i,
            forall|j: int| 0 <= j < i ==> (#[trigger] out@[j])@ == ls@[j]@,
        decreases ls@.len() - i,
    {
        out.push(path_to_raw(&ls[i]));
        i = i + 1;
    }
    assert(raw_paths_view(out@) =~= paths_view(ls@));
    out
}

fn paths_from_raw(v: &RawPaths) -> (r: Vec<LineString>)
    ensures
        paths_view(r@) == raw_paths_view(v@),
{
    let mut out: Vec<LineString> = Vec::new();
    let mut i: usize = 0;
    while i < v.len()
        invariant
            i <= v@.len(),
            out@.len() == i,
            forall|j: int| 0 <= j < i ==> (#[trigger] out@[j])@ == v@[j]@,
        decreases v@.len() - i,
    {
        out.push(path_from_raw(&v[i]));
        i = i + 1;
    }
    assert(paths_view(out@) =~= raw_paths_view(v@));
    out
}

fn polygons_to_raw(m: &PolygonSet) -> (r: RawPolygons)
    ensures
        raw_polygons_view(r@) == m@,
{
    let mut out: RawPolygons = Vec::new();
    let mut i: usize = 0;
    while i < m.polygons.len()
        invariant
            i <= m.polygons@.len(),
            out@.len() == i,
            forall|j: int| 0 <= j < i ==> raw_paths_view((#[trigger] out@[j])@) == m.polygons@[j]@,
        decreases m.polygons@.len() - i,
    {
        let rings = polygon_rings(&m.polygons[i]);
        let raw = paths_to_raw(&rings);
        out.push(raw);
        i = i + 1;
    }
    assert(raw_polygons_view(out@) =~= m@);
    out
}

fn polygons_from_raw(v: &RawPolygons) -> (r: PolygonSet)
    requires
        all_have_rings(raw_polygons_view(v@)),
    ensures
        r@ == raw_polygons_view(v@),
{
    let mut out: Vec<Polygon> = Vec::new();
    let mut i: usize = 0;
    while i < v.len()
        invariant
            i <= v@.len(),
            all_have_rings(raw_polygons_view(v@)),
            out@.len() == i,
            forall|j: int| 0 <= j < i ==> (#[trigger] out@[j])@ == raw_paths_view(v@[j]@),
        decreases v@.len() - i,
    {
        let rings = &v[i];
        assert(raw_polygons_view(v@)[i as int].len() >= 1);
        let exterior = path_from_raw(&rings[0]);
        let mut interiors: Vec<LineString> = Vec::new();
        let mut k: usize = 1;
        while k < rings.len()
            invariant
                1 <= k <= rings@.len(),
                interiors@.len() == k - 1,
                forall|j: int| 0 <= j < k - 1 ==> (#[trigger] interiors@[j])@ == rings@[j + 1]@,
            decreases rings@.len() - k,
        {
            interiors.push(path_from_raw(&rings[k]));
            k = k + 1;
        }
        let p = Polygon { exterior, interiors };
        assert(p@ =~= raw_paths_view(rings@));
        out.push(p);
        i = i + 1;
    }
    let r = PolygonSet { polygons: out };
    assert(r@ =~= raw_polygons_view(v@));
    r
}

/// The largest coordinate magnitude the polygon kernel takes; beyond it the
/// kernel throws, which would abort the process.
pub const KERNEL_LIMIT: i64 = 0x3FFF_FFFF_FFFF_FFFF;

pub open spec fn coord_ok(c: (i64, i64)) -> bool {
    -KERNEL_LIMIT <= c.0 <= KERNEL_LIMIT && -KERNEL_LIMIT <= c.1 <= KERNEL_LIMIT
}

pub open spec fn path_ok(p: PathView) -> bool {
    forall|i: int| 0 <= i < p.len() ==> coord_ok(#[trigger] p[i])
}

pub open spec fn paths_ok(ps: Seq<PathView>) -> bool {
    forall|j: int| 0 <= j < ps.len() ==> path_ok(#[trigger] ps[j])
}

/// Every coordinate of every polygon is within the kernel's range.
pub open spec fn polygons_ok(v: Seq<PolygonView>) -> bool {
    forall|k: int| 0 <= k < v.len() ==> paths_ok(#[trigger] v[k])
}

/// Tells whether every point of a path is within the kernel's range.
pub fn path_in_range(l: &LineString) -> (r: bool)
    ensures
        r == path_ok(l@),
{
    let mut i: usize = 0;
    while i < l.points.len()
        invariant
            i <= l.points@.len(),
            forall|j: int| 0 <= j < i ==> coord_ok(#[trigger] l@[j]),
        decreases l.points@.len() - i,
    {
        let c = l.points[i];
        if c.x < -KERNEL_LIMIT || c.x > KERNEL_LIMIT || c.y < -KERNEL_LIMIT || c.y > KERNEL_LIMIT {
            assert(!coord_ok(l@[i as int]));
            return false;
        }
        i = i + 1;
    }
    true
}

fn lines_in_range(ls: &Vec<LineString>) -> (r: bool)
    ensures
        r == paths_ok(paths_view(ls@)),
{
    let mut i: usize = 0;
    while i < ls.len()
        invariant
            i <= ls@.len(),
            forall|j: int| 0 <= j < i ==> path_ok(#[trigger] paths_view(ls@)[j]),
        decreases ls@.len() - i,
    {
        if !path_in_range(&ls[i]) {
            assert(!path_ok(paths_view(ls@)[i as int]));
            return false;
        }
        i = i + 1;
    }
    true
}

/// Tells whether every path is within the kernel's range.
pub fn paths_in_range(m: &PathSet) -> (r: bool)
    ensures
        r == paths_ok(m@),
{
    lines_in_range(&m.lines)
}

/// Tells whether every polygon is within the kernel's range.
pub fn polygons_in_range(m: &PolygonSet) -> (r: bool)
    ensures
        r == polygons_ok(m@),
{
    let mut i: usize = 0;
    while i < m.polygons.len()
        invariant
            i <= m.polygons@.len(),
            forall|j: int| 0 <= j < i ==> paths_ok(#[trigger] m@[j]),
        decreases m.polygons@.len() - i,
    {
        let p = &m.polygons[i];
        let ok = path_in_range(&p.exterior) && lines_in_range(&p.interiors);
        proof {
            let v = m@[i as int];
            assert(v == p@);
            if ok {
                assert forall|j: int| 0 <= j < v.len() implies path_ok(#[trigger] v[j]) by {
                    if j > 0 {
                        assert(v[j] == paths_view(p.interiors@)[j - 1]);
                    }
                }
            } else if !path_ok(p.exterior@) {
                assert(!path_ok(v[0]));
            } else {
                let j = choose|j: int|
                    0 <= j < paths_view(p.interiors@).len() && !path_ok(paths_view(p.interiors@)[j]);
                assert(v[j + 1] == paths_view(p.interiors@)[j]);
            }
        }
        if !ok {
            return false;
        }
        i = i + 1;
    }
    true
}

/// The region covered by `a` and not by `b`, as the polygon kernel computes it.
pub uninterp spec fn clip_difference(a: Seq<PolygonView>, b: Seq<PolygonView>) -> Seq<PolygonView>;

/// The region covered by both, as the polygon kernel computes it.
pub uninterp spec fn clip_intersection(a: Seq<PolygonView>, b: Seq<PolygonView>) -> Seq<
    PolygonView,
>;

/// The region covered by either, as the polygon kernel computes it.
pub uninterp spec fn clip_union(a: Seq<PolygonView>, b: Seq<PolygonView>) -> Seq<PolygonView>;

/// The parts of the open paths `a` that lie inside the region `b`.
pub uninterp spec fn clip_open(a: Seq<PathView>, b: Seq<PolygonView>) -> Seq<PathView>;

/// Relies on geo_clipper's `ClipperInt::difference` on integer polygons
/// within the kernel's range; each polygon it returns has an exterior ring.
#[verifier::external_body]
fn kernel_difference(a: RawPolygons, b: RawPolygons) -> (r: RawPolygons)
    requires
        polygons_ok(raw_polygons_view(a@)),
        polygons_ok(raw_polygons_view(b@)),
    ensures
        raw_polygons_view(r@) == clip_difference(raw_polygons_view(a@), raw_polygons_view(b@)),
        all_have_rings(raw_polygons_view(r@)),
{
    let to = |m: RawPolygons| geo::MultiPolygon::new(m.into_iter().map(|p| {
        let mut rings = p.into_iter().map(geo::LineString::from);
        geo::Polygon::new(rings.next().unwrap_or(geo::LineString(vec![])), rings.collect())
    }).collect());
    let g = ClipperInt::difference(&to(a), &to(b));
    g.0.iter().map(|p| std::iter::once(p.exterior()).chain(p.interiors()).map(|l| l.0.iter().map(|c| (c.x, c.y)).collect()).collect()).collect()
}

/// Relies on geo_clipper's `ClipperInt::intersection` on integer polygons
/// within the kernel's range; each polygon it returns has an exterior ring.
#[verifier::external_body]
fn kernel_intersection(a: RawPolygons, b: RawPolygons) -> (r: RawPolygons)
    requires
        polygons_ok(raw_polygons_view(a@)),
        polygons_ok(raw_polygons_view(b@)),
    ensures
        raw_polygons_view(r@) == clip_intersection(raw_polygons_view(a@), raw_polygons_view(b@)),
        all_have_rings(raw_polygons_view(r@)),
{
    let to = |m: RawPolygons| geo::MultiPolygon::new(m.into_iter().map(|p| {
        let mut rings = p.into_iter().map(geo::LineString::from);
        geo::Polygon::new(rings.next().unwrap_or(geo::LineString(vec![])), rings.collect())
    }).collect());
    let g = ClipperInt::intersection(&to(a), &to(b));
    g.0.iter().map(|p| std::iter::once(p.exterior()).chain(p.interiors()).map(|l| l.0.iter().map(|c| (c.x, c.y)).collect()).collect()).collect()
}

/// Relies on geo_clipper's `ClipperInt::union` on integer polygons within
/// the kernel's range; each polygon it returns has an exterior ring.
#[verifier::external_body]
fn kernel_union(a: RawPolygons, b: RawPolygons) -> (r: RawPolygons)
    requires
        polygons_ok(raw_polygons_view(a@)),
        polygons_ok(raw_polygons_view(b@)),
    ensures
        raw_polygons_view(r@) == clip_union(raw_polygons_view(a@), raw_polygons_view(b@)),
        all_have_rings(raw_polygons_view(r@)),
{
    let to = |m: RawPolygons| geo::MultiPolygon::new(m.into_iter().map(|p| {
        let mut rings = p.into_iter().map(geo::LineString::from);
        geo::Polygon::new(rings.next().unwrap_or(geo::LineString(vec![])), rings.collect())
    }).collect());
    let g = ClipperInt::union(&to(a), &to(b));
    g.0.iter().map(|p| std::iter::once(p.exterior()).chain(p.interiors()).map(|l| l.0.iter().map(|c| (c.x, c.y)).collect()).collect()).collect()
}

/// Relies on geo_clipper's `ClipperOpenInt::intersection`: the open paths
/// clipped to the region, all within the kernel's range.
#[verifier::external_body]
fn kernel_clip_open(a: RawPaths, b: RawPolygons) -> (r: RawPaths)
    requires
        paths_ok(raw_paths_view(a@)),
        polygons_ok(raw_polygons_view(b@)),
    ensures
        raw_paths_view(r@) == clip_open(raw_paths_view(a@), raw_polygons_view(b@)),
{
    let region = geo::MultiPolygon::new(b.into_iter().map(|p| {
        let mut rings = p.into_iter().map(geo::LineString::from);
        geo::Polygon::new(rings.next().unwrap_or(geo::LineString(vec![])), rings.collect())
    }).collect());
    let lines = geo::MultiLineString::new(a.into_iter().map(geo::LineString::from).collect());
    let g = ClipperOpenInt::intersection(&lines, &region);
    g.0.iter().map(|l| l.0.iter().map(|c| (c.x, c.y)).collect()).collect()
}

/// The region covered by `a` and not by `b`.
pub fn difference(a: &PolygonSet, b: &PolygonSet) -> (r: PolygonSet)
    requires
        polygons_ok(a@),
        polygons_ok(b@),
    ensures
        r@ == clip_difference(a@, b@),
{
    let raw = kernel_difference(polygons_to_raw(a), polygons_to_raw(b));
    polygons_from_raw(&raw)
}

/// The region covered by both `a` and `b`.
pub fn intersection(a: &PolygonSet, b: &PolygonSet) -> (r: PolygonSet)
    requires
        polygons_ok(a@),
        polygons_ok(b@),
    ensures
        r@ == clip_intersection(a@, b@),
{
    let raw = kernel_intersection(polygons_to_raw(a), polygons_to_raw(b));
    polygons_from_raw(&raw)
}

/// The region covered by `a` or by `b`.
pub fn union(a: &PolygonSet, b: &PolygonSet) -> (r: PolygonSet)
    requires
        polygons_ok(a@),
        polygons_ok(b@),
    ensures
        r@ == clip_union(a@, b@),
{
    let raw = kernel_union(polygons_to_raw(a), polygons_to_raw(b));
    polygons_from_raw(&raw)
}

/// The parts of the open paths that lie inside the region.
pub fn clip_lines(lines: &PathSet, region: &PolygonSet) -> (r: PathSet)
    requires
        paths_ok(lines@),
        polygons_ok(region@),
    ensures
        r@ == clip_open(lines@, region@),
{
    let raw = kernel_clip_open(paths_to_raw(&lines.lines), polygons_to_raw(region));
    PathSet { lines: paths_from_raw(&raw) }
}

} // verus!
