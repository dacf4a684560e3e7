use narsil::args::Args;
use narsil::config::DiscreteConfig;
use narsil::connect::{connect, layer_traversables, Traversable};
use narsil::geom::{paths_in_range, polygons_in_range, KERNEL_LIMIT, clip_lines, difference, intersection, union, Coord, LineString, PathSet, Polygon, PolygonSet};
use narsil::infill::{linear_fill_bounds, BoundOps, CenterInt, FillCache};
use narsil::regions::{
    bottom_exposed, get_next_region_id, shells_from_offsets, LayerShells, solid_groupings, solid_regions,
    sparse_regions, top_exposed, InteriorRegionTag, OutlineRegionTag, PathTag, Region,
    RegionIdCounter, TaggedRegions,
};

fn path(points: &[(i64, i64)]) -> LineString {
    LineString { points: points.iter().map(|&(x, y)| Coord { x, y }).collect() }
}

fn square(x0: i64, y0: i64, x1: i64, y1: i64) -> Polygon {
    Polygon { exterior: path(&[(x0, y0), (x1, y0), (x1, y1), (x0, y1), (x0, y0)]), interiors: vec![] }
}

fn set(polys: Vec<Polygon>) -> PolygonSet {
    PolygonSet { polygons: polys }
}

fn area2(l: &LineString) -> i64 {
    let p = &l.points;
    let mut s = 0;
    for i in 0..p.len() {
        let a = p[i];
        let b = p[(i + 1) % p.len()];
        s += a.x * b.y - b.x * a.y;
    }
    s.abs()
}

fn total_area2(m: &PolygonSet) -> i64 {
    m.polygons
        .iter()
        .map(|p| area2(&p.exterior) - p.interiors.iter().map(area2).sum::<i64>())
        .sum()
}

#[test]
fn region_ids_are_handed_out_in_order() {
    let mut c = RegionIdCounter::new();
    assert_eq!(get_next_region_id(&mut c), 0);
    assert_eq!(get_next_region_id(&mut c), 1);
    assert_eq!(c.next, 2);
}

#[test]
fn outline_regions_get_fresh_ids() {
    let mut c = RegionIdCounter::new();
    c.next = 10;
    let polys = set(vec![square(0, 0, 1, 1), square(5, 5, 6, 6)]);
    let r = TaggedRegions::<OutlineRegionTag>::from_polygons(&polys, &mut c);
    assert_eq!(r.regions.iter().map(|r| r.id).collect::<Vec<_>>(), vec![10, 11]);
    assert_eq!(c.next, 12);
    let paths = r.to_tagged_paths();
    assert_eq!(paths.len(), 2);
    assert!(paths.iter().all(|p| p.tag == PathTag::Region));
}

#[test]
fn operations_keep_region_ids() {
    let regions = TaggedRegions::<OutlineRegionTag>::new(vec![
        Region { poly: square(0, 0, 10, 10), id: 4 },
        Region { poly: square(20, 0, 30, 10), id: 9 },
    ]);
    let results = vec![
        set(vec![square(1, 1, 4, 4), square(6, 6, 9, 9)]),
        set(vec![]),
    ];
    let out = regions.apply_mult(&results);
    assert_eq!(out.regions.len(), 2);
    assert!(out.regions.iter().all(|r| r.id == 4));
    assert_eq!(out.regions[1].poly.exterior.points[0], Coord { x: 6, y: 6 });
}

#[test]
fn shells_bundle_rings_by_rank() {
    let region = Region { poly: square(0, 0, 10, 10), id: 3 };
    let mut with_hole = square(1, 1, 9, 9);
    with_hole.interiors.push(path(&[(4, 4), (6, 4), (6, 6), (4, 6), (4, 4)]));
    let ranks = vec![set(vec![with_hole]), set(vec![square(2, 2, 8, 8)])];
    let shells = shells_from_offsets(&region, &ranks);
    assert_eq!(shells.region_id, 3);
    assert_eq!(shells.shells.len(), 2);
    assert_eq!(shells.shells[0].lines.len(), 2);
    assert_eq!(shells.shells[1].lines.len(), 1);
}

#[test]
fn config_offsets() {
    let c = DiscreteConfig {
        nozzle_diameter: 40,
        shell_overlap: 5,
        shell_infill_overlap: 3,
        num_shells: 3,
        num_top_layers: 2,
        num_bottom_layers: 2,
        solid_fill_spacing: 40,
        sparse_fill_spacing: 160,
    };
    assert_eq!(c.shell_offsets(), vec![-20, -55, -90]);
    assert_eq!(c.interior_offset_dsc(), -(40 + 35 * 2 - 3));
    let none = DiscreteConfig { num_shells: 0, ..c };
    assert!(none.shell_offsets().is_empty());
    assert_eq!(none.interior_offset_dsc(), -(40 - 35 - 3));
}

#[test]
fn kernel_difference_cuts_away() {
    let a = set(vec![square(0, 0, 10, 10)]);
    let b = set(vec![square(5, 0, 10, 10)]);
    let d = difference(&a, &b);
    assert_eq!(total_area2(&d), 2 * 50);
    let i = intersection(&a, &b);
    assert_eq!(total_area2(&i), 2 * 50);
    let u = union(&a, &set(vec![square(10, 0, 20, 10)]));
    assert_eq!(total_area2(&u), 2 * 200);
}

#[test]
fn open_lines_are_clipped() {
    let lines = PathSet { lines: vec![path(&[(-5, 5), (15, 5)])] };
    let clipped = clip_lines(&lines, &set(vec![square(0, 0, 10, 10)]));
    assert_eq!(clipped.lines.len(), 1);
    let xs: Vec<i64> = clipped.lines[0].points.iter().map(|c| c.x).collect();
    assert_eq!(xs.iter().min(), Some(&0));
    assert_eq!(xs.iter().max(), Some(&10));
}

#[test]
fn exposure_top_and_bottom() {
    let outlines = vec![
        set(vec![square(0, 0, 10, 10)]),
        set(vec![square(0, 0, 5, 10)]),
        set(vec![square(0, 0, 5, 5)]),
    ];
    let top = top_exposed(&outlines);
    assert_eq!(top.len(), 3);
    assert_eq!(total_area2(&top[0]), 2 * 50);
    assert_eq!(total_area2(&top[1]), 2 * 25);
    assert_eq!(total_area2(&top[2]), 2 * 25);
    let bottom = bottom_exposed(&outlines);
    assert_eq!(total_area2(&bottom[0]), 2 * 100);
    assert_eq!(total_area2(&bottom[1]), 0);
    assert_eq!(total_area2(&bottom[2]), 0);
    // Exposed on top lies within its layer and off the one above.
    assert_eq!(total_area2(&intersection(&top[0], &outlines[1])), 0);
    assert_eq!(total_area2(&difference(&top[0], &outlines[0])), 0);
    assert!(top_exposed(&vec![]).is_empty());
}

#[test]
fn solid_window_gathers_layers() {
    let layer = |k: i64| set(vec![square(k * 10, 0, k * 10 + 1, 1)]);
    let top: Vec<PolygonSet> = (0..5).map(layer).collect();
    let bottom: Vec<PolygonSet> = (10..15).map(layer).collect();
    let g = solid_groupings(&top, &bottom, 2, 2);
    let firsts = |m: &PolygonSet| m.polygons.iter().map(|p| p.exterior.points[0].x / 10).collect::<Vec<_>>();
    assert_eq!(firsts(&g[0]), vec![0, 1, 10]);
    assert_eq!(firsts(&g[1]), vec![1, 2, 10, 11]);
    assert_eq!(firsts(&g[4]), vec![4, 13, 14]);
    let none = solid_groupings(&top, &bottom, 0, 0);
    assert!(none.iter().all(|m| m.polygons.is_empty()));
}

#[test]
fn solid_and_sparse_split_the_interior() {
    let mut c = RegionIdCounter::new();
    let interior = TaggedRegions::<InteriorRegionTag>::from_polygons(&set(vec![square(0, 0, 10, 10)]), &mut c);
    let grouping = set(vec![square(0, 0, 4, 10), square(2, 0, 6, 10)]);
    let solid = solid_regions(&grouping, &interior, &mut c).unwrap();
    let sparse = sparse_regions(&interior, &solid, &mut c).unwrap();
    let s = total_area2(&solid.polygons());
    let p = total_area2(&sparse.polygons());
    assert_eq!(s, 2 * 60);
    assert_eq!(p, 2 * 40);
    assert_eq!(total_area2(&intersection(&solid.polygons(), &sparse.polygons())), 0);
    assert_eq!(solid.regions[0].id, 1);
}

#[test]
fn linear_fill_lines() {
    let r = narsil::geom::Rect { min: Coord { x: 0, y: -3 }, max: Coord { x: 10, y: 7 } };
    let f = linear_fill_bounds(4, r);
    let xs: Vec<i64> = f.lines.iter().map(|l| l.points[0].x).collect();
    assert_eq!(xs, vec![0, 4, 8]);
    assert_eq!(f.lines[1].points[0], Coord { x: 4, y: -3 });
    assert_eq!(f.lines[1].points[1], Coord { x: 4, y: 7 });
    let exact = linear_fill_bounds(5, r);
    assert_eq!(exact.lines.len(), 3);
    let empty = narsil::geom::Rect { min: Coord { x: 5, y: 0 }, max: Coord { x: 4, y: 1 } };
    assert!(linear_fill_bounds(1, empty).lines.is_empty());
    let edge = narsil::geom::Rect { min: Coord { x: i64::MAX - 1, y: 0 }, max: Coord { x: i64::MAX, y: 1 } };
    assert_eq!(linear_fill_bounds(i64::MAX, edge).lines.len(), 1);
}

#[test]
fn rect_center_and_sum() {
    let a = narsil::geom::Rect { min: Coord { x: -3, y: 1 }, max: Coord { x: 0, y: 6 } };
    assert_eq!(a.center(), Coord { x: -1, y: 3 });
    let big = narsil::geom::Rect { min: Coord { x: i64::MAX - 2, y: 0 }, max: Coord { x: i64::MAX, y: 0 } };
    assert_eq!(big.center().x, i64::MAX - 1);
    let b = narsil::geom::Rect { min: Coord { x: -1, y: 2 }, max: Coord { x: 5, y: 4 } };
    let s = a.bound_sum(&b);
    assert_eq!(s.min, Coord { x: -3, y: 1 });
    assert_eq!(s.max, Coord { x: 5, y: 6 });
}

#[test]
fn fill_cache_serves_the_first_fill() {
    let mut cache = FillCache::new();
    assert!(cache.lookup(15000).is_none());
    let first = PathSet { lines: vec![path(&[(0, 0), (0, 9)])] };
    let second = PathSet { lines: vec![path(&[(1, 1), (1, 9)]), path(&[(2, 1), (2, 9)])] };
    let a = cache.request(15000, first);
    let b = cache.request(15000, second);
    assert_eq!(a.lines.len(), 1);
    assert_eq!(b.lines.len(), 1);
    assert_eq!(b.lines[0].points, a.lines[0].points);
    assert_eq!(cache.lookup(15000).unwrap().lines[0].points[0], Coord { x: 0, y: 0 });
    assert!(cache.lookup(-15000).is_none());
}

#[test]
fn connector_visits_each_once() {
    let ring = Traversable::ClosedRing(path(&[(10, 10), (20, 10), (20, 20), (10, 20), (10, 10)]));
    let near_line = Traversable::OpenLine(path(&[(1, 1), (5, 1)]));
    let far_line = Traversable::OpenLine(path(&[(100, 100), (90, 100)]));
    let empty = Traversable::OpenLine(path(&[]));
    let out = connect(&vec![ring, near_line, far_line, empty]);
    let order: Vec<usize> = out.iter().map(|(i, _)| *i).collect();
    assert_eq!(order, vec![1, 0, 2]);
    // The ring is entered at the vertex nearest to (5, 1) and closed there.
    let ring_path: Vec<(i64, i64)> = out[1].1.points.iter().map(|c| (c.x, c.y)).collect();
    assert_eq!(ring_path, vec![(10, 10), (20, 10), (20, 20), (10, 20), (10, 10)]);
    assert_eq!(out[2].1.points[0], Coord { x: 100, y: 100 });
}

#[test]
fn connector_rotates_rings() {
    let ring = Traversable::ClosedRing(path(&[(0, 50), (50, 50), (50, 0), (0, 50)]));
    let out = connect(&vec![ring]);
    let pts: Vec<(i64, i64)> = out[0].1.points.iter().map(|c| (c.x, c.y)).collect();
    // (0, 50) and (50, 0) are equally near; either way the ring is closed.
    assert_eq!(pts.len(), 4);
    assert_eq!(pts.first(), pts.last());
    assert!(connect(&vec![]).is_empty());
}

#[test]
fn args_and_usage() {
    let short = vec!["narsil".to_string(), "a.yaml".to_string()];
    assert_eq!(
        Args::new(&short).err().unwrap(),
        "Usage: narsil <config_file> <input_file> <output_file>"
    );
    assert!(Args::new(&vec![]).is_err());
    let full: Vec<String> = ["narsil", "c.yaml", "models/cube.stl", "out.html"].iter().map(|s| s.to_string()).collect();
    let args = Args::new(&full).unwrap();
    assert_eq!(args.input_filename, "models/cube.stl");
    assert_eq!(args.name(), Some("cube.stl".to_string()));
    let dir = Args::new(&vec!["p".into(), "c".into(), "..".into(), "o".into()]).unwrap();
    assert_eq!(dir.name(), None);
}

#[test]
fn shells_flatten_with_rank_and_region() {
    let a = shells_from_offsets(
        &Region { poly: square(0, 0, 10, 10), id: 7 },
        &vec![set(vec![square(1, 1, 9, 9), square(20, 20, 21, 21)]), set(vec![square(2, 2, 8, 8)])],
    );
    let b = shells_from_offsets(&Region { poly: square(0, 0, 1, 1), id: 8 }, &vec![set(vec![square(0, 0, 1, 1)])]);
    let layer = LayerShells { shells: vec![a, b] };
    let singles = layer.to_single_shells();
    let tags: Vec<(u64, usize)> = singles.iter().map(|s| (s.region_id, s.rank)).collect();
    assert_eq!(tags, vec![(7, 0), (7, 0), (7, 1), (8, 0)]);
    assert_eq!(singles[1].shell.points[0], Coord { x: 20, y: 20 });

    let solid = PathSet { lines: vec![path(&[(0, 0), (0, 5)])] };
    let sparse = PathSet { lines: vec![path(&[(3, 0), (3, 5)]), path(&[(6, 0), (6, 5)])] };
    let (ts, kinds) = layer_traversables(&singles, &solid, &sparse);
    assert_eq!(ts.len(), 7);
    assert_eq!(
        kinds,
        vec![PathTag::Shell, PathTag::Shell, PathTag::Shell, PathTag::Shell, PathTag::Solid, PathTag::Sparse, PathTag::Sparse]
    );
    assert!(matches!(&ts[0], Traversable::ClosedRing(_)));
    assert!(matches!(&ts[6], Traversable::OpenLine(l) if l.points[0] == Coord { x: 6, y: 0 }));
}

#[test]
fn kernel_range_checks() {
    assert!(polygons_in_range(&set(vec![square(-KERNEL_LIMIT, 0, KERNEL_LIMIT, 1)])));
    assert!(!polygons_in_range(&set(vec![square(0, 0, i64::MAX, 1)])));
    let mut holed = square(0, 0, 10, 10);
    holed.interiors.push(path(&[(1, 1), (i64::MIN, 1), (1, 1)]));
    assert!(!polygons_in_range(&set(vec![holed])));
    assert!(paths_in_range(&PathSet { lines: vec![path(&[(0, 0), (5, 5)])] }));
    assert!(!paths_in_range(&PathSet { lines: vec![path(&[(0, 0), (0, -KERNEL_LIMIT - 1)])] }));
}
