use narsil::mesh::twin_faces;
use narsil::slicer::{slice_face, slice_layer, EdgeCut, FaceSlice, PointKey, SlicerError};
use narsil::sweep::{layer_faces, sort_faces, FaceRange};

fn fr(face: u64, z_min: i64, z_max: i64) -> FaceRange {
    FaceRange { face, z_min, z_max }
}

#[test]
fn unit_cube_has_four_layers_of_side_faces() {
    // Heights in eighths of a millimetre: the cube spans 0..8, layers of a
    // quarter millimetre sit at 1, 3, 5 and 7.
    let mut faces = Vec::new();
    for f in 0..8 {
        faces.push(fr(f, 0, 8));
    }
    faces.insert(0, fr(100, 0, 0));
    faces.insert(1, fr(101, 0, 0));
    faces.push(fr(102, 8, 8));
    faces.push(fr(103, 8, 8));
    let plans = layer_faces(&faces, &vec![1, 3, 5, 7]);
    assert_eq!(plans.len(), 4);
    for (p, z) in plans.iter().zip([1, 3, 5, 7]) {
        assert_eq!(p.z, z);
        assert_eq!(p.active_face_ids, (0..8).collect::<Vec<u64>>());
    }
}

#[test]
fn sweep_enters_and_leaves() {
    let faces = vec![fr(1, 0, 2), fr(2, 1, 5), fr(3, 4, 6), fr(4, 7, 9)];
    let plans = layer_faces(&faces, &vec![1, 2, 5, 6, 7, 10]);
    let got: Vec<(i64, Vec<u64>)> = plans.iter().map(|p| (p.z, p.active_face_ids.clone())).collect();
    assert_eq!(
        got,
        vec![(1, vec![1]), (2, vec![1, 2]), (5, vec![2, 3]), (6, vec![3])]
    );
}

#[test]
fn sweep_covers_every_overlapping_face() {
    let faces = vec![fr(1, -5, 5), fr(2, -1, 0), fr(3, 0, 3), fr(4, 2, 2), fr(5, 2, 9)];
    let zs = vec![-3, 0, 1, 2, 3, 8];
    let plans = layer_faces(&faces, &zs);
    for f in &faces {
        for &z in &zs {
            if f.z_min < z && z <= f.z_max {
                let plan = plans.iter().find(|p| p.z == z).unwrap();
                assert!(plan.active_face_ids.contains(&f.face));
            }
        }
    }
}

#[test]
fn sweep_of_nothing() {
    assert!(layer_faces(&vec![], &vec![1, 2]).is_empty());
    assert!(layer_faces(&vec![fr(1, 0, 1)], &vec![]).is_empty());
}

fn pk(x: u64, y: u64) -> PointKey {
    PointKey { x, y }
}

fn cut(ascending: bool, crosses: bool, p: PointKey, twin: FaceRange) -> EdgeCut {
    EdgeCut { ascending, crosses, point: p, twin: Some(twin) }
}

#[test]
fn face_with_one_entry_and_one_exit() {
    let cuts = vec![
        cut(true, true, pk(1, 1), fr(7, 0, 4)),
        cut(false, true, pk(2, 2), fr(8, 0, 4)),
        cut(false, false, pk(3, 3), fr(9, 0, 4)),
    ];
    let s = slice_face(5, 2, &cuts).unwrap();
    assert_eq!(s, FaceSlice { face: 5, start: pk(1, 1), end: pk(2, 2), next: 8 });
}

#[test]
fn exit_needs_an_active_twin() {
    let cuts = vec![
        cut(true, true, pk(1, 1), fr(7, 0, 4)),
        cut(false, true, pk(2, 2), fr(8, 2, 4)),
        cut(false, true, pk(3, 3), fr(9, 0, 4)),
    ];
    assert_eq!(slice_face(5, 2, &cuts).unwrap().next, 9);
}

#[test]
fn non_manifold_face() {
    let two_entries = vec![
        cut(true, true, pk(1, 1), fr(7, 0, 4)),
        cut(true, true, pk(2, 2), fr(8, 0, 4)),
        cut(false, true, pk(3, 3), fr(9, 0, 4)),
    ];
    assert_eq!(slice_face(5, 2, &two_entries), Err(SlicerError::NonManifold(5)));
    let no_exit = vec![cut(true, true, pk(1, 1), fr(7, 0, 4))];
    assert_eq!(slice_face(6, 2, &no_exit), Err(SlicerError::NonManifold(6)));
    let boundary = vec![
        cut(true, true, pk(1, 1), fr(7, 0, 4)),
        EdgeCut { ascending: false, crosses: true, point: pk(2, 2), twin: None },
    ];
    assert_eq!(slice_face(7, 2, &boundary), Err(SlicerError::NonManifold(7)));
}

fn fs(face: u64, s: u64, e: u64, next: u64) -> FaceSlice {
    FaceSlice { face, start: pk(s, 0), end: pk(e, 0), next }
}

#[test]
fn rings_close() {
    // Two separate loops: faces 1-2-3 and faces 10-11.
    let slices = vec![fs(1, 0, 1, 2), fs(10, 5, 6, 11), fs(2, 1, 2, 3), fs(3, 2, 0, 1), fs(11, 6, 5, 10)];
    let rings = slice_layer(&slices).unwrap();
    assert_eq!(rings.len(), 2);
    assert_eq!(rings[0], vec![pk(0, 0), pk(1, 0), pk(2, 0), pk(0, 0)]);
    assert_eq!(rings[1], vec![pk(5, 0), pk(6, 0), pk(5, 0)]);
    for r in &rings {
        assert_eq!(r.first(), r.last());
    }
}

#[test]
fn ring_walk_errors() {
    let untracked = vec![fs(1, 0, 1, 2), fs(2, 1, 0, 9)];
    assert_eq!(slice_layer(&untracked), Err(SlicerError::CurrentFaceUntracked(9)));
    let open = vec![fs(1, 0, 1, 2), fs(2, 1, 2, 1)];
    assert_eq!(slice_layer(&open), Err(SlicerError::NonManifold(1)));
    let revisit = vec![fs(1, 0, 1, 2), fs(2, 1, 2, 3), fs(3, 2, 1, 2)];
    assert_eq!(slice_layer(&revisit), Err(SlicerError::NonManifold(2)));
    assert_eq!(slice_layer(&vec![]), Ok(vec![]));
}

#[test]
fn twins_of_a_tetrahedron() {
    // Four outward faces over vertices 0..4.
    let tris = vec![[0, 2, 1], [0, 1, 3], [1, 2, 3], [2, 0, 3]];
    let twins = twin_faces(&tris, 4);
    assert_eq!(twins[0], [Some(3), Some(2), Some(1)]);
    assert_eq!(twins[1], [Some(0), Some(2), Some(3)]);
    // An edge held by three faces has no twin.
    let fan = vec![[0, 1, 2], [1, 0, 3], [1, 0, 4]];
    let t = twin_faces(&fan, 5);
    assert_eq!(t[0][0], None);
    assert_eq!(twin_faces(&vec![], 0), Vec::<[Option<usize>; 3]>::new());
}

#[test]
fn faces_sorted_by_bottom() {
    let sorted = sort_faces(vec![fr(1, 5, 9), fr(2, -3, 0), fr(3, 2, 2), fr(4, -3, 7)]);
    let bottoms: Vec<i64> = sorted.iter().map(|f| f.z_min).collect();
    assert_eq!(bottoms, vec![-3, -3, 2, 5]);
    let mut ids: Vec<u64> = sorted.iter().map(|f| f.face).collect();
    ids.sort();
    assert_eq!(ids, vec![1, 2, 3, 4]);
}

#[test]
fn untracked_face_fails_before_walking() {
    // A well-formed loop, and one segment leading out of the layer.
    let slices = vec![fs(1, 0, 1, 2), fs(2, 1, 0, 1), fs(3, 7, 8, 42)];
    assert_eq!(slice_layer(&slices), Err(SlicerError::CurrentFaceUntracked(42)));
}

#[test]
fn every_face_in_one_ring() {
    // A triangle cycle and a square cycle, interleaved.
    let slices = vec![
        fs(1, 0, 1, 2), fs(10, 5, 6, 11), fs(2, 1, 2, 3), fs(11, 6, 7, 12),
        fs(3, 2, 0, 1), fs(12, 7, 8, 13), fs(13, 8, 5, 10),
    ];
    let rings = slice_layer(&slices).unwrap();
    assert_eq!(rings.len(), 2);
    assert_eq!(rings[0].len(), 4);
    assert_eq!(rings[1], vec![pk(5, 0), pk(6, 0), pk(7, 0), pk(8, 0), pk(5, 0)]);
}
