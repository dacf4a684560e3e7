use vstd::prelude::*;

use crate::sweep::{is_active, FaceRange};
use vstd::set_lib::{lemma_int_range, lemma_len_subset, set_int_range};

verus! {

/// Why a layer could not be traced.
#[derive(Debug, Clone, Copy, PartialEq, Eq, Structural)]
pub enum SlicerError {
    /// The face does not cross the plane once upwards and once downwards, or
    /// its ring does not close.
    NonManifold(u64),
    /// The walk reached a face that is not among the layer's active faces.
    CurrentFaceUntracked(u64),
    /// A ring had no last point to continue from.
    EmptyRing,
}

/// A point where an edge meets the plane, as the bit patterns of its two
/// coordinates: two points are the same when their keys are.
#[derive(Debug, Clone, Copy, PartialEq, Eq, Structural)]
pub struct PointKey {
    pub x: u64,
    pub y: u64,
}

/// How one edge of a face meets the plane: whether it runs upwards, whether
/// the plane cuts it, where, and the height range of the face across it
/// (none on a boundary edge).
#[derive(Debug, Clone, Copy, PartialEq, Eq, Structural)]
pub struct EdgeCut {
    pub ascending: bool,
    pub crosses: bool,
    pub point: PointKey,
    pub twin: Option<FaceRange>,
}

/// The segment that the plane cuts from a face, entering at `start` and
/// leaving at `end` into face `next`.
#[derive(Debug, Clone, Copy, PartialEq, Eq, Structural)]
pub struct FaceSlice {
    pub face: u64,
    pub start: PointKey,
    pub end: PointKey,
    pub next: u64,
}

pub open spec fn is_entry(c: EdgeCut) -> bool {
    c.ascending && c.crosses
}

/// A cut edge running downwards leaves into the face across it when that
/// face is active at the plane.
pub open spec fn is_exit(c: EdgeCut, z: i64) -> bool {
    !c.ascending && c.crosses && c.twin is Some && is_active(c.twin->Some_0, z)
}

pub open spec fn count_entries(cs: Seq<EdgeCut>) -> nat
    decreases cs.len(),
{
    if cs.len() == 0 {
        0
    } else {
        count_entries(cs.drop_last()) + if is_entry(cs.last()) {
            1nat
        } else {
            0nat
        }
    }
}

pub open spec fn count_exits(cs: Seq<EdgeCut>, z: i64) -> nat
    decreases cs.len(),
{
    if cs.len() == 0 {
        0
    } else {
        count_exits(cs.drop_last(), z) + if is_exit(cs.last(), z) {
            1nat
        } else {
            0nat
        }
    }
}

/// Cuts face `face` with the plane at `z`, from how its edges meet the
/// plane: exactly one edge must enter and exactly one must leave.
pub fn slice_face(face: u64, z: i64, cuts: &Vec<EdgeCut>) -> (r: Result<FaceSlice, SlicerError>)
    ensures
        r is Ok <==> count_entries(cuts@) == 1 && count_exits(cuts@, z) == 1,
        r is Err ==> r == Err::<FaceSlice, SlicerError>(SlicerError::NonManifold(face)),
        r matches Ok(s) ==> s.face == face && (exists|i: int|
            0 <= i < cuts@.len() && is_entry(#[trigger] cuts@[i]) && s.start == cuts@[i].point)
            && (exists|j: int|
            0 <= j < cuts@.len() && is_exit(#[trigger] cuts@[j], z) && s.end == cuts@[j].point
                && s.next == cuts@[j].twin->Some_0.face),
{
    let mut n_in: usize = 0;
    let mut n_out: usize = 0;
    let mut start = PointKey { x: 0, y: 0 };
    let mut end = PointKey { x: 0, y: 0 };
    let mut next: u64 = face;
    let ghost mut i_in: int = 0;
    let ghost mut i_out: int = 0;
    let mut i: usize = 0;
    while i < cuts.len()
        invariant
            i <= cuts@.len(),
            n_in == count_entries(cuts@.take(i as int)),
            n_out == count_exits(cuts@.take(i as int), z),
            n_in <= i,
            n_out <= i,
            n_in > 0 ==> 0 <= i_in < cuts@.len() && is_entry(cuts@[i_in]) && start
                == cuts@[i_in].point,
            n_out > 0 ==> 0 <= i_out < cuts@.len() && is_exit(cuts@[i_out], z) && end
                == cuts@[i_out].point && next == cuts@[i_out].twin->Some_0.face,
        decreases cuts@.len() - i,
    {
        let c = cuts[i];
        assert(cuts@.take(i + 1).drop_last() =~= cuts@.take(i as int));
        assert(cuts@.take(i + 1).last() == c);
        if c.ascending && c.crosses {
            n_in = n_in + 1;
            start = c.point;
            proof {
                i_in = i as int;
            }
        } else if !c.ascending && c.crosses {
            if let Some(t) = c.twin {
                if t.z_min < z && z <= t.z_max {
                    n_out = n_out + 1;
                    end = c.point;
                    next = t.face;
                    proof {
                        i_out = i as int;
                    }
                }
            }
        }
        i = i + 1;
    }
    assert(cuts@.take(cuts@.len() as int) =~= cuts@);
    if n_in == 1 && n_out == 1 {
        Ok(FaceSlice { face, start, end, next })
    } else {
        Err(SlicerError::NonManifold(face))
    }
}

/// Whether `p` is where some face of the layer is entered or left.
pub open spec fn is_endpoint(slices: Seq<FaceSlice>, p: PointKey) -> bool {
    exists|i: int| 0 <= i < slices.len() && (#[trigger] slices[i].start == p || slices[i].end == p)
}

pub open spec fn has_face(slices: Seq<FaceSlice>, f: u64) -> bool {
    exists|i: int| 0 <= i < slices.len() && #[trigger] slices[i].face == f
}

/// A closed ring: two points at least, the last equal to the first.
pub open spec fn is_closed_ring(ring: Seq<PointKey>) -> bool {
    ring.len() >= 2 && ring[0] == ring[ring.len() - 1]
}

fn index_of(slices: &Vec<FaceSlice>, face: u64) -> (r: Option<usize>)
    ensures
        r matches Some(i) ==> i < slices@.len() && slices@[i as int].face == face,
        r is None ==> !has_face(slices@, face),
{
    let mut i: usize = 0;
    while i < slices.len()
        invariant
            i <= slices@.len(),
            forall|k: int| 0 <= k < i ==> #[trigger] slices@[k].face != face,
        decreases slices@.len() - i,
    {
        if slices[i].face == face {
            return Some(i);
        }
        i = i + 1;
    }
    None
}

/// The faces are distinct, each segment leads into a face of the layer, no
/// face is entered from two faces, and each segment starts where the one
/// leading into its face ends.
pub open spec fn well_linked(s: Seq<FaceSlice>) -> bool {
    &&& forall|i: int, j: int|
        0 <= i < s.len() && 0 <= j < s.len() && #[trigger] s[i].face == #[trigger] s[j].face
            ==> i == j
    &&& forall|i: int| 0 <= i < s.len() ==> has_face(s, #[trigger] s[i].next)
    &&& forall|i: int, j: int|
        0 <= i < s.len() && 0 <= j < s.len() && #[trigger] s[i].next == #[trigger] s[j].next
            ==> i == j
    &&& forall|i: int, j: int|
        0 <= i < s.len() && 0 <= j < s.len() && #[trigger] s[j].face == #[trigger] s[i].next
            ==> s[j].start == s[i].end
}

/// The position of the face that segment `i` leads into.
pub open spec fn succ(s: Seq<FaceSlice>, i: int) -> int {
    choose|j: int| 0 <= j < s.len() && s[j].face == s[i].next
}

proof fn lemma_succ(s: Seq<FaceSlice>, i: int)
    requires
        well_linked(s),
        0 <= i < s.len(),
    ensures
        0 <= succ(s, i) < s.len(),
        s[succ(s, i)].face == s[i].next,
        forall|j: int| 0 <= j < s.len() && s[j].face == s[i].next ==> j == succ(s, i),
{
    assert(has_face(s, s[i].next));
}

proof fn lemma_succ_injective(s: Seq<FaceSlice>, a: int, b: int)
    requires
        well_linked(s),
        0 <= a < s.len(),
        0 <= b < s.len(),
        succ(s, a) == succ(s, b),
    ensures
        a == b,
{
    lemma_succ(s, a);
    lemma_succ(s, b);
}

proof fn lemma_distinct_bound(p: Seq<int>, n: int)
    requires
        p.no_duplicates(),
        n >= 0,
        forall|u: int| 0 <= u < p.len() ==> 0 <= #[trigger] p[u] < n,
    ensures
        p.len() <= n,
{
    p.unique_seq_to_set();
    lemma_int_range(0, n);
    assert(p.to_set().subset_of(set_int_range(0, n)));
    lemma_len_subset(p.to_set(), set_int_range(0, n));
}

/// Once a ring is traced, the faces visited so far stay closed under
/// following a segment.
proof fn lemma_ring_done_forward(sv: Seq<FaceSlice>, done: Set<int>, path: Seq<int>, s: int)
    requires
        path.len() >= 1,
        path[0] == s,
        forall|u: int| 1 <= u < path.len() ==> #[trigger] path[u] == succ(sv, path[u - 1]),
        succ(sv, path.last()) == s,
        forall|x: int| #[trigger] done.contains(x) ==> done.contains(succ(sv, x)),
    ensures
        forall|x: int| #[trigger] done.union(path.to_set()).contains(x) ==> done.union(
            path.to_set(),
        ).contains(succ(sv, x)),
{
    let d = done.union(path.to_set());
    let t = path.len() - 1;
    assert forall|x: int| #[trigger] d.contains(x) implies d.contains(succ(sv, x)) by {
        if !done.contains(x) {
            assert(path.to_set().contains(x));
            let u = choose|u: int| 0 <= u < path.len() && path[u] == x;
            if u < t {
                assert(path[u + 1] == succ(sv, path[u]));
                assert(path.to_set().contains(path[u + 1]));
            } else {
                assert(path.to_set().contains(path[0]));
            }
        }
    }
}

/// Once a ring is traced, the faces visited so far stay closed under going
/// back a segment.
proof fn lemma_ring_done_back(sv: Seq<FaceSlice>, done: Set<int>, path: Seq<int>, n: int, s: int)
    requires
        well_linked(sv),
        n == sv.len(),
        path.len() >= 1,
        path[0] == s,
        forall|u: int| 0 <= u < path.len() ==> 0 <= #[trigger] path[u] < n,
        forall|u: int| 1 <= u < path.len() ==> #[trigger] path[u] == succ(sv, path[u - 1]),
        succ(sv, path.last()) == s,
        forall|y: int| 0 <= y < n && done.contains(#[trigger] succ(sv, y)) ==> done.contains(y),
    ensures
        forall|y: int|
            0 <= y < n && done.union(path.to_set()).contains(#[trigger] succ(sv, y))
                ==> done.union(path.to_set()).contains(y),
{
    let d = done.union(path.to_set());
    let t = path.len() - 1;
    assert forall|y: int| 0 <= y < n && d.contains(#[trigger] succ(sv, y)) implies d.contains(
        y,
    ) by {
        let x = succ(sv, y);
        if !done.contains(x) {
            assert(path.to_set().contains(x));
            let u = choose|u: int| 0 <= u < path.len() && path[u] == x;
            let w = if u == 0 {
                path[t]
            } else {
                path[u - 1]
            };
            assert(succ(sv, w) == x) by {
                if u > 0 {
                    assert(path[u] == succ(sv, path[u - 1]));
                }
            }
            assert(0 <= w < n);
            lemma_succ_injective(sv, y, w);
            assert(path.to_set().contains(w));
        }
    }
}

/// The position reached from `s` after following `m` segments.
pub open spec fn iter_succ(sv: Seq<FaceSlice>, s: int, m: int) -> int
    decreases m,
{
    if m <= 0 {
        s
    } else {
        succ(sv, iter_succ(sv, s, m - 1))
    }
}

/// `ring` is the walk from face `s` once round its cycle: the start of
/// `s`'s segment, then the end of each segment in turn, until the walk is
/// back at `s` and not before.
pub open spec fn traces(sv: Seq<FaceSlice>, s: int, ring: Seq<PointKey>) -> bool {
    &&& ring.len() >= 2
    &&& 0 <= s < sv.len()
    &&& ring[0] == sv[s].start
    &&& forall|m: int| 0 <= m < ring.len() - 1 ==> ring[m + 1] == sv[#[trigger] iter_succ(sv, s, m)].end
    &&& iter_succ(sv, s, ring.len() - 1) == s
    &&& forall|m: int| 0 < m < ring.len() - 1 ==> #[trigger] iter_succ(sv, s, m) != s
}

pub open spec fn ring_views(rs: Seq<Vec<PointKey>>) -> Seq<Seq<PointKey>> {
    rs.map_values(|r: Vec<PointKey>| r@)
}

/// Each ring is traced from its start.
#[verifier::opaque]
pub open spec fn rings_traced(sv: Seq<FaceSlice>, starts: Seq<int>, rv: Seq<Seq<PointKey>>) -> bool {
    &&& starts.len() == rv.len()
    &&& forall|k: int| 0 <= k < rv.len() ==> #[trigger] traces(sv, starts[k], rv[k])
}

/// Face `x` is visited by one of the rings.
#[verifier::opaque]
pub open spec fn covers(sv: Seq<FaceSlice>, starts: Seq<int>, rv: Seq<Seq<PointKey>>, x: int) -> bool {
    exists|k: int, m: int|
        0 <= k < rv.len() && 0 <= m < rv[k].len() - 1 && #[trigger] iter_succ(sv, starts[k], m) == x
}

/// No face is visited twice, within a ring or across rings.
#[verifier::opaque]
pub open spec fn slots_unique(sv: Seq<FaceSlice>, starts: Seq<int>, rv: Seq<Seq<PointKey>>) -> bool {
    forall|k1: int, m1: int, k2: int, m2: int|
        0 <= k1 < rv.len() && 0 <= m1 < rv[k1].len() - 1 && 0 <= k2 < rv.len() && 0 <= m2
            < rv[k2].len() - 1 && #[trigger] iter_succ(sv, starts[k1], m1) == #[trigger] iter_succ(
            sv,
            starts[k2],
            m2,
        ) ==> k1 == k2 && m1 == m2
}

/// The rings are the cycles of the segments: each traced from some start,
/// and every face in exactly one ring at exactly one place.
pub open spec fn layer_traced(sv: Seq<FaceSlice>, rv: Seq<Seq<PointKey>>) -> bool {
    exists|starts: Seq<int>|
        rings_traced(sv, starts, rv) && slots_unique(sv, starts, rv) && forall|x: int|
            0 <= x < sv.len() ==> #[trigger] covers(sv, starts, rv, x)
}

proof fn lemma_add_ring(
    sv: Seq<FaceSlice>,
    done: Set<int>,
    starts: Seq<int>,
    rv: Seq<Seq<PointKey>>,
    path: Seq<int>,
    s: int,
    ring: Seq<PointKey>,
)
    requires
        well_linked(sv),
        rings_traced(sv, starts, rv),
        slots_unique(sv, starts, rv),
        forall|x: int| 0 <= x < sv.len() ==> (done.contains(x) <==> #[trigger] covers(sv, starts, rv, x)),
        0 <= s < sv.len(),
        path.len() >= 1,
        path[0] == s,
        path.no_duplicates(),
        forall|u: int| 0 <= u < path.len() ==> 0 <= #[trigger] path[u] < sv.len(),
        forall|u: int| 0 <= u < path.len() ==> !done.contains(#[trigger] path[u]),
        forall|u: int| 0 <= u < path.len() ==> #[trigger] path[u] == iter_succ(sv, s, u),
        succ(sv, path.last()) == s,
        ring.len() == path.len() + 1,
        ring[0] == sv[s].start,
        forall|m: int| 0 <= m < path.len() ==> ring[m + 1] == sv[#[trigger] path[m]].end,
    ensures
        rings_traced(sv, starts.push(s), rv.push(ring)),
        slots_unique(sv, starts.push(s), rv.push(ring)),
        forall|x: int|
            0 <= x < sv.len() ==> (done.union(path.to_set()).contains(x) <==> #[trigger] covers(
                sv,
                starts.push(s),
                rv.push(ring),
                x,
            )),
{
    reveal(rings_traced);
    reveal(covers);
    reveal(slots_unique);
    let st2 = starts.push(s);
    let rv2 = rv.push(ring);
    let t = path.len() - 1;
    assert(iter_succ(sv, s, path.len() as int) == succ(sv, iter_succ(sv, s, t)));
    assert(path[t] == iter_succ(sv, s, t));
    assert forall|m: int| 0 <= m < ring.len() - 1 implies ring[m + 1] == sv[#[trigger] iter_succ(sv, s, m)].end by {
        assert(path[m] == iter_succ(sv, s, m));
    }
    assert forall|m: int| 0 < m < ring.len() - 1 implies #[trigger] iter_succ(sv, s, m) != s by {
        assert(path[m] == iter_succ(sv, s, m));
        assert(path[m] != path[0]);
    }
    assert(traces(sv, s, ring));
    assert forall|k: int| 0 <= k < rv2.len() implies #[trigger] traces(sv, st2[k], rv2[k]) by {
        if k < rv.len() {
            assert(st2[k] == starts[k] && rv2[k] == rv[k]);
        }
    }
    let last = rv.len() as int;
    assert forall|x: int| 0 <= x < sv.len() implies (done.union(path.to_set()).contains(x) <==> #[trigger] covers(sv, st2, rv2, x)) by {
        if covers(sv, st2, rv2, x) {
            let (k, m) = choose|k: int, m: int|
                0 <= k < rv2.len() && 0 <= m < rv2[k].len() - 1 && #[trigger] iter_succ(sv, st2[k], m) == x;
            if k < last {
                assert(st2[k] == starts[k] && rv2[k] == rv[k]);
                assert(covers(sv, starts, rv, x));
            } else {
                assert(path[m] == x);
                assert(path.contains(x));
            }
        }
        if done.contains(x) {
            assert(covers(sv, starts, rv, x));
            let (k, m) = choose|k: int, m: int|
                0 <= k < rv.len() && 0 <= m < rv[k].len() - 1 && #[trigger] iter_succ(sv, starts[k], m) == x;
            assert(st2[k] == starts[k] && rv2[k] == rv[k]);
            assert(iter_succ(sv, st2[k], m) == x);
        } else if path.to_set().contains(x) {
            let u = choose|u: int| 0 <= u < path.len() && path[u] == x;
            assert(st2[last] == s && rv2[last] == ring);
            assert(iter_succ(sv, st2[last], u) == x);
        }
    }
    assert forall|k1: int, m1: int, k2: int, m2: int|
        0 <= k1 < rv2.len() && 0 <= m1 < rv2[k1].len() - 1 && 0 <= k2 < rv2.len() && 0 <= m2
            < rv2[k2].len() - 1 && #[trigger] iter_succ(sv, st2[k1], m1) == #[trigger] iter_succ(sv, st2[k2], m2)
        implies k1 == k2 && m1 == m2 by {
        let x = iter_succ(sv, st2[k1], m1);
        if k1 < last && k2 < last {
            assert(st2[k1] == starts[k1] && rv2[k1] == rv[k1]);
            assert(st2[k2] == starts[k2] && rv2[k2] == rv[k2]);
        } else if k1 == last && k2 == last {
            assert(path[m1] == iter_succ(sv, s, m1));
            assert(path[m2] == iter_succ(sv, s, m2));
        } else if k1 == last {
            assert(st2[k2] == starts[k2] && rv2[k2] == rv[k2]);
            assert(path[m1] == iter_succ(sv, s, m1));
            assert(covers(sv, starts, rv, x));
            assert(0 <= x < sv.len());
            assert(done.contains(path[m1]));
        } else {
            assert(st2[k1] == starts[k1] && rv2[k1] == rv[k1]);
            assert(path[m2] == iter_succ(sv, s, m2));
            assert(covers(sv, starts, rv, x));
            assert(done.contains(path[m2]));
        }
    }
}

/// What holds of the faces visited before a ring is traced.
#[verifier::opaque]
pub open spec fn visited_ok(sv: Seq<FaceSlice>, seen: Seq<bool>, done: Set<int>, s: int) -> bool {
    let n = sv.len();
    &&& seen.len() == n
    &&& forall|x: int| 0 <= x < n ==> (#[trigger] seen[x] <==> done.contains(x))
    &&& forall|x: int| #[trigger] done.contains(x) ==> 0 <= x < n
    &&& forall|x: int| 0 <= x < s ==> #[trigger] seen[x]
    &&& forall|j: int| 0 <= j < n ==> has_face(sv, #[trigger] sv[j].next)
    &&& well_linked(sv) ==> forall|y: int|
        0 <= y < n && done.contains(#[trigger] succ(sv, y)) ==> done.contains(y)
}

proof fn lemma_skip_seen(sv: Seq<FaceSlice>, seen: Seq<bool>, done: Set<int>, s: int)
    requires
        visited_ok(sv, seen, done, s),
        0 <= s < sv.len(),
        seen[s],
    ensures
        visited_ok(sv, seen, done, s + 1),
{
    reveal(visited_ok);
}

proof fn lemma_all_seen(sv: Seq<FaceSlice>, seen: Seq<bool>, done: Set<int>)
    requires
        visited_ok(sv, seen, done, sv.len() as int),
    ensures
        forall|x: int| 0 <= x < sv.len() ==> #[trigger] done.contains(x),
{
    reveal(visited_ok);
    assert forall|x: int| 0 <= x < sv.len() implies #[trigger] done.contains(x) by {
        assert(seen[x]);
    }
}

proof fn lemma_none_seen(sv: Seq<FaceSlice>, seen: Seq<bool>)
    requires
        seen.len() == sv.len(),
        forall|j: int| 0 <= j < seen.len() ==> !#[trigger] seen[j],
        forall|j: int| 0 <= j < sv.len() ==> has_face(sv, #[trigger] sv[j].next),
    ensures
        visited_ok(sv, seen, Set::empty(), 0),
{
    reveal(visited_ok);
}

/// The bookkeeping after a ring from `s` is traced along `path`.
proof fn lemma_after_ring(
    sv: Seq<FaceSlice>,
    seen0: Seq<bool>,
    seen: Seq<bool>,
    done: Set<int>,
    s: int,
    path: Seq<int>,
    starts: Seq<int>,
    rv: Seq<Seq<PointKey>>,
    ring: Seq<PointKey>,
)
    requires
        0 <= s < sv.len(),
        visited_ok(sv, seen0, done, s),
        seen.len() == sv.len(),
        path.len() >= 1,
        path[0] == s,
        path.no_duplicates(),
        forall|u: int| 0 <= u < path.len() ==> 0 <= #[trigger] path[u] < sv.len(),
        forall|u: int| 0 <= u < path.len() ==> !done.contains(#[trigger] path[u]),
        forall|x: int| 0 <= x < sv.len() ==> (#[trigger] seen[x] <==> done.contains(x) || path.contains(x)),
        forall|x: int| 0 <= x <= s ==> #[trigger] seen[x],
        well_linked(sv) ==> {
            &&& forall|u: int| 1 <= u < path.len() ==> #[trigger] path[u] == succ(sv, path[u - 1])
            &&& forall|u: int| 0 <= u < path.len() ==> #[trigger] path[u] == iter_succ(sv, s, u)
            &&& succ(sv, path.last()) == s
            &&& ring.len() == path.len() + 1
            &&& ring[0] == sv[s].start
            &&& forall|m: int| 0 <= m < path.len() ==> ring[m + 1] == sv[#[trigger] path[m]].end
        },
        well_linked(sv) ==> forall|x: int| #[trigger] done.contains(x) ==> done.contains(succ(sv, x)),
        well_linked(sv) ==> rings_traced(sv, starts, rv),
        well_linked(sv) ==> slots_unique(sv, starts, rv),
        well_linked(sv) ==> forall|x: int|
            0 <= x < sv.len() ==> (done.contains(x) <==> #[trigger] covers(sv, starts, rv, x)),
    ensures
        ({
            let d = done.union(path.to_set());
            &&& visited_ok(sv, seen, d, s + 1)
            &&& well_linked(sv) ==> forall|x: int| #[trigger] d.contains(x) ==> d.contains(succ(sv, x))
            &&& well_linked(sv) ==> rings_traced(sv, starts.push(s), rv.push(ring))
            &&& well_linked(sv) ==> slots_unique(sv, starts.push(s), rv.push(ring))
            &&& well_linked(sv) ==> forall|x: int|
                0 <= x < sv.len() ==> (d.contains(x) <==> #[trigger] covers(sv, starts.push(s), rv.push(ring), x))
        }),
{
    reveal(visited_ok);
    let n = sv.len();
    let d = done.union(path.to_set());
    assert forall|x: int| 0 <= x < n implies (#[trigger] seen[x] <==> d.contains(x)) by {
        if path.contains(x) {
            assert(path.to_set().contains(x));
        }
        if path.to_set().contains(x) {
            assert(path.contains(x));
        }
    }
    assert forall|x: int| #[trigger] d.contains(x) implies 0 <= x < n by {
        if path.to_set().contains(x) {
            assert(path.contains(x));
        }
    }
    assert forall|x: int| 0 <= x < s + 1 implies #[trigger] seen[x] by {}
    if well_linked(sv) {
        lemma_ring_done_forward(sv, done, path, s);
        lemma_ring_done_back(sv, done, path, n as int, s);
        lemma_add_ring(sv, done, starts, rv, path, s, ring);
    }
    assert(visited_ok(sv, seen, d, s + 1));
}

/// Traces the ring that starts at face `s`, marking its faces seen.
fn walk_ring(slices: &Vec<FaceSlice>, seen: &mut Vec<bool>, s: usize, Ghost(done): Ghost<Set<int>>) -> (r: Result<
    (Vec<PointKey>, Ghost<Seq<int>>),
    SlicerError,
>)
    requires
        s < slices@.len(),
        visited_ok(slices@, old(seen)@, done, s as int),
        !old(seen)@[s as int],
    ensures
        r matches Err(SlicerError::CurrentFaceUntracked(f)) ==> !has_face(slices@, f),
        r != Err::<(Vec<PointKey>, Ghost<Seq<int>>), SlicerError>(SlicerError::EmptyRing),
        r is Err ==> !well_linked(slices@),
        r matches Ok((ring, path)) ==> {
            let sv = slices@;
            let n = sv.len();
            let path = path@;
            &&& is_closed_ring(ring@)
            &&& forall|m: int| 0 <= m < ring@.len() ==> is_endpoint(sv, #[trigger] ring@[m])
            &&& final(seen)@.len() == n
            &&& path.len() >= 1
            &&& path[0] == s
            &&& path.no_duplicates()
            &&& forall|u: int| 0 <= u < path.len() ==> 0 <= #[trigger] path[u] < n
            &&& forall|u: int| 0 <= u < path.len() ==> !done.contains(#[trigger] path[u])
            &&& forall|x: int| 0 <= x < n ==> (#[trigger] final(seen)@[x] <==> done.contains(x) || path.contains(x))
            &&& forall|x: int| 0 <= x <= s ==> #[trigger] final(seen)@[x]
            &&& well_linked(sv) ==> {
                &&& forall|u: int| 1 <= u < path.len() ==> #[trigger] path[u] == succ(sv, path[u - 1])
                &&& forall|u: int| 0 <= u < path.len() ==> #[trigger] path[u] == iter_succ(sv, s as int, u)
                &&& succ(sv, path.last()) == s
                &&& ring@.len() == path.len() + 1
                &&& ring@[0] == sv[s as int].start
                &&& forall|m: int| 0 <= m < path.len() ==> ring@[m + 1] == sv[#[trigger] path[m]].end
            }
        },
{
    reveal(visited_ok);
    let ghost sv = slices@;
    let n = slices.len();
    let first = slices[s];
    let mut ring: Vec<PointKey> = Vec::new();
    ring.push(first.start);
    ring.push(first.end);
    assert(slices@[s as int] == first);
    seen.set(s, true);
    let ghost mut path: Seq<int> = seq![s as int];
    proof {
        assert forall|x: int| 0 <= x < n implies (#[trigger] seen@[x] <==> done.contains(x)
            || path.contains(x)) by {
            if path.contains(x) {
                let u = choose|u: int| 0 <= u < path.len() && path[u] == x;
                assert(x == s);
            }
            if x == s {
                assert(path[0] == x);
            }
        }
    }
    let mut next = first.next;
    let mut steps: usize = 0;
    while next != first.face
        invariant
            sv == slices@,
            n == slices@.len(),
            seen@.len() == n,
            s < n,
            first == sv[s as int],
            steps <= n,
            ring@.len() >= 2,
            ring@[0] == first.start,
            forall|m: int| 0 <= m < ring@.len() ==> is_endpoint(slices@, #[trigger] ring@[m]),
            path.len() == steps + 1,
            path[0] == s,
            path.no_duplicates(),
            forall|u: int| 0 <= u < path.len() ==> 0 <= #[trigger] path[u] < n,
            forall|u: int| 0 <= u < path.len() ==> !done.contains(#[trigger] path[u]),
            forall|x: int|
                0 <= x < n ==> (#[trigger] seen@[x] <==> done.contains(x) || path.contains(x)),
            forall|x: int| #[trigger] done.contains(x) ==> 0 <= x < n,
            forall|x: int| 0 <= x <= s ==> #[trigger] seen@[x],
            next == sv[path.last()].next,
            well_linked(sv) ==> forall|u: int|
                1 <= u < path.len() ==> #[trigger] path[u] == succ(sv, path[u - 1]),
            well_linked(sv) ==> forall|u: int|
                0 <= u < path.len() ==> #[trigger] path[u] == iter_succ(sv, s as int, u),
            well_linked(sv) ==> ring@.len() == path.len() + 1,
            well_linked(sv) ==> forall|m: int|
                0 <= m < path.len() ==> ring@[m + 1] == sv[#[trigger] path[m]].end,
            well_linked(sv) ==> forall|y: int|
                0 <= y < n && done.contains(#[trigger] succ(sv, y)) ==> done.contains(y),
        decreases n - steps,
    {
        proof {
            lemma_distinct_bound(path, n as int);
        }
        if steps >= n {
            return Err(SlicerError::NonManifold(first.face));
        }
        let idx = match index_of(slices, next) {
            Some(i) => i,
            None => {
                return Err(SlicerError::CurrentFaceUntracked(next));
            },
        };
        proof {
            if well_linked(sv) {
                let t = path.last();
                lemma_succ(sv, t);
                assert(succ(sv, t) == idx);
                assert(idx != s) by {
                    assert(sv[idx as int].face == next);
                }
                assert(!done.contains(idx as int)) by {
                    if done.contains(idx as int) {
                        assert(done.contains(succ(sv, t)));
                        assert(done.contains(t));
                    }
                }
                assert(!path.contains(idx as int)) by {
                    if path.contains(idx as int) {
                        let u = choose|u: int| 0 <= u < path.len() && path[u] == idx;
                        assert(u != 0);
                        assert(path[u] == succ(sv, path[u - 1]));
                        lemma_succ_injective(sv, path[u - 1], t);
                        assert(path[u - 1] == path[path.len() - 1]);
                    }
                }
            }
        }
        if seen[idx] {
            return Err(SlicerError::NonManifold(next));
        }
        let cur = slices[idx];
        assert(slices@[idx as int] == cur);
        let ghost old_ring = ring@;
        if cur.start == ring[ring.len() - 1] {
            ring.push(cur.end);
        }
        seen.set(idx, true);
        proof {
            let old_path = path;
            path = path.push(idx as int);
            assert(path.no_duplicates()) by {
                assert forall|a: int, b: int|
                    0 <= a < path.len() && 0 <= b < path.len() && a != b implies path[a]
                    != path[b] by {
                    if a < old_path.len() && b < old_path.len() {
                        assert(old_path[a] != old_path[b]);
                    } else if a < old_path.len() {
                        assert(old_path.contains(old_path[a]));
                    } else if b < old_path.len() {
                        assert(old_path.contains(old_path[b]));
                    }
                }
            }
            assert forall|x: int| 0 <= x < n implies (#[trigger] seen@[x] <==> done.contains(x)
                || path.contains(x)) by {
                if path.contains(x) && x != idx {
                    let u = choose|u: int| 0 <= u < path.len() && path[u] == x;
                    assert(old_path[u] == x);
                }
                if old_path.contains(x) {
                    let u = choose|u: int| 0 <= u < old_path.len() && old_path[u] == x;
                    assert(path[u] == x);
                }
                assert(path[path.len() - 1] == idx);
            }
            if well_linked(sv) {
                let t = old_path.last();
                lemma_succ(sv, t);
                assert(sv[idx as int].start == sv[t].end);
                assert(ring@ == old_ring.push(cur.end));
                assert forall|u: int| 1 <= u < path.len() implies #[trigger] path[u]
                    == succ(sv, path[u - 1]) by {
                    if u < old_path.len() {
                        assert(path[u] == old_path[u]);
                        assert(path[u - 1] == old_path[u - 1]);
                    }
                }
                assert(old_path[old_path.len() - 1] == iter_succ(sv, s as int, old_path.len() - 1));
                assert(iter_succ(sv, s as int, old_path.len() as int) == succ(
                    sv,
                    iter_succ(sv, s as int, old_path.len() - 1),
                ));
                assert forall|u: int| 0 <= u < path.len() implies #[trigger] path[u] == iter_succ(
                    sv,
                    s as int,
                    u,
                ) by {
                    if u < old_path.len() {
                        assert(path[u] == old_path[u]);
                    }
                }
                assert forall|m: int| 0 <= m < path.len() implies ring@[m + 1] == sv[#[trigger] path[m]].end by {
                    if m < old_path.len() {
                        assert(path[m] == old_path[m]);
                        assert(ring@[m + 1] == old_ring[m + 1]);
                    }
                }
            }
        }
        next = cur.next;
        steps = steps + 1;
    }
    proof {
        if well_linked(sv) {
            let t = path.last();
            lemma_succ(sv, t);
            assert(succ(sv, t) == s) by {
                assert(sv[s as int].face == next);
            }
            assert(sv[s as int].start == sv[t].end);
        }
    }
    if ring[0] != ring[ring.len() - 1] {
        return Err(SlicerError::NonManifold(first.face));
    }
    Ok((ring, Ghost(path)))
}

/// Traces the closed rings that the plane cuts from a layer's active faces,
/// given each face's segment. Starting from each face not yet visited, the
/// walk follows the faces that the segments lead into until it is back at
/// the first, adding each segment's end that continues the ring. It fails
/// at once when some segment leads into no face of the layer. On
/// well-linked segments it succeeds, and each ring is one cycle of faces in
/// walk order, each face in exactly one ring at exactly one place.
#[verifier::spinoff_prover]
pub fn slice_layer(slices: &Vec<FaceSlice>) -> (r: Result<Vec<Vec<PointKey>>, SlicerError>)
    ensures
        well_linked(slices@) ==> (r matches Ok(rings) && layer_traced(slices@, ring_views(rings@))),
        (exists|i: int| 0 <= i < slices@.len() && !has_face(slices@, #[trigger] slices@[i].next))
            ==> r matches Err(SlicerError::CurrentFaceUntracked(_)),
        r matches Ok(rings) ==> forall|k: int|
            0 <= k < rings@.len() ==> is_closed_ring(#[trigger] rings@[k]@),
        r matches Ok(rings) ==> forall|k: int, m: int|
            0 <= k < rings@.len() && 0 <= m < rings@[k]@.len() ==> is_endpoint(
                slices@,
                #[trigger] rings@[k]@[m],
            ),
        r matches Ok(rings) ==> (slices@.len() > 0 <==> rings@.len() > 0),
        r matches Err(SlicerError::CurrentFaceUntracked(f)) ==> !has_face(slices@, f),
        r != Err::<Vec<Vec<PointKey>>, SlicerError>(SlicerError::EmptyRing),
{
    let ghost sv = slices@;
    let n = slices.len();
    // Every segment must lead into a face of the layer.
    let mut i: usize = 0;
    while i < n
        invariant
            n == slices@.len(),
            i <= n,
            forall|j: int| 0 <= j < i ==> has_face(slices@, #[trigger] slices@[j].next),
        decreases n - i,
    {
        if index_of(slices, slices[i].next).is_none() {
            return Err(SlicerError::CurrentFaceUntracked(slices[i].next));
        }
        i = i + 1;
    }
    let mut seen: Vec<bool> = Vec::new();
    while seen.len() < n
        invariant
            seen@.len() <= n,
            forall|j: int| 0 <= j < seen@.len() ==> !#[trigger] seen@[j],
        decreases n - seen@.len(),
    {
        seen.push(false);
    }
    let ghost mut done: Set<int> = Set::empty();
    let ghost mut starts: Seq<int> = Seq::empty();
    let mut rings: Vec<Vec<PointKey>> = Vec::new();
    proof {
        reveal(rings_traced);
        reveal(covers);
        reveal(slots_unique);
        assert(ring_views(rings@) =~= Seq::<Seq<PointKey>>::empty());
        lemma_none_seen(sv, seen@);
    }
    let mut s: usize = 0;
    while s < n
        invariant
            sv == slices@,
            n == slices@.len(),
            s <= n,
            seen@.len() == n,
            forall|j: int| 0 <= j < n ==> has_face(slices@, #[trigger] slices@[j].next),
            visited_ok(sv, seen@, done, s as int),
            forall|k: int| 0 <= k < rings@.len() ==> is_closed_ring(#[trigger] rings@[k]@),
            forall|k: int, m: int|
                0 <= k < rings@.len() && 0 <= m < rings@[k]@.len() ==> is_endpoint(
                    slices@,
                    #[trigger] rings@[k]@[m],
                ),
            s > 0 ==> rings@.len() > 0,
            rings@.len() <= s,
            rings@.len() == 0 ==> forall|k: int| 0 <= k < n ==> !#[trigger] seen@[k],
            well_linked(sv) ==> forall|x: int| #[trigger] done.contains(x) ==> done.contains(
                succ(sv, x),
            ),
            well_linked(sv) ==> rings_traced(sv, starts, ring_views(rings@)),
            well_linked(sv) ==> slots_unique(sv, starts, ring_views(rings@)),
            well_linked(sv) ==> forall|x: int|
                0 <= x < n ==> (done.contains(x) <==> #[trigger] covers(sv, starts, ring_views(rings@), x)),
        decreases n - s,
    {
        if seen[s] {
            proof {
                lemma_skip_seen(sv, seen@, done, s as int);
            }
            s = s + 1;
            continue;
        }
        let ghost old_seen = seen@;
        let (ring, Ghost(path)) = match walk_ring(slices, &mut seen, s, Ghost(done)) {
            Ok(walked) => walked,
            Err(e) => {
                return Err(e);
            },
        };
        proof {
            lemma_after_ring(sv, old_seen, seen@, done, s as int, path, starts, ring_views(rings@), ring@);
            done = done.union(path.to_set());
        }
        let ghost old_rings = rings@;
        rings.push(ring);
        proof {
            assert(ring_views(rings@) =~= ring_views(old_rings).push(ring@));
            starts = starts.push(s as int);
        }
        s = s + 1;
    }
    proof {
        if well_linked(sv) {
            lemma_all_seen(sv, seen@, done);
            assert forall|x: int| 0 <= x < n implies #[trigger] covers(sv, starts, ring_views(rings@), x) by {
                assert(done.contains(x));
            }
            assert(rings_traced(sv, starts, ring_views(rings@)) && slots_unique(sv, starts, ring_views(rings@))
                && forall|x: int| 0 <= x < n ==> #[trigger] covers(sv, starts, ring_views(rings@), x));
            assert(layer_traced(sv, ring_views(rings@)));
        }
    }
    Ok(rings)
}

} // verus!
