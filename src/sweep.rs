use vstd::prelude::*;

verus! {

/// The height range of one face. Heights are order-preserving integer keys:
/// only their order matters to the sweep.
#[derive(Debug, Clone, Copy, PartialEq, Eq, Structural)]
pub struct FaceRange {
    pub face: u64,
    pub z_min: i64,
    pub z_max: i64,
}

/// A layer's height and the faces that the plane at that height cuts.
#[derive(Debug, Clone)]
pub struct LayerPlan {
    pub z: i64,
    pub active_face_ids: Vec<u64>,
}

/// A face is active at `z` when its range reaches above `z` from strictly
/// below it.
pub open spec fn is_active(f: FaceRange, z: i64) -> bool {
    f.z_min < z && z <= f.z_max
}

/// The faces of `rs` active at `z`, in the order of `rs`.
pub open spec fn active_at(rs: Seq<FaceRange>, z: i64) -> Seq<FaceRange>
    decreases rs.len(),
{
    if rs.len() == 0 {
        Seq::empty()
    } else if is_active(rs.last(), z) {
        active_at(rs.drop_last(), z).push(rs.last())
    } else {
        active_at(rs.drop_last(), z)
    }
}

/// The faces of `rs` whose top is at `z` or above.
pub open spec fn reaching(rs: Seq<FaceRange>, z: i64) -> Seq<FaceRange>
    decreases rs.len(),
{
    if rs.len() == 0 {
        Seq::empty()
    } else if z <= rs.last().z_max {
        reaching(rs.drop_last(), z).push(rs.last())
    } else {
        reaching(rs.drop_last(), z)
    }
}

pub open spec fn face_ids(rs: Seq<FaceRange>) -> Seq<u64> {
    rs.map_values(|f: FaceRange| f.face)
}

/// One plan for each height of `zs` at which some face is active, in order.
pub open spec fn plans(rs: Seq<FaceRange>, zs: Seq<i64>) -> Seq<(i64, Seq<u64>)>
    decreases zs.len(),
{
    if zs.len() == 0 {
        Seq::empty()
    } else {
        let prev = plans(rs, zs.drop_last());
        let a = active_at(rs, zs.last());
        if a.len() > 0 {
            prev.push((zs.last(), face_ids(a)))
        } else {
            prev
        }
    }
}

pub open spec fn plans_view(ps: Seq<LayerPlan>) -> Seq<(i64, Seq<u64>)> {
    ps.map_values(|p: LayerPlan| (p.z, p.active_face_ids@))
}

pub open spec fn sorted_by_bottom(rs: Seq<FaceRange>) -> bool {
    forall|i: int, j: int| 0 <= i <= j < rs.len() ==> rs[i].z_min <= rs[j].z_min
}

pub open spec fn ascending(zs: Seq<i64>) -> bool {
    forall|i: int, j: int| 0 <= i <= j < zs.len() ==> zs[i] <= zs[j]
}

proof fn lemma_active_add(a: Seq<FaceRange>, b: Seq<FaceRange>, z: i64)
    ensures
        active_at(a + b, z) == active_at(a, z) + active_at(b, z),
    decreases b.len(),
{
    if b.len() == 0 {
        assert(a + b =~= a);
        assert(active_at(a, z) + active_at(b, z) =~= active_at(a, z));
    } else {
        assert((a + b).drop_last() =~= a + b.drop_last());
        assert((a + b).last() == b.last());
        lemma_active_add(a, b.drop_last(), z);
        if is_active(b.last(), z) {
            assert(active_at(a, z) + active_at(b.drop_last(), z).push(b.last()) =~= (active_at(
                a,
                z,
            ) + active_at(b.drop_last(), z)).push(b.last()));
        }
    }
}

proof fn lemma_reaching_add(a: Seq<FaceRange>, b: Seq<FaceRange>, z: i64)
    ensures
        reaching(a + b, z) == reaching(a, z) + reaching(b, z),
    decreases b.len(),
{
    if b.len() == 0 {
        assert(a + b =~= a);
        assert(reaching(a, z) + reaching(b, z) =~= reaching(a, z));
    } else {
        assert((a + b).drop_last() =~= a + b.drop_last());
        assert((a + b).last() == b.last());
        lemma_reaching_add(a, b.drop_last(), z);
        if z <= b.last().z_max {
            assert(reaching(a, z) + reaching(b.drop_last(), z).push(b.last()) =~= (reaching(a, z)
                + reaching(b.drop_last(), z)).push(b.last()));
        }
    }
}

/// Among faces that all start below `z0 <= z`, those still reaching `z` after
/// those active at `z0` are kept are exactly those active at `z`.
proof fn lemma_reaching_active(rs: Seq<FaceRange>, z0: i64, z: i64)
    requires
        z0 <= z,
        forall|k: int| 0 <= k < rs.len() ==> #[trigger] rs[k].z_min < z0,
    ensures
        reaching(active_at(rs, z0), z) == active_at(rs, z),
    decreases rs.len(),
{
    if rs.len() > 0 {
        let init = rs.drop_last();
        assert forall|k: int| 0 <= k < init.len() implies #[trigger] init[k].z_min < z0 by {
            assert(init[k] == rs[k]);
        }
        assert(rs.last() == rs[rs.len() - 1]);
        lemma_reaching_active(init, z0, z);
        let prev = active_at(init, z0);
        if is_active(rs.last(), z0) {
            assert(prev.push(rs.last()).drop_last() =~= prev);
            assert(prev.push(rs.last()).last() == rs.last());
        }
    }
}

/// One step of the sweep: the faces kept after those from `p0` to `p` enter
/// are those active at `z`, and no face from `p` on is.
proof fn lemma_sweep_step(
    rs: Seq<FaceRange>,
    before: Seq<FaceRange>,
    has_prev: bool,
    z0: i64,
    z: i64,
    p0: int,
    p: int,
)
    requires
        sorted_by_bottom(rs),
        0 <= p0 <= p <= rs.len(),
        has_prev ==> z0 <= z,
        has_prev ==> before == active_at(rs.take(p0), z0),
        has_prev ==> forall|k: int| 0 <= k < p0 ==> #[trigger] rs[k].z_min < z0,
        !has_prev ==> p0 == 0 && before.len() == 0,
        forall|k: int| p0 <= k < p ==> #[trigger] rs[k].z_min < z,
        p < rs.len() ==> rs[p].z_min >= z,
    ensures
        reaching(before + rs.subrange(p0, p), z) == active_at(rs.take(p), z),
        active_at(rs, z) == active_at(rs.take(p), z),
        forall|k: int| 0 <= k < p ==> #[trigger] rs[k].z_min < z,
{
    let newly = rs.subrange(p0, p);
    assert(rs.take(p) =~= rs.take(p0) + newly);
    lemma_reaching_add(before, newly, z);
    assert forall|m: int| 0 <= m < newly.len() implies #[trigger] newly[m].z_min < z by {
        assert(newly[m] == rs[p0 + m]);
    }
    lemma_reaching_is_active(newly, z);
    if has_prev {
        let head = rs.take(p0);
        assert forall|m: int| 0 <= m < head.len() implies #[trigger] head[m].z_min < z0 by {
            assert(head[m] == rs[m]);
        }
        lemma_reaching_active(head, z0, z);
    } else {
        assert(before =~= Seq::<FaceRange>::empty());
        assert(rs.take(p0) =~= Seq::<FaceRange>::empty());
    }
    lemma_active_add(rs.take(p0), newly, z);
    let later = rs.subrange(p, rs.len() as int);
    assert forall|m: int| 0 <= m < later.len() implies #[trigger] later[m].z_min >= z by {
        assert(later[m] == rs[p + m]);
        assert(rs[p].z_min <= rs[p + m].z_min);
    }
    lemma_none_active(later, z);
    assert(rs =~= rs.take(p) + later);
    lemma_active_add(rs.take(p), later, z);
    assert(active_at(rs.take(p), z) + Seq::<FaceRange>::empty() =~= active_at(rs.take(p), z));
    assert forall|k: int| 0 <= k < p implies #[trigger] rs[k].z_min < z by {
        if k < p0 {
            assert(has_prev);
        }
    }
}

/// Faces that all start below `z`: those reaching `z` are those active at it.
proof fn lemma_reaching_is_active(rs: Seq<FaceRange>, z: i64)
    requires
        forall|k: int| 0 <= k < rs.len() ==> #[trigger] rs[k].z_min < z,
    ensures
        reaching(rs, z) == active_at(rs, z),
    decreases rs.len(),
{
    if rs.len() > 0 {
        let init = rs.drop_last();
        assert forall|k: int| 0 <= k < init.len() implies #[trigger] init[k].z_min < z by {
            assert(init[k] == rs[k]);
        }
        assert(rs.last() == rs[rs.len() - 1]);
        lemma_reaching_is_active(init, z);
    }
}

/// Faces that all start at `z` or above are active at no layer `z`.
proof fn lemma_none_active(rs: Seq<FaceRange>, z: i64)
    requires
        forall|k: int| 0 <= k < rs.len() ==> #[trigger] rs[k].z_min >= z,
    ensures
        active_at(rs, z) == Seq::<FaceRange>::empty(),
    decreases rs.len(),
{
    if rs.len() > 0 {
        let init = rs.drop_last();
        assert forall|k: int| 0 <= k < init.len() implies #[trigger] init[k].z_min >= z by {
            assert(init[k] == rs[k]);
        }
        assert(rs.last() == rs[rs.len() - 1]);
        lemma_none_active(init, z);
    }
}

/// Relies on std's `slice::sort_by_key`: the same faces, ordered by bottom.
#[verifier::external_body]
fn sort_by_bottom(v: &mut Vec<FaceRange>)
    ensures
        final(v)@.to_multiset() == old(v)@.to_multiset(),
        sorted_by_bottom(final(v)@),
{
    v.sort_by_key(|f| f.z_min)
}

/// The faces ordered by the bottom of their height range.
pub fn sort_faces(ranges: Vec<FaceRange>) -> (r: Vec<FaceRange>)
    ensures
        r@.to_multiset() == ranges@.to_multiset(),
        sorted_by_bottom(r@),
{
    let mut v = ranges;
    sort_by_bottom(&mut v);
    v
}

fn face_ids_of(rs: &Vec<FaceRange>) -> (r: Vec<u64>)
    ensures
        r@ == face_ids(rs@),
{
    let mut out: Vec<u64> = Vec::new();
    let mut i: usize = 0;
    while i < rs.len()
        invariant
            i <= rs@.len(),
            out@ == face_ids(rs@.take(i as int)),
        decreases rs@.len() - i,
    {
        out.push(rs[i].face);
        i = i + 1;
        assert(out@ =~= face_ids(rs@.take(i as int)));
    }
    assert(rs@.take(rs@.len() as int) =~= rs@);
    out
}

/// Sweeps the layer heights `zs` upwards over the faces sorted by bottom,
/// and lists for each height at which some face is active the faces active
/// there. A face enters when the plane passes its bottom and leaves when the
/// plane passes its top.
pub fn layer_faces(sorted: &Vec<FaceRange>, zs: &Vec<i64>) -> (r: Vec<LayerPlan>)
    requires
        sorted_by_bottom(sorted@),
        ascending(zs@),
    ensures
        plans_view(r@) == plans(sorted@, zs@),
{
    let ghost rs = sorted@;
    let mut out: Vec<LayerPlan> = Vec::new();
    let mut active: Vec<FaceRange> = Vec::new();
    let mut p: usize = 0;
    let mut j: usize = 0;
    let ghost mut z0: i64 = 0;
    assert(zs@.take(0) =~= Seq::<i64>::empty());
    assert(plans_view(out@) =~= Seq::<(i64, Seq<u64>)>::empty());
    assert(rs.take(0) =~= Seq::<FaceRange>::empty());
    while j < zs.len()
        invariant
            rs == sorted@,
            sorted_by_bottom(rs),
            ascending(zs@),
            j <= zs@.len(),
            p <= rs.len(),
            plans_view(out@) == plans(rs, zs@.take(j as int)),
            j > 0 ==> z0 == zs@[j - 1],
            forall|k: int| 0 <= k < p ==> #[trigger] rs[k].z_min < z0,
            j > 0 ==> active@ == active_at(rs.take(p as int), z0),
            j == 0 ==> p == 0 && active@.len() == 0,
        decreases zs@.len() - j,
    {
        let z = zs[j];
        let ghost p0 = p;
        let ghost before = active@;
        // Faces whose bottom the plane has passed enter.
        while p < sorted.len() && sorted[p].z_min < z
            invariant
                rs == sorted@,
                p0 <= p <= rs.len(),
                active@ == before + rs.subrange(p0 as int, p as int),
                forall|k: int| p0 <= k < p ==> #[trigger] rs[k].z_min < z,
            decreases rs.len() - p,
        {
            active.push(sorted[p]);
            p = p + 1;
            assert(active@ =~= before + rs.subrange(p0 as int, p as int));
        }
        // Faces whose top the plane has passed leave.
        let ghost entered = active@;
        let mut kept: Vec<FaceRange> = Vec::new();
        let mut k: usize = 0;
        while k < active.len()
            invariant
                entered == active@,
                k <= active@.len(),
                kept@ == reaching(active@.take(k as int), z),
            decreases active@.len() - k,
        {
            let f = active[k];
            assert(active@.take(k + 1).drop_last() =~= active@.take(k as int));
            if z <= f.z_max {
                kept.push(f);
            }
            k = k + 1;
        }
        assert(active@.take(active@.len() as int) =~= active@);
        active = kept;
        proof {
            assert(j > 0 ==> zs@[j - 1] <= zs@[j as int]);
            lemma_sweep_step(rs, before, j > 0, z0, z, p0 as int, p as int);
        }
        if active.len() > 0 {
            let ids = face_ids_of(&active);
            let ghost before_out = plans_view(out@);
            out.push(LayerPlan { z, active_face_ids: ids });
            assert(plans_view(out@) =~= before_out.push((z, ids@)));
        }
        proof {
            assert(zs@.take(j + 1).drop_last() =~= zs@.take(j as int));
            assert(zs@.take(j + 1).last() == z);
            z0 = z;
        }
        j = j + 1;
    }
    assert(zs@.take(zs@.len() as int) =~= zs@);
    out
}

proof fn lemma_active_contains(rs: Seq<FaceRange>, k: int, z: i64)
    requires
        0 <= k < rs.len(),
        is_active(rs[k], z),
    ensures
        face_ids(active_at(rs, z)).contains(rs[k].face),
    decreases rs.len(),
{
    let a = active_at(rs, z);
    if k == rs.len() - 1 {
        assert(a.last() == rs[k]);
        assert(face_ids(a)[a.len() - 1] == rs[k].face);
    } else {
        let init = rs.drop_last();
        assert(init[k] == rs[k]);
        lemma_active_contains(init, k, z);
        let b = active_at(init, z);
        let m = choose|m: int| 0 <= m < face_ids(b).len() && face_ids(b)[m] == rs[k].face;
        assert(a[m] == b[m]);
        assert(face_ids(a)[m] == rs[k].face);
    }
}

/// Layer coverage: a face whose range reaches a layer's height from strictly
/// below appears among the active faces of that layer's plan.
pub proof fn lemma_layer_coverage(rs: Seq<FaceRange>, zs: Seq<i64>, k: int, i: int)
    requires
        0 <= k < rs.len(),
        0 <= i < zs.len(),
        is_active(rs[k], zs[i]),
    ensures
        exists|m: int|
            0 <= m < plans(rs, zs).len() && (#[trigger] plans(rs, zs)[m]).0 == zs[i]
                && plans(rs, zs)[m].1.contains(rs[k].face),
    decreases zs.len(),
{
    let ps = plans(rs, zs);
    if i == zs.len() - 1 {
        lemma_active_contains(rs, k, zs[i]);
        let a = active_at(rs, zs.last());
        assert(a.len() > 0);
        assert(ps[ps.len() - 1] == (zs.last(), face_ids(a)));
    } else {
        let init = zs.drop_last();
        assert(init[i] == zs[i]);
        lemma_layer_coverage(rs, init, k, i);
        let prev = plans(rs, init);
        let m = choose|m: int|
            0 <= m < prev.len() && (#[trigger] prev[m]).0 == zs[i] && prev[m].1.contains(
                rs[k].face,
            );
        assert(ps[m] == prev[m]);
    }
}

} // verus!
