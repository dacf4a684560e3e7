use vstd::multiset::Multiset;
use vstd::prelude::*;

use crate::geom::{copy_line, Coord, LineString, PathSet, PathView};
use crate::regions::{PathTag, SingleShell};
use rstar::primitives::GeomWithData;
use rstar::RTree;

verus! {

broadcast use vstd::multiset::group_multiset_axioms;

/// An entry into a traversable: its point, the traversable's index and the
/// entry's index among that traversable's entry points.
pub type Entry = (i64, i64, usize, usize);

/// Coordinates the connector takes: squared distances between any two such
/// points stay well within 64 bits.
pub const COORD_LIMIT: i64 = 0x2000_0000;

pub open spec fn in_range(x: i64, y: i64) -> bool {
    -COORD_LIMIT <= x <= COORD_LIMIT && -COORD_LIMIT <= y <= COORD_LIMIT
}

pub open spec fn dist2(e: Entry, q: (i64, i64)) -> int {
    (e.0 - q.0) * (e.0 - q.0) + (e.1 - q.1) * (e.1 - q.1)
}

/// The entries waiting to be visited, indexed by position.
#[verifier::external_body]
pub struct EntryTree {
    tree: RTree<GeomWithData<[i64; 2], (usize, usize)>>,
}

/// What an entry tree holds.
pub uninterp spec fn tree_entries(t: EntryTree) -> Multiset<Entry>;

impl EntryTree {
    /// Relies on rstar's `RTree::new`: an empty tree.
    #[verifier::external_body]
    fn new() -> (t: EntryTree)
        ensures
            tree_entries(t) == Multiset::<Entry>::empty(),
    {
        EntryTree { tree: RTree::new() }
    }

    /// Relies on rstar's `RTree::insert`: the entry is added. Splitting a
    /// node computes areas and centres in `i64`, hence the range.
    #[verifier::external_body]
    fn insert(&mut self, e: Entry)
        requires
            in_range(e.0, e.1),
        ensures
            tree_entries(*final(self)) == tree_entries(*old(self)).insert(e),
    {
        self.tree.insert(GeomWithData::new([e.0, e.1], (e.2, e.3)))
    }

    /// Relies on rstar's `RTree::pop_nearest_neighbor`: an entry nearest to
    /// `q` by squared distance is taken out; none when the tree is empty.
    #[verifier::external_body]
    fn pop_nearest(&mut self, q: (i64, i64)) -> (r: Option<Entry>)
        requires
            in_range(q.0, q.1),
            forall|e: Entry| tree_entries(*old(self)).count(e) > 0 ==> in_range(e.0, e.1),
        ensures
            r is None ==> tree_entries(*old(self)) == Multiset::<Entry>::empty()
                && tree_entries(*final(self)) == tree_entries(*old(self)),
            r matches Some(e) ==> tree_entries(*old(self)).count(e) > 0 && tree_entries(
                *final(self),
            ) == tree_entries(*old(self)).remove(e) && forall|o: Entry|
                tree_entries(*old(self)).count(o) > 0 ==> dist2(e, q) <= dist2(o, q),
    {
        self.tree.pop_nearest_neighbor([q.0, q.1]).map(|g| (g.geom()[0], g.geom()[1], g.data.0, g.data.1))
    }

    /// Relies on rstar's `RTree::remove`: one entry equal to `e` is taken out,
    /// if there is one.
    #[verifier::external_body]
    fn remove(&mut self, e: Entry) -> (r: bool)
        ensures
            r == (tree_entries(*old(self)).count(e) > 0),
            tree_entries(*final(self)) == tree_entries(*old(self)).remove(e),
    {
        self.tree.remove(&GeomWithData::new([e.0, e.1], (e.2, e.3))).is_some()
    }
}

/// Something the printer traces: a closed ring, which it may enter at any
/// vertex, or an open line, which it enters at its first point.
pub enum Traversable {
    ClosedRing(LineString),
    OpenLine(LineString),
}

pub open spec fn line_of(t: Traversable) -> PathView {
    match t {
        Traversable::ClosedRing(l) => l@,
        Traversable::OpenLine(l) => l@,
    }
}

pub open spec fn entry_points_of(t: Traversable) -> PathView {
    match t {
        Traversable::ClosedRing(l) => l@,
        Traversable::OpenLine(l) => if l@.len() > 0 {
            seq![l@[0]]
        } else {
            Seq::empty()
        },
    }
}

/// A closed ring `p` traced from vertex `k`: round to its closing point and
/// on to `k` again.
pub open spec fn rotated(p: PathView, k: int) -> PathView {
    p.subrange(k, p.len() - 1) + p.subrange(0, k) + seq![p[k]]
}

/// The path traced when `t` is entered at its entry point `k`.
pub open spec fn traversal(t: Traversable, k: int) -> PathView {
    match t {
        Traversable::ClosedRing(l) => rotated(l@, k),
        Traversable::OpenLine(l) => l@,
    }
}

/// Entry `e` belongs to one of `ts` and names one of its entry points.
pub open spec fn valid_entry(ts: Seq<Traversable>, e: Entry) -> bool {
    &&& e.2 < ts.len()
    &&& e.3 < entry_points_of(ts[e.2 as int]).len()
    &&& (e.0, e.1) == entry_points_of(ts[e.2 as int])[e.3 as int]
}

pub open spec fn all_in_range(ts: Seq<Traversable>) -> bool {
    forall|o: int, j: int|
        0 <= o < ts.len() && 0 <= j < line_of(ts[o]).len() ==> in_range(
            (#[trigger] line_of(ts[o])[j]).0,
            line_of(ts[o])[j].1,
        )
}

impl Traversable {
    /// The points at which the traversable may be entered.
    pub fn entry_points(&self) -> (r: Vec<(i64, i64)>)
        ensures
            r@ == entry_points_of(*self),
    {
        match self {
            Traversable::ClosedRing(l) => {
                let mut out: Vec<(i64, i64)> = Vec::new();
                let mut i: usize = 0;
                while i < l.points.len()
                    invariant
                        i <= l.points@.len(),
                        out@.len() == i,
                        forall|j: int| 0 <= j < i ==> #[trigger] out@[j] == l@[j],
                    decreases l.points@.len() - i,
                {
                    out.push((l.points[i].x, l.points[i].y));
                    i = i + 1;
                }
                assert(out@ =~= l@);
                out
            },
            Traversable::OpenLine(l) => {
                let mut out: Vec<(i64, i64)> = Vec::new();
                if l.points.len() > 0 {
                    out.push((l.points[0].x, l.points[0].y));
                    assert(out@ =~= seq![l@[0]]);
                }
                out
            },
        }
    }

    /// The path traced when entering at entry point `k`: a closed ring is
    /// rotated to start there, an open line is traced as it is.
    pub fn traverse_from(&self, k: usize) -> (r: LineString)
        requires
            k < entry_points_of(*self).len(),
        ensures
            r@ == traversal(*self, k as int),
    {
        match self {
            Traversable::ClosedRing(l) => {
                let n = l.points.len();
                let mut points: Vec<Coord> = Vec::new();
                let mut i: usize = k;
                while i < n - 1
                    invariant
                        k <= i <= n - 1,
                        n == l.points@.len(),
                        points@.len() == i - k,
                        forall|j: int| 0 <= j < i - k ==> #[trigger] points@[j] == l.points@[k + j],
                    decreases n - 1 - i,
                {
                    points.push(l.points[i]);
                    i = i + 1;
                }
                let mut i: usize = 0;
                while i < k
                    invariant
                        i <= k < n,
                        n == l.points@.len(),
                        points@.len() == n - 1 - k + i,
                        forall|j: int|
                            0 <= j < n - 1 - k ==> #[trigger] points@[j] == l.points@[k + j],
                        forall|j: int|
                            n - 1 - k <= j < points@.len() ==> #[trigger] points@[j]
                                == l.points@[j - (n - 1 - k)],
                    decreases k - i,
                {
                    points.push(l.points[i]);
                    i = i + 1;
                }
                points.push(l.points[k]);
                let r = LineString { points };
                assert(r@ =~= rotated(l@, k as int));
                r
            },
            Traversable::OpenLine(l) => copy_line(l),
        }
    }
}

pub open spec fn paths_out(r: Seq<(usize, LineString)>) -> Seq<(usize, PathView)> {
    r.map_values(|e: (usize, LineString)| (e.0, e.1@))
}

/// Where the printer stands before path `i`: the origin, then the end of
/// the path before.
pub open spec fn head_before(r: Seq<(usize, PathView)>, i: int) -> (i64, i64) {
    if i == 0 {
        (0, 0)
    } else {
        r[i - 1].1.last()
    }
}

pub open spec fn emitted_before(r: Seq<(usize, PathView)>, i: int, o: int) -> bool {
    exists|j: int| 0 <= j < i && r[j].0 == o
}

/// Path `i` enters its traversable at an entry point no farther from where
/// the printer stands than any entry of a traversable not yet emitted.
pub open spec fn greedy_step(ts: Seq<Traversable>, r: Seq<(usize, PathView)>, i: int) -> bool {
    let o = r[i].0 as int;
    let h = head_before(r, i);
    exists|k: int|
        0 <= k < entry_points_of(ts[o]).len() && r[i].1 == traversal(ts[o], k) && forall|x: Entry|
            valid_entry(ts, x) && !emitted_before(r, i, x.2 as int) ==> dist2(
                (entry_points_of(ts[o])[k].0, entry_points_of(ts[o])[k].1, x.2, x.3),
                h,
            ) <= #[trigger] dist2(x, h)
}

proof fn lemma_greedy_prefix(
    ts: Seq<Traversable>,
    r: Seq<(usize, PathView)>,
    x: (usize, PathView),
    i: int,
)
    requires
        0 <= i < r.len(),
        greedy_step(ts, r, i),
    ensures
        greedy_step(ts, r.push(x), i),
{
    let r2 = r.push(x);
    assert(r2[i] == r[i]);
    assert(head_before(r2, i) == head_before(r, i)) by {
        if i > 0 {
            assert(r2[i - 1] == r[i - 1]);
        }
    }
    assert forall|o: int| emitted_before(r2, i, o) == emitted_before(r, i, o) by {
        if emitted_before(r2, i, o) {
            let j = choose|j: int| 0 <= j < i && r2[j].0 == o;
            assert(r[j] == r2[j]);
        }
        if emitted_before(r, i, o) {
            let j = choose|j: int| 0 <= j < i && r[j].0 == o;
            assert(r[j] == r2[j]);
        }
    }
}

proof fn lemma_remove_len(m: Multiset<Entry>, e: Entry)
    requires
        m.count(e) > 0,
    ensures
        m.remove(e).len() == m.len() - 1,
{
    assert(Multiset::singleton(e).subset_of(m));
}

/// Orders the traversables of a layer greedily: from the origin, it
/// repeatedly takes the entry nearest to where the last path ended, emits
/// the whole traversal of its owner from there, and drops the owner's other
/// entries. Each result pairs a traversable's index with its path.
pub fn connect(ts: &Vec<Traversable>) -> (r: Vec<(usize, LineString)>)
    requires
        all_in_range(ts@),
    ensures
        forall|i: int, j: int|
            0 <= i < j < r@.len() ==> (#[trigger] r@[i]).0 != (#[trigger] r@[j]).0,
        forall|i: int|
            0 <= i < r@.len() ==> (#[trigger] r@[i]).0 < ts@.len() && exists|k: int|
                0 <= k < entry_points_of(ts@[r@[i].0 as int]).len() && r@[i].1@ == traversal(
                    ts@[r@[i].0 as int],
                    k,
                ),
        forall|o: int|
            0 <= o < ts@.len() && entry_points_of(#[trigger] ts@[o]).len() > 0 ==> exists|i: int|
                0 <= i < r@.len() && r@[i].0 == o,
        forall|i: int| 0 <= i < r@.len() ==> #[trigger] greedy_step(ts@, paths_out(r@), i),
{
    let n = ts.len();
    let mut tree = EntryTree::new();
    let mut o: usize = 0;
    while o < n
        invariant
            n == ts@.len(),
            all_in_range(ts@),
            o <= n,
            forall|e: Entry|
                tree_entries(tree).count(e) == if valid_entry(ts@, e) && e.2 < o {
                    1nat
                } else {
                    0nat
                },
        decreases n - o,
    {
        let pts = ts[o].entry_points();
        let mut k: usize = 0;
        while k < pts.len()
            invariant
                n == ts@.len(),
                all_in_range(ts@),
                o < n,
                k <= pts@.len(),
                pts@ == entry_points_of(ts@[o as int]),
                forall|e: Entry|
                    tree_entries(tree).count(e) == if valid_entry(ts@, e) && (e.2 < o || (e.2
                        == o && e.3 < k)) {
                        1nat
                    } else {
                        0nat
                    },
            decreases pts@.len() - k,
        {
            let (x, y) = pts[k];
            proof {
                let t = ts@[o as int];
                match t {
                    Traversable::ClosedRing(l) => {
                        assert(line_of(ts@[o as int])[k as int] == pts@[k as int]);
                    },
                    Traversable::OpenLine(l) => {
                        assert(line_of(ts@[o as int])[0] == pts@[k as int]);
                    },
                }
            }
            tree.insert((x, y, o, k));
            k = k + 1;
        }
        o = o + 1;
    }
    let mut done: Vec<bool> = Vec::new();
    while done.len() < n
        invariant
            done@.len() <= n,
            forall|j: int| 0 <= j < done@.len() ==> !#[trigger] done@[j],
        decreases n - done@.len(),
    {
        done.push(false);
    }
    let mut head: (i64, i64) = (0, 0);
    let mut out: Vec<(usize, LineString)> = Vec::new();
    loop
        invariant
            n == ts@.len(),
            done@.len() == n,
            all_in_range(ts@),
            in_range(head.0, head.1),
            forall|e: Entry|
                tree_entries(tree).count(e) == if valid_entry(ts@, e) && !done@[e.2 as int] {
                    1nat
                } else {
                    0nat
                },
            forall|i: int, j: int|
                0 <= i < j < out@.len() ==> (#[trigger] out@[i]).0 != (#[trigger] out@[j]).0,
            forall|i: int|
                0 <= i < out@.len() ==> (#[trigger] out@[i]).0 < n && done@[out@[i].0 as int]
                    && exists|k: int|
                    0 <= k < entry_points_of(ts@[out@[i].0 as int]).len() && out@[i].1@
                        == traversal(ts@[out@[i].0 as int], k),
            forall|p: int|
                0 <= p < n && #[trigger] done@[p] ==> exists|i: int|
                    0 <= i < out@.len() && out@[i].0 == p,
            head == head_before(paths_out(out@), out@.len() as int),
            forall|i: int| 0 <= i < out@.len() ==> #[trigger] greedy_step(ts@, paths_out(out@), i),
        ensures
            forall|i: int| 0 <= i < out@.len() ==> #[trigger] greedy_step(ts@, paths_out(out@), i),
            tree_entries(tree) == Multiset::<Entry>::empty(),
            n == ts@.len(),
            done@.len() == n,
            forall|e: Entry|
                tree_entries(tree).count(e) == if valid_entry(ts@, e) && !done@[e.2 as int] {
                    1nat
                } else {
                    0nat
                },
            forall|i: int, j: int|
                0 <= i < j < out@.len() ==> (#[trigger] out@[i]).0 != (#[trigger] out@[j]).0,
            forall|i: int|
                0 <= i < out@.len() ==> (#[trigger] out@[i]).0 < n && done@[out@[i].0 as int]
                    && exists|k: int|
                    0 <= k < entry_points_of(ts@[out@[i].0 as int]).len() && out@[i].1@
                        == traversal(ts@[out@[i].0 as int], k),
            forall|p: int|
                0 <= p < n && #[trigger] done@[p] ==> exists|i: int|
                    0 <= i < out@.len() && out@[i].0 == p,
        decreases tree_entries(tree).len(),
    {
        proof {
            assert forall|e: Entry| tree_entries(tree).count(e) > 0 implies in_range(e.0, e.1) by {
                let t = ts@[e.2 as int];
                assert(line_of(t)[e.3 as int] == entry_points_of(t)[e.3 as int] || line_of(t)[0]
                    == entry_points_of(t)[e.3 as int]);
            }
        }
        let ghost before = tree_entries(tree);
        let ghost old_out = paths_out(out@);
        let ghost old_head = head;
        let ghost done_head = done@;
        let popped = tree.pop_nearest(head);
        let e = match popped {
            None => {
                break;
            },
            Some(e) => e,
        };
        proof {
            lemma_remove_len(before, e);
        }
        let owner = e.2;
        let pts = ts[owner].entry_points();
        let mut k: usize = 0;
        while k < pts.len()
            invariant
                n == ts@.len(),
                done@.len() == n,
                owner < n,
                !done@[owner as int],
                valid_entry(ts@, e),
                e.2 == owner,
                k <= pts@.len(),
                pts@ == entry_points_of(ts@[owner as int]),
                tree_entries(tree).len() < before.len(),
                forall|x: Entry|
                    tree_entries(tree).count(x) == if valid_entry(ts@, x) && !done@[x.2 as int]
                        && x != e && (x.2 != owner || x.3 >= k) {
                        1nat
                    } else {
                        0nat
                    },
            decreases pts@.len() - k,
        {
            if k != e.3 {
                let (x, y) = pts[k];
                let ghost m = tree_entries(tree);
                assert(m.count((x, y, owner, k)) == 1);
                proof {
                    lemma_remove_len(m, (x, y, owner, k));
                }
                tree.remove((x, y, owner, k));
            }
            k = k + 1;
        }
        done.set(owner, true);
        let path = ts[owner].traverse_from(e.3);
        proof {
            let t = ts@[owner as int];
            let last = path@[path@.len() - 1];
            match t {
                Traversable::ClosedRing(l) => {
                    assert(last == l@[e.3 as int]);
                    assert(last == line_of(ts@[owner as int])[e.3 as int]);
                },
                Traversable::OpenLine(l) => {
                    assert(last == l@[l@.len() - 1]);
                    assert(last == line_of(ts@[owner as int])[l@.len() - 1]);
                },
            }
            assert(in_range(last.0, last.1));
        }
        let last = path.points[path.points.len() - 1];
        assert(path@[path@.len() - 1] == (last.x, last.y));
        head = (last.x, last.y);
        let ghost old_raw = out@;
        let ghost new_item = (owner, path@);
        out.push((owner, path));
        proof {
            let po = paths_out(out@);
            assert(po =~= old_out.push(new_item));
            let i = old_out.len() as int;
            assert(head_before(po, i) == old_head);
            assert(!done_head[owner as int]);
            assert forall|o: int| 0 <= o < n implies (emitted_before(po, i, o) <==> #[trigger] done_head[o]) by {
                if emitted_before(po, i, o) {
                    let j = choose|j: int| 0 <= j < i && po[j].0 == o;
                    assert(old_raw[j].0 == o);
                }
                if done_head[o] {
                    let j = choose|j: int| 0 <= j < old_raw.len() && old_raw[j].0 == o;
                    assert(po[j].0 == o);
                }
            }
            let ep = entry_points_of(ts@[owner as int])[e.3 as int];
            assert((e.0, e.1) == ep);
            assert forall|x: Entry| valid_entry(ts@, x) && !emitted_before(po, i, x.2 as int) implies dist2(
                (ep.0, ep.1, x.2, x.3),
                old_head,
            ) <= #[trigger] dist2(x, old_head) by {
                assert(!done_head[x.2 as int]);
                assert(before.count(x) > 0);
            }
            assert(po[i].0 == owner);
            assert(po[i].1 == traversal(ts@[owner as int], e.3 as int));
            assert(greedy_step(ts@, po, i));
            assert forall|j: int| 0 <= j < out@.len() implies #[trigger] greedy_step(ts@, po, j) by {
                if j < i {
                    lemma_greedy_prefix(ts@, old_out, new_item, j);
                }
            }
        }
        proof {
            assert forall|p: int| 0 <= p < n && #[trigger] done@[p] implies exists|i: int|
                0 <= i < out@.len() && out@[i].0 == p by {
                if p == owner {
                    assert(out@[out@.len() - 1].0 == owner);
                } else {
                    let i = choose|i: int| 0 <= i < old_raw.len() && old_raw[i].0 == p;
                    assert(out@[i] == old_raw[i]);
                }
            }
        }
    }
    proof {
        assert forall|p: int| 0 <= p < ts@.len() && entry_points_of(#[trigger] ts@[p]).len()
            > 0 implies exists|i: int| 0 <= i < out@.len() && out@[i].0 == p by {
            let pt = entry_points_of(ts@[p])[0];
            let e: Entry = (pt.0, pt.1, p as usize, 0);
            assert(valid_entry(ts@, e));
            assert(tree_entries(tree).count(e) == 0);
        }
    }
    out
}

fn push_open_lines(
    ts: &mut Vec<Traversable>,
    tags: &mut Vec<PathTag>,
    lines: &PathSet,
    tag: PathTag,
)
    requires
        old(ts)@.len() == old(tags)@.len(),
    ensures
        final(ts)@.len() == final(tags)@.len(),
        final(ts)@.len() == old(ts)@.len() + lines@.len(),
        forall|j: int| 0 <= j < old(ts)@.len() ==> #[trigger] final(ts)@[j] == old(ts)@[j],
        forall|j: int| 0 <= j < old(ts)@.len() ==> #[trigger] final(tags)@[j] == old(tags)@[j],
        forall|j: int|
            old(ts)@.len() <= j < final(ts)@.len() ==> (#[trigger] final(ts)@[j]) is OpenLine
                && line_of(final(ts)@[j]) == lines@[j - old(ts)@.len()] && final(tags)@[j] == tag,
{
    let mut k: usize = 0;
    while k < lines.lines.len()
        invariant
            k <= lines.lines@.len(),
            ts@.len() == tags@.len(),
            ts@.len() == old(ts)@.len() + k,
            forall|j: int| 0 <= j < old(ts)@.len() ==> #[trigger] ts@[j] == old(ts)@[j],
            forall|j: int| 0 <= j < old(ts)@.len() ==> #[trigger] tags@[j] == old(tags)@[j],
            forall|j: int|
                old(ts)@.len() <= j < ts@.len() ==> (#[trigger] ts@[j]) is OpenLine && line_of(
                    ts@[j],
                ) == lines@[j - old(ts)@.len()] && tags@[j] == tag,
        decreases lines.lines@.len() - k,
    {
        ts.push(Traversable::OpenLine(copy_line(&lines.lines[k])));
        tags.push(tag);
        k = k + 1;
    }
}

/// What the connector orders on one layer: the shell paths as closed rings,
/// then the solid fill lines and the sparse fill lines as open lines, each
/// with the tag it is printed under.
pub fn layer_traversables(shells: &Vec<SingleShell>, solid: &PathSet, sparse: &PathSet) -> (r: (
    Vec<Traversable>,
    Vec<PathTag>,
))
    ensures
        r.0@.len() == r.1@.len(),
        r.0@.len() == shells@.len() + solid@.len() + sparse@.len(),
        forall|j: int|
            0 <= j < shells@.len() ==> (#[trigger] r.0@[j]) is ClosedRing && line_of(r.0@[j])
                == shells@[j].shell@ && r.1@[j] == PathTag::Shell,
        forall|j: int|
            shells@.len() <= j < shells@.len() + solid@.len() ==> (#[trigger] r.0@[j]) is OpenLine
                && line_of(r.0@[j]) == solid@[j - shells@.len()] && r.1@[j] == PathTag::Solid,
        forall|j: int|
            shells@.len() + solid@.len() <= j < r.0@.len() ==> (#[trigger] r.0@[j]) is OpenLine
                && line_of(r.0@[j]) == sparse@[j - shells@.len() - solid@.len()] && r.1@[j]
                == PathTag::Sparse,
{
    let mut ts: Vec<Traversable> = Vec::new();
    let mut tags: Vec<PathTag> = Vec::new();
    let mut k: usize = 0;
    while k < shells.len()
        invariant
            k <= shells@.len(),
            ts@.len() == k,
            tags@.len() == k,
            forall|j: int|
                0 <= j < k ==> (#[trigger] ts@[j]) is ClosedRing && line_of(ts@[j])
                    == shells@[j].shell@ && tags@[j] == PathTag::Shell,
        decreases shells@.len() - k,
    {
        ts.push(Traversable::ClosedRing(copy_line(&shells[k].shell)));
        tags.push(PathTag::Shell);
        k = k + 1;
    }
    push_open_lines(&mut ts, &mut tags, solid, PathTag::Solid);
    push_open_lines(&mut ts, &mut tags, sparse, PathTag::Sparse);
    (ts, tags)
}

} // verus!
