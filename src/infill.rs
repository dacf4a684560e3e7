use vstd::prelude::*;

use crate::geom::{copy_path_set, Coord, LineString, PathSet, PathView, Rect};
use std::collections::HashMap;

verus! {

broadcast use vstd::std_specs::hash::group_hash_axioms;

/// The fill patterns the generator knows.
#[derive(Debug, Clone, Copy, PartialEq, Eq, Structural)]
pub enum FillPattern {
    Linear,
}

/// Half of `v`, rounded towards zero.
pub open spec fn half_toward_zero(v: int) -> int {
    if v >= 0 {
        v / 2
    } else {
        -((-v) / 2)
    }
}

/// The middle of a rectangle, rounded towards zero on each axis.
pub open spec fn center_of(r: Rect) -> Coord {
    Coord {
        x: half_toward_zero(r.max.x + r.min.x) as i64,
        y: half_toward_zero(r.max.y + r.min.y) as i64,
    }
}

fn half_sum(a: i64, b: i64) -> (r: i64)
    ensures
        r == half_toward_zero(a + b),
{
    let s = a as i128 + b as i128;
    let h = if s >= 0 {
        s / 2
    } else {
        -((-s) / 2)
    };
    h as i64
}

pub trait CenterInt {
    spec fn center_spec(&self) -> Coord;

    fn center(&self) -> (r: Coord)
        ensures
            r == self.center_spec(),
    ;
}

impl CenterInt for Rect {
    open spec fn center_spec(&self) -> Coord {
        center_of(*self)
    }

    fn center(&self) -> Coord {
        Coord { x: half_sum(self.max.x, self.min.x), y: half_sum(self.max.y, self.min.y) }
    }
}

pub open spec fn min_i64(a: i64, b: i64) -> i64 {
    if a < b {
        a
    } else {
        b
    }
}

pub open spec fn max_i64(a: i64, b: i64) -> i64 {
    if a < b {
        b
    } else {
        a
    }
}

/// The smallest rectangle that holds both.
pub open spec fn hull(a: Rect, b: Rect) -> Rect {
    Rect {
        min: Coord { x: min_i64(a.min.x, b.min.x), y: min_i64(a.min.y, b.min.y) },
        max: Coord { x: max_i64(a.max.x, b.max.x), y: max_i64(a.max.y, b.max.y) },
    }
}

pub trait BoundOps: Sized {
    spec fn bound_sum_spec(&self, other: &Self) -> Self;

    fn bound_sum(&self, other: &Self) -> (r: Self)
        ensures
            r == self.bound_sum_spec(other),
    ;
}

impl BoundOps for Rect {
    open spec fn bound_sum_spec(&self, other: &Rect) -> Rect {
        hull(*self, *other)
    }

    fn bound_sum(&self, other: &Rect) -> Rect {
        Rect {
            min: Coord {
                x: if self.min.x < other.min.x {
                    self.min.x
                } else {
                    other.min.x
                },
                y: if self.min.y < other.min.y {
                    self.min.y
                } else {
                    other.min.y
                },
            },
            max: Coord {
                x: if self.max.x < other.max.x {
                    other.max.x
                } else {
                    self.max.x
                },
                y: if self.max.y < other.max.y {
                    other.max.y
                } else {
                    self.max.y
                },
            },
        }
    }
}

/// The position of fill line `k`.
pub open spec fn fill_x(bounds: Rect, spacing: i64, k: int) -> int {
    bounds.min.x + k * spacing
}

/// Vertical lines `spacing` apart across the rectangle, from its left edge
/// while they stay within it, each spanning its full height.
pub fn linear_fill_bounds(spacing: i64, bounds: Rect) -> (r: PathSet)
    requires
        spacing > 0,
    ensures
        forall|k: int| 0 <= k < r@.len() ==> fill_x(bounds, spacing, k) <= bounds.max.x,
        fill_x(bounds, spacing, r@.len() as int) > bounds.max.x,
        forall|k: int|
            0 <= k < r@.len() ==> (#[trigger] r@[k]) == seq![
                (fill_x(bounds, spacing, k) as i64, bounds.min.y),
                (fill_x(bounds, spacing, k) as i64, bounds.max.y),
            ],
{
    let mut lines: Vec<LineString> = Vec::new();
    if bounds.min.x > bounds.max.x {
        let r = PathSet { lines };
        assert(r@.len() == 0);
        return r;
    }
    let mut pos: i64 = bounds.min.x;
    let mut more = true;
    while more
        invariant
            spacing > 0,
            pos <= bounds.max.x,
            more ==> pos as int == fill_x(bounds, spacing, lines@.len() as int),
            !more ==> fill_x(bounds, spacing, lines@.len() as int) > bounds.max.x,
            forall|j: int| 0 <= j < lines@.len() ==> fill_x(bounds, spacing, j) <= bounds.max.x,
            forall|j: int|
                0 <= j < lines@.len() ==> (#[trigger] lines@[j])@ == seq![
                    (fill_x(bounds, spacing, j) as i64, bounds.min.y),
                    (fill_x(bounds, spacing, j) as i64, bounds.max.y),
                ],
        decreases (bounds.max.x - pos) as int + if more {
            1int
        } else {
            0int
        },
    {
        let ghost k = lines@.len() as int;
        let mut points: Vec<Coord> = Vec::new();
        points.push(Coord { x: pos, y: bounds.min.y });
        points.push(Coord { x: pos, y: bounds.max.y });
        let line = LineString { points };
        assert(line@ =~= seq![(pos, bounds.min.y), (pos, bounds.max.y)]);
        lines.push(line);
        assert(fill_x(bounds, spacing, k + 1) == fill_x(bounds, spacing, k) + spacing)
            by (nonlinear_arith);
        if (bounds.max.x as i128) - (pos as i128) < spacing as i128 {
            more = false;
        } else {
            pos = pos + spacing;
        }
    }
    let r = PathSet { lines };
    assert(r@.len() == lines@.len());
    r
}

/// Fills already made, keyed by their rounded angle.
pub struct FillCache {
    pub cache: HashMap<i64, PathSet>,
}

/// The cache after a request for `key` whose fill, were it made now, would
/// be `fresh`: a key already present keeps its fill.
pub open spec fn cache_after(m: Map<i64, Seq<PathView>>, key: i64, fresh: Seq<PathView>) -> Map<
    i64,
    Seq<PathView>,
> {
    if m.contains_key(key) {
        m
    } else {
        m.insert(key, fresh)
    }
}

impl View for FillCache {
    type V = Map<i64, Seq<PathView>>;

    open spec fn view(&self) -> Map<i64, Seq<PathView>> {
        self.cache@.map_values(|p: PathSet| p@)
    }
}

impl FillCache {
    pub fn new() -> (r: FillCache)
        ensures
            r@ == Map::<i64, Seq<PathView>>::empty(),
    {
        let r = FillCache { cache: HashMap::new() };
        assert(r@ =~= Map::<i64, Seq<PathView>>::empty());
        r
    }

    /// The fill kept for `key`, if there is one.
    pub fn lookup(&self, key: i64) -> (r: Option<PathSet>)
        ensures
            r is Some <==> self@.contains_key(key),
            r matches Some(p) ==> p@ == self@[key],
    {
        match self.cache.get(&key) {
            Some(p) => Some(copy_path_set(p)),
            None => None,
        }
    }

    /// Serves the fill for `key`: the kept one if there is one, else `fresh`,
    /// which is kept from then on.
    pub fn request(&mut self, key: i64, fresh: PathSet) -> (r: PathSet)
        ensures
            final(self)@ == cache_after(old(self)@, key, fresh@),
            r@ == final(self)@[key],
    {
        match self.cache.get(&key) {
            Some(p) => copy_path_set(p),
            None => {
                let out = copy_path_set(&fresh);
                self.cache.insert(key, fresh);
                assert(self@ =~= old(self)@.insert(key, out@));
                out
            },
        }
    }
}

/// Requesting the same rounded angle twice serves the identical fill, and
/// the second request leaves the cache as the first left it, whatever fill
/// would have been made the second time.
pub proof fn lemma_fill_cache_idempotent(
    m: Map<i64, Seq<PathView>>,
    key: i64,
    first: Seq<PathView>,
    second: Seq<PathView>,
)
    ensures
        cache_after(cache_after(m, key, first), key, second) == cache_after(m, key, first),
        cache_after(cache_after(m, key, first), key, second)[key] == cache_after(
            m,
            key,
            first,
        )[key],
{
}

} // verus!
