use vstd::prelude::*;

use std::collections::HashMap;

verus! {

broadcast use vstd::std_specs::hash::group_hash_axioms;

/// Three indices into a shared vertex table.
pub type IndexTriangle = [usize; 3];

/// The directed edge of triangle `t` that leaves corner `k`.
pub open spec fn edge_of(t: IndexTriangle, k: int) -> (usize, usize) {
    (t[k], t[(k + 1) % 3])
}

/// Face `g` holds the directed edge `e`.
pub open spec fn holds_edge(tris: Seq<IndexTriangle>, g: int, e: (usize, usize)) -> bool {
    exists|j: int| 0 <= j < 3 && #[trigger] edge_of(tris[g], j) == e
}

pub open spec fn edge_key(e: (usize, usize), nv: nat) -> int {
    e.0 * nv + e.1
}

/// Some edge of face `h` has this key.
pub open spec fn holds_key(tris: Seq<IndexTriangle>, h: int, key: int, nv: nat) -> bool {
    exists|j: int| 0 <= j < 3 && #[trigger] edge_key(edge_of(tris[h], j), nv) == key
}

/// Face `g` is the one face that holds edge `k` of face `f` reversed.
pub open spec fn is_twin(tris: Seq<IndexTriangle>, f: int, k: int, g: usize) -> bool {
    let rev = (edge_of(tris[f], k).1, edge_of(tris[f], k).0);
    &&& g < tris.len()
    &&& holds_edge(tris, g as int, rev)
    &&& forall|h: int| 0 <= h < tris.len() && holds_edge(tris, h, rev) ==> h == g
}

/// Two different faces of the first `f` hold an edge with this key.
pub open spec fn key_shared(tris: Seq<IndexTriangle>, key: int, nv: nat, f: int) -> bool {
    exists|h1: int, h2: int|
        0 <= h1 < f && 0 <= h2 < f && h1 != h2 && #[trigger] holds_key(tris, h1, key, nv)
            && #[trigger] holds_key(tris, h2, key, nv)
}

/// A value that no face index takes: the edge belongs to several faces.
pub const SHARED: usize = usize::MAX;

proof fn lemma_key_injective(e: (usize, usize), d: (usize, usize), nv: nat)
    requires
        e.0 < nv && e.1 < nv && d.0 < nv && d.1 < nv,
        edge_key(e, nv) == edge_key(d, nv),
    ensures
        e == d,
{
    assert(e.0 == d.0) by (nonlinear_arith)
        requires
            e.0 * nv + e.1 == d.0 * nv + d.1,
            e.1 < nv,
            d.1 < nv,
            e.0 >= 0,
            d.0 >= 0,
    ;
}

fn key_of(a: usize, b: usize, nv: usize) -> (r: u64)
    requires
        a < nv,
        b < nv,
        nv <= 0x1_0000_0000,
    ensures
        r == edge_key((a, b), nv as nat),
{
    assert(a * nv + b < nv * nv) by (nonlinear_arith)
        requires
            a < nv,
            b < nv,
    ;
    assert(nv * nv <= 0x1_0000_0000 * 0x1_0000_0000) by (nonlinear_arith)
        requires
            nv <= 0x1_0000_0000,
    ;
    (a as u64) * (nv as u64) + (b as u64)
}

/// For each face and each of its edges, the face across that edge: the one
/// face that holds the same edge in the opposite direction. None where no
/// face does, or where the edge is not shared by exactly two faces in the
/// usual way.
pub fn twin_faces(tris: &Vec<IndexTriangle>, nv: usize) -> (r: Vec<[Option<usize>; 3]>)
    requires
        nv <= 0x1_0000_0000,
        tris@.len() < SHARED,
        forall|f: int, k: int| 0 <= f < tris@.len() && 0 <= k < 3 ==> #[trigger] tris@[f][k] < nv,
    ensures
        r@.len() == tris@.len(),
        forall|f: int, k: int|
            0 <= f < tris@.len() && 0 <= k < 3 && (#[trigger] r@[f][k]) is Some ==> is_twin(
                tris@,
                f,
                k,
                r@[f][k]->Some_0,
            ),
        forall|f: int, k: int, g: usize|
            0 <= f < tris@.len() && 0 <= k < 3 && #[trigger] is_twin(tris@, f, k, g) ==> r@[f][k]
                == Some(g),
{
    let n = tris.len();
    let mut owner: HashMap<u64, usize> = HashMap::new();
    let mut f: usize = 0;
    while f < n
        invariant
            n == tris@.len(),
            n < SHARED,
            f <= n,
            nv <= 0x1_0000_0000,
            forall|f: int, k: int| 0 <= f < tris@.len() && 0 <= k < 3 ==> #[trigger] tris@[f][k] < nv,
            forall|key: u64|
                #[trigger] owner@.contains_key(key) ==> (owner@[key] == SHARED || (owner@[key] < f
                    && holds_key(tris@, owner@[key] as int, key as int, nv as nat))),
            forall|key: u64|
                #[trigger] owner@.contains_key(key) && owner@[key] != SHARED ==> forall|h: int| 0 <= h < f && #[trigger] holds_key(tris@, h, key as int, nv as nat) ==> h
                        == owner@[key],
            forall|h: int, j: int|
                0 <= h < f && 0 <= j < 3 ==> owner@.contains_key(
                    #[trigger] edge_key(edge_of(tris@[h], j), nv as nat) as u64,
                ),
            forall|key: u64|
                #[trigger] owner@.contains_key(key) && owner@[key] == SHARED ==> key_shared(
                    tris@,
                    key as int,
                    nv as nat,
                    f as int,
                ),
        decreases n - f,
    {
        let t = tris[f];
        let mut k: usize = 0;
        proof {
            assert forall|key: u64|
                #[trigger] owner@.contains_key(key) && owner@[key] == SHARED implies key_shared(
                tris@,
                key as int,
                nv as nat,
                f + 1,
            ) by {
                let (h1, h2) = choose|h1: int, h2: int|
                    0 <= h1 < f && 0 <= h2 < f && h1 != h2 && #[trigger] holds_key(
                        tris@,
                        h1,
                        key as int,
                        nv as nat,
                    ) && #[trigger] holds_key(tris@, h2, key as int, nv as nat);
            }
        }
        while k < 3
            invariant
                n == tris@.len(),
                n < SHARED,
                f < n,
                k <= 3,
                t == tris@[f as int],
                nv <= 0x1_0000_0000,
                forall|f: int, k: int|
                    0 <= f < tris@.len() && 0 <= k < 3 ==> #[trigger] tris@[f][k] < nv,
                forall|key: u64|
                    #[trigger] owner@.contains_key(key) ==> (owner@[key] == SHARED || (owner@[key]
                        <= f && holds_key(tris@, owner@[key] as int, key as int, nv as nat))),
                forall|key: u64|
                    #[trigger] owner@.contains_key(key) && owner@[key] != SHARED ==> forall|h: int| 0 <= h < f && #[trigger] holds_key(tris@, h, key as int, nv as nat) ==> h
                            == owner@[key],
                forall|key: u64|
                    #[trigger] owner@.contains_key(key) && owner@[key] != SHARED && owner@[key] != f
                        ==> forall|j: int|
                        0 <= j < k ==> #[trigger] edge_key(edge_of(tris@[f as int], j), nv as nat) != key,
                forall|h: int, j: int|
                    0 <= h < f && 0 <= j < 3 ==> owner@.contains_key(
                        #[trigger] edge_key(edge_of(tris@[h], j), nv as nat) as u64,
                    ),
                forall|j: int|
                    0 <= j < k ==> owner@.contains_key(
                        #[trigger] edge_key(edge_of(tris@[f as int], j), nv as nat) as u64,
                    ),
                forall|key: u64|
                    #[trigger] owner@.contains_key(key) && owner@[key] == SHARED ==> key_shared(
                        tris@,
                        key as int,
                        nv as nat,
                        f + 1,
                    ),
            decreases 3 - k,
        {
            let a = t[k];
            let b = t[(k + 1) % 3];
            let key = key_of(a, b, nv);
            assert(edge_of(tris@[f as int], k as int) == (a, b));
            match owner.get(&key) {
                Some(g) => {
                    if *g != f {
                        proof {
                            if *g != SHARED {
                                let gg = *g as int;
                                assert(holds_key(tris@, gg, key as int, nv as nat));
                                assert(holds_key(tris@, f as int, key as int, nv as nat)) by {
                                    assert(edge_key(edge_of(tris@[f as int], k as int), nv as nat)
                                        == key);
                                }
                                assert(key_shared(tris@, key as int, nv as nat, f + 1));
                            }
                        }
                        owner.insert(key, SHARED);
                    }
                },
                None => {
                    owner.insert(key, f);
                },
            }
            k = k + 1;
        }
        f = f + 1;
    }
    let mut out: Vec<[Option<usize>; 3]> = Vec::new();
    let mut f: usize = 0;
    while f < n
        invariant
            n == tris@.len(),
            f <= n,
            out@.len() == f,
            nv <= 0x1_0000_0000,
            forall|f: int, k: int| 0 <= f < tris@.len() && 0 <= k < 3 ==> #[trigger] tris@[f][k] < nv,
            forall|key: u64|
                #[trigger] owner@.contains_key(key) ==> (owner@[key] == SHARED || (owner@[key] < n
                    && holds_key(tris@, owner@[key] as int, key as int, nv as nat))),
            forall|key: u64|
                #[trigger] owner@.contains_key(key) && owner@[key] != SHARED ==> forall|h: int| 0 <= h < n && #[trigger] holds_key(tris@, h, key as int, nv as nat) ==> h
                        == owner@[key],
            forall|ff: int, k: int|
                0 <= ff < f && 0 <= k < 3 && (#[trigger] out@[ff][k]) is Some ==> is_twin(
                    tris@,
                    ff,
                    k,
                    out@[ff][k]->Some_0,
                ),
            forall|key: u64|
                #[trigger] owner@.contains_key(key) && owner@[key] == SHARED ==> key_shared(
                    tris@,
                    key as int,
                    nv as nat,
                    n as int,
                ),
            forall|h: int, j: int|
                0 <= h < n && 0 <= j < 3 ==> owner@.contains_key(
                    #[trigger] edge_key(edge_of(tris@[h], j), nv as nat) as u64,
                ),
            forall|ff: int, k: int, g: usize|
                0 <= ff < f && 0 <= k < 3 && #[trigger] is_twin(tris@, ff, k, g) ==> out@[ff][k]
                    == Some(g),
        decreases n - f,
    {
        let t = tris[f];
        let mut row: [Option<usize>; 3] = [None, None, None];
        let mut k: usize = 0;
        while k < 3
            invariant
                n == tris@.len(),
                f < n,
                k <= 3,
                t == tris@[f as int],
                nv <= 0x1_0000_0000,
                forall|f: int, k: int|
                    0 <= f < tris@.len() && 0 <= k < 3 ==> #[trigger] tris@[f][k] < nv,
                forall|key: u64|
                    #[trigger] owner@.contains_key(key) ==> (owner@[key] == SHARED || (owner@[key]
                        < n && holds_key(tris@, owner@[key] as int, key as int, nv as nat))),
                forall|key: u64|
                    #[trigger] owner@.contains_key(key) && owner@[key] != SHARED ==> forall|h: int| 0 <= h < n && #[trigger] holds_key(tris@, h, key as int, nv as nat) ==> h
                            == owner@[key],
                forall|kk: int|
                    0 <= kk < 3 && (#[trigger] row@[kk]) is Some ==> kk < k && is_twin(
                        tris@,
                        f as int,
                        kk,
                        row@[kk]->Some_0,
                    ),
                forall|key: u64|
                    #[trigger] owner@.contains_key(key) && owner@[key] == SHARED ==> key_shared(
                        tris@,
                        key as int,
                        nv as nat,
                        n as int,
                    ),
                forall|h: int, j: int|
                    0 <= h < n && 0 <= j < 3 ==> owner@.contains_key(
                        #[trigger] edge_key(edge_of(tris@[h], j), nv as nat) as u64,
                    ),
                forall|kk: int, g: usize|
                    0 <= kk < k && #[trigger] is_twin(tris@, f as int, kk, g) ==> row@[kk] == Some(g),
            decreases 3 - k,
        {
            let a = t[k];
            let b = t[(k + 1) % 3];
            let key = key_of(b, a, nv);
            let ghost rev = (b, a);
            assert(edge_of(tris@[f as int], k as int) == (a, b));
            proof {
                assert forall|g: usize| #[trigger] is_twin(tris@, f as int, k as int, g) implies owner@.contains_key(key)
                    && owner@[key] != SHARED by {
                    let jg = choose|jg: int| 0 <= jg < 3 && #[trigger] edge_of(tris@[g as int], jg) == rev;
                    assert(edge_key(edge_of(tris@[g as int], jg), nv as nat) == key);
                    assert(owner@.contains_key(edge_key(edge_of(tris@[g as int], jg), nv as nat) as u64));
                    if owner@[key] == SHARED {
                        let (h1, h2) = choose|h1: int, h2: int|
                            0 <= h1 < n && 0 <= h2 < n && h1 != h2 && #[trigger] holds_key(
                                tris@,
                                h1,
                                key as int,
                                nv as nat,
                            ) && #[trigger] holds_key(tris@, h2, key as int, nv as nat);
                        let j1 = choose|j1: int| 0 <= j1 < 3 && #[trigger] edge_key(edge_of(tris@[h1], j1), nv as nat) == key;
                        let j2 = choose|j2: int| 0 <= j2 < 3 && #[trigger] edge_key(edge_of(tris@[h2], j2), nv as nat) == key;
                        assert(tris@[h1][j1] < nv && tris@[h1][(j1 + 1) % 3] < nv);
                        assert(tris@[h2][j2] < nv && tris@[h2][(j2 + 1) % 3] < nv);
                        lemma_key_injective(edge_of(tris@[h1], j1), rev, nv as nat);
                        lemma_key_injective(edge_of(tris@[h2], j2), rev, nv as nat);
                        assert(holds_edge(tris@, h1, rev));
                        assert(holds_edge(tris@, h2, rev));
                    }
                }
            }
            match owner.get(&key) {
                Some(g) => {
                    if *g != SHARED {
                        let g = *g;
                        proof {
                            let j = choose|j: int|
                                0 <= j < 3 && edge_key(edge_of(tris@[g as int], j), nv as nat)
                                    == key;
                            let e = edge_of(tris@[g as int], j);
                            assert(tris@[g as int][j] < nv);
                            assert(tris@[g as int][(j + 1) % 3] < nv);
                            lemma_key_injective(e, rev, nv as nat);
                            assert(holds_edge(tris@, g as int, rev));
                            assert forall|h: int|
                                0 <= h < tris@.len() && holds_edge(tris@, h, rev) implies h
                                == g by {
                                let jh = choose|jh: int|
                                    0 <= jh < 3 && #[trigger] edge_of(tris@[h], jh) == rev;
                                assert(edge_key(edge_of(tris@[h], jh), nv as nat) == key);
                                assert(holds_key(tris@, h, key as int, nv as nat));
                            }
                        }
                        row[k] = Some(g);
                        assert(is_twin(tris@, f as int, k as int, g));
                    }
                },
                None => {},
            }
            k = k + 1;
        }
        out.push(row);
        f = f + 1;
    }
    out
}

} // verus!
