//! What is read off a triangle mesh's connectivity alone: whether every edge
//! is shared by exactly two triangles, which is what makes a mesh closed and
//! printable.

use std::collections::HashMap;
use vstd::prelude::*;

verus! {

broadcast use vstd::std_specs::hash::group_hash_axioms;

/// An edge named by its two corners, lower index first, so that both
/// triangles on either side of it name it the same way.
pub open spec fn edge_key(a: usize, b: usize) -> (usize, usize) {
    if a < b {
        (a, b)
    } else {
        (b, a)
    }
}

/// The three edges of every triangle, triangle by triangle.
pub open spec fn edges_of(triangles: Seq<[usize; 3]>) -> Seq<(usize, usize)>
    decreases triangles.len(),
{
    if triangles.len() == 0 {
        Seq::empty()
    } else {
        let t = triangles.last();
        edges_of(triangles.drop_last()) + seq![
            edge_key(t[0], t[1]),
            edge_key(t[1], t[2]),
            edge_key(t[2], t[0]),
        ]
    }
}

/// How many times `edge` occurs in `edges`.
pub open spec fn times(edges: Seq<(usize, usize)>, edge: (usize, usize)) -> nat
    decreases edges.len(),
{
    if edges.len() == 0 {
        0
    } else {
        times(edges.drop_last(), edge) + if edges.last() == edge {
            1nat
        } else {
            0nat
        }
    }
}

/// The edges that some number of triangles other than two share.
pub open spec fn uneven_edges(edges: Seq<(usize, usize)>) -> Set<(usize, usize)> {
    Set::new(|e: (usize, usize)| times(edges, e) >= 1 && times(edges, e) != 2)
}

proof fn lemma_times_push(edges: Seq<(usize, usize)>, last: (usize, usize))
    ensures
        forall|e: (usize, usize)|
            #[trigger] times(edges.push(last), e) == times(edges, e) + if e == last {
                1nat
            } else {
                0nat
            },
{
    assert(edges.push(last).drop_last() =~= edges);
}

proof fn lemma_times_contains(edges: Seq<(usize, usize)>, e: (usize, usize))
    requires
        times(edges, e) >= 1,
    ensures
        edges.contains(e),
    decreases edges.len(),
{
    let n = edges.len() - 1;
    if edges.last() == e {
        assert(edges[n] == e);
    } else {
        lemma_times_contains(edges.drop_last(), e);
        let i = choose|i: int| 0 <= i < edges.drop_last().len() && edges.drop_last()[i] == e;
        assert(edges[i] == e);
    }
}

proof fn lemma_uneven_finite(edges: Seq<(usize, usize)>)
    ensures
        uneven_edges(edges).finite(),
        uneven_edges(edges).len() <= edges.len(),
{
    assert forall|e: (usize, usize)| uneven_edges(edges).contains(e) implies edges.to_set().contains(e) by {
        lemma_times_contains(edges, e);
    }
    vstd::seq_lib::seq_to_set_is_finite(edges);
    vstd::set_lib::lemma_len_subset(uneven_edges(edges), edges.to_set());
    edges.lemma_cardinality_of_set();
}

/// A count of at most three: all that tells "once", "twice" and "more" apart.
spec fn capped(n: nat) -> u8 {
    if n >= 3 {
        3
    } else {
        n as u8
    }
}

/// `counts` files each edge met so far under its lower corner, with how many
/// times it was met, capped.
spec fn tallied(counts: Map<usize, Vec<(usize, u8)>>, seen: Seq<(usize, usize)>) -> bool {
    &&& forall|a: usize, j: int|
        #![trigger counts[a]@[j]]
        counts.contains_key(a) && 0 <= j < counts[a]@.len() ==> times(seen, (a, counts[a]@[j].0)) >= 1
            && counts[a]@[j].1 == capped(times(seen, (a, counts[a]@[j].0)))
    &&& forall|a: usize, j: int, l: int|
        #![trigger counts[a]@[j], counts[a]@[l]]
        counts.contains_key(a) && 0 <= j < l < counts[a]@.len() ==> counts[a]@[j].0 != counts[a]@[l].0
    &&& forall|e: (usize, usize)|
        #[trigger] times(seen, e) >= 1 ==> counts.contains_key(e.0) && exists|j: int|
            0 <= j < counts[e.0]@.len() && #[trigger] counts[e.0]@[j].0 == e.1
}

/// Meet one more edge: file it and keep the count of uneven edges.
fn tally(
    counts: &mut HashMap<usize, Vec<(usize, u8)>>,
    bad: &mut usize,
    edge: (usize, usize),
    Ghost(seen): Ghost<Seq<(usize, usize)>>,
)
    requires
        tallied(old(counts)@, seen),
        *old(bad) == uneven_edges(seen).len(),
        seen.len() < usize::MAX,
    ensures
        tallied(final(counts)@, seen.push(edge)),
        *final(bad) == uneven_edges(seen.push(edge)).len(),
{
    let ghost before = counts@;
    let (a, b) = edge;
    let mut list: Vec<(usize, u8)> = match counts.remove(&a) {
        Some(v) => v,
        None => Vec::new(),
    };
    let ghost old_list = list@;
    assert(before.contains_key(a) ==> old_list == before[a]@);
    assert(!before.contains_key(a) ==> old_list.len() == 0);
    let mut j: usize = 0;
    while j < list.len()
        invariant
            j <= list.len(),
            list@ == old_list,
            forall|i: int| 0 <= i < j ==> #[trigger] list@[i].0 != b,
        ensures
            j <= list.len(),
            list@ == old_list,
            forall|i: int| 0 <= i < j ==> #[trigger] list@[i].0 != b,
            j < list.len() ==> list@[j as int].0 == b,
        decreases list.len() - j,
    {
        if list[j].0 == b {
            break;
        }
        j = j + 1;
    }
    let ghost seen2 = seen.push(edge);
    proof {
        lemma_times_push(seen, edge);
        lemma_uneven_finite(seen);
        lemma_uneven_finite(seen2);
    }
    let ghost c = times(seen, edge);
    assert(edge == (a, b));
    let was: u8 = if j < list.len() {
        list[j].1
    } else {
        0
    };
    proof {
        if j < list.len() {
            assert(before.contains_key(a));
            assert(before[a]@[j as int] == list@[j as int]);
            assert(before[a]@[j as int].0 == b);
            assert(was == capped(c));
        } else {
            if c >= 1 {
                let i = choose|i: int| 0 <= i < before[edge.0]@.len() && #[trigger] before[edge.0]@[i].0 == edge.1;
                assert(list@[i].0 == b);
            }
            assert(c == 0);
        }
        assert(was == capped(c));
    }
    if j < list.len() {
        let now: u8 = if was < 3 {
            was + 1
        } else {
            3
        };
        list.set(j, (b, now));
    } else {
        list.push((b, 1));
    }
    assert(forall|i: int| 0 <= i < old_list.len() ==> #[trigger] list@[i].0 == old_list[i].0);
    assert(list@[j as int] == (b, capped(c + 1)));
    let ghost u = uneven_edges(seen);
    let ghost u2 = uneven_edges(seen2);
    if was == 0 {
        assert(u2 =~= u.insert(edge));
        *bad = *bad + 1;
    } else if was == 1 {
        assert(u2 =~= u.remove(edge));
        assert(u.contains(edge));
        *bad = *bad - 1;
    } else if was == 2 {
        assert(u2 =~= u.insert(edge));
        *bad = *bad + 1;
    } else {
        assert(u2 =~= u);
    }
    counts.insert(a, list);
    proof {
        let m = counts@;
        assert(m =~= before.insert(a, list));
        assert forall|x: usize, i: int| #![trigger m[x]@[i]] m.contains_key(x) && 0 <= i < m[x]@.len() implies times(
            seen2,
            (x, m[x]@[i].0),
        ) >= 1 && m[x]@[i].1 == capped(times(seen2, (x, m[x]@[i].0))) by {
            if x != a {
                assert(m[x] == before[x]);
                assert(before[x]@[i] == m[x]@[i]);
            } else if i == j {
                assert(m[x]@[i] == (b, capped(c + 1)));
            } else {
                assert(i < old_list.len());
                assert(m[x]@[i] == old_list[i]);
                assert(before[x]@[i] == old_list[i]);
                assert(old_list[i].0 != b) by {
                    if j < old_list.len() {
                        if i < j {
                        } else {
                            assert(before[x]@[j as int] == old_list[j as int]);
                        }
                    }
                }
            }
        }
        assert forall|x: usize, i: int, l: int|
            #![trigger m[x]@[i], m[x]@[l]]
            m.contains_key(x) && 0 <= i < l < m[x]@.len() implies m[x]@[i].0 != m[x]@[l].0 by {
            if x != a {
                assert(m[x] == before[x]);
                assert(before[x]@[i] == m[x]@[i] && before[x]@[l] == m[x]@[l]);
            } else if j < old_list.len() {
                assert(m[x]@[i].0 == old_list[i].0 && m[x]@[l].0 == old_list[l].0);
                assert(before[x]@[i] == old_list[i] && before[x]@[l] == old_list[l]);
            } else if l == j {
                assert(m[x]@[i] == old_list[i]);
            } else {
                assert(before[x]@[i] == m[x]@[i] && before[x]@[l] == m[x]@[l]);
            }
        }
        assert forall|e: (usize, usize)| #[trigger] times(seen2, e) >= 1 implies m.contains_key(e.0) && exists|i: int|
            0 <= i < m[e.0]@.len() && #[trigger] m[e.0]@[i].0 == e.1 by {
            if e == edge {
                assert(m[a]@[j as int].0 == b);
            } else {
                assert(times(seen, e) >= 1);
                let i = choose|i: int| 0 <= i < before[e.0]@.len() && #[trigger] before[e.0]@[i].0 == e.1;
                if e.0 == a {
                    assert(m[a]@[i].0 == old_list[i].0);
                } else {
                    assert(m[e.0] == before[e.0]);
                }
                assert(m[e.0]@[i].0 == e.1);
            }
        }
    }
}

/// Whether every edge of the mesh is shared by exactly two triangles, and how
/// many edges are not: a closed mesh is a printable one, and a count above
/// zero is a real defect.
pub fn edge_check(triangles: &[[usize; 3]]) -> (r: (bool, usize))
    requires
        triangles@.len() * 3 <= usize::MAX,
    ensures
        r.1 == uneven_edges(edges_of(triangles@)).len(),
        r.0 <==> r.1 == 0,
{
    let mut counts: HashMap<usize, Vec<(usize, u8)>> = HashMap::new();
    let mut bad: usize = 0;
    let ghost mut seen: Seq<(usize, usize)> = Seq::empty();
    proof {
        assert(uneven_edges(seen) =~= Set::empty());
        assert(edges_of(triangles@.take(0)) =~= seen);
    }
    let mut i: usize = 0;
    while i < triangles.len()
        invariant
            i <= triangles@.len(),
            triangles@.len() * 3 <= usize::MAX,
            seen == edges_of(triangles@.take(i as int)),
            seen.len() == 3 * i,
            tallied(counts@, seen),
            bad == uneven_edges(seen).len(),
        decreases triangles@.len() - i,
    {
        let t = triangles[i];
        proof {
            assert(triangles@.take(i + 1).drop_last() =~= triangles@.take(i as int));
            assert(triangles@.take(i + 1).last() == t);
        }
        let e0 = if t[0] < t[1] {
            (t[0], t[1])
        } else {
            (t[1], t[0])
        };
        let e1 = if t[1] < t[2] {
            (t[1], t[2])
        } else {
            (t[2], t[1])
        };
        let e2 = if t[2] < t[0] {
            (t[2], t[0])
        } else {
            (t[0], t[2])
        };
        tally(&mut counts, &mut bad, e0, Ghost(seen));
        proof {
            seen = seen.push(e0);
        }
        tally(&mut counts, &mut bad, e1, Ghost(seen));
        proof {
            seen = seen.push(e1);
        }
        tally(&mut counts, &mut bad, e2, Ghost(seen));
        proof {
            seen = seen.push(e2);
            assert(seen =~= edges_of(triangles@.take(i + 1)));
        }
        i = i + 1;
    }
    proof {
        assert(triangles@.take(i as int) =~= triangles@);
    }
    (bad == 0, bad)
}

/// The corners of these triangles, triangle by triangle.
pub open spec fn corners(triangles: Seq<[usize; 3]>) -> Seq<usize>
    decreases triangles.len(),
{
    if triangles.len() == 0 {
        Seq::empty()
    } else {
        let t = triangles.last();
        corners(triangles.drop_last()) + seq![t[0], t[1], t[2]]
    }
}

/// The vertex indices in `corners`, each once, in the order they are first used.
pub open spec fn first_uses(corners: Seq<usize>) -> Seq<usize>
    decreases corners.len(),
{
    if corners.len() == 0 {
        Seq::empty()
    } else {
        let earlier = first_uses(corners.drop_last());
        if earlier.contains(corners.last()) {
            earlier
        } else {
            earlier.push(corners.last())
        }
    }
}

/// `out` holds the vertices first used by `seen`, in that order, and `remap`
/// says where each of them went.
spec fn placed<V>(remap: Seq<Option<usize>>, out: Seq<V>, vertices: Seq<V>, seen: Seq<usize>) -> bool {
    let used = first_uses(seen);
    &&& remap.len() == vertices.len()
    &&& out.len() == used.len()
    &&& forall|k: int| 0 <= k < used.len() ==> #[trigger] used[k] < vertices.len() && out[k] == vertices[used[k] as int]
    &&& used.no_duplicates()
    &&& forall|v: int|
        0 <= v < remap.len() ==> match #[trigger] remap[v] {
            Some(k) => k < used.len() && used[k as int] == v,
            None => !used.contains(v as usize),
        }
}

proof fn lemma_first_uses_push(seen: Seq<usize>, v: usize)
    ensures
        first_uses(seen.push(v)) == if first_uses(seen).contains(v) {
            first_uses(seen)
        } else {
            first_uses(seen).push(v)
        },
{
    assert(seen.push(v).drop_last() =~= seen);
}

/// Put vertex `v` in the new mesh, once, and say where it is.
fn place<V: Copy>(
    remap: &mut Vec<Option<usize>>,
    out: &mut Vec<V>,
    vertices: &[V],
    v: usize,
    Ghost(seen): Ghost<Seq<usize>>,
) -> (k: usize)
    requires
        placed(old(remap)@, old(out)@, vertices@, seen),
        v < vertices@.len(),
    ensures
        placed(final(remap)@, final(out)@, vertices@, seen.push(v)),
        k < first_uses(seen.push(v)).len(),
        first_uses(seen.push(v))[k as int] == v,
        first_uses(seen).len() <= first_uses(seen.push(v)).len(),
        first_uses(seen) == first_uses(seen.push(v)).take(first_uses(seen).len() as int),
{
    proof {
        lemma_first_uses_push(seen, v);
    }
    let ghost used = first_uses(seen);
    match remap[v] {
        Some(k) => {
            assert(used.contains(v));
            assert(used =~= used.take(used.len() as int));
            k
        },
        None => {
            let k = out.len();
            out.push(vertices[v]);
            remap.set(v, Some(k));
            proof {
                let used2 = used.push(v);
                assert(used2.take(used.len() as int) =~= used);
                assert forall|a: int, b: int| 0 <= a < b < used2.len() implies used2[a] != used2[b] by {
                    if b == used.len() {
                        assert(used.contains(used[a]));
                    }
                }
                assert forall|w: int| 0 <= w < remap@.len() implies match #[trigger] remap@[w] {
                    Some(k) => k < used2.len() && used2[k as int] == w,
                    None => !used2.contains(w as usize),
                } by {
                    if w != v {
                        assert(remap@[w] == old(remap)@[w]);
                        if let None = remap@[w] {
                            if used2.contains(w as usize) {
                                let i = choose|i: int| 0 <= i < used2.len() && used2[i] == w as usize;
                                assert(used.contains(w as usize) || i == used.len());
                            }
                        }
                    }
                }
            }
            k
        },
    }
}

/// The part of a mesh made of the triangles `start..end`: the vertices they
/// use, each once, in the order they are first used, and those triangles
/// renumbered onto them.
pub fn restricted_to<V: Copy>(vertices: &[V], triangles: &[[usize; 3]], start: usize, end: usize) -> (r: (
    Vec<V>,
    Vec<[usize; 3]>,
))
    requires
        start <= end <= triangles@.len(),
        forall|i: int, c: int| start <= i < end && 0 <= c < 3 ==> #[trigger] triangles@[i][c] < vertices@.len(),
    ensures
        ({
            let used = first_uses(corners(triangles@.subrange(start as int, end as int)));
            &&& used.no_duplicates()
            &&& r.0@ == used.map_values(|i: usize| vertices@[i as int])
            &&& r.1@.len() == end - start
            &&& forall|i: int, c: int|
                0 <= i < r.1@.len() && 0 <= c < 3 ==> #[trigger] r.1@[i][c] < used.len() && used[r.1@[i][c] as int]
                    == triangles@[start + i][c]
        }),
{
    let mut remap: Vec<Option<usize>> = Vec::new();
    let mut n: usize = 0;
    while n < vertices.len()
        invariant
            n <= vertices@.len(),
            remap@.len() == n,
            forall|w: int| 0 <= w < n ==> #[trigger] remap@[w] == None::<usize>,
        decreases vertices@.len() - n,
    {
        remap.push(None);
        n = n + 1;
    }
    let mut out: Vec<V> = Vec::new();
    let mut renumbered: Vec<[usize; 3]> = Vec::new();
    let ghost mut seen: Seq<usize> = Seq::empty();
    proof {
        assert(corners(triangles@.subrange(start as int, start as int)) =~= seen);
    }
    let mut i: usize = start;
    while i < end
        invariant
            start <= i <= end <= triangles@.len(),
            forall|j: int, c: int| start <= j < end && 0 <= c < 3 ==> #[trigger] triangles@[j][c] < vertices@.len(),
            seen == corners(triangles@.subrange(start as int, i as int)),
            placed(remap@, out@, vertices@, seen),
            renumbered@.len() == i - start,
            forall|j: int, c: int|
                0 <= j < renumbered@.len() && 0 <= c < 3 ==> #[trigger] renumbered@[j][c] < first_uses(seen).len()
                    && first_uses(seen)[renumbered@[j][c] as int] == triangles@[start + j][c],
        decreases end - i,
    {
        let t = triangles[i];
        assert(t[0] < vertices@.len() && t[1] < vertices@.len() && t[2] < vertices@.len()) by {
            assert(triangles@[i as int][0] == t[0] && triangles@[i as int][1] == t[1] && triangles@[i as int][2] == t[2]);
        }
        let ghost s0 = seen;
        let a = place(&mut remap, &mut out, vertices, t[0], Ghost(seen));
        proof {
            seen = seen.push(t[0]);
        }
        let ghost s1 = seen;
        let b = place(&mut remap, &mut out, vertices, t[1], Ghost(seen));
        proof {
            seen = seen.push(t[1]);
        }
        let ghost s2 = seen;
        let c = place(&mut remap, &mut out, vertices, t[2], Ghost(seen));
        proof {
            seen = seen.push(t[2]);
        }
        let ghost before = renumbered@;
        renumbered.push([a, b, c]);
        proof {
            let sub = triangles@.subrange(start as int, i + 1);
            assert(sub.drop_last() =~= triangles@.subrange(start as int, i as int));
            assert(sub.last() == t);
            assert(seen =~= corners(sub));
            let f0 = first_uses(s0);
            let f1 = first_uses(s1);
            let f2 = first_uses(s2);
            let f3 = first_uses(seen);
            assert forall|j: int, cc: int|
                0 <= j < renumbered@.len() && 0 <= cc < 3 implies #[trigger] renumbered@[j][cc] < f3.len()
                    && f3[renumbered@[j][cc] as int] == triangles@[start + j][cc] by {
                if j < renumbered@.len() - 1 {
                    assert(renumbered@[j] == before[j]);
                    let k = renumbered@[j][cc] as int;
                    assert(k < f0.len());
                    assert(f0[k] == f1.take(f0.len() as int)[k]);
                    assert(f1[k] == f2.take(f1.len() as int)[k]);
                    assert(f2[k] == f3.take(f2.len() as int)[k]);
                } else {
                    assert(renumbered@[j] == [a, b, c]);
                    assert(triangles@[start + j] == t);
                    if cc == 0 {
                        assert(f1[a as int] == f2.take(f1.len() as int)[a as int]);
                        assert(f2[a as int] == f3.take(f2.len() as int)[a as int]);
                    } else if cc == 1 {
                        assert(f2[b as int] == f3.take(f2.len() as int)[b as int]);
                    }
                }
            }
        }
        i = i + 1;
    }
    proof {
        let used = first_uses(seen);
        assert(out@ =~= used.map_values(|k: usize| vertices@[k as int]));
    }
    (out, renumbered)
}

} // verus!
