use vstd::prelude::*;
use dashmap::DashMap;
use std::hash::RandomState;
use crate::schedule::contains_id;
use crate::table::{
    new_simplex_table, new_vertex_table, simplex_entries, simplex_get, simplex_insert,
    vertex_entries, vertex_get, vertex_insert, vertex_len, Simplex, SimplexModel, Vertex,
};

verus! {

/// A structural fault found in the store: a referenced id that is absent, or a point
/// whose cavity came out empty.
#[derive(Debug, Clone, Copy, PartialEq, Eq, Structural)]
pub enum IntegrityError {
    /// A vertex id that the store does not hold.
    MissingVertex(usize),
    /// A simplex id that the store does not hold.
    MissingSimplex(usize),
    /// No simplex around the nearest vertex has the point inside its circumsphere.
    EmptyCavity,
}

/// The combinatorial state of an `N`-dimensional Delaunay triangulation whose simplices
/// have `M = N + 1` corners: vertex and simplex tables keyed by id, neighbour links and
/// incidence lists. Coordinates and circumspheres live beside it, keyed by the same ids.
pub struct DelaunayTree<const N: usize, const M: usize> {
    /// Vertex table: id to incident simplices; ids are `0 ..` in insertion order.
    pub vertices: DashMap<usize, Vertex, RandomState>,
    /// Simplex table: id to corners and neighbours.
    pub simplices: DashMap<usize, Simplex, RandomState>,
    /// The highest simplex id issued so far; ids are never reused.
    pub max_simplex_id: usize,
}

/// `s` is strictly increasing.
pub open spec fn strictly_sorted(s: Seq<usize>) -> bool {
    forall|a: int, b: int| 0 <= a < b < s.len() ==> s[a] < s[b]
}

/// Without repeating an element, `s` fits in the finite set `d` it is drawn from.
proof fn lemma_distinct_within(s: Seq<usize>, d: Set<usize>)
    requires
        s.no_duplicates(),
        d.finite(),
        forall|k: int| 0 <= k < s.len() ==> d.contains(#[trigger] s[k]),
    ensures
        s.len() <= d.len(),
{
    s.unique_seq_to_set();
    assert(s.to_set().subset_of(d));
    vstd::set_lib::lemma_len_subset(s.to_set(), d);
}

/// Appending keeps every element, and adds the new one, and nothing else.
pub(crate) proof fn lemma_push_contains(s: Seq<usize>, x: usize)
    ensures
        s.push(x).contains(x),
        forall|y: usize| #[trigger] s.push(x).contains(y) <==> s.contains(y) || y == x,
{
    assert(s.push(x)[s.len() as int] == x);
    assert forall|y: usize| #[trigger] s.push(x).contains(y) <==> s.contains(y) || y == x by {
        if s.contains(y) {
            let q = choose|q: int| 0 <= q < s.len() && #[trigger] s[q] == y;
            assert(s.push(x)[q] == y);
        }
        if s.push(x).contains(y) {
            let q = choose|q: int| 0 <= q < s.push(x).len() && #[trigger] s.push(x)[q] == y;
            if q < s.len() {
                assert(s[q] == y);
            }
        }
    }
}

/// The prefix of length `j + 1` holds what the prefix of length `j` holds, and `s[j]`.
pub(crate) proof fn lemma_take_next(s: Seq<usize>, j: int)
    requires
        0 <= j < s.len(),
    ensures
        forall|y: usize| #[trigger] s.take(j + 1).contains(y) <==> s.take(j).contains(y) || y == s[j],
{
    assert(s.take(j + 1) =~= s.take(j).push(s[j]));
    lemma_push_contains(s.take(j), s[j]);
}

/// The distinct ids of `v`, in increasing order.
pub fn sorted_ids(v: &Vec<usize>) -> (r: Vec<usize>)
    ensures
        strictly_sorted(r@),
        forall|x: usize| r@.contains(x) <==> v@.contains(x),
{
    let mut r: Vec<usize> = Vec::new();
    let mut k: usize = 0;
    while k < v.len()
        invariant
            k <= v.len(),
            strictly_sorted(r@),
            forall|x: usize| r@.contains(x) <==> v@.take(k as int).contains(x),
        decreases v.len() - k,
    {
        let x = v[k];
        assert forall|y: usize| v@.take(k as int + 1).contains(y) <==> v@.take(k as int).contains(y) || y == x by {
            if v@.take(k as int + 1).contains(y) {
                let q = choose|q: int| 0 <= q < k + 1 && #[trigger] v@.take(k as int + 1)[q] == y;
                if q < k {
                    assert(v@.take(k as int)[q] == y);
                }
            }
            if v@.take(k as int).contains(y) {
                let q = choose|q: int| 0 <= q < k && #[trigger] v@.take(k as int)[q] == y;
                assert(v@.take(k as int + 1)[q] == y);
            }
            if y == x {
                assert(v@.take(k as int + 1)[k as int] == y);
            }
        }
        let present = contains_id(&r, x);
        let ghost prev = r@;
        if !present {
            let mut p: usize = 0;
            while p < r.len() && r[p] < x
                invariant
                    p <= r.len(),
                    forall|q: int| 0 <= q < p ==> r@[q] < x,
                    !r@.contains(x),
                    x == v@[k as int],
                    k < v.len(),
                    strictly_sorted(r@),
                    forall|y: usize| r@.contains(y) <==> v@.take(k as int).contains(y),
                    forall|y: usize| v@.take(k as int + 1).contains(y) <==> v@.take(k as int).contains(y) || y == x,
                decreases r.len() - p,
            {
                p += 1;
            }
            let ghost old_r = r@;
            r.insert(p, x);
            proof {
                old_r.insert_ensures(p as int, x);
                assert(p < old_r.len() ==> old_r[p as int] > x) by {
                    if p < old_r.len() {
                        assert(old_r[p as int] != x);
                    }
                }
                assert forall|y: usize| r@.contains(y) <==> old_r.contains(y) || y == x by {
                    if r@.contains(y) {
                        let q = choose|q: int| 0 <= q < r@.len() && #[trigger] r@[q] == y;
                        if q < p {
                            assert(old_r[q] == y);
                        } else if q > p {
                            assert(r@[(q - 1) + 1] == old_r[q - 1]);
                        }
                    }
                    if old_r.contains(y) {
                        let q = choose|q: int| 0 <= q < old_r.len() && #[trigger] old_r[q] == y;
                        if q < p {
                            assert(r@[q] == y);
                        } else {
                            assert(r@[q + 1] == y);
                        }
                    }
                    if y == x {
                        assert(r@[p as int] == y);
                    }
                }
                assert forall|a: int, b: int| 0 <= a < b < r@.len() implies r@[a] < r@[b] by {
                    if b < p {
                    } else if b == p {
                    } else if a < p {
                        assert(r@[(b - 1) + 1] == old_r[b - 1]);
                        assert(old_r[b - 1] >= old_r[p as int]);
                    } else if a == p {
                        assert(r@[(b - 1) + 1] == old_r[b - 1]);
                        assert(old_r[b - 1] >= old_r[p as int]);
                    } else {
                        assert(r@[(b - 1) + 1] == old_r[b - 1]);
                        assert(r@[(a - 1) + 1] == old_r[a - 1]);
                    }
                }
            }
        }
        assert forall|y: usize| r@.contains(y) <==> v@.take(k as int + 1).contains(y) by {
            if present {
                assert(r@.contains(y) <==> v@.take(k as int).contains(y));
                assert(v@.take(k as int + 1).contains(y) <==> v@.take(k as int).contains(y) || y == x);
                if y == x {
                    assert(r@.contains(x));
                }
            } else {
                assert(r@.contains(y) <==> prev.contains(y) || y == x);
                assert(prev.contains(y) <==> v@.take(k as int).contains(y));
            }
        }
        k += 1;
    }
    assert(v@.take(v.len() as int) =~= v@);
    r
}

impl<const N: usize, const M: usize> DelaunayTree<N, M> {
    pub open spec fn simplex_map(&self) -> Map<usize, SimplexModel> {
        simplex_entries(self.simplices)
    }

    pub open spec fn vertex_map(&self) -> Map<usize, Seq<usize>> {
        vertex_entries(self.vertices)
    }

    /// Number of vertices: vertex ids are `0 .. vertex_total()`.
    pub open spec fn vertex_total(&self) -> nat {
        self.vertex_map().len()
    }

    /// The shape every state of the store keeps: finite tables, vertex ids dense from 0,
    /// simplex ids never above `max_simplex_id`, `M == N + 1`.
    pub open spec fn wf(&self) -> bool {
        &&& M == N + 1
        &&& self.simplex_map().dom().finite()
        &&& self.vertex_map().dom().finite()
        &&& forall|v: usize| #[trigger] self.vertex_map().contains_key(v) <==> v < self.vertex_total()
        &&& forall|s: usize| #[trigger] self.simplex_map().contains_key(s) ==> s <= self.max_simplex_id
    }

    /// Neighbour links are symmetric and only name live simplices.
    pub open spec fn neighbors_symmetric(&self) -> bool {
        forall|a: usize, b: usize|
            #[trigger] self.simplex_map().contains_key(a) && #[trigger] self.simplex_map()[a].1.contains(b)
                ==> self.simplex_map().contains_key(b) && self.simplex_map()[b].1.contains(a)
    }

    /// A vertex lists a simplex as incident exactly when the simplex is live and has the
    /// vertex as a corner; every corner of a live simplex is a known vertex.
    pub open spec fn incidence_consistent(&self) -> bool {
        &&& forall|v: usize, s: usize|
            #[trigger] self.vertex_map().contains_key(v) && #[trigger] self.vertex_map()[v].contains(s)
                ==> self.simplex_map().contains_key(s) && self.simplex_map()[s].0.contains(v)
        &&& forall|s: usize, v: usize|
            #[trigger] self.simplex_map().contains_key(s) && #[trigger] self.simplex_map()[s].0.contains(v)
                ==> self.vertex_map().contains_key(v) && self.vertex_map()[v].contains(s)
    }

    /// Each entry of `w` is a simplex incident to `nearest`, or a neighbour of an earlier entry.
    pub open spec fn grown_from(&self, nearest: usize, w: Seq<usize>) -> bool {
        forall|q: int| 0 <= q < w.len() ==> self.vertex_map()[nearest].contains(#[trigger] w[q])
            || exists|p: int| 0 <= p < q && self.simplex_map()[w[p]].1.contains(w[q])
    }

    /// `c` is the cavity of a point whose nearest vertex is `nearest`, as judged by the
    /// in-sphere test `inside`: a non-empty, strictly increasing list of live simplices whose
    /// spheres contain the point, holding every such simplex incident to `nearest`, and
    /// every such neighbour of a simplex it holds, and nothing that the walk from those
    /// incident simplices over neighbour links does not reach.
    pub open spec fn is_cavity<F: Fn(usize) -> bool>(&self, nearest: usize, inside: F, c: Seq<usize>) -> bool {
        &&& c.len() > 0
        &&& exists|w: Seq<usize>| #[trigger] self.grown_from(nearest, w) && forall|x: usize| w.contains(x) <==> c.contains(x)
        &&& strictly_sorted(c)
        &&& forall|k: int| 0 <= k < c.len() ==> self.simplex_map().contains_key(#[trigger] c[k])
        &&& forall|k: int| 0 <= k < c.len() ==> inside.ensures((#[trigger] c[k],), true)
        &&& forall|s: usize|
            #[trigger] self.vertex_map()[nearest].contains(s) ==> c.contains(s) || inside.ensures((s,), false)
        &&& forall|x: usize, n: usize|
            #[trigger] c.contains(x) && #[trigger] self.simplex_map()[x].1.contains(n) ==> c.contains(n)
                || inside.ensures((n,), false)
    }
}

impl<const N: usize, const M: usize> DelaunayTree<N, M> {
    /// The cavity that inserting a point would carve, read-only: starting from the simplices
    /// incident to `nearest` (the vertex closest to the point), every simplex reachable
    /// through neighbour links whose circumsphere contains the point, as `inside` judges it.
    pub fn locate<F: Fn(usize) -> bool>(&self, nearest: usize, inside: &F) -> (r: Result<Vec<usize>, IntegrityError>)
        requires
            self.wf(),
            forall|id: usize| inside.requires((id,)),
        ensures
            r is Ok ==> self.is_cavity(nearest, *inside, r->Ok_0@),
            r == Err::<Vec<usize>, IntegrityError>(IntegrityError::MissingVertex(nearest))
                <==> !self.vertex_map().contains_key(nearest),
            (r matches Err(IntegrityError::MissingVertex(v)) ==> v == nearest),
            (r matches Err(IntegrityError::MissingSimplex(s)) ==> !self.simplex_map().contains_key(s)),
            self.neighbors_symmetric() && self.incidence_consistent()
                ==> !(r matches Err(IntegrityError::MissingSimplex(_))),
            r == Err::<Vec<usize>, IntegrityError>(IntegrityError::EmptyCavity) ==> forall|s: usize|
                #[trigger] self.vertex_map()[nearest].contains(s) ==> inside.ensures((s,), false),
    {
        let seeds = match vertex_get(&self.vertices, nearest) {
            Some(v) => v,
            None => {
                return Err(IntegrityError::MissingVertex(nearest));
            },
        };
        let ghost dom = self.simplex_map().dom();
        let ghost sound = self.neighbors_symmetric() && self.incidence_consistent();
        let mut output: Vec<usize> = Vec::new();
        let mut k: usize = 0;
        while k < seeds.simplex.len()
            invariant
                self.wf(),
                forall|id: usize| inside.requires((id,)),
                dom == self.simplex_map().dom(),
                sound == (self.neighbors_symmetric() && self.incidence_consistent()),
                self.vertex_map().contains_key(nearest),
                seeds@ == self.vertex_map()[nearest],
                k <= seeds.simplex.len(),
                output@.no_duplicates(),
                self.grown_from(nearest, output@),
                output.len() <= dom.len(),
                forall|q: int| 0 <= q < output.len() ==> dom.contains(#[trigger] output@[q]),
                forall|q: int| 0 <= q < output.len() ==> inside.ensures((#[trigger] output@[q],), true),
                forall|q: int| 0 <= q < k ==> output@.contains(#[trigger] seeds.simplex@[q])
                    || inside.ensures((seeds.simplex@[q],), false),
            decreases seeds.simplex.len() - k,
        {
            let s = seeds.simplex[k];
            if simplex_get(&self.simplices, s).is_none() {
                proof {
                    if sound {
                        assert(self.vertex_map()[nearest].contains(s) ==> self.simplex_map().contains_key(s));
                        assert(seeds.simplex@[k as int] == s);
                    }
                }
                return Err(IntegrityError::MissingSimplex(s));
            }
            let ghost before = output@;
            if !contains_id(&output, s) && inside(s) {
                output.push(s);
                proof {
                    lemma_push_contains(before, s);
                    lemma_distinct_within(output@, dom);
                    assert(seeds.simplex@[k as int] == s);
                    assert forall|q: int| 0 <= q < output@.len() implies self.vertex_map()[nearest].contains(#[trigger] output@[q])
                        || exists|p: int| 0 <= p < q && self.simplex_map()[output@[p]].1.contains(output@[q]) by {
                        if q < before.len() {
                            assert(output@[q] == before[q]);
                            if !self.vertex_map()[nearest].contains(before[q]) {
                                let p = choose|p: int| 0 <= p < q && self.simplex_map()[before[p]].1.contains(before[q]);
                                assert(output@[p] == before[p]);
                            }
                        }
                    }
                }
            }
            k += 1;
        }
        if output.len() == 0 {
            assert forall|s: usize| #[trigger] self.vertex_map()[nearest].contains(s) implies inside.ensures((s,), false) by {
                let q = choose|q: int| 0 <= q < seeds.simplex@.len() && seeds.simplex@[q] == s;
                assert(!output@.contains(seeds.simplex@[q]));
            }
            return Err(IntegrityError::EmptyCavity);
        }
        let mut head: usize = 0;
        while head < output.len()
            invariant
                self.wf(),
                forall|id: usize| inside.requires((id,)),
                dom == self.simplex_map().dom(),
                sound == (self.neighbors_symmetric() && self.incidence_consistent()),
                self.vertex_map().contains_key(nearest),
                seeds@ == self.vertex_map()[nearest],
                output.len() > 0,
                head <= output.len(),
                output@.no_duplicates(),
                self.grown_from(nearest, output@),
                output.len() <= dom.len(),
                forall|q: int| 0 <= q < output.len() ==> dom.contains(#[trigger] output@[q]),
                forall|q: int| 0 <= q < output.len() ==> inside.ensures((#[trigger] output@[q],), true),
                forall|q: int| 0 <= q < seeds.simplex.len() ==> output@.contains(#[trigger] seeds.simplex@[q])
                    || inside.ensures((seeds.simplex@[q],), false),
                forall|q: int, n: usize|
                    0 <= q < head && #[trigger] self.simplex_map()[output@[q]].1.contains(n)
                        ==> output@.contains(n) || inside.ensures((n,), false),
            decreases dom.len() - head,
        {
            let id = output[head];
            let sx = match simplex_get(&self.simplices, id) {
                Some(sx) => sx,
                None => {
                    return Err(IntegrityError::MissingSimplex(id));
                },
            };
            let mut t: usize = 0;
            while t < sx.neighbors.len()
                invariant
                    self.wf(),
                    forall|id: usize| inside.requires((id,)),
                    dom == self.simplex_map().dom(),
                    sound == (self.neighbors_symmetric() && self.incidence_consistent()),
                    self.vertex_map().contains_key(nearest),
                    seeds@ == self.vertex_map()[nearest],
                    head < output.len(),
                    id == output@[head as int],
                    dom.contains(id),
                    sx@ == self.simplex_map()[id],
                    t <= sx.neighbors.len(),
                    output@.no_duplicates(),
                    self.grown_from(nearest, output@),
                    output.len() <= dom.len(),
                    forall|q: int| 0 <= q < output.len() ==> dom.contains(#[trigger] output@[q]),
                    forall|q: int| 0 <= q < output.len() ==> inside.ensures((#[trigger] output@[q],), true),
                    forall|q: int| 0 <= q < seeds.simplex.len() ==> output@.contains(#[trigger] seeds.simplex@[q])
                        || inside.ensures((seeds.simplex@[q],), false),
                    forall|q: int, n: usize|
                        0 <= q < head && #[trigger] self.simplex_map()[output@[q]].1.contains(n)
                            ==> output@.contains(n) || inside.ensures((n,), false),
                    forall|u: int| 0 <= u < t ==> output@.contains(#[trigger] sx.neighbors@[u])
                        || inside.ensures((sx.neighbors@[u],), false),
                decreases sx.neighbors.len() - t,
            {
                let n = sx.neighbors[t];
                if simplex_get(&self.simplices, n).is_none() {
                    proof {
                        if sound {
                            assert(self.simplex_map()[id].1.contains(n) ==> self.simplex_map().contains_key(n));
                            assert(sx.neighbors@[t as int] == n);
                        }
                    }
                    return Err(IntegrityError::MissingSimplex(n));
                }
                let ghost before = output@;
                if !contains_id(&output, n) && inside(n) {
                    output.push(n);
                    proof {
                        lemma_push_contains(before, n);
                        lemma_distinct_within(output@, dom);
                        assert(sx.neighbors@[t as int] == n);
                        assert forall|q: int| 0 <= q < output@.len() implies self.vertex_map()[nearest].contains(#[trigger] output@[q])
                            || exists|p: int| 0 <= p < q && self.simplex_map()[output@[p]].1.contains(output@[q]) by {
                            if q < before.len() {
                                assert(output@[q] == before[q]);
                                if !self.vertex_map()[nearest].contains(before[q]) {
                                    let p = choose|p: int| 0 <= p < q && self.simplex_map()[before[p]].1.contains(before[q]);
                                    assert(output@[p] == before[p]);
                                }
                            } else {
                                assert(output@[head as int] == id);
                                assert(self.simplex_map()[output@[head as int]].1.contains(output@[q]));
                            }
                        }
                        assert forall|q: int, m: usize|
                            0 <= q < head && #[trigger] self.simplex_map()[output@[q]].1.contains(m)
                                implies output@.contains(m) || inside.ensures((m,), false) by {
                            assert(output@[q] == before[q]);
                            if before.contains(m) {
                                assert(output@.contains(m));
                            }
                        }
                        assert forall|q: int| 0 <= q < seeds.simplex.len() implies output@.contains(#[trigger] seeds.simplex@[q])
                            || inside.ensures((seeds.simplex@[q],), false) by {
                            if before.contains(seeds.simplex@[q]) {
                                assert(output@.contains(seeds.simplex@[q]));
                            }
                        }
                        assert forall|u: int| 0 <= u <= t implies output@.contains(#[trigger] sx.neighbors@[u])
                            || inside.ensures((sx.neighbors@[u],), false) by {
                            if before.contains(sx.neighbors@[u]) {
                                assert(output@.contains(sx.neighbors@[u]));
                            }
                        }
                    }
                }
                t += 1;
            }
            proof {
                assert forall|q: int, m: usize|
                    0 <= q < head + 1 && #[trigger] self.simplex_map()[output@[q]].1.contains(m)
                        implies output@.contains(m) || inside.ensures((m,), false) by {
                    if q == head {
                        let u = choose|u: int| 0 <= u < sx.neighbors@.len() && sx.neighbors@[u] == m;
                        assert(output@.contains(sx.neighbors@[u]) || inside.ensures((sx.neighbors@[u],), false));
                    }
                }
            }
            head += 1;
        }
        let sorted = sorted_ids(&output);
        proof {
            assert(self.grown_from(nearest, output@));
            assert(output@.contains(output@[0]));
            assert(sorted@.contains(output@[0]));
            assert forall|k: int| 0 <= k < sorted@.len() implies self.simplex_map().contains_key(#[trigger] sorted@[k])
                && inside.ensures((sorted@[k],), true) by {
                assert(sorted@.contains(sorted@[k]));
                let q = choose|q: int| 0 <= q < output@.len() && output@[q] == sorted@[k];
                assert(dom.contains(output@[q]));
            }
            assert forall|s: usize| #[trigger] self.vertex_map()[nearest].contains(s)
                implies sorted@.contains(s) || inside.ensures((s,), false) by {
                let q = choose|q: int| 0 <= q < seeds.simplex@.len() && seeds.simplex@[q] == s;
                assert(output@.contains(seeds.simplex@[q]) || inside.ensures((seeds.simplex@[q],), false));
            }
            assert forall|x: usize, n: usize|
                #[trigger] sorted@.contains(x) && #[trigger] self.simplex_map()[x].1.contains(n)
                    implies sorted@.contains(n) || inside.ensures((n,), false) by {
                let q = choose|q: int| 0 <= q < output@.len() && output@[q] == x;
                assert(self.simplex_map()[output@[q]].1.contains(n));
            }
        }
        Ok(sorted)
    }
}

/// Simplex table of the planar bootstrap: the super-triangle `0` and one ghost triangle on
/// each of its edges.
pub open spec fn bootstrap_simplices_2d() -> Map<usize, SimplexModel> {
    map![
        0usize => (seq![0usize, 1, 2], seq![1usize, 2, 3]),
        1usize => (seq![3usize, 0, 1], seq![0usize]),
        2usize => (seq![4usize, 0, 2], seq![0usize]),
        3usize => (seq![5usize, 1, 2], seq![0usize]),
    ]
}

/// Vertex table of the planar bootstrap: three super-triangle corners, then three ghosts.
pub open spec fn bootstrap_vertices_2d() -> Map<usize, Seq<usize>> {
    map![
        0usize => seq![0usize, 1, 2],
        1usize => seq![0usize, 1, 3],
        2usize => seq![0usize, 2, 3],
        3usize => seq![1usize],
        4usize => seq![2usize],
        5usize => seq![3usize],
    ]
}

impl DelaunayTree<2, 3> {
    /// The planar bootstrap: a super-triangle with ids 0, 1, 2 and a ghost vertex and ghost
    /// triangle on each of its edges, so that every walk ends at a simplex.
    pub fn new() -> (r: Self)
        ensures
            r.wf(),
            r.max_simplex_id == 3,
            r.simplex_map() == bootstrap_simplices_2d(),
            r.vertex_map() == bootstrap_vertices_2d(),
            r.neighbors_symmetric(),
            r.incidence_consistent(),
    {
        let mut vertices = new_vertex_table();
        vertex_insert(&mut vertices, 0, Vertex { simplex: vec![0, 1, 2] });
        vertex_insert(&mut vertices, 1, Vertex { simplex: vec![0, 1, 3] });
        vertex_insert(&mut vertices, 2, Vertex { simplex: vec![0, 2, 3] });
        vertex_insert(&mut vertices, 3, Vertex { simplex: vec![1] });
        vertex_insert(&mut vertices, 4, Vertex { simplex: vec![2] });
        vertex_insert(&mut vertices, 5, Vertex { simplex: vec![3] });
        let mut simplices = new_simplex_table();
        simplex_insert(&mut simplices, 0, Simplex { vertices: vec![0, 1, 2], neighbors: vec![1, 2, 3] });
        simplex_insert(&mut simplices, 1, Simplex { vertices: vec![3, 0, 1], neighbors: vec![0] });
        simplex_insert(&mut simplices, 2, Simplex { vertices: vec![4, 0, 2], neighbors: vec![0] });
        simplex_insert(&mut simplices, 3, Simplex { vertices: vec![5, 1, 2], neighbors: vec![0] });
        let r = DelaunayTree::<2, 3> { vertices, simplices, max_simplex_id: 3 };
        assert(r.simplex_map() =~~= bootstrap_simplices_2d());
        assert(r.vertex_map() =~~= bootstrap_vertices_2d());
        assert(r.vertex_map().len() == 6);
        r
    }
}

/// Simplex table of the spatial bootstrap: the super-tetrahedron `0` and one ghost
/// tetrahedron on each of its faces.
pub open spec fn bootstrap_simplices_3d() -> Map<usize, SimplexModel> {
    map![
        0usize => (seq![0usize, 1, 2, 3], seq![1usize, 2, 3, 4]),
        1usize => (seq![4usize, 0, 1, 2], seq![0usize]),
        2usize => (seq![5usize, 0, 2, 3], seq![0usize]),
        3usize => (seq![6usize, 0, 3, 1], seq![0usize]),
        4usize => (seq![7usize, 1, 2, 3], seq![0usize]),
    ]
}

/// Vertex table of the spatial bootstrap: four super-tetrahedron corners, then four ghosts.
pub open spec fn bootstrap_vertices_3d() -> Map<usize, Seq<usize>> {
    map![
        0usize => seq![0usize, 1, 2, 3],
        1usize => seq![0usize, 1, 3, 4],
        2usize => seq![0usize, 1, 2, 4],
        3usize => seq![0usize, 2, 3, 4],
        4usize => seq![1usize],
        5usize => seq![2usize],
        6usize => seq![3usize],
        7usize => seq![4usize],
    ]
}

impl DelaunayTree<3, 4> {
    /// The spatial bootstrap: a super-tetrahedron with ids 0 to 3 and a ghost vertex and
    /// ghost tetrahedron on each of its faces, so that every walk ends at a simplex.
    pub fn new() -> (r: Self)
        ensures
            r.wf(),
            r.max_simplex_id == 4,
            r.simplex_map() == bootstrap_simplices_3d(),
            r.vertex_map() == bootstrap_vertices_3d(),
            r.neighbors_symmetric(),
            r.incidence_consistent(),
    {
        let mut vertices = new_vertex_table();
        vertex_insert(&mut vertices, 0, Vertex { simplex: vec![0, 1, 2, 3] });
        vertex_insert(&mut vertices, 1, Vertex { simplex: vec![0, 1, 3, 4] });
        vertex_insert(&mut vertices, 2, Vertex { simplex: vec![0, 1, 2, 4] });
        vertex_insert(&mut vertices, 3, Vertex { simplex: vec![0, 2, 3, 4] });
        vertex_insert(&mut vertices, 4, Vertex { simplex: vec![1] });
        vertex_insert(&mut vertices, 5, Vertex { simplex: vec![2] });
        vertex_insert(&mut vertices, 6, Vertex { simplex: vec![3] });
        vertex_insert(&mut vertices, 7, Vertex { simplex: vec![4] });
        let mut simplices = new_simplex_table();
        simplex_insert(&mut simplices, 0, Simplex { vertices: vec![0, 1, 2, 3], neighbors: vec![1, 2, 3, 4] });
        simplex_insert(&mut simplices, 1, Simplex { vertices: vec![4, 0, 1, 2], neighbors: vec![0] });
        simplex_insert(&mut simplices, 2, Simplex { vertices: vec![5, 0, 2, 3], neighbors: vec![0] });
        simplex_insert(&mut simplices, 3, Simplex { vertices: vec![6, 0, 3, 1], neighbors: vec![0] });
        simplex_insert(&mut simplices, 4, Simplex { vertices: vec![7, 1, 2, 3], neighbors: vec![0] });
        let r = DelaunayTree::<3, 4> { vertices, simplices, max_simplex_id: 4 };
        assert(r.simplex_map() =~~= bootstrap_simplices_3d());
        assert(r.vertex_map() =~~= bootstrap_vertices_3d());
        assert(r.vertex_map().len() == 8);
        r
    }
}

/// No corner of `corners` is a bootstrap vertex (super-simplex corner or ghost); the
/// bootstrap of an `N`-dimensional tree has `2 * M` vertices.
pub open spec fn all_real(corners: Seq<usize>, m: usize) -> bool {
    forall|k: int| 0 <= k < corners.len() ==> #[trigger] corners[k] >= 2 * m
}

impl<const N: usize, const M: usize> DelaunayTree<N, M> {
    /// Simplex `s` breaks the Delaunay property at vertex `v`: it is a live simplex with no
    /// bootstrap corner, `v` is a vertex that is not one of its corners, and `inside` puts
    /// `v` strictly inside its circumsphere.
    pub open spec fn violation<F: Fn(usize, usize) -> bool>(&self, inside: F, s: usize, v: usize) -> bool {
        &&& self.simplex_map().contains_key(s)
        &&& all_real(self.simplex_map()[s].0, M)
        &&& v < self.vertex_total()
        &&& !self.simplex_map()[s].0.contains(v)
        &&& inside.ensures((s, v), true)
    }

    /// Whether every live simplex without a bootstrap corner has an empty circumsphere:
    /// `inside(s, v)` tells whether vertex `v` lies strictly inside the sphere of `s`.
    pub fn check_delaunay<F: Fn(usize, usize) -> bool>(&self, inside: &F) -> (r: bool)
        requires
            self.wf(),
            2 * M <= usize::MAX,
            self.max_simplex_id < usize::MAX,
            forall|s: usize, v: usize| inside.requires((s, v)),
        ensures
            !r ==> exists|s: usize, v: usize| self.violation(*inside, s, v),
            r ==> forall|s: usize, v: usize|
                #[trigger] self.simplex_map().contains_key(s) && all_real(self.simplex_map()[s].0, M)
                    && v < self.vertex_total() && !#[trigger] self.simplex_map()[s].0.contains(v)
                    ==> inside.ensures((s, v), false),
    {
        let n_vertices = vertex_len(&self.vertices);
        let mut result = true;
        let mut s: usize = 0;
        let max = self.max_simplex_id;
        while s <= max
            invariant
                self.wf(),
                2 * M <= usize::MAX,
                forall|s: usize, v: usize| inside.requires((s, v)),
                max == self.max_simplex_id,
                max < usize::MAX,
                n_vertices == self.vertex_total(),
                s <= max + 1,
                !result ==> exists|s: usize, v: usize| self.violation(*inside, s, v),
                result ==> forall|x: usize, v: usize|
                    x < s && #[trigger] self.simplex_map().contains_key(x) && all_real(self.simplex_map()[x].0, M)
                        && v < self.vertex_total() && !#[trigger] self.simplex_map()[x].0.contains(v)
                        ==> inside.ensures((x, v), false),
            decreases max + 1 - s,
        {
            if let Some(simplex) = simplex_get(&self.simplices, s) {
                let mut genuine = true;
                let mut k: usize = 0;
                while k < simplex.vertices.len()
                    invariant
                        k <= simplex.vertices.len(),
                        2 * M <= usize::MAX,
                        genuine == forall|j: int| 0 <= j < k ==> #[trigger] simplex.vertices@[j] >= 2 * M,
                    decreases simplex.vertices.len() - k,
                {
                    if simplex.vertices[k] < 2 * M {
                        genuine = false;
                    }
                    k += 1;
                }
                if genuine {
                    let mut v: usize = 0;
                    while v < n_vertices
                        invariant
                            self.wf(),
                            forall|s: usize, v: usize| inside.requires((s, v)),
                            max == self.max_simplex_id,
                            n_vertices == self.vertex_total(),
                            s <= max,
                            v <= n_vertices,
                            self.simplex_map().contains_key(s),
                            simplex@ == self.simplex_map()[s],
                            all_real(simplex.vertices@, M),
                            !result ==> exists|s: usize, v: usize| self.violation(*inside, s, v),
                            result ==> forall|x: usize, w: usize|
                                (x < s || (x == s && w < v)) && #[trigger] self.simplex_map().contains_key(x)
                                    && all_real(self.simplex_map()[x].0, M) && w < self.vertex_total()
                                    && !#[trigger] self.simplex_map()[x].0.contains(w) ==> inside.ensures((x, w), false),
                        decreases n_vertices - v,
                    {
                        if !contains_id(&simplex.vertices, v) {
                            if inside(s, v) {
                                assert(self.violation(*inside, s, v));
                                result = false;
                            }
                        }
                        v += 1;
                    }
                }
            }
            s += 1;
        }
        result
    }

    /// The conflict set of an insertion whose cavity is `cavity`: the cavity simplices and
    /// all their neighbours.
    pub fn conflict_set(&self, cavity: &Vec<usize>) -> (r: Result<Vec<usize>, IntegrityError>)
        ensures
            r is Ok ==> forall|x: usize| #[trigger] r->Ok_0@.contains(x) <==> cavity@.contains(x) || exists|k: usize|
                #[trigger] cavity@.contains(k) && #[trigger] self.simplex_map()[k].1.contains(x),
            r is Ok ==> forall|k: int| 0 <= k < cavity.len() ==> self.simplex_map().contains_key(#[trigger] cavity@[k]),
            r is Err ==> exists|k: int| 0 <= k < cavity.len() && !self.simplex_map().contains_key(#[trigger] cavity@[k]),
    {
        let mut out: Vec<usize> = Vec::new();
        let mut i: usize = 0;
        while i < cavity.len()
            invariant
                i <= cavity.len(),
                forall|k: int| 0 <= k < i ==> self.simplex_map().contains_key(#[trigger] cavity@[k]),
                forall|x: usize| #[trigger] out@.contains(x) <==> cavity@.take(i as int).contains(x) || exists|k: usize|
                    #[trigger] cavity@.take(i as int).contains(k) && #[trigger] self.simplex_map()[k].1.contains(x),
            decreases cavity.len() - i,
        {
            let sx = match simplex_get(&self.simplices, cavity[i]) {
                Some(x) => x,
                None => {
                    return Err(IntegrityError::MissingSimplex(cavity[i]));
                },
            };
            let ghost before = out@;
            out.push(cavity[i]);
            proof {
                lemma_push_contains(before, cavity@[i as int]);
            }
            let mut j: usize = 0;
            while j < sx.neighbors.len()
                invariant
                    j <= sx.neighbors.len(),
                    i < cavity.len(),
                    forall|x: usize| #[trigger] out@.contains(x) <==> before.contains(x) || x == cavity@[i as int]
                        || sx.neighbors@.take(j as int).contains(x),
                decreases sx.neighbors.len() - j,
            {
                let ghost mid = out@;
                out.push(sx.neighbors[j]);
                proof {
                    lemma_push_contains(mid, sx.neighbors@[j as int]);
                    lemma_take_next(sx.neighbors@, j as int);
                }
                j += 1;
            }
            proof {
                assert(sx.neighbors@.take(sx.neighbors.len() as int) =~= sx.neighbors@);
                lemma_take_next(cavity@, i as int);
                let c0 = cavity@.take(i as int);
                let c1 = cavity@.take(i as int + 1);
                let nb = self.simplex_map()[cavity@[i as int]].1;
                assert forall|x: usize| #[trigger] out@.contains(x) <==> c1.contains(x) || exists|k: usize|
                    #[trigger] c1.contains(k) && #[trigger] self.simplex_map()[k].1.contains(x) by {
                    if out@.contains(x) {
                        if before.contains(x) {
                            if !c0.contains(x) {
                                let k = choose|k: usize| #[trigger] c0.contains(k) && #[trigger] self.simplex_map()[k].1.contains(x);
                                assert(c1.contains(k));
                            }
                        } else if x != cavity@[i as int] {
                            assert(nb.contains(x));
                            assert(c1.contains(cavity@[i as int]));
                        }
                    }
                    if exists|k: usize| #[trigger] c1.contains(k) && #[trigger] self.simplex_map()[k].1.contains(x) {
                        let k = choose|k: usize| #[trigger] c1.contains(k) && #[trigger] self.simplex_map()[k].1.contains(x);
                        if c0.contains(k) {
                            assert(before.contains(x));
                        }
                    }
                }
            }
            i += 1;
        }
        assert(cavity@.take(cavity.len() as int) =~= cavity@);
        Ok(out)
    }
}

} // verus!
