use vstd::prelude::*;
use crate::schedule::{contains_id, id_lists};
use crate::table::{simplex_get, SimplexModel};
use crate::tree::{DelaunayTree, IntegrityError};

verus! {

/// How many entries of `b` are corners of `a`.
pub open spec fn shared_count(a: Seq<usize>, b: Seq<usize>) -> nat
    decreases b.len(),
{
    if b.len() == 0 {
        0
    } else {
        shared_count(a, b.drop_last()) + if a.contains(b.last()) { 1nat } else { 0nat }
    }
}

/// `p` links two new simplices, both ways, that share exactly `n` corners; only pairs
/// `(a, b)` with `a < b` and `(a < i || (a == i && b < j))` are considered.
pub open spec fn facet_pair_before(
    s: Seq<Seq<usize>>,
    ids: Seq<usize>,
    n: nat,
    p: (usize, usize),
    i: int,
    j: int,
) -> bool {
    exists|a: int, b: int|
        0 <= a < b < s.len() && (a < i || (a == i && b < j)) && #[trigger] shared_count(s[a], s[b]) == n
            && (p == (ids[a], ids[b]) || p == (ids[b], ids[a]))
}

/// `p` links, both ways, two of the simplices that share exactly `n` corners.
pub open spec fn facet_pair(s: Seq<Seq<usize>>, ids: Seq<usize>, n: nat, p: (usize, usize)) -> bool {
    facet_pair_before(s, ids, n, p, s.len() as int, 0)
}

/// Counts the entries of `b` that are corners of `a`.
pub fn count_shared(a: &Vec<usize>, b: &Vec<usize>) -> (r: usize)
    ensures
        r == shared_count(a@, b@),
{
    let mut count: usize = 0;
    let mut k: usize = 0;
    while k < b.len()
        invariant
            k <= b.len(),
            count <= k,
            count == shared_count(a@, b@.take(k as int)),
        decreases b.len() - k,
    {
        assert(b@.take(k as int + 1).drop_last() =~= b@.take(k as int));
        if contains_id(a, b[k]) {
            count += 1;
        }
        k += 1;
    }
    assert(b@.take(b.len() as int) =~= b@);
    count
}

/// The pairs that simplex `i` forms with simplices `i + 1 .. j` in that order: for each
/// one sharing exactly `n` corners, `(ids[i], ids[b])` then `(ids[b], ids[i])`.
pub open spec fn pair_row(s: Seq<Seq<usize>>, ids: Seq<usize>, n: nat, i: int, j: int) -> Seq<(usize, usize)>
    decreases j - i,
{
    if j <= i + 1 {
        Seq::empty()
    } else if shared_count(s[i], s[j - 1]) == n {
        pair_row(s, ids, n, i, j - 1) + seq![(ids[i], ids[j - 1]), (ids[j - 1], ids[i])]
    } else {
        pair_row(s, ids, n, i, j - 1)
    }
}

/// The rows of simplices `0 .. i`, concatenated in order.
pub open spec fn pairs_upto(s: Seq<Seq<usize>>, ids: Seq<usize>, n: nat, i: int) -> Seq<(usize, usize)>
    decreases i,
{
    if i <= 0 {
        Seq::empty()
    } else {
        pairs_upto(s, ids, n, i - 1) + pair_row(s, ids, n, i - 1, s.len() as int)
    }
}

/// Pairs up the new simplices of one insertion that share a facet, i.e. exactly `N`
/// corners: for each such pair `(i, j)` both `(ids[i], ids[j])` and `(ids[j], ids[i])`
/// are listed.
pub fn pair_simplices<const N: usize, const M: usize>(
    simplices: &Vec<Vec<usize>>,
    simplices_id: &Vec<usize>,
) -> (r: Vec<(usize, usize)>)
    requires
        simplices.len() <= simplices_id.len(),
    ensures
        forall|p: (usize, usize)|
            r@.contains(p) <==> facet_pair(id_lists(simplices@), simplices_id@, N as nat, p),
        r.len() % 2 == 0,
        forall|q: int| 0 <= q < r.len() / 2 ==> #[trigger] r@[2 * q + 1] == (r@[2 * q].1, r@[2 * q].0),
        r@ == pairs_upto(id_lists(simplices@), simplices_id@, N as nat, simplices.len() as int),
        simplices_id@.no_duplicates() ==> r@.no_duplicates(),
{
    let ghost s = id_lists(simplices@);
    let ghost ids = simplices_id@;
    let mut new_neighbors: Vec<(usize, usize)> = Vec::new();
    let n_simplices = simplices.len();
    let mut i: usize = 0;
    while i < n_simplices
        invariant
            n_simplices == simplices.len(),
            simplices.len() <= simplices_id.len(),
            new_neighbors.len() % 2 == 0,
            forall|q: int| 0 <= q < new_neighbors.len() / 2 ==> #[trigger] new_neighbors@[2 * q + 1] == (new_neighbors@[2 * q].1, new_neighbors@[2 * q].0),
            s == id_lists(simplices@),
            ids == simplices_id@,
            i <= n_simplices,
            forall|p: (usize, usize)|
                new_neighbors@.contains(p) <==> facet_pair_before(s, ids, N as nat, p, i as int, i as int + 1),
            new_neighbors@ == pairs_upto(s, ids, N as nat, i as int),
            ids.no_duplicates() ==> new_neighbors@.no_duplicates(),
        decreases n_simplices - i,
    {
        let mut j: usize = i + 1;
        assert(new_neighbors@ =~= pairs_upto(s, ids, N as nat, i as int) + pair_row(s, ids, N as nat, i as int, j as int));
        while j < n_simplices
            invariant
                n_simplices == simplices.len(),
            simplices.len() <= simplices_id.len(),
            new_neighbors.len() % 2 == 0,
            forall|q: int| 0 <= q < new_neighbors.len() / 2 ==> #[trigger] new_neighbors@[2 * q + 1] == (new_neighbors@[2 * q].1, new_neighbors@[2 * q].0),
                s == id_lists(simplices@),
                ids == simplices_id@,
                i < n_simplices,
                i + 1 <= j <= n_simplices,
                forall|p: (usize, usize)|
                    new_neighbors@.contains(p) <==> facet_pair_before(s, ids, N as nat, p, i as int, j as int),
                new_neighbors@ == pairs_upto(s, ids, N as nat, i as int) + pair_row(s, ids, N as nat, i as int, j as int),
                ids.no_duplicates() ==> new_neighbors@.no_duplicates(),
            decreases n_simplices - j,
        {
            let count = count_shared(&simplices[i], &simplices[j]);
            let ghost before = new_neighbors@;
            let hit = count == N;
            assert(s[i as int] == simplices@[i as int]@ && s[j as int] == simplices@[j as int]@);
            if hit {
                proof {
                    if ids.no_duplicates() {
                        assert forall|p: (usize, usize)| p == (ids[i as int], ids[j as int]) || p == (ids[j as int], ids[i as int])
                            implies !before.contains(p) by {
                            if before.contains(p) {
                                let (a, b) = choose|a: int, b: int|
                                    0 <= a < b < s.len() && (a < i || (a == i && b < j)) && #[trigger] shared_count(s[a], s[b]) == N as nat
                                        && (p == (ids[a], ids[b]) || p == (ids[b], ids[a]));
                                assert(shared_count(s[a], s[b]) == N as nat);
                            }
                        }
                    }
                }
                new_neighbors.push((simplices_id[i], simplices_id[j]));
                new_neighbors.push((simplices_id[j], simplices_id[i]));
                proof {
                    if ids.no_duplicates() {
                        assert(ids[i as int] != ids[j as int]);
                        assert forall|a: int, b: int| 0 <= a < b < new_neighbors@.len()
                            implies new_neighbors@[a] != new_neighbors@[b] by {
                            if b >= before.len() && a < before.len() {
                                assert(before.contains(before[a]));
                            }
                        }
                    }
                }
                assert forall|q: int| 0 <= q < new_neighbors.len() / 2
                    implies #[trigger] new_neighbors@[2 * q + 1] == (new_neighbors@[2 * q].1, new_neighbors@[2 * q].0) by {
                    if q < before.len() / 2 {
                        assert(new_neighbors@[2 * q + 1] == before[2 * q + 1]);
                        assert(new_neighbors@[2 * q] == before[2 * q]);
                    } else {
                        assert(q == before.len() / 2);
                    }
                }
            }
            assert(new_neighbors@ =~= pairs_upto(s, ids, N as nat, i as int) + pair_row(s, ids, N as nat, i as int, j as int + 1));
            assert forall|p: (usize, usize)|
                new_neighbors@.contains(p) <==> facet_pair_before(s, ids, N as nat, p, i as int, j as int + 1) by {
                if new_neighbors@.contains(p) {
                    if before.contains(p) {
                        assert(facet_pair_before(s, ids, N as nat, p, i as int, j as int));
                        let (a, b) = choose|a: int, b: int|
                            0 <= a < b < s.len() && (a < i || (a == i && b < j)) && #[trigger] shared_count(s[a], s[b]) == N as nat
                                && (p == (ids[a], ids[b]) || p == (ids[b], ids[a]));
                        assert(shared_count(s[a], s[b]) == N as nat);
                    } else {
                        assert(hit);
                        let k = choose|k: int| 0 <= k < new_neighbors@.len() && new_neighbors@[k] == p;
                        assert(k >= before.len());
                        assert(shared_count(s[i as int], s[j as int]) == N as nat);
                    }
                }
                if facet_pair_before(s, ids, N as nat, p, i as int, j as int + 1) {
                    let (a, b) = choose|a: int, b: int|
                        0 <= a < b < s.len() && (a < i || (a == i && b < j + 1)) && #[trigger] shared_count(s[a], s[b]) == N as nat
                            && (p == (ids[a], ids[b]) || p == (ids[b], ids[a]));
                    if a == i && b == j {
                        assert(hit);
                        if p == (ids[a], ids[b]) {
                            assert(new_neighbors@[new_neighbors@.len() - 2] == p);
                        } else {
                            assert(new_neighbors@[new_neighbors@.len() - 1] == p);
                        }
                    } else {
                        assert(facet_pair_before(s, ids, N as nat, p, i as int, j as int));
                        assert(before.contains(p));
                        let k = choose|k: int| 0 <= k < before.len() && before[k] == p;
                        assert(new_neighbors@[k] == p);
                    }
                }
            }
            j += 1;
        }
        assert forall|p: (usize, usize)|
            facet_pair_before(s, ids, N as nat, p, i as int, n_simplices as int)
                == #[trigger] facet_pair_before(s, ids, N as nat, p, i as int + 1, i as int + 2) by {
            if facet_pair_before(s, ids, N as nat, p, i as int + 1, i as int + 2) {
                let (a, b) = choose|a: int, b: int|
                    0 <= a < b < s.len() && (a < i + 1 || (a == i + 1 && b < i + 2)) && #[trigger] shared_count(s[a], s[b]) == N as nat
                        && (p == (ids[a], ids[b]) || p == (ids[b], ids[a]));
                assert(shared_count(s[a], s[b]) == N as nat);
            }
            if facet_pair_before(s, ids, N as nat, p, i as int, n_simplices as int) {
                let (a, b) = choose|a: int, b: int|
                    0 <= a < b < s.len() && (a < i || (a == i && b < n_simplices)) && #[trigger] shared_count(s[a], s[b]) == N as nat
                        && (p == (ids[a], ids[b]) || p == (ids[b], ids[a]));
                assert(shared_count(s[a], s[b]) == N as nat);
            }
        }
        i += 1;
    }
    assert forall|p: (usize, usize)|
        facet_pair_before(s, ids, N as nat, p, n_simplices as int, n_simplices as int + 1)
            == #[trigger] facet_pair(s, ids, N as nat, p) by {
        if facet_pair_before(s, ids, N as nat, p, n_simplices as int, n_simplices as int + 1) {
            let (a, b) = choose|a: int, b: int|
                0 <= a < b < s.len() && (a < n_simplices || (a == n_simplices && b < n_simplices + 1)) && #[trigger] shared_count(s[a], s[b]) == N as nat
                    && (p == (ids[a], ids[b]) || p == (ids[b], ids[a]));
            assert(shared_count(s[a], s[b]) == N as nat);
        }
        if facet_pair(s, ids, N as nat, p) {
            let (a, b) = choose|a: int, b: int|
                0 <= a < b < s.len() && (a < s.len() || (a == s.len() && b < 0)) && #[trigger] shared_count(s[a], s[b]) == N as nat
                    && (p == (ids[a], ids[b]) || p == (ids[b], ids[a]));
            assert(shared_count(s[a], s[b]) == N as nat);
        }
    }
    new_neighbors
}

/// The entries of `b` that are corners of `k`, in the order of `b`.
pub open spec fn shared_corners(k: Seq<usize>, b: Seq<usize>) -> Seq<usize>
    decreases b.len(),
{
    if b.len() == 0 {
        Seq::empty()
    } else if k.contains(b.last()) {
        shared_corners(k, b.drop_last()).push(b.last())
    } else {
        shared_corners(k, b.drop_last())
    }
}

/// Corners of the simplex that joins vertex `v` to the facet that a cavity simplex with
/// corners `k` shares with its exterior neighbour with corners `b`.
pub open spec fn facet_simplex(v: usize, k: Seq<usize>, b: Seq<usize>) -> Seq<usize> {
    seq![v] + shared_corners(k, b)
}

impl<const N: usize, const M: usize> DelaunayTree<N, M> {
    /// `news` and `pairs` re-triangulate the boundary of `cavity` from vertex `v`: entry `t`
    /// joins `v` to the facet between cavity simplex `pairs[t].1` and its exterior neighbour
    /// `pairs[t].0`, and every neighbour of a cavity simplex that `inside` did not accept
    /// is so paired.
    pub open spec fn is_boundary<F: Fn(usize) -> bool>(
        &self,
        v: usize,
        cavity: Seq<usize>,
        inside: F,
        news: Seq<Seq<usize>>,
        pairs: Seq<(usize, usize)>,
    ) -> bool {
        &&& news.len() == pairs.len()
        &&& forall|t: int| 0 <= t < pairs.len() ==> {
            let (b, k) = #[trigger] pairs[t];
            &&& cavity.contains(k)
            &&& self.simplex_map().contains_key(k)
            &&& self.simplex_map()[k].1.contains(b)
            &&& self.simplex_map().contains_key(b)
            &&& inside.ensures((b,), false)
            &&& news[t] == facet_simplex(v, self.simplex_map()[k].0, self.simplex_map()[b].0)
        }
        &&& forall|k: usize, n: usize|
            #[trigger] cavity.contains(k) && #[trigger] self.simplex_map()[k].1.contains(n)
                ==> inside.ensures((n,), true) || pairs.contains((n, k))
    }

    /// `pairs` lists the neighbours of simplex `k` that `inside` rejects, each once per place
    /// in `k`'s neighbour list and in that order: `idx` maps each pair to its strictly
    /// increasing position there, and every position it skips was accepted by `inside`.
    pub open spec fn boundary_order<F: Fn(usize) -> bool>(
        &self,
        k: usize,
        inside: F,
        pairs: Seq<(usize, usize)>,
        idx: Seq<int>,
    ) -> bool {
        let nb = self.simplex_map()[k].1;
        &&& idx.len() == pairs.len()
        &&& forall|a: int, b: int| 0 <= a < b < idx.len() ==> idx[a] < idx[b]
        &&& forall|q: int| 0 <= q < idx.len() ==> 0 <= #[trigger] idx[q] < nb.len() && pairs[q].0 == nb[idx[q]]
        &&& forall|u: int| 0 <= u < nb.len() ==> idx.contains(u) || inside.ensures((#[trigger] nb[u],), true)
    }

    /// `pairs` lists the rejected neighbours of `k` once per place, in neighbour order.
    pub open spec fn boundary_in_order<F: Fn(usize) -> bool>(&self, k: usize, inside: F, pairs: Seq<(usize, usize)>) -> bool {
        exists|idx: Seq<int>| #[trigger] self.boundary_order(k, inside, pairs, idx)
    }

    /// For one cavity simplex `killed_site_id`, the new simplices joining `vertex_id` to each
    /// facet it shares with a neighbour whose sphere does not contain the point, with the
    /// (exterior neighbour, killed simplex) pair of each.
    pub fn get_new_simplices<F: Fn(usize) -> bool>(
        &self,
        killed_site_id: usize,
        vertex_id: usize,
        inside: &F,
    ) -> (r: Result<(Vec<Vec<usize>>, Vec<(usize, usize)>), IntegrityError>)
        requires
            forall|id: usize| inside.requires((id,)),
        ensures
            r is Ok ==> self.is_boundary(vertex_id, seq![killed_site_id], *inside, id_lists(r->Ok_0.0@), r->Ok_0.1@),
            r is Ok ==> self.boundary_in_order(killed_site_id, *inside, r->Ok_0.1@),
            (r matches Err(IntegrityError::MissingSimplex(s)) ==> !self.simplex_map().contains_key(s)),
            r is Err ==> r->Err_0 is MissingSimplex,
            self.simplex_map().contains_key(killed_site_id) && self.neighbors_symmetric() ==> r is Ok,
    {
        let killed = match simplex_get(&self.simplices, killed_site_id) {
            Some(k) => k,
            None => {
                return Err(IntegrityError::MissingSimplex(killed_site_id));
            },
        };
        let ghost cav = seq![killed_site_id];
        assert(cav.contains(killed_site_id)) by { assert(cav[0] == killed_site_id); }
        let mut simplices: Vec<Vec<usize>> = Vec::new();
        let mut neighbors: Vec<(usize, usize)> = Vec::new();
        let ghost mut idx: Seq<int> = Seq::empty();
        let mut t: usize = 0;
        while t < killed.neighbors.len()
            invariant
                forall|id: usize| inside.requires((id,)),
                idx.len() == neighbors.len(),
                forall|a: int, b: int| 0 <= a < b < idx.len() ==> idx[a] < idx[b],
                forall|q: int| 0 <= q < idx.len() ==> 0 <= #[trigger] idx[q] < t && neighbors@[q].0 == killed.neighbors@[idx[q]],
                forall|u: int| 0 <= u < t ==> idx.contains(u) || inside.ensures((#[trigger] killed.neighbors@[u],), true),
                cav == seq![killed_site_id],
                cav.contains(killed_site_id),
                self.simplex_map().contains_key(killed_site_id),
                killed@ == self.simplex_map()[killed_site_id],
                t <= killed.neighbors.len(),
                simplices.len() == neighbors.len(),
                forall|q: int| 0 <= q < neighbors.len() ==> {
                    let (b, k) = #[trigger] neighbors@[q];
                    &&& k == killed_site_id
                    &&& self.simplex_map()[k].1.contains(b)
                    &&& self.simplex_map().contains_key(b)
                    &&& inside.ensures((b,), false)
                    &&& simplices@[q]@ == facet_simplex(vertex_id, self.simplex_map()[k].0, self.simplex_map()[b].0)
                },
                forall|u: int| 0 <= u < t ==> inside.ensures((#[trigger] killed.neighbors@[u],), true)
                    || neighbors@.contains((killed.neighbors@[u], killed_site_id)),
            decreases killed.neighbors.len() - t,
        {
            let neighbor_id = killed.neighbors[t];
            assert(self.simplex_map()[killed_site_id].1.contains(neighbor_id)) by {
                assert(killed.neighbors@[t as int] == neighbor_id);
            }
            let neighbor = match simplex_get(&self.simplices, neighbor_id) {
                Some(b) => b,
                None => {
                    return Err(IntegrityError::MissingSimplex(neighbor_id));
                },
            };
            let ghost before = neighbors@;
            if !inside(neighbor_id) {
                let mut new_simplex: Vec<usize> = Vec::new();
                new_simplex.push(vertex_id);
                let mut i: usize = 0;
                while i < neighbor.vertices.len()
                    invariant
                        i <= neighbor.vertices.len(),
                        new_simplex@ == seq![vertex_id] + shared_corners(killed.vertices@, neighbor.vertices@.take(i as int)),
                    decreases neighbor.vertices.len() - i,
                {
                    assert(neighbor.vertices@.take(i as int + 1).drop_last() =~= neighbor.vertices@.take(i as int));
                    if contains_id(&killed.vertices, neighbor.vertices[i]) {
                        new_simplex.push(neighbor.vertices[i]);
                        assert(new_simplex@ =~= seq![vertex_id] + shared_corners(killed.vertices@, neighbor.vertices@.take(i as int + 1)));
                    } else {
                        assert(new_simplex@ =~= seq![vertex_id] + shared_corners(killed.vertices@, neighbor.vertices@.take(i as int + 1)));
                    }
                    i += 1;
                }
                assert(neighbor.vertices@.take(neighbor.vertices.len() as int) =~= neighbor.vertices@);
                simplices.push(new_simplex);
                neighbors.push((neighbor_id, killed_site_id));
                proof {
                    let old_idx = idx;
                    idx = idx.push(t as int);
                    assert(idx[idx.len() - 1] == t as int);
                    assert forall|u: int| 0 <= u <= t implies idx.contains(u) || inside.ensures((#[trigger] killed.neighbors@[u],), true) by {
                        if u < t && old_idx.contains(u) {
                            let q = choose|q: int| 0 <= q < old_idx.len() && old_idx[q] == u;
                            assert(idx[q] == u);
                        }
                    }
                    assert(neighbors@[neighbors@.len() - 1] == (neighbor_id, killed_site_id));
                    assert forall|u: int| 0 <= u < t implies inside.ensures((#[trigger] killed.neighbors@[u],), true)
                        || neighbors@.contains((killed.neighbors@[u], killed_site_id)) by {
                        if before.contains((killed.neighbors@[u], killed_site_id)) {
                            let q = choose|q: int| 0 <= q < before.len() && before[q] == (killed.neighbors@[u], killed_site_id);
                            assert(neighbors@[q] == before[q]);
                        }
                    }
                    assert(neighbors@.contains((killed.neighbors@[t as int], killed_site_id)));
                }
            }
            proof {
                assert forall|u: int| 0 <= u <= t implies idx.contains(u) || inside.ensures((#[trigger] killed.neighbors@[u],), true) by {
                    if u == t && !idx.contains(u) {
                        assert(neighbors@ == before);
                    }
                }
            }
            t += 1;
        }
        proof {
            assert forall|k: usize, n: usize|
                #[trigger] cav.contains(k) && #[trigger] self.simplex_map()[k].1.contains(n)
                    implies inside.ensures((n,), true) || neighbors@.contains((n, k)) by {
                assert(k == killed_site_id);
                let u = choose|u: int| 0 <= u < killed.neighbors@.len() && killed.neighbors@[u] == n;
                assert(inside.ensures((killed.neighbors@[u],), true) || neighbors@.contains((killed.neighbors@[u], killed_site_id)));
            }
            assert(id_lists(simplices@).len() == simplices@.len());
            assert forall|q: int| 0 <= q < neighbors@.len() implies id_lists(simplices@)[q] == simplices@[q]@ by {}
        }
        let res = (simplices, neighbors);
        proof {
            let nb = self.simplex_map()[killed_site_id].1;
            assert(nb == killed.neighbors@);
            assert forall|u: int| 0 <= u < nb.len() implies idx.contains(u) || inside.ensures((#[trigger] nb[u],), true) by {
                assert(idx.contains(u) || inside.ensures((killed.neighbors@[u],), true));
            }
            assert forall|q: int| 0 <= q < idx.len() implies 0 <= #[trigger] idx[q] < nb.len() && res.1@[q].0 == nb[idx[q]] by {
                assert(neighbors@[q].0 == killed.neighbors@[idx[q]]);
            }
            assert(self.boundary_order(killed_site_id, *inside, res.1@, idx));
            assert(self.boundary_in_order(killed_site_id, *inside, res.1@));
        }
        Ok(res)
    }
}

impl<const N: usize, const M: usize> DelaunayTree<N, M> {
    /// Boundary records of a cavity prefix and of its next simplex concatenate into the
    /// record of the longer prefix.
    proof fn lemma_boundary_extend<F: Fn(usize) -> bool>(
        &self,
        v: usize,
        cavity: Seq<usize>,
        i: int,
        inside: F,
        news: Seq<Seq<usize>>,
        pairs: Seq<(usize, usize)>,
        more_news: Seq<Seq<usize>>,
        more_pairs: Seq<(usize, usize)>,
    )
        requires
            0 <= i < cavity.len(),
            self.is_boundary(v, cavity.take(i), inside, news, pairs),
            self.is_boundary(v, seq![cavity[i]], inside, more_news, more_pairs),
        ensures
            self.is_boundary(v, cavity.take(i + 1), inside, news + more_news, pairs + more_pairs),
    {
        let c0 = cavity.take(i);
        let c1 = cavity.take(i + 1);
        let all = pairs + more_pairs;
        assert forall|k: usize| c0.contains(k) implies c1.contains(k) by {
            let q = choose|q: int| 0 <= q < c0.len() && c0[q] == k;
            assert(c1[q] == k);
        }
        assert forall|k: usize| seq![cavity[i]].contains(k) implies c1.contains(k) by {
            assert(seq![cavity[i]][0] == k);
            assert(c1[i] == k);
        }
        assert forall|t: int| 0 <= t < all.len() implies {
            let (b, k) = #[trigger] all[t];
            &&& c1.contains(k)
            &&& self.simplex_map().contains_key(k)
            &&& self.simplex_map()[k].1.contains(b)
            &&& self.simplex_map().contains_key(b)
            &&& inside.ensures((b,), false)
            &&& (news + more_news)[t] == facet_simplex(v, self.simplex_map()[k].0, self.simplex_map()[b].0)
        } by {
            if t < pairs.len() {
                assert(all[t] == pairs[t]);
                assert((news + more_news)[t] == news[t]);
            } else {
                assert(all[t] == more_pairs[t - pairs.len()]);
                assert((news + more_news)[t] == more_news[t - pairs.len()]);
            }
        }
        assert forall|k: usize, n: usize|
            #[trigger] c1.contains(k) && #[trigger] self.simplex_map()[k].1.contains(n)
                implies inside.ensures((n,), true) || all.contains((n, k)) by {
            let q = choose|q: int| 0 <= q < c1.len() && c1[q] == k;
            if q < i {
                assert(c0[q] == k);
                assert(c0.contains(k));
                if pairs.contains((n, k)) {
                    let w = choose|w: int| 0 <= w < pairs.len() && pairs[w] == (n, k);
                    assert(all[w] == (n, k));
                }
            } else {
                assert(seq![cavity[i]][0] == k);
                assert(seq![cavity[i]].contains(k));
                if more_pairs.contains((n, k)) {
                    let w = choose|w: int| 0 <= w < more_pairs.len() && more_pairs[w] == (n, k);
                    assert(all[w + pairs.len()] == (n, k));
                }
            }
        }
    }
}

impl<const N: usize, const M: usize> DelaunayTree<N, M> {
    /// `pairs` is the concatenation, in the order of `cavity`, of the boundary pairs of each
    /// cavity simplex: segment `i`, between `starts[i]` and `starts[i + 1]`, pairs cavity
    /// simplex `cavity[i]` with its rejected neighbours, once per place and in order.
    pub open spec fn segments<F: Fn(usize) -> bool>(
        &self,
        cavity: Seq<usize>,
        inside: F,
        pairs: Seq<(usize, usize)>,
        starts: Seq<int>,
    ) -> bool {
        &&& starts.len() == cavity.len() + 1
        &&& starts[0] == 0
        &&& starts[cavity.len() as int] == pairs.len()
        &&& forall|i: int| 0 <= i <= cavity.len() ==> 0 <= #[trigger] starts[i] <= pairs.len()
        &&& forall|i: int| 0 <= i < cavity.len() ==> #[trigger] starts[i] <= starts[i + 1]
        &&& forall|i: int| 0 <= i < cavity.len()
            ==> #[trigger] self.boundary_in_order(cavity[i], inside, pairs.subrange(starts[i], starts[i + 1]))
        &&& forall|i: int, q: int| 0 <= i < cavity.len() && starts[i] <= q < starts[i + 1]
            ==> (#[trigger] pairs[q]).1 == #[trigger] cavity[i]
    }

    /// Adding the boundary pairs of the next cavity simplex extends the segmentation.
    proof fn lemma_segments_extend<F: Fn(usize) -> bool>(
        &self,
        cavity: Seq<usize>,
        i: int,
        inside: F,
        before: Seq<(usize, usize)>,
        more: Seq<(usize, usize)>,
        starts: Seq<int>,
    )
        requires
            0 <= i < cavity.len(),
            self.segments(cavity.take(i), inside, before, starts),
            self.boundary_in_order(cavity[i], inside, more),
            forall|q: int| 0 <= q < more.len() ==> (#[trigger] more[q]).1 == cavity[i],
        ensures
            self.segments(cavity.take(i + 1), inside, before + more, starts.push((before.len() + more.len()) as int)),
    {
        let c0 = cavity.take(i);
        let c1 = cavity.take(i + 1);
        let all = before + more;
        let st = starts.push((before.len() + more.len()) as int);
        assert forall|j: int| 0 <= j <= c1.len() implies 0 <= #[trigger] st[j] <= all.len() by {
            if j < st.len() - 1 {
                assert(st[j] == starts[j]);
            }
        }
        assert forall|j: int| 0 <= j < c1.len() implies #[trigger] st[j] <= st[j + 1] by {
            assert(st[j] == starts[j]);
            if j < c0.len() {
                assert(st[j + 1] == starts[j + 1]);
            }
        }
        assert forall|j: int| 0 <= j < c1.len()
            implies #[trigger] self.boundary_in_order(c1[j], inside, all.subrange(st[j], st[j + 1])) by {
            assert(st[j] == starts[j]);
            if j < c0.len() {
                assert(st[j + 1] == starts[j + 1]);
                assert(c1[j] == c0[j]);
                assert(starts[j] <= starts[j + 1]);
                assert(starts[j + 1] <= before.len());
                assert(all.subrange(st[j], st[j + 1]) =~= before.subrange(starts[j], starts[j + 1]));
            } else {
                assert(c1[j] == cavity[i]);
                assert(all.subrange(st[j], st[j + 1]) =~= more);
            }
        }
        assert forall|j: int, q: int| 0 <= j < c1.len() && st[j] <= q < st[j + 1]
            implies (#[trigger] all[q]).1 == #[trigger] c1[j] by {
            assert(st[j] == starts[j]);
            if j < c0.len() {
                assert(st[j + 1] == starts[j + 1]);
                assert(c1[j] == c0[j]);
                assert(starts[j + 1] <= before.len());
                assert(all[q] == before[q]);
            } else {
                assert(c1[j] == cavity[i]);
                assert(all[q] == more[q - before.len()]);
            }
        }
    }

    /// `pairs` splits into the boundary pairs of each cavity simplex, in cavity order.
    pub open spec fn in_cavity_order<F: Fn(usize) -> bool>(&self, cavity: Seq<usize>, inside: F, pairs: Seq<(usize, usize)>) -> bool {
        exists|starts: Seq<int>| #[trigger] self.segments(cavity, inside, pairs, starts)
    }
}

/// What one insertion changes, computed against a frozen store: the new vertex id, the
/// cavity it kills, the simplices that replace it (numbered `1 ..` within the update),
/// their exterior neighbour links and the facet links among themselves.
pub struct TreeUpdate<const N: usize, const M: usize> {
    pub vertex_id: usize,
    pub killed_sites: Vec<usize>,
    pub simplices: Vec<Vec<usize>>,
    pub simplices_id: Vec<usize>,
    pub neighbors: Vec<(usize, usize)>,
    pub new_neighbors: Vec<(usize, usize)>,
}

/// Every exterior neighbour of `update` has an id up to `base`, i.e. predates it.
pub open spec fn exterior_old<const N: usize, const M: usize>(update: TreeUpdate<N, M>, base: usize) -> bool {
    forall|t: int| 0 <= t < update.neighbors.len() ==> (#[trigger] update.neighbors@[t]).0 <= base
}

impl<const N: usize, const M: usize> TreeUpdate<N, M> {
    /// New simplices are numbered `1, 2, ...` in order, with one exterior link each.
    pub open spec fn numbered(&self) -> bool {
        &&& self.simplices_id.len() == self.simplices.len()
        &&& self.neighbors.len() == self.simplices.len()
        &&& forall|t: int| 0 <= t < self.simplices_id.len() ==> #[trigger] self.simplices_id@[t] == t + 1
        &&& forall|q: int| 0 <= q < self.new_neighbors.len() ==> {
            let (a, b) = #[trigger] self.new_neighbors@[q];
            1 <= a <= self.simplices.len() && 1 <= b <= self.simplices.len()
        }
    }

    /// The update that inserting vertex `id` makes, where `nearest` is the existing vertex
    /// closest to the point and `inside` its in-sphere test: the cavity, the simplices that
    /// re-triangulate its boundary, and their links.
    pub fn new<F: Fn(usize) -> bool>(
        id: usize,
        tree: &DelaunayTree<N, M>,
        nearest: usize,
        inside: &F,
    ) -> (r: Result<Self, IntegrityError>)
        requires
            tree.wf(),
            forall|x: usize| inside.requires((x,)),
        ensures
            r is Ok ==> {
                let u = r->Ok_0;
                &&& u.vertex_id == id
                &&& tree.is_cavity(nearest, *inside, u.killed_sites@)
                &&& tree.is_boundary(id, u.killed_sites@, *inside, id_lists(u.simplices@), u.neighbors@)
                &&& u.numbered()
                &&& tree.in_cavity_order(u.killed_sites@, *inside, u.neighbors@)
                &&& exterior_old(u, tree.max_simplex_id)
                &&& forall|p: (usize, usize)|
                    u.new_neighbors@.contains(p) <==> facet_pair(id_lists(u.simplices@), u.simplices_id@, N as nat, p)
                &&& u.new_neighbors@ == pairs_upto(id_lists(u.simplices@), u.simplices_id@, N as nat, u.simplices.len() as int)
                &&& u.new_neighbors@.no_duplicates()
            },
            r == Err::<Self, IntegrityError>(IntegrityError::MissingVertex(nearest))
                <==> !tree.vertex_map().contains_key(nearest),
            (r matches Err(IntegrityError::MissingVertex(v)) ==> v == nearest),
            (r matches Err(IntegrityError::MissingSimplex(s)) ==> !tree.simplex_map().contains_key(s)),
            tree.neighbors_symmetric() && tree.incidence_consistent()
                ==> !(r matches Err(IntegrityError::MissingSimplex(_))),
            r matches Err(IntegrityError::EmptyCavity) ==> forall|s: usize|
                #[trigger] tree.vertex_map()[nearest].contains(s) ==> inside.ensures((s,), false),
    {
        let killed_sites = match tree.locate(nearest, inside) {
            Ok(c) => c,
            Err(e) => {
                return Err(e);
            },
        };
        let mut simplices: Vec<Vec<usize>> = Vec::new();
        let mut neighbors: Vec<(usize, usize)> = Vec::new();
        let ghost mut starts: Seq<int> = seq![0int];
        let mut i: usize = 0;
        assert(killed_sites@.take(0) =~= Seq::<usize>::empty());
        while i < killed_sites.len()
            invariant
                tree.wf(),
                forall|x: usize| inside.requires((x,)),
                tree.is_cavity(nearest, *inside, killed_sites@),
                tree.vertex_map().contains_key(nearest),
                i <= killed_sites.len(),
                tree.is_boundary(id, killed_sites@.take(i as int), *inside, id_lists(simplices@), neighbors@),
                tree.segments(killed_sites@.take(i as int), *inside, neighbors@, starts),
            decreases killed_sites.len() - i,
        {
            let k = killed_sites[i];
            let (mut more_simplices, mut more_neighbors) = match tree.get_new_simplices(k, id, inside) {
                Ok(x) => x,
                Err(e) => {
                    assert(tree.simplex_map().contains_key(killed_sites@[i as int]));
                    return Err(e);
                },
            };
            proof {
                tree.lemma_boundary_extend(
                    id, killed_sites@, i as int, *inside, id_lists(simplices@), neighbors@,
                    id_lists(more_simplices@), more_neighbors@,
                );
                assert(id_lists(simplices@ + more_simplices@) =~= id_lists(simplices@) + id_lists(more_simplices@));
            }
            let ghost before = neighbors@;
            let ghost more = more_neighbors@;
            simplices.append(&mut more_simplices);
            neighbors.append(&mut more_neighbors);
            proof {
                assert forall|q: int| 0 <= q < more.len() implies (#[trigger] more[q]).1 == k by {
                    assert(seq![k].contains(more[q].1));
                }
                tree.lemma_segments_extend(killed_sites@, i as int, *inside, before, more, starts);
                starts = starts.push(neighbors@.len() as int);
                assert(neighbors@ == before + more);
            }
            i += 1;
        }
        assert(killed_sites@.take(killed_sites.len() as int) =~= killed_sites@);
        assert(tree.in_cavity_order(killed_sites@, *inside, neighbors@));
        let mut simplices_id: Vec<usize> = Vec::new();
        let mut t: usize = 0;
        while t < simplices.len()
            invariant
                t <= simplices.len(),
                simplices_id.len() == t,
                forall|q: int| 0 <= q < t ==> #[trigger] simplices_id@[q] == q + 1,
            decreases simplices.len() - t,
        {
            simplices_id.push(t + 1);
            t += 1;
        }
        assert(simplices_id@.no_duplicates()) by {
            assert forall|a: int, b: int| 0 <= a < b < simplices_id@.len() implies simplices_id@[a] != simplices_id@[b] by {
                assert(simplices_id@[a] == a + 1 && simplices_id@[b] == b + 1);
            }
        }
        let new_neighbors = pair_simplices::<N, M>(&simplices, &simplices_id);
        assert forall|t: int| 0 <= t < neighbors.len() implies (#[trigger] neighbors@[t]).0 <= tree.max_simplex_id by {
            assert(tree.simplex_map().contains_key(neighbors@[t].0));
        }
        assert forall|q: int| 0 <= q < new_neighbors.len() implies {
            let (a, b) = #[trigger] new_neighbors@[q];
            1 <= a <= simplices.len() && 1 <= b <= simplices.len()
        } by {
            let p = new_neighbors@[q];
            assert(new_neighbors@.contains(p));
            let (a, b) = choose|a: int, b: int|
                0 <= a < b < id_lists(simplices@).len() && (a < id_lists(simplices@).len() || (a == id_lists(simplices@).len() && b < 0))
                    && #[trigger] shared_count(id_lists(simplices@)[a], id_lists(simplices@)[b]) == N as nat
                    && (p == (simplices_id@[a], simplices_id@[b]) || p == (simplices_id@[b], simplices_id@[a]));
            assert(simplices_id@[a] == a + 1);
            assert(simplices_id@[b] == b + 1);
        }
        Ok(TreeUpdate { vertex_id: id, killed_sites, simplices, simplices_id, neighbors, new_neighbors })
    }
}

} // verus!
