use vstd::prelude::*;
use crate::kernel::{exterior_old, TreeUpdate};
use crate::table::{
    simplex_get, simplex_insert, simplex_remove, vertex_get, vertex_insert, vertex_len, Simplex,
    SimplexModel, Vertex,
};
use crate::tree::{lemma_push_contains, lemma_take_next, DelaunayTree, IntegrityError};

verus! {

/// Two simplex tables hold the same ids, each with the same corners.
pub open spec fn same_corners(a: Map<usize, SimplexModel>, b: Map<usize, SimplexModel>) -> bool {
    &&& a.dom() == b.dom()
    &&& forall|s: usize| #[trigger] a.contains_key(s) ==> a[s].0 == b[s].0
}

/// The simplex table `grown` is `start` with the new simplices of `update` added under
/// `base + 1 ..`, and every simplex that `update` kills is live in `start`.
pub open spec fn staged<const N: usize, const M: usize>(
    start: Map<usize, SimplexModel>,
    grown: Map<usize, SimplexModel>,
    base: usize,
    update: TreeUpdate<N, M>,
) -> bool {
    &&& forall|s: usize| #[trigger] grown.contains_key(s) <==> start.contains_key(s) || (base < s <= base + update.simplices.len())
    &&& forall|x: int| 0 <= x < update.simplices.len() ==> #[trigger] grown[(base + x + 1) as usize].0 == update.simplices@[x]@
    &&& forall|x: int| 0 <= x < update.killed_sites.len() ==> start.contains_key(#[trigger] update.killed_sites@[x])
    &&& forall|s: usize| #[trigger] start.contains_key(s) ==> s <= base
    &&& forall|s: usize| #[trigger] start.contains_key(s) ==> grown[s] == start[s]
}

/// In vertex table `vm`, each corner of new simplex `x` of `update` lists id `base + x + 1`,
/// for the simplices before `t` and the first `c` corners of simplex `t`.
pub open spec fn listed_new<const N: usize, const M: usize>(
    vm: Map<usize, Seq<usize>>,
    base: usize,
    update: TreeUpdate<N, M>,
    t: int,
    c: int,
) -> bool {
    forall|x: int, j: int|
        0 <= x < update.simplices.len() && 0 <= j < update.simplices@[x]@.len() && (x < t || (x == t && j < c))
            ==> #[trigger] vm[update.simplices@[x]@[j]].contains((base + x + 1) as usize)
}

/// In vertex table `vm`, no corner of the first `q` killed simplices of `update` (corners
/// as in `sm`) lists it any more.
pub open spec fn forgotten<const N: usize, const M: usize>(
    vm: Map<usize, Seq<usize>>,
    sm: Map<usize, SimplexModel>,
    update: TreeUpdate<N, M>,
    q: int,
) -> bool {
    forall|x: int, v: usize|
        0 <= x < q && #[trigger] sm[update.killed_sites@[x]].0.contains(v)
            ==> vm.contains_key(v) && !vm[v].contains(update.killed_sites@[x])
}

/// The links of simplex `s` after the exterior links of the first `t` boundary facets of
/// `update` are redirected: where facet `x` has `s` as exterior neighbour, its killed
/// simplex is replaced by the new simplex `base + x + 1`.
pub open spec fn rewire_links<const N: usize, const M: usize>(
    links: Seq<usize>,
    s: usize,
    update: TreeUpdate<N, M>,
    base: usize,
    t: nat,
) -> Seq<usize>
    decreases t,
{
    if t == 0 {
        links
    } else {
        let prev = rewire_links(links, s, update, base, (t - 1) as nat);
        let (b, k) = update.neighbors@[t - 1];
        if b == s {
            prev.map_values(|x: usize| if x == k { (base + t) as usize } else { x })
        } else {
            prev
        }
    }
}

/// Every simplex of `start` still in `now` has the links of `start` with the first `t`
/// boundary facets of `update` redirected.
pub open spec fn relinked<const N: usize, const M: usize>(
    start: Map<usize, SimplexModel>,
    now: Map<usize, SimplexModel>,
    base: usize,
    update: TreeUpdate<N, M>,
    t: nat,
) -> bool {
    forall|s: usize| #[trigger] start.contains_key(s) && now.contains_key(s)
        ==> now[s].1 == rewire_links(start[s].1, s, update, base, t)
}

/// Links of new simplex `x` of `update` after the first `q` facet pairs: its exterior
/// neighbour, then `base + b` for each pair `(x + 1, b)`, in order.
pub open spec fn facet_links<const N: usize, const M: usize>(
    update: TreeUpdate<N, M>,
    base: usize,
    x: int,
    q: nat,
) -> Seq<usize>
    decreases q,
{
    if q == 0 {
        seq![update.neighbors@[x].0]
    } else {
        let prev = facet_links(update, base, x, (q - 1) as nat);
        let (a, b) = update.new_neighbors@[q - 1];
        if a == x + 1 {
            prev.push((base + b) as usize)
        } else {
            prev
        }
    }
}

/// In `now`, each new simplex of `update` has the links of its first `q` facet pairs.
pub open spec fn new_links<const N: usize, const M: usize>(
    now: Map<usize, SimplexModel>,
    base: usize,
    update: TreeUpdate<N, M>,
    q: nat,
) -> bool {
    forall|x: int| 0 <= x < update.simplices.len()
        ==> #[trigger] now[(base + x + 1) as usize].1 == facet_links(update, base, x, q)
}

/// Vertex `v` is a corner of a new simplex of `update`, or of a simplex it kills (corners
/// as in `sm`).
pub open spec fn vertex_touched<const N: usize, const M: usize>(
    sm: Map<usize, SimplexModel>,
    update: TreeUpdate<N, M>,
    v: usize,
) -> bool {
    ||| exists|x: int, j: int| 0 <= x < update.simplices.len() && 0 <= j < update.simplices@[x]@.len()
        && #[trigger] update.simplices@[x]@[j] == v
    ||| exists|x: int| 0 <= x < update.killed_sites.len() && #[trigger] sm[update.killed_sites@[x]].0.contains(v)
}

/// Every vertex of `vm0` that `update` does not touch has the same incidence list in `vm`.
pub open spec fn vertices_kept<const N: usize, const M: usize>(
    vm0: Map<usize, Seq<usize>>,
    vm: Map<usize, Seq<usize>>,
    sm: Map<usize, SimplexModel>,
    update: TreeUpdate<N, M>,
) -> bool {
    forall|v: usize| #[trigger] vm0.contains_key(v) && !vertex_touched(sm, update, v) ==> vm.contains_key(v) && vm[v] == vm0[v]
}

/// Vertex `v` is corner `j` of new simplex `x` of `update` for some `(x, j)` before
/// `(t, c)`, and `y` is that simplex's id `base + x + 1`.
pub open spec fn added_before<const N: usize, const M: usize>(
    update: TreeUpdate<N, M>,
    base: usize,
    v: usize,
    y: usize,
    t: int,
    c: int,
) -> bool {
    exists|x: int, j: int|
        0 <= x < update.simplices.len() && 0 <= j < update.simplices@[x]@.len() && (x < t || (x == t && j < c))
            && #[trigger] update.simplices@[x]@[j] == v && y == (base + x + 1) as usize
}

/// In `vm`, each vertex of `vm0` lists what it listed in `vm0` plus the new simplices of
/// `update` (ids from `base + 1`) it is a corner of, up to corner `c` of simplex `t`.
pub open spec fn lists_grown<const N: usize, const M: usize>(
    vm0: Map<usize, Seq<usize>>,
    vm: Map<usize, Seq<usize>>,
    update: TreeUpdate<N, M>,
    base: usize,
    t: int,
    c: int,
) -> bool {
    forall|v: usize, y: usize| #[trigger] vm0.contains_key(v) ==> (#[trigger] vm[v].contains(y)
        <==> vm0[v].contains(y) || added_before(update, base, v, y, t, c))
}

/// Vertex `v` is corner `j` of killed simplex `y` (corners as in `sm`), for some
/// `(x, j)` before `(q, c)` with `killed_sites[x] == y`.
pub open spec fn removed_before<const N: usize, const M: usize>(
    sm: Map<usize, SimplexModel>,
    update: TreeUpdate<N, M>,
    v: usize,
    y: usize,
    q: int,
    c: int,
) -> bool {
    exists|x: int, j: int|
        0 <= x < update.killed_sites.len() && (x < q || (x == q && j < c)) && update.killed_sites@[x] == y
            && 0 <= j < sm[y].0.len() && #[trigger] sm[update.killed_sites@[x]].0[j] == v
}

/// In `vm`, each vertex of `vm0` lists what it listed in `vm0` less the killed simplices of
/// `update` it is a corner of, up to corner `c` of killed simplex `q`.
pub open spec fn lists_pruned<const N: usize, const M: usize>(
    vm0: Map<usize, Seq<usize>>,
    vm: Map<usize, Seq<usize>>,
    sm: Map<usize, SimplexModel>,
    update: TreeUpdate<N, M>,
    q: int,
    c: int,
) -> bool {
    forall|v: usize, y: usize| #[trigger] vm0.contains_key(v) ==> (#[trigger] vm[v].contains(y)
        <==> vm0[v].contains(y) && !removed_before(sm, update, v, y, q, c))
}

/// After `update` is committed with new ids from `base + 1`, vertex `v`, which listed
/// `before`, lists `y`: it listed it before or `y` is a new simplex with `v` as a corner,
/// and `y` is not a killed simplex with `v` as a corner (corners as in `sm`).
pub open spec fn incident_after<const N: usize, const M: usize>(
    before: Seq<usize>,
    sm: Map<usize, SimplexModel>,
    update: TreeUpdate<N, M>,
    base: usize,
    v: usize,
    y: usize,
) -> bool {
    &&& before.contains(y) || added_before(update, base, v, y, update.simplices.len() as int, 0)
    &&& !removed_before(sm, update, v, y, update.killed_sites.len() as int, 0)
}

/// `s` is the exterior neighbour of one of the boundary facets of `update`.
pub open spec fn rewired<const N: usize, const M: usize>(update: TreeUpdate<N, M>, s: usize) -> bool {
    exists|t: int| 0 <= t < update.neighbors.len() && (#[trigger] update.neighbors@[t]).0 == s
}

/// Every simplex of `start` (ids up to `base`) that `update` neither kills nor rewires is
/// still there, as it was in `start`.
pub open spec fn untouched<const N: usize, const M: usize>(
    start: Map<usize, SimplexModel>,
    now: Map<usize, SimplexModel>,
    base: usize,
    update: TreeUpdate<N, M>,
) -> bool {
    forall|s: usize| #[trigger] start.contains_key(s) && s <= base && !rewired(update, s)
        && !update.killed_sites@.contains(s) ==> now.contains_key(s) && now[s] == start[s]
}

impl<const N: usize, const M: usize> DelaunayTree<N, M> {
    /// `update` can be committed to this store: the simplices it kills and the exterior
    /// neighbours it redirects are live, every corner of a new simplex is a known vertex or
    /// the vertex it adds (id `vertex_total()`), and every corner of a killed simplex is a
    /// known vertex.
    pub open spec fn ready_for(&self, update: TreeUpdate<N, M>) -> bool {
        &&& forall|x: int| 0 <= x < update.killed_sites.len()
            ==> self.simplex_map().contains_key(#[trigger] update.killed_sites@[x])
        &&& forall|t: int| 0 <= t < update.neighbors.len()
            ==> self.simplex_map().contains_key((#[trigger] update.neighbors@[t]).0)
        &&& forall|x: int, j: int| 0 <= x < update.simplices.len() && 0 <= j < update.simplices@[x]@.len()
            ==> #[trigger] update.simplices@[x]@[j] <= self.vertex_total()
        &&& forall|x: int, v: usize| 0 <= x < update.killed_sites.len()
            && #[trigger] self.simplex_map()[update.killed_sites@[x]].0.contains(v) ==> self.vertex_map().contains_key(v)
    }

    /// Commits `update` with its new simplices numbered from `base + 1`, the new vertex
    /// taking the next vertex id; `max_simplex_id` is left to the caller.
    fn apply_update(&mut self, update: &TreeUpdate<N, M>, base: usize) -> (r: Result<(), IntegrityError>)
        requires
            old(self).wf(),
            update.numbered(),
            old(self).max_simplex_id <= base,
            base + update.simplices.len() <= usize::MAX,
            old(self).vertex_total() < usize::MAX,
        ensures
            final(self).max_simplex_id == old(self).max_simplex_id,
            old(self).ready_for(*update) ==> r is Ok,
            r is Ok ==> {
                &&& final(self).simplex_map().dom().finite()
                &&& final(self).vertex_map().dom() == old(self).vertex_map().dom().insert(old(self).vertex_total() as usize)
                &&& forall|s: usize| #[trigger] final(self).simplex_map().contains_key(s) <==> (
                    old(self).simplex_map().contains_key(s) && !update.killed_sites@.contains(s))
                        || (base < s <= base + update.simplices.len())
                &&& forall|t: int| 0 <= t < update.simplices.len()
                    ==> #[trigger] final(self).simplex_map()[(base + t + 1) as usize].0 == update.simplices@[t]@
                &&& untouched(old(self).simplex_map(), final(self).simplex_map(), base, *update)
                &&& forall|s: usize| #[trigger] old(self).simplex_map().contains_key(s) && !update.killed_sites@.contains(s)
                    ==> final(self).simplex_map()[s].0 == old(self).simplex_map()[s].0
                &&& relinked(old(self).simplex_map(), final(self).simplex_map(), base, *update, update.neighbors.len() as nat)
                &&& exterior_old(*update, base) ==> new_links(final(self).simplex_map(), base, *update,
                    update.new_neighbors.len() as nat)
                &&& listed_new(final(self).vertex_map(), base, *update, update.simplices.len() as int, 0)
                &&& forgotten(final(self).vertex_map(), old(self).simplex_map(), *update, update.killed_sites.len() as int)
                &&& vertices_kept(old(self).vertex_map(), final(self).vertex_map(), old(self).simplex_map(), *update)
                &&& forall|v: usize, y: usize| #[trigger] old(self).vertex_map().contains_key(v)
                    ==> (#[trigger] final(self).vertex_map()[v].contains(y)
                        <==> incident_after(old(self).vertex_map()[v], old(self).simplex_map(), *update, base, v, y))
                &&& forall|y: usize| #[trigger] final(self).vertex_map()[old(self).vertex_total() as usize].contains(y)
                    <==> incident_after(Seq::empty(), old(self).simplex_map(), *update, base, old(self).vertex_total() as usize, y)
            },
    {
        let ghost start = self.simplex_map();
        let ghost vstart = self.vertex_map();
        let n_new = update.simplices.len();
        // every killed simplex must be live before anything changes
        let mut q: usize = 0;
        while q < update.killed_sites.len()
            invariant
                q <= update.killed_sites.len(),
                start == self.simplex_map(),
                forall|x: int| 0 <= x < q ==> start.contains_key(#[trigger] update.killed_sites@[x]),
            decreases update.killed_sites.len() - q,
        {
            if simplex_get(&self.simplices, update.killed_sites[q]).is_none() {
                assert(!start.contains_key(update.killed_sites@[q as int]));
                return Err(IntegrityError::MissingSimplex(update.killed_sites[q]));
            }
            q += 1;
        }
        // the new vertex
        let vertex_id = vertex_len(&self.vertices);
        vertex_insert(&mut self.vertices, vertex_id, Vertex { simplex: Vec::new() });
        let ghost vgrown = self.vertex_map();
        assert(!vstart.contains_key(vertex_id));
        assert(vgrown == vstart.insert(vertex_id, Seq::<usize>::empty()));
        assert(vertices_kept(vstart, vgrown, start, *update));
        // the new simplices, each linked to its exterior neighbour
        let mut t: usize = 0;
        while t < n_new
            invariant
                forall|x: int| 0 <= x < update.killed_sites.len() ==> start.contains_key(#[trigger] update.killed_sites@[x]),
                old(self).wf(),
                update.numbered(),
                n_new == update.simplices.len(),
                old(self).max_simplex_id <= base,
                base + n_new <= usize::MAX,
                self.max_simplex_id == old(self).max_simplex_id,
                start == old(self).simplex_map(),
                vgrown == self.vertex_map(),
                vertices_kept(vstart, vgrown, start, *update),
                vstart == old(self).vertex_map(),
                t <= n_new,
                self.simplex_map().dom().finite(),
                forall|s: usize| #[trigger] self.simplex_map().contains_key(s) <==> start.contains_key(s) || (base < s <= base + t),
                forall|s: usize| #[trigger] start.contains_key(s) ==> self.simplex_map()[s] == start[s],
                forall|x: int| 0 <= x < t ==> #[trigger] self.simplex_map()[(base + x + 1) as usize].0 == update.simplices@[x]@,
                forall|x: int| 0 <= x < t ==> #[trigger] self.simplex_map()[(base + x + 1) as usize].1 == facet_links(*update, base, x, 0),
            decreases n_new - t,
        {
            let id = base + update.simplices_id[t];
            let mut links: Vec<usize> = Vec::new();
            links.push(update.neighbors[t].0);
            assert(links@ =~= facet_links(*update, base, t as int, 0));
            simplex_insert(&mut self.simplices, id, Simplex { vertices: update.simplices[t].clone(), neighbors: links });
            t += 1;
        }
        let ghost grown = self.simplex_map();
        assert(staged(start, grown, base, *update));
        assert(new_links(grown, base, *update, 0));
        // exterior neighbours now point at the new simplex instead of the killed one
        let mut t: usize = 0;
        while t < n_new
            invariant
                update.numbered(),
                n_new == update.simplices.len(),
                base + n_new <= usize::MAX,
                self.max_simplex_id == old(self).max_simplex_id,
                vgrown == self.vertex_map(),
                grown.dom().finite(),
                same_corners(self.simplex_map(), grown),
                staged(start, grown, base, *update),
                start == old(self).simplex_map(),
                vstart == old(self).vertex_map(),
                old(self).wf(),
                update.numbered(),
                vgrown.dom() == vstart.dom().insert(vertex_id),
                vertex_id == vstart.len(),
                vertices_kept(vstart, self.vertex_map(), start, *update),
                start == old(self).simplex_map(),
                old(self).max_simplex_id <= base,
                untouched(start, self.simplex_map(), base, *update),
                t <= n_new,
                relinked(start, self.simplex_map(), base, *update, t as nat),
                exterior_old(*update, base) ==> new_links(self.simplex_map(), base, *update, 0),
            decreases n_new - t,
        {
            let (neighbor_id, killed_id) = update.neighbors[t];
            let new_id = base + update.simplices_id[t];
            let mut neighbor = match simplex_get(&self.simplices, neighbor_id) {
                Some(b) => b,
                None => {
                    assert(update.neighbors@[t as int].0 == neighbor_id);
                    assert(!start.contains_key(neighbor_id));
                    return Err(IntegrityError::MissingSimplex(neighbor_id));
                },
            };
            let ghost before = self.simplex_map();
            let ghost orig = before[neighbor_id].1;
            let ghost redirect = |x: usize| if x == killed_id { new_id } else { x };
            let mut j: usize = 0;
            while j < neighbor.neighbors.len()
                invariant
                    j <= neighbor.neighbors.len(),
                    before.contains_key(neighbor_id),
                    neighbor.vertices@ == before[neighbor_id].0,
                    orig == before[neighbor_id].1,
                    neighbor.neighbors.len() == orig.len(),
                    redirect == (|x: usize| if x == killed_id { new_id } else { x }),
                    forall|i: int| 0 <= i < j ==> #[trigger] neighbor.neighbors@[i] == redirect(orig[i]),
                    forall|i: int| j <= i < orig.len() ==> #[trigger] neighbor.neighbors@[i] == orig[i],
                decreases neighbor.neighbors.len() - j,
            {
                if neighbor.neighbors[j] == killed_id {
                    neighbor.neighbors.set(j, new_id);
                }
                j += 1;
            }
            assert(neighbor.neighbors@ =~= orig.map_values(redirect));
            let ghost pre = self.simplex_map();
            assert(exterior_old(*update, base) ==> neighbor_id <= base) by {
                assert(update.neighbors@[t as int] == (neighbor_id, killed_id));
            }
            simplex_insert(&mut self.simplices, neighbor_id, neighbor);
            assert(self.simplex_map().dom() =~= grown.dom());
            assert(rewired(*update, neighbor_id)) by {
                assert(update.neighbors@[t as int].0 == neighbor_id);
            }
            assert(exterior_old(*update, base) ==> new_links(self.simplex_map(), base, *update, 0)) by {
                if exterior_old(*update, base) {
                    assert forall|x: int| 0 <= x < update.simplices.len()
                        implies #[trigger] self.simplex_map()[(base + x + 1) as usize].1 == facet_links(*update, base, x, 0) by {
                        assert(pre[(base + x + 1) as usize].1 == facet_links(*update, base, x, 0));
                    }
                }
            }
            assert forall|x: usize| #[trigger] start.contains_key(x) && self.simplex_map().contains_key(x)
                implies self.simplex_map()[x].1 == rewire_links(start[x].1, x, *update, base, (t + 1) as nat) by {
                assert(update.neighbors@[t as int] == (neighbor_id, killed_id));
                assert(update.simplices_id@[t as int] == t + 1);
                if x == neighbor_id {
                    assert(before[x].1 == rewire_links(start[x].1, x, *update, base, t as nat));
                    assert(orig.map_values(redirect) =~= rewire_links(start[x].1, x, *update, base, t as nat).map_values(
                        |y: usize| if y == killed_id { (base + (t + 1)) as usize } else { y }));
                }
            }
            t += 1;
        }
        // facet links among the new simplices
        let mut q: usize = 0;
        while q < update.new_neighbors.len()
            invariant
                update.numbered(),
                n_new == update.simplices.len(),
                base + n_new <= usize::MAX,
                self.max_simplex_id == old(self).max_simplex_id,
                vgrown == self.vertex_map(),
                grown.dom().finite(),
                same_corners(self.simplex_map(), grown),
                staged(start, grown, base, *update),
                start == old(self).simplex_map(),
                vstart == old(self).vertex_map(),
                old(self).wf(),
                update.numbered(),
                vgrown.dom() == vstart.dom().insert(vertex_id),
                vertex_id == vstart.len(),
                vertices_kept(vstart, self.vertex_map(), start, *update),
                untouched(start, self.simplex_map(), base, *update),
                relinked(start, self.simplex_map(), base, *update, n_new as nat),
                q <= update.new_neighbors.len(),
                exterior_old(*update, base) ==> new_links(self.simplex_map(), base, *update, q as nat),
            decreases update.new_neighbors.len() - q,
        {
            let (a, b) = update.new_neighbors[q];
            let id_a = base + a;
            assert(1 <= a <= n_new) by {
                assert(update.new_neighbors@[q as int] == (a, b));
            }
            assert(grown.contains_key(id_a));
            let mut sa = match simplex_get(&self.simplices, id_a) {
                Some(x) => x,
                None => {
                    return Err(IntegrityError::MissingSimplex(id_a));
                },
            };
            sa.neighbors.push(base + b);
            assert(1 <= a) by {
                assert(update.new_neighbors@[q as int] == (a, b));
            }
            let ghost pre = self.simplex_map();
            simplex_insert(&mut self.simplices, id_a, sa);
            assert(self.simplex_map().dom() =~= grown.dom());
            assert(exterior_old(*update, base) ==> new_links(self.simplex_map(), base, *update, (q + 1) as nat)) by {
                if exterior_old(*update, base) {
                    assert forall|x: int| 0 <= x < update.simplices.len()
                        implies #[trigger] self.simplex_map()[(base + x + 1) as usize].1 == facet_links(*update, base, x, (q + 1) as nat) by {
                        assert(pre[(base + x + 1) as usize].1 == facet_links(*update, base, x, q as nat));
                        assert(update.new_neighbors@[q as int] == (a, b));
                        if x + 1 == a {
                            assert(self.simplex_map()[(base + x + 1) as usize].1 =~= pre[(base + x + 1) as usize].1.push((base + b) as usize));
                        }
                    }
                }
            }
            q += 1;
        }
        // each corner of a new simplex lists it as incident
        let mut t: usize = 0;
        while t < n_new
            invariant
                update.numbered(),
                n_new == update.simplices.len(),
                base + n_new <= usize::MAX,
                self.max_simplex_id == old(self).max_simplex_id,
                vgrown.dom() == self.vertex_map().dom(),
                grown.dom().finite(),
                same_corners(self.simplex_map(), grown),
                staged(start, grown, base, *update),
                start == old(self).simplex_map(),
                vstart == old(self).vertex_map(),
                old(self).wf(),
                update.numbered(),
                vgrown.dom() == vstart.dom().insert(vertex_id),
                vertex_id == vstart.len(),
                vertices_kept(vstart, self.vertex_map(), start, *update),
                untouched(start, self.simplex_map(), base, *update),
                relinked(start, self.simplex_map(), base, *update, n_new as nat),
                exterior_old(*update, base) ==> new_links(self.simplex_map(), base, *update, update.new_neighbors.len() as nat),
                t <= n_new,
                listed_new(self.vertex_map(), base, *update, t as int, 0),
                lists_grown(vgrown, self.vertex_map(), *update, base, t as int, 0),
            decreases n_new - t,
        {
            let new_id = base + update.simplices_id[t];
            let corners = &update.simplices[t];
            let mut c: usize = 0;
            while c < corners.len()
                invariant
                    c <= corners.len(),
                    self.max_simplex_id == old(self).max_simplex_id,
                    vgrown.dom() == self.vertex_map().dom(),
                    same_corners(self.simplex_map(), grown),
                    staged(start, grown, base, *update),
                    start == old(self).simplex_map(),
                    vstart == old(self).vertex_map(),
                    old(self).wf(),
                    update.numbered(),
                    vgrown.dom() == vstart.dom().insert(vertex_id),
                    vertex_id == vstart.len(),
                    vertices_kept(vstart, self.vertex_map(), start, *update),
                    untouched(start, self.simplex_map(), base, *update),
                    relinked(start, self.simplex_map(), base, *update, n_new as nat),
                    exterior_old(*update, base) ==> new_links(self.simplex_map(), base, *update, update.new_neighbors.len() as nat),
                    t < n_new,
                    n_new == update.simplices.len(),
                    corners == &update.simplices@[t as int],
                    new_id == base + t + 1,
                    listed_new(self.vertex_map(), base, *update, t as int, c as int),
                    lists_grown(vgrown, self.vertex_map(), *update, base, t as int, c as int),
                decreases corners.len() - c,
            {
                let mut vx = match vertex_get(&self.vertices, corners[c]) {
                    Some(x) => x,
                    None => {
                        proof {
                            assert(corners@[c as int] == update.simplices@[t as int]@[c as int]);
                            if old(self).ready_for(*update) {
                                assert(corners@[c as int] <= vstart.len());
                                if corners@[c as int] < vstart.len() {
                                    assert(vstart.contains_key(corners@[c as int]));
                                }
                                assert(vgrown.dom().contains(corners@[c as int]));
                            }
                        }
                        return Err(IntegrityError::MissingVertex(corners[c]));
                    },
                };
                let ghost vm = self.vertex_map();
                proof {
                    lemma_push_contains(vx.simplex@, new_id);
                }
                vx.simplex.push(new_id);
                assert(vertex_touched(start, *update, corners@[c as int])) by {
                    assert(update.simplices@[t as int]@[c as int] == corners@[c as int]);
                }
                vertex_insert(&mut self.vertices, corners[c], vx);
                assert(self.vertex_map().dom() =~= vgrown.dom());
                assert forall|x: int, j: int|
                    0 <= x < update.simplices.len() && 0 <= j < update.simplices@[x]@.len() && (x < t || (x == t && j < c + 1))
                        implies #[trigger] self.vertex_map()[update.simplices@[x]@[j]].contains((base + x + 1) as usize) by {
                    if !(x == t && j == c) {
                        assert(vm[update.simplices@[x]@[j]].contains((base + x + 1) as usize));
                    }
                }
                assert forall|v: usize, y: usize| #[trigger] vgrown.contains_key(v) implies (#[trigger] self.vertex_map()[v].contains(y)
                    <==> vgrown[v].contains(y) || added_before(*update, base, v, y, t as int, c as int + 1)) by {
                    let w = corners@[c as int];
                    assert(update.simplices@[t as int]@[c as int] == w);
                    if added_before(*update, base, v, y, t as int, c as int + 1) && !added_before(*update, base, v, y, t as int, c as int) {
                        let (x, j) = choose|x: int, j: int|
                            0 <= x < update.simplices.len() && 0 <= j < update.simplices@[x]@.len() && (x < t || (x == t && j < c + 1))
                                && #[trigger] update.simplices@[x]@[j] == v && y == (base + x + 1) as usize;
                        assert(x == t && j == c);
                    }
                    if v == w {
                        assert(self.vertex_map()[v] == vm[v].push(new_id));
                        if y == new_id {
                            assert(added_before(*update, base, v, y, t as int, c as int + 1));
                        }
                        if added_before(*update, base, v, y, t as int, c as int) {
                            let (x, j) = choose|x: int, j: int|
                                0 <= x < update.simplices.len() && 0 <= j < update.simplices@[x]@.len() && (x < t || (x == t && j < c))
                                    && #[trigger] update.simplices@[x]@[j] == v && y == (base + x + 1) as usize;
                            assert(added_before(*update, base, v, y, t as int, c as int + 1));
                        }
                    } else {
                        assert(self.vertex_map()[v] == vm[v]);
                        if added_before(*update, base, v, y, t as int, c as int) {
                            let (x, j) = choose|x: int, j: int|
                                0 <= x < update.simplices.len() && 0 <= j < update.simplices@[x]@.len() && (x < t || (x == t && j < c))
                                    && #[trigger] update.simplices@[x]@[j] == v && y == (base + x + 1) as usize;
                            assert(added_before(*update, base, v, y, t as int, c as int + 1));
                        }
                    }
                }
                c += 1;
            }
            assert forall|v: usize, y: usize| #[trigger] vgrown.contains_key(v) implies (#[trigger] self.vertex_map()[v].contains(y)
                <==> vgrown[v].contains(y) || added_before(*update, base, v, y, t as int + 1, 0)) by {
                if added_before(*update, base, v, y, t as int + 1, 0) {
                    let (x, j) = choose|x: int, j: int|
                        0 <= x < update.simplices.len() && 0 <= j < update.simplices@[x]@.len() && (x < t + 1 || (x == t + 1 && j < 0))
                            && #[trigger] update.simplices@[x]@[j] == v && y == (base + x + 1) as usize;
                    assert(added_before(*update, base, v, y, t as int, corners.len() as int));
                }
                if added_before(*update, base, v, y, t as int, corners.len() as int) {
                    let (x, j) = choose|x: int, j: int|
                        0 <= x < update.simplices.len() && 0 <= j < update.simplices@[x]@.len() && (x < t || (x == t && j < corners.len()))
                            && #[trigger] update.simplices@[x]@[j] == v && y == (base + x + 1) as usize;
                    assert(added_before(*update, base, v, y, t as int + 1, 0));
                }
            }
            t += 1;
        }
        // corners of killed simplices forget them; then the killed simplices go
        let ghost vfive = self.vertex_map();
        let mut q: usize = 0;
        while q < update.killed_sites.len()
            invariant
                self.max_simplex_id == old(self).max_simplex_id,
                vgrown.dom() == self.vertex_map().dom(),
                grown.dom().finite(),
                same_corners(self.simplex_map(), grown),
                staged(start, grown, base, *update),
                start == old(self).simplex_map(),
                vstart == old(self).vertex_map(),
                old(self).wf(),
                update.numbered(),
                vgrown.dom() == vstart.dom().insert(vertex_id),
                vertex_id == vstart.len(),
                vertices_kept(vstart, self.vertex_map(), start, *update),
                untouched(start, self.simplex_map(), base, *update),
                relinked(start, self.simplex_map(), base, *update, update.neighbors.len() as nat),
                exterior_old(*update, base) ==> new_links(self.simplex_map(), base, *update, update.new_neighbors.len() as nat),
                q <= update.killed_sites.len(),
                base + update.simplices.len() <= usize::MAX,
                listed_new(self.vertex_map(), base, *update, update.simplices.len() as int, 0),
                forgotten(self.vertex_map(), start, *update, q as int),
                vfive.dom() == vgrown.dom(),
                lists_pruned(vfive, self.vertex_map(), start, *update, q as int, 0),
                lists_grown(vgrown, vfive, *update, base, n_new as int, 0),
            decreases update.killed_sites.len() - q,
        {
            let k = update.killed_sites[q];
            assert(start.contains_key(k));
            assert(grown.contains_key(k));
            let killed = match simplex_get(&self.simplices, k) {
                Some(x) => x,
                None => {
                    return Err(IntegrityError::MissingSimplex(k));
                },
            };
            let mut c: usize = 0;
            while c < killed.vertices.len()
                invariant
                    c <= killed.vertices.len(),
                    self.max_simplex_id == old(self).max_simplex_id,
                    vgrown.dom() == self.vertex_map().dom(),
                    same_corners(self.simplex_map(), grown),
                    staged(start, grown, base, *update),
                    start == old(self).simplex_map(),
                    vstart == old(self).vertex_map(),
                    old(self).wf(),
                    update.numbered(),
                    vgrown.dom() == vstart.dom().insert(vertex_id),
                    vertex_id == vstart.len(),
                    vertices_kept(vstart, self.vertex_map(), start, *update),
                    untouched(start, self.simplex_map(), base, *update),
                    relinked(start, self.simplex_map(), base, *update, update.neighbors.len() as nat),
                    exterior_old(*update, base) ==> new_links(self.simplex_map(), base, *update, update.new_neighbors.len() as nat),
                    q < update.killed_sites.len(),
                    k == update.killed_sites@[q as int],
                    start.contains_key(k),
                    killed.vertices@ == start[k].0,
                    listed_new(self.vertex_map(), base, *update, update.simplices.len() as int, 0),
                    forgotten(self.vertex_map(), start, *update, q as int),
                    vfive.dom() == vgrown.dom(),
                    lists_pruned(vfive, self.vertex_map(), start, *update, q as int, c as int),
                    base + update.simplices.len() <= usize::MAX,
                    forall|j: int| 0 <= j < c ==> self.vertex_map().contains_key(#[trigger] killed.vertices@[j])
                        && !self.vertex_map()[killed.vertices@[j]].contains(k),
                decreases killed.vertices.len() - c,
            {
                let vid = killed.vertices[c];
                let vx = match vertex_get(&self.vertices, vid) {
                    Some(x) => x,
                    None => {
                        proof {
                            if old(self).ready_for(*update) {
                                assert(start[update.killed_sites@[q as int]].0.contains(vid)) by {
                                    assert(killed.vertices@[c as int] == vid);
                                }
                                assert(vstart.contains_key(vid));
                            }
                        }
                        return Err(IntegrityError::MissingVertex(vid));
                    },
                };
                let kept = without_id(&vx.simplex, k);
                let ghost vm = self.vertex_map();
                assert(vertex_touched(start, *update, vid)) by {
                    assert(killed.vertices@[c as int] == vid);
                    assert(start[update.killed_sites@[q as int]].0.contains(vid));
                }
                vertex_insert(&mut self.vertices, vid, Vertex { simplex: kept });
                assert(self.vertex_map().dom() =~= vgrown.dom());
                proof {
                    assert forall|x: int, j: int|
                        0 <= x < update.simplices.len() && 0 <= j < update.simplices@[x]@.len()
                            && (x < update.simplices.len() || (x == update.simplices.len() && j < 0))
                            implies #[trigger] self.vertex_map()[update.simplices@[x]@[j]].contains((base + x + 1) as usize) by {
                        assert(vm[update.simplices@[x]@[j]].contains((base + x + 1) as usize));
                        assert(k <= base);
                        assert(kept@.contains((base + x + 1) as usize) <==> vx.simplex@.contains((base + x + 1) as usize));
                    }
                    assert forall|x: int, v: usize|
                        0 <= x < q && #[trigger] start[update.killed_sites@[x]].0.contains(v)
                            implies self.vertex_map().contains_key(v) && !self.vertex_map()[v].contains(update.killed_sites@[x]) by {
                        assert(vm.contains_key(v) && !vm[v].contains(update.killed_sites@[x]));
                        assert(kept@.contains(update.killed_sites@[x]) ==> vx.simplex@.contains(update.killed_sites@[x]));
                    }
                    assert forall|j: int| 0 <= j < c + 1 implies self.vertex_map().contains_key(#[trigger] killed.vertices@[j])
                        && !self.vertex_map()[killed.vertices@[j]].contains(k) by {
                        if j < c {
                            assert(!vm[killed.vertices@[j]].contains(k));
                        }
                    }
                    assert(start[update.killed_sites@[q as int]].0[c as int] == vid);
                    assert forall|v: usize, y: usize| #[trigger] vfive.contains_key(v) implies (#[trigger] self.vertex_map()[v].contains(y)
                        <==> vfive[v].contains(y) && !removed_before(start, *update, v, y, q as int, c as int + 1)) by {
                        if removed_before(start, *update, v, y, q as int, c as int + 1) && !removed_before(start, *update, v, y, q as int, c as int) {
                            let (x, j) = choose|x: int, j: int|
                                0 <= x < update.killed_sites.len() && (x < q || (x == q && j < c + 1)) && update.killed_sites@[x] == y
                                    && 0 <= j < start[y].0.len() && #[trigger] start[update.killed_sites@[x]].0[j] == v;
                            assert(x == q && j == c);
                        }
                        if v == vid {
                            assert(self.vertex_map()[v] == kept@);
                            if y == k {
                                assert(removed_before(start, *update, v, y, q as int, c as int + 1));
                            }
                        } else {
                            assert(self.vertex_map()[v] == vm[v]);
                        }
                        if removed_before(start, *update, v, y, q as int, c as int) {
                            let (x, j) = choose|x: int, j: int|
                                0 <= x < update.killed_sites.len() && (x < q || (x == q && j < c)) && update.killed_sites@[x] == y
                                    && 0 <= j < start[y].0.len() && #[trigger] start[update.killed_sites@[x]].0[j] == v;
                            assert(removed_before(start, *update, v, y, q as int, c as int + 1));
                        }
                    }
                }
                c += 1;
            }
            proof {
                assert forall|v: usize, y: usize| #[trigger] vfive.contains_key(v) implies (#[trigger] self.vertex_map()[v].contains(y)
                    <==> vfive[v].contains(y) && !removed_before(start, *update, v, y, q as int + 1, 0)) by {
                    if removed_before(start, *update, v, y, q as int + 1, 0) {
                        let (x, j) = choose|x: int, j: int|
                            0 <= x < update.killed_sites.len() && (x < q + 1 || (x == q + 1 && j < 0)) && update.killed_sites@[x] == y
                                && 0 <= j < start[y].0.len() && #[trigger] start[update.killed_sites@[x]].0[j] == v;
                        assert(removed_before(start, *update, v, y, q as int, killed.vertices.len() as int));
                    }
                    if removed_before(start, *update, v, y, q as int, killed.vertices.len() as int) {
                        let (x, j) = choose|x: int, j: int|
                            0 <= x < update.killed_sites.len() && (x < q || (x == q && j < killed.vertices.len())) && update.killed_sites@[x] == y
                                && 0 <= j < start[y].0.len() && #[trigger] start[update.killed_sites@[x]].0[j] == v;
                        assert(removed_before(start, *update, v, y, q as int + 1, 0));
                    }
                }
                assert forall|x: int, v: usize|
                    0 <= x < q + 1 && #[trigger] start[update.killed_sites@[x]].0.contains(v)
                        implies self.vertex_map().contains_key(v) && !self.vertex_map()[v].contains(update.killed_sites@[x]) by {
                    if x == q {
                        let j = choose|j: int| 0 <= j < killed.vertices@.len() && killed.vertices@[j] == v;
                        assert(self.vertex_map().contains_key(killed.vertices@[j]));
                    }
                }
            }
            q += 1;
        }
        let ghost stitched = self.simplex_map();
        let mut q: usize = 0;
        while q < update.killed_sites.len()
            invariant
                q <= update.killed_sites.len(),
                self.max_simplex_id == old(self).max_simplex_id,
                stitched.dom().finite(),
                same_corners(stitched, grown),
                untouched(start, stitched, base, *update),
                relinked(start, self.simplex_map(), base, *update, update.neighbors.len() as nat),
                exterior_old(*update, base) ==> new_links(stitched, base, *update, update.new_neighbors.len() as nat),
                vfive.dom() == vgrown.dom(),
                lists_pruned(vfive, self.vertex_map(), start, *update, update.killed_sites.len() as int, 0),
                lists_grown(vgrown, vfive, *update, base, n_new as int, 0),
                vgrown == vstart.insert(vertex_id, Seq::<usize>::empty()),
                start == old(self).simplex_map(),
                base + update.simplices.len() <= usize::MAX,
                listed_new(self.vertex_map(), base, *update, update.simplices.len() as int, 0),
                forgotten(self.vertex_map(), start, *update, update.killed_sites.len() as int),
                staged(start, grown, base, *update),
                start == old(self).simplex_map(),
                vstart == old(self).vertex_map(),
                old(self).wf(),
                update.numbered(),
                vgrown.dom() == vstart.dom().insert(vertex_id),
                vertex_id == vstart.len(),
                vertices_kept(vstart, self.vertex_map(), start, *update),
                vgrown.dom() == self.vertex_map().dom(),
                self.simplex_map().dom().finite(),
                forall|s: usize| #[trigger] self.simplex_map().contains_key(s) <==> stitched.contains_key(s)
                    && !update.killed_sites@.take(q as int).contains(s),
                forall|s: usize| #[trigger] self.simplex_map().contains_key(s) ==> self.simplex_map()[s] == stitched[s],
            decreases update.killed_sites.len() - q,
        {
            simplex_remove(&mut self.simplices, update.killed_sites[q]);
            proof {
                let kq = update.killed_sites@.take(q as int);
                let kq1 = update.killed_sites@.take(q as int + 1);
                assert forall|s: usize| kq1.contains(s) <==> kq.contains(s) || s == update.killed_sites@[q as int] by {
                    if kq1.contains(s) {
                        let x = choose|x: int| 0 <= x < kq1.len() && kq1[x] == s;
                        if x < q {
                            assert(kq[x] == s);
                        }
                    }
                    if kq.contains(s) {
                        let x = choose|x: int| 0 <= x < kq.len() && kq[x] == s;
                        assert(kq1[x] == s);
                    }
                    if s == update.killed_sites@[q as int] {
                        assert(kq1[q as int] == s);
                    }
                }
            }
            q += 1;
        }
        proof {
            assert(update.killed_sites@.take(update.killed_sites.len() as int) =~= update.killed_sites@);
            assert forall|v: usize, y: usize| #[trigger] vgrown.contains_key(v)
                implies (#[trigger] self.vertex_map()[v].contains(y) <==> incident_after(vgrown[v], start, *update, base, v, y)) by {
                assert(vfive.contains_key(v));
                if added_before(*update, base, v, y, update.simplices.len() as int, 0) {
                    let (x, j) = choose|x: int, j: int|
                        0 <= x < update.simplices.len() && 0 <= j < update.simplices@[x]@.len() && (x < update.simplices.len() || (x == update.simplices.len() && j < 0))
                            && #[trigger] update.simplices@[x]@[j] == v && y == (base + x + 1) as usize;
                    if removed_before(start, *update, v, y, update.killed_sites.len() as int, 0) {
                        let (x2, j2) = choose|x2: int, j2: int|
                            0 <= x2 < update.killed_sites.len() && (x2 < update.killed_sites.len() || (x2 == update.killed_sites.len() && j2 < 0))
                                && update.killed_sites@[x2] == y && 0 <= j2 < start[y].0.len() && #[trigger] start[update.killed_sites@[x2]].0[j2] == v;
                        assert(start.contains_key(update.killed_sites@[x2]));
                    }
                }
            }
            assert forall|v: usize, y: usize| #[trigger] vstart.contains_key(v)
                implies (#[trigger] self.vertex_map()[v].contains(y) <==> incident_after(vstart[v], start, *update, base, v, y)) by {
                assert(vgrown.contains_key(v));
                assert(vgrown[v] == vstart[v]);
            }
            assert(vgrown.contains_key(vertex_id));
            assert(vgrown[vertex_id] =~= Seq::<usize>::empty());
            assert forall|s: usize| #[trigger] update.killed_sites@.contains(s) implies s <= old(self).max_simplex_id by {
                let x = choose|x: int| 0 <= x < update.killed_sites@.len() && update.killed_sites@[x] == s;
                assert(start.contains_key(update.killed_sites@[x]));
            }
            if exterior_old(*update, base) {
                assert forall|x: int| 0 <= x < update.simplices.len()
                    implies #[trigger] self.simplex_map()[(base + x + 1) as usize].1
                        == facet_links(*update, base, x, update.new_neighbors.len() as nat) by {
                    let id = (base + x + 1) as usize;
                    assert(grown.contains_key(id));
                    if update.killed_sites@.contains(id) {
                        let y = choose|y: int| 0 <= y < update.killed_sites@.len() && update.killed_sites@[y] == id;
                        assert(start.contains_key(update.killed_sites@[y]));
                        assert(id <= base);
                    }
                    assert(!update.killed_sites@.contains(id));
                    assert(stitched.contains_key(id));
                    assert(self.simplex_map().contains_key(id));
                    assert(self.simplex_map()[id] == stitched[id]);
                    assert(stitched[id].1 == facet_links(*update, base, x, update.new_neighbors.len() as nat));
                }
            }
            assert forall|s: usize| #[trigger] start.contains_key(s) && !update.killed_sites@.contains(s)
                implies self.simplex_map()[s].0 == start[s].0 by {
                assert(grown.contains_key(s));
                assert(stitched.contains_key(s));
                assert(self.simplex_map().contains_key(s));
            }
            assert(self.simplex_map().dom().finite()) by {
                assert(self.simplex_map().dom().subset_of(stitched.dom()));
                vstd::set_lib::lemma_len_subset(self.simplex_map().dom(), stitched.dom());
            }
            assert forall|x: int| 0 <= x < update.simplices.len()
                implies #[trigger] self.simplex_map()[(base + x + 1) as usize].0 == update.simplices@[x]@ by {
                let id = (base + x + 1) as usize;
                assert(grown.contains_key(id));
                assert(grown[id].0 == update.simplices@[x]@);
                if update.killed_sites@.contains(id) {
                    let y = choose|y: int| 0 <= y < update.killed_sites@.len() && update.killed_sites@[y] == id;
                    assert(start.contains_key(update.killed_sites@[y]));
                    assert(id <= base);
                }
                assert(!update.killed_sites@.contains(id));
                assert(stitched.contains_key(id));
                assert(self.simplex_map().contains_key(id));
                assert(self.simplex_map()[id] == stitched[id]);
                assert(stitched[id].0 == grown[id].0);
                assert(exterior_old(*update, base) ==> self.simplex_map()[id].1
                    == facet_links(*update, base, x, update.new_neighbors.len() as nat));
            }
        }
        Ok(())
    }
}

/// Sum of the entries of `s`.
pub open spec fn total(s: Seq<usize>) -> nat
    decreases s.len(),
{
    if s.len() == 0 {
        0
    } else {
        total(s.drop_last()) + s.last() as nat
    }
}

/// A prefix never sums to more than the whole.
proof fn lemma_total_prefix(s: Seq<usize>, i: int)
    requires
        0 <= i <= s.len(),
    ensures
        total(s.take(i)) <= total(s),
    decreases s.len() - i,
{
    if i < s.len() {
        lemma_total_prefix(s, i + 1);
        assert(s.take(i + 1).drop_last() =~= s.take(i));
    } else {
        assert(s.take(i) =~= s);
    }
}

/// `v` without any occurrence of `k`.
pub fn without_id(v: &Vec<usize>, k: usize) -> (r: Vec<usize>)
    ensures
        forall|y: usize| #[trigger] r@.contains(y) <==> v@.contains(y) && y != k,
        r@ == v@.filter(|y: usize| y != k),
{
    let mut kept: Vec<usize> = Vec::new();
    let mut e: usize = 0;
    while e < v.len()
        invariant
            e <= v.len(),
            forall|y: usize| #[trigger] kept@.contains(y) <==> v@.take(e as int).contains(y) && y != k,
            kept@ == v@.take(e as int).filter(|y: usize| y != k),
        decreases v.len() - e,
    {
        proof {
            assert(v@.take(e as int + 1).drop_last() =~= v@.take(e as int));
            reveal(Seq::filter);
        }
        proof {
            lemma_take_next(v@, e as int);
            lemma_push_contains(kept@, v@[e as int]);
        }
        if v[e] != k {
            kept.push(v[e]);
        }
        e += 1;
    }
    assert(v@.take(v.len() as int) =~= v@);
    kept
}

/// Number of new simplices of each update.
pub open spec fn sizes<const N: usize, const M: usize>(updates: Seq<TreeUpdate<N, M>>) -> Seq<usize> {
    updates.map_values(|u: TreeUpdate<N, M>| u.simplices.len())
}

/// Start offsets of consecutive id ranges of the given lengths: `r[i]` is the sum of the
/// first `i` lengths, so `r` has one entry more than `lens` and its last entry is the total.
pub fn prefix_offsets(lens: &Vec<usize>) -> (r: Vec<usize>)
    requires
        total(lens@) <= usize::MAX,
    ensures
        r.len() == lens.len() + 1,
        forall|i: int| 0 <= i <= lens.len() ==> #[trigger] r@[i] == total(lens@.take(i)),
{
    let mut r: Vec<usize> = Vec::new();
    let mut acc: usize = 0;
    r.push(0);
    assert(lens@.take(0) =~= Seq::<usize>::empty());
    let mut i: usize = 0;
    while i < lens.len()
        invariant
            total(lens@) <= usize::MAX,
            i <= lens.len(),
            r.len() == i + 1,
            acc == total(lens@.take(i as int)),
            forall|k: int| 0 <= k <= i ==> #[trigger] r@[k] == total(lens@.take(k)),
        decreases lens.len() - i,
    {
        proof {
            assert(lens@.take(i as int + 1).drop_last() =~= lens@.take(i as int));
            lemma_total_prefix(lens@, i as int + 1);
        }
        acc = acc + lens[i];
        r.push(acc);
        i += 1;
    }
    r
}

/// Id of new simplex `x` of update `w` in a wave committed on top of `start`: the updates
/// before `w` take the ids just above `start`.
pub open spec fn wave_id<const N: usize, const M: usize>(start: usize, updates: Seq<TreeUpdate<N, M>>, w: int, x: int) -> usize {
    (start + total(sizes(updates).take(w)) + x + 1) as usize
}

/// In `now`, the new simplices of every update before `u` stand under their wave ids with
/// their corners.
pub open spec fn wave_placed<const N: usize, const M: usize>(
    now: Map<usize, SimplexModel>,
    start: usize,
    updates: Seq<TreeUpdate<N, M>>,
    u: int,
) -> bool {
    forall|w: int, x: int| 0 <= w < u && 0 <= x < updates[w].simplices.len()
        ==> now.contains_key(#[trigger] wave_id(start, updates, w, x))
            && now[wave_id(start, updates, w, x)].0 == updates[w].simplices@[x]@
}

/// Committing update `u` keeps the earlier updates' simplices in place and adds its own.
proof fn lemma_wave_placed<const N: usize, const M: usize>(
    pre: Map<usize, SimplexModel>,
    post: Map<usize, SimplexModel>,
    start: usize,
    updates: Seq<TreeUpdate<N, M>>,
    u: int,
)
    requires
        0 <= u < updates.len(),
        start + total(sizes(updates)) <= usize::MAX,
        wave_placed(pre, start, updates, u),
        forall|s: usize| #[trigger] pre.contains_key(s) && !updates[u].killed_sites@.contains(s)
            ==> post.contains_key(s) && post[s].0 == pre[s].0,
        forall|s: usize| #[trigger] updates[u].killed_sites@.contains(s) ==> s <= start,
        forall|t: int| 0 <= t < updates[u].simplices.len() ==> post.contains_key(#[trigger] wave_id(start, updates, u, t))
            && post[wave_id(start, updates, u, t)].0 == updates[u].simplices@[t]@,
    ensures
        wave_placed(post, start, updates, u + 1),
{
    let sz = sizes(updates);
    assert forall|w: int, x: int| 0 <= w < u + 1 && 0 <= x < updates[w].simplices.len()
        implies post.contains_key(#[trigger] wave_id(start, updates, w, x))
            && post[wave_id(start, updates, w, x)].0 == updates[w].simplices@[x]@ by {
        if w < u {
            let id = wave_id(start, updates, w, x);
            assert(pre.contains_key(id) && pre[id].0 == updates[w].simplices@[x]@);
            lemma_total_prefix(sz, w + 1);
            lemma_total_prefix(sz, u);
            assert(sz.take(w + 1).drop_last() =~= sz.take(w));
            assert(sz[w] == updates[w].simplices.len());
            lemma_total_mono(sz, w + 1, u);
            assert(id > start);
            if updates[u].killed_sites@.contains(id) {
                assert(id <= start);
            }
        } else {
            assert(post.contains_key(wave_id(start, updates, u, x)));
        }
    }
}

/// Sums of prefixes grow with the prefix.
proof fn lemma_total_mono(s: Seq<usize>, i: int, j: int)
    requires
        0 <= i <= j <= s.len(),
    ensures
        total(s.take(i)) <= total(s.take(j)),
    decreases j - i,
{
    if i < j {
        lemma_total_mono(s, i, j - 1);
        assert(s.take(j).drop_last() =~= s.take(j - 1));
    }
}

/// Some update before position `u` of the wave kills simplex `s`.
pub open spec fn killed_before<const N: usize, const M: usize>(updates: Seq<TreeUpdate<N, M>>, u: int, s: usize) -> bool {
    exists|w: int| 0 <= w < u && #[trigger] updates[w].killed_sites@.contains(s)
}

/// Update `u` of the wave can be committed after those before it: what it kills and
/// redirects is live in `t` and killed by no earlier update, its new corners are known
/// vertices or the vertices the wave adds up to its own, and the corners of what it kills
/// are known vertices of `t`.
pub open spec fn wave_ready_at<const N: usize, const M: usize>(
    t: DelaunayTree<N, M>,
    updates: Seq<TreeUpdate<N, M>>,
    u: int,
) -> bool {
    let up = updates[u];
    &&& forall|x: int| 0 <= x < up.killed_sites.len() ==> t.simplex_map().contains_key(#[trigger] up.killed_sites@[x])
        && !killed_before(updates, u, up.killed_sites@[x])
    &&& forall|x: int| 0 <= x < up.neighbors.len() ==> t.simplex_map().contains_key((#[trigger] up.neighbors@[x]).0)
        && !killed_before(updates, u, up.neighbors@[x].0)
    &&& forall|x: int, j: int| 0 <= x < up.simplices.len() && 0 <= j < up.simplices@[x]@.len()
        ==> #[trigger] up.simplices@[x]@[j] <= t.vertex_total() + u
    &&& forall|x: int, v: usize| 0 <= x < up.killed_sites.len()
        && #[trigger] t.simplex_map()[up.killed_sites@[x]].0.contains(v) ==> t.vertex_map().contains_key(v)
}

/// Every update of the wave can be committed after those before it.
pub open spec fn wave_ready<const N: usize, const M: usize>(t: DelaunayTree<N, M>, updates: Seq<TreeUpdate<N, M>>) -> bool {
    forall|u: int| 0 <= u < updates.len() ==> #[trigger] wave_ready_at(t, updates, u)
}

impl<const N: usize, const M: usize> DelaunayTree<N, M> {
    /// `after` is this store with `update` committed: the new vertex takes the next id, the
    /// new simplices take ids `max_simplex_id + 1 ..` with their corners, the killed simplices
    /// are gone, exterior links point at the new simplices, the new simplices carry their
    /// exterior and facet links, and every incidence list is the old one less the killed
    /// simplices at that corner plus the new simplices at that corner.
    pub open spec fn committed(&self, after: Self, update: TreeUpdate<N, M>) -> bool {
        &&& after.wf()
        &&& after.max_simplex_id == self.max_simplex_id + update.simplices.len()
        &&& after.vertex_total() == self.vertex_total() + 1
        &&& after.vertex_map().dom() == self.vertex_map().dom().insert(self.vertex_total() as usize)
        &&& forall|s: usize| #[trigger] after.simplex_map().contains_key(s) <==> (
            self.simplex_map().contains_key(s) && !update.killed_sites@.contains(s))
                || (self.max_simplex_id < s <= after.max_simplex_id)
        &&& forall|t: int| 0 <= t < update.simplices.len()
            ==> #[trigger] after.simplex_map()[(self.max_simplex_id + t + 1) as usize].0
                == update.simplices@[t]@
        &&& forall|s: usize| #[trigger] self.simplex_map().contains_key(s)
            && !update.killed_sites@.contains(s) && !rewired(update, s)
            ==> after.simplex_map()[s] == self.simplex_map()[s]
        &&& forall|s: usize| #[trigger] self.simplex_map().contains_key(s) && !update.killed_sites@.contains(s)
            ==> after.simplex_map()[s].0 == self.simplex_map()[s].0
        &&& relinked(self.simplex_map(), after.simplex_map(), self.max_simplex_id, update,
            update.neighbors.len() as nat)
        &&& exterior_old(update, self.max_simplex_id) ==> new_links(after.simplex_map(),
            self.max_simplex_id, update, update.new_neighbors.len() as nat)
        &&& listed_new(after.vertex_map(), self.max_simplex_id, update, update.simplices.len() as int, 0)
        &&& vertices_kept(self.vertex_map(), after.vertex_map(), self.simplex_map(), update)
        &&& forgotten(after.vertex_map(), self.simplex_map(), update, update.killed_sites.len() as int)
        &&& forall|v: usize, y: usize| #[trigger] self.vertex_map().contains_key(v)
            ==> (#[trigger] after.vertex_map()[v].contains(y) <==> incident_after(
                self.vertex_map()[v], self.simplex_map(), update, self.max_simplex_id, v, y))
        &&& forall|y: usize| #[trigger] after.vertex_map()[self.vertex_total() as usize].contains(y)
            <==> incident_after(Seq::empty(), self.simplex_map(), update, self.max_simplex_id, self.vertex_total() as usize, y)
    }

    /// Committing an update to a store whose incidence lists agree with its simplices both
    /// ways, and which holds everything the update names, leaves them agreeing.
    pub proof fn lemma_commit_keeps_incidence(&self, after: Self, update: TreeUpdate<N, M>)
        requires
            self.wf(),
            self.incidence_consistent(),
            self.ready_for(update),
            update.numbered(),
            self.max_simplex_id + update.simplices.len() <= usize::MAX,
            self.vertex_total() < usize::MAX,
            self.committed(after, update),
        ensures
            after.incidence_consistent(),
    {
        let base = self.max_simplex_id;
        let nv = self.vertex_total() as usize;
        assert forall|v: usize, s: usize|
            #[trigger] after.vertex_map().contains_key(v) && #[trigger] after.vertex_map()[v].contains(s)
                implies after.simplex_map().contains_key(s) && after.simplex_map()[s].0.contains(v) by {
            let before_list = if v == nv { Seq::<usize>::empty() } else { self.vertex_map()[v] };
            if v != nv {
                assert(self.vertex_map().contains_key(v));
            }
            assert(incident_after(before_list, self.simplex_map(), update, base, v, s));
            if before_list.contains(s) {
                assert(self.simplex_map().contains_key(s) && self.simplex_map()[s].0.contains(v));
                if update.killed_sites@.contains(s) {
                    let x = choose|x: int| 0 <= x < update.killed_sites.len() && update.killed_sites@[x] == s;
                    let j = choose|j: int| 0 <= j < self.simplex_map()[s].0.len() && self.simplex_map()[s].0[j] == v;
                    assert(self.simplex_map()[update.killed_sites@[x]].0[j] == v);
                    assert(removed_before(self.simplex_map(), update, v, s, update.killed_sites.len() as int, 0));
                }
            } else {
                let (x, j) = choose|x: int, j: int|
                    0 <= x < update.simplices.len() && 0 <= j < update.simplices@[x]@.len()
                        && (x < update.simplices.len() || (x == update.simplices.len() && j < 0))
                        && #[trigger] update.simplices@[x]@[j] == v && s == (base + x + 1) as usize;
                assert(after.simplex_map()[(base + x + 1) as usize].0 == update.simplices@[x]@);
                assert(update.simplices@[x]@[j] == v);
            }
        }
        assert forall|s: usize, v: usize|
            #[trigger] after.simplex_map().contains_key(s) && #[trigger] after.simplex_map()[s].0.contains(v)
                implies after.vertex_map().contains_key(v) && after.vertex_map()[v].contains(s) by {
            if base < s <= after.max_simplex_id {
                let x = s - base - 1;
                assert(s == (base + x + 1) as usize);
                assert(after.simplex_map()[(base + x + 1) as usize].0 == update.simplices@[x]@);
                let j = choose|j: int| 0 <= j < update.simplices@[x]@.len() && update.simplices@[x]@[j] == v;
                assert(update.simplices@[x]@[j] <= self.vertex_total());
                assert(added_before(update, base, v, s, update.simplices.len() as int, 0));
                if removed_before(self.simplex_map(), update, v, s, update.killed_sites.len() as int, 0) {
                    let (x2, j2) = choose|x2: int, j2: int|
                        0 <= x2 < update.killed_sites.len() && (x2 < update.killed_sites.len() || (x2 == update.killed_sites.len() && j2 < 0))
                            && update.killed_sites@[x2] == s && 0 <= j2 < self.simplex_map()[s].0.len()
                            && #[trigger] self.simplex_map()[update.killed_sites@[x2]].0[j2] == v;
                    assert(self.simplex_map().contains_key(update.killed_sites@[x2]));
                }
                if v == nv {
                    assert(after.vertex_map().contains_key(v));
                    assert(incident_after(Seq::empty(), self.simplex_map(), update, base, v, s));
                } else {
                    assert(self.vertex_map().contains_key(v));
                    assert(incident_after(self.vertex_map()[v], self.simplex_map(), update, base, v, s));
                }
            } else {
                assert(self.simplex_map().contains_key(s) && !update.killed_sites@.contains(s));
                assert(self.simplex_map()[s].0.contains(v));
                assert(self.vertex_map().contains_key(v) && self.vertex_map()[v].contains(s));
                if removed_before(self.simplex_map(), update, v, s, update.killed_sites.len() as int, 0) {
                    let (x2, j2) = choose|x2: int, j2: int|
                        0 <= x2 < update.killed_sites.len() && (x2 < update.killed_sites.len() || (x2 == update.killed_sites.len() && j2 < 0))
                            && update.killed_sites@[x2] == s && 0 <= j2 < self.simplex_map()[s].0.len()
                            && #[trigger] self.simplex_map()[update.killed_sites@[x2]].0[j2] == v;
                    assert(update.killed_sites@.contains(s));
                }
                assert(incident_after(self.vertex_map()[v], self.simplex_map(), update, base, v, s));
            }
        }
    }

    /// `states` runs from this store to `after`, each step committing the next update.
    pub open spec fn wave_committed(&self, after: Self, updates: Seq<TreeUpdate<N, M>>, states: Seq<Self>) -> bool {
        &&& states.len() == updates.len() + 1
        &&& states[0] == *self
        &&& states[updates.len() as int] == after
        &&& forall|w: int| 0 <= w < updates.len() ==> (#[trigger] states[w]).committed(states[w + 1], updates[w])
    }

    /// Commits one update: the new vertex takes the next vertex id, the new simplices take
    /// ids `max_simplex_id + 1 ..= max_simplex_id + k`, exterior and facet links are
    /// stitched, incidence lists follow, and the killed simplices leave the table.
    pub fn insert_point(&mut self, update: &TreeUpdate<N, M>) -> (r: Result<(), IntegrityError>)
        requires
            old(self).wf(),
            update.numbered(),
            old(self).max_simplex_id + update.simplices.len() <= usize::MAX,
            old(self).vertex_total() < usize::MAX,
            update.vertex_id == old(self).vertex_total(),
        ensures
            old(self).ready_for(*update) ==> r is Ok,
            r is Ok ==> old(self).committed(*final(self), *update),
            r is Ok && old(self).incidence_consistent() && old(self).ready_for(*update)
                ==> final(self).incidence_consistent(),
    {
        let base = self.max_simplex_id;
        let res = self.apply_update(update, base);
        if res.is_err() {
            return res;
        }
        self.max_simplex_id = base + update.simplices.len();
        proof {
            self.lemma_vertex_added(*old(self));
            if old(self).incidence_consistent() && old(self).ready_for(*update) {
                old(self).lemma_commit_keeps_incidence(*self, *update);
            }
        }
        Ok(())
    }

    /// Adding one vertex id to a dense vertex table keeps it dense.
    proof fn lemma_vertex_added(&self, before: Self)
        requires
            before.wf(),
            before.vertex_total() < usize::MAX,
            self.vertex_map().dom() == before.vertex_map().dom().insert(before.vertex_total() as usize),
            self.simplex_map().dom().finite(),
            forall|s: usize| #[trigger] self.simplex_map().contains_key(s) ==> s <= self.max_simplex_id,
        ensures
            self.wf(),
            self.vertex_total() == before.vertex_total() + 1,
    {
        let n = before.vertex_total() as usize;
        assert(!before.vertex_map().contains_key(n));
    }

    /// Commits a wave of updates whose conflict sets are pairwise disjoint. Update `u` gets
    /// vertex id `vertex_total() + u` and the simplex ids after those of the updates before
    /// it, from offsets summed over their sizes; `max_simplex_id` advances by the total.
    pub fn insert_points_parallel(&mut self, updates: &Vec<TreeUpdate<N, M>>) -> (r: Result<(), IntegrityError>)
        requires
            old(self).wf(),
            forall|u: int| 0 <= u < updates.len() ==> (#[trigger] updates@[u]).numbered(),
            old(self).max_simplex_id + total(sizes(updates@)) <= usize::MAX,
            old(self).vertex_total() + updates.len() < usize::MAX,
            forall|u: int| 0 <= u < updates.len() ==> (#[trigger] updates@[u]).vertex_id == old(self).vertex_total() + u,
        ensures
            wave_ready(*old(self), updates@) ==> r is Ok,
            r is Ok ==> exists|states: Seq<Self>| #[trigger] old(self).wave_committed(*final(self), updates@, states),
            wave_ready(*old(self), updates@) && old(self).incidence_consistent() ==> final(self).incidence_consistent(),
            wave_ready(*old(self), updates@) ==> wave_placed(final(self).simplex_map(), old(self).max_simplex_id,
                updates@, updates.len() as int),
            wave_ready(*old(self), updates@) ==> forall|s: usize| #[trigger] final(self).simplex_map().contains_key(s) <==> (
                old(self).simplex_map().contains_key(s) && !killed_before(updates@, updates.len() as int, s))
                    || old(self).max_simplex_id < s <= final(self).max_simplex_id,
            r is Ok ==> {
                &&& final(self).wf()
                &&& final(self).max_simplex_id == old(self).max_simplex_id + total(sizes(updates@))
                &&& final(self).vertex_total() == old(self).vertex_total() + updates.len()
                &&& forall|s: usize| #[trigger] final(self).simplex_map().contains_key(s)
                    ==> old(self).simplex_map().contains_key(s)
                        || old(self).max_simplex_id < s <= final(self).max_simplex_id
            },
            updates.len() == 0 ==> r is Ok && *final(self) == *old(self),
    {
        let mut lens: Vec<usize> = Vec::new();
        let mut u: usize = 0;
        while u < updates.len()
            invariant
                u <= updates.len(),
                lens@ == sizes(updates@).take(u as int),
            decreases updates.len() - u,
        {
            lens.push(updates[u].simplices.len());
            assert(lens@ =~= sizes(updates@).take(u as int + 1));
            u += 1;
        }
        assert(lens@ =~= sizes(updates@));
        let offsets = prefix_offsets(&lens);
        let start = self.max_simplex_id;
        let ghost mut states: Seq<Self> = seq![*self];
        let mut u: usize = 0;
        while u < updates.len()
            invariant
                states.len() == u + 1,
                states[0] == *old(self),
                states[u as int] == *self,
                wave_ready(*old(self), updates@) && old(self).incidence_consistent() ==> self.incidence_consistent(),
                forall|w: int| 0 <= w < updates.len() ==> (#[trigger] updates@[w]).vertex_id == old(self).vertex_total() + w,
                forall|w: int| 0 <= w < u ==> (#[trigger] states[w]).committed(states[w + 1], updates@[w]),
                self.wf(),
                forall|w: int| 0 <= w < updates.len() ==> (#[trigger] updates@[w]).numbered(),
                lens@ == sizes(updates@),
                start + total(lens@) <= usize::MAX,
                offsets.len() == lens.len() + 1,
                forall|i: int| 0 <= i <= lens.len() ==> #[trigger] offsets@[i] == total(lens@.take(i)),
                u <= updates.len(),
                self.max_simplex_id == start + offsets@[u as int],
                self.vertex_total() == old(self).vertex_total() + u,
                old(self).vertex_total() + updates.len() < usize::MAX,
                u == 0 ==> *self == *old(self),
                start == old(self).max_simplex_id,
                old(self).wf(),
                forall|s: usize| #[trigger] self.simplex_map().contains_key(s)
                    ==> old(self).simplex_map().contains_key(s) || start < s <= self.max_simplex_id,
                forall|v: usize| #[trigger] old(self).vertex_map().contains_key(v) ==> self.vertex_map().contains_key(v),
                wave_ready(*old(self), updates@) ==> forall|s: usize| #[trigger] self.simplex_map().contains_key(s) <==> (
                    old(self).simplex_map().contains_key(s) && !killed_before(updates@, u as int, s))
                        || start < s <= self.max_simplex_id,
                wave_ready(*old(self), updates@) ==> wave_placed(self.simplex_map(), start, updates@, u as int),
                forall|s: usize| #[trigger] old(self).simplex_map().contains_key(s) && !killed_before(updates@, u as int, s)
                    ==> self.simplex_map().contains_key(s) && self.simplex_map()[s].0 == old(self).simplex_map()[s].0,
            decreases updates.len() - u,
        {
            proof {
                assert(lens@.take(u as int + 1).drop_last() =~= lens@.take(u as int));
                lemma_total_prefix(lens@, u as int + 1);
            }
            let base = start + offsets[u];
            let ghost pre = *self;
            proof {
                if wave_ready(*old(self), updates@) {
                    let up = updates@[u as int];
                    assert(wave_ready_at(*old(self), updates@, u as int));
                    assert forall|x: int| 0 <= x < up.killed_sites.len()
                        implies pre.simplex_map().contains_key(#[trigger] up.killed_sites@[x]) by {
                        assert(!killed_before(updates@, u as int, up.killed_sites@[x]));
                    }
                    assert forall|t: int| 0 <= t < up.neighbors.len()
                        implies pre.simplex_map().contains_key((#[trigger] up.neighbors@[t]).0) by {
                        assert(!killed_before(updates@, u as int, up.neighbors@[t].0));
                    }
                    assert forall|x: int, v: usize| 0 <= x < up.killed_sites.len()
                        && #[trigger] pre.simplex_map()[up.killed_sites@[x]].0.contains(v)
                        implies pre.vertex_map().contains_key(v) by {
                        assert(!killed_before(updates@, u as int, up.killed_sites@[x]));
                        assert(old(self).simplex_map()[up.killed_sites@[x]].0.contains(v));
                    }
                    assert(pre.ready_for(up));
                }
            }
            let res = self.insert_point(&updates[u]);
            if res.is_err() {
                return res;
            }
            proof {
                assert(pre.committed(*self, updates@[u as int]));
                let old_states = states;
                states = states.push(*self);
                let up = updates@[u as int];
                assert forall|s: usize| #[trigger] old(self).simplex_map().contains_key(s) && !killed_before(updates@, u + 1, s)
                    implies self.simplex_map().contains_key(s) && self.simplex_map()[s].0 == old(self).simplex_map()[s].0 by {
                    if killed_before(updates@, u as int, s) {
                        let w = choose|w: int| 0 <= w < u && #[trigger] updates@[w].killed_sites@.contains(s);
                        assert(killed_before(updates@, u + 1, s));
                    }
                    if up.killed_sites@.contains(s) {
                        assert(killed_before(updates@, u + 1, s));
                    }
                    assert(pre.simplex_map().contains_key(s));
                }
                assert forall|w: int| 0 <= w < u + 1 implies (#[trigger] states[w]).committed(states[w + 1], updates@[w]) by {
                    if w < u {
                        assert(states[w] == old_states[w] && states[w + 1] == old_states[w + 1]);
                    }
                }
                if wave_ready(*old(self), updates@) {
                    assert(wave_ready_at(*old(self), updates@, u as int));
                    assert forall|s: usize| #[trigger] up.killed_sites@.contains(s) implies s <= start by {
                        let y = choose|y: int| 0 <= y < up.killed_sites.len() && up.killed_sites@[y] == s;
                        assert(old(self).simplex_map().contains_key(up.killed_sites@[y]));
                    }
                    assert forall|t: int| 0 <= t < up.simplices.len() implies self.simplex_map().contains_key(
                        #[trigger] wave_id(start, updates@, u as int, t))
                        && self.simplex_map()[wave_id(start, updates@, u as int, t)].0 == up.simplices@[t]@ by {
                        assert(offsets@[u as int] == total(sizes(updates@).take(u as int)));
                        assert(wave_id(start, updates@, u as int, t) == (base + t + 1) as usize);
                    }
                    lemma_wave_placed(pre.simplex_map(), self.simplex_map(), start, updates@, u as int);
                }
                assert forall|s: usize| wave_ready(*old(self), updates@) implies (#[trigger] self.simplex_map().contains_key(s) <==> (
                    old(self).simplex_map().contains_key(s) && !killed_before(updates@, u + 1, s))
                        || start < s <= self.max_simplex_id) by {
                    assert(wave_ready_at(*old(self), updates@, u as int));
                    if up.killed_sites@.contains(s) {
                        let y = choose|y: int| 0 <= y < up.killed_sites.len() && up.killed_sites@[y] == s;
                        assert(old(self).simplex_map().contains_key(up.killed_sites@[y]));
                        assert(s <= start);
                        assert(killed_before(updates@, u + 1, s));
                    }
                    if killed_before(updates@, u + 1, s) && !killed_before(updates@, u as int, s) {
                        let w = choose|w: int| 0 <= w < u + 1 && #[trigger] updates@[w].killed_sites@.contains(s);
                        assert(w == u);
                    }
                    if killed_before(updates@, u as int, s) {
                        let w = choose|w: int| 0 <= w < u && #[trigger] updates@[w].killed_sites@.contains(s);
                        assert(killed_before(updates@, u + 1, s));
                    }
                }
            }
            u += 1;
        }
        assert(old(self).wave_committed(*self, updates@, states));
        Ok(())
    }
}

} // verus!
