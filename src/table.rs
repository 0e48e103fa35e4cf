use vstd::prelude::*;
use dashmap::DashMap;
use std::hash::RandomState;

verus! {

/// The sharded concurrent map of the `dashmap` crate, opaque here: what a table holds is
/// named by `simplex_entries` and `vertex_entries` below.
#[verifier::external_type_specification]
#[verifier::external_body]
#[verifier::reject_recursive_types(K)]
#[verifier::reject_recursive_types(V)]
#[verifier::reject_recursive_types(S)]
pub struct ExDashMap<K, V, S>(DashMap<K, V, S>);

/// Combinatorial record of a simplex: its corner vertex ids and the ids of its neighbours.
#[derive(Debug, Clone)]
pub struct Simplex {
    pub vertices: Vec<usize>,
    pub neighbors: Vec<usize>,
}

impl View for Simplex {
    type V = (Seq<usize>, Seq<usize>);

    open spec fn view(&self) -> (Seq<usize>, Seq<usize>) {
        (self.vertices@, self.neighbors@)
    }
}

/// Corners and neighbours of a simplex, in the mathematical model.
pub type SimplexModel = (Seq<usize>, Seq<usize>);

/// What the simplex table holds, as a map from id to (corners, neighbours).
pub uninterp spec fn simplex_entries(m: DashMap<usize, Simplex, RandomState>) -> Map<usize, SimplexModel>;

/// Relies on `DashMap::new`: a new map holds no entry.
#[verifier::external_body]
pub(crate) fn new_simplex_table() -> (r: DashMap<usize, Simplex, RandomState>)
    ensures
        simplex_entries(r) =~= Map::empty(),
{
    DashMap::new()
}

/// Relies on `DashMap::get`: the value stored under `k`, if any (cloned out of the guard).
#[verifier::external_body]
pub(crate) fn simplex_get(m: &DashMap<usize, Simplex, RandomState>, k: usize) -> (r: Option<Simplex>)
    ensures
        r is Some <==> simplex_entries(*m).contains_key(k),
        r is Some ==> r->Some_0@ == simplex_entries(*m)[k],
{
    m.get(&k).map(|e| e.value().clone())
}

/// Relies on `DashMap::insert`: afterwards `k` maps to `v`, every other key is untouched.
#[verifier::external_body]
pub(crate) fn simplex_insert(m: &mut DashMap<usize, Simplex, RandomState>, k: usize, v: Simplex)
    ensures
        simplex_entries(*final(m)) == simplex_entries(*old(m)).insert(k, v@),
{
    m.insert(k, v);
}

/// Relies on `DashMap::remove`: afterwards `k` has no entry, every other key is untouched.
#[verifier::external_body]
pub(crate) fn simplex_remove(m: &mut DashMap<usize, Simplex, RandomState>, k: usize)
    ensures
        simplex_entries(*final(m)) == simplex_entries(*old(m)).remove(k),
{
    m.remove(&k);
}

/// Incidence record of a vertex: the ids of the simplices that have it as a corner.
#[derive(Debug, Clone)]
pub struct Vertex {
    pub simplex: Vec<usize>,
}

impl View for Vertex {
    type V = Seq<usize>;

    open spec fn view(&self) -> Seq<usize> {
        self.simplex@
    }
}

/// What the vertex table holds, as a map from id to incident simplex ids.
pub uninterp spec fn vertex_entries(m: DashMap<usize, Vertex, RandomState>) -> Map<usize, Seq<usize>>;

/// Relies on `DashMap::new`: a new map holds no entry.
#[verifier::external_body]
pub(crate) fn new_vertex_table() -> (r: DashMap<usize, Vertex, RandomState>)
    ensures
        vertex_entries(r) =~= Map::empty(),
{
    DashMap::new()
}

/// Relies on `DashMap::get`: the value stored under `k`, if any (cloned out of the guard).
#[verifier::external_body]
pub(crate) fn vertex_get(m: &DashMap<usize, Vertex, RandomState>, k: usize) -> (r: Option<Vertex>)
    ensures
        r is Some <==> vertex_entries(*m).contains_key(k),
        r is Some ==> r->Some_0@ == vertex_entries(*m)[k],
{
    m.get(&k).map(|e| e.value().clone())
}

/// Relies on `DashMap::insert`: afterwards `k` maps to `v`, every other key is untouched.
#[verifier::external_body]
pub(crate) fn vertex_insert(m: &mut DashMap<usize, Vertex, RandomState>, k: usize, v: Vertex)
    ensures
        vertex_entries(*final(m)) == vertex_entries(*old(m)).insert(k, v@),
{
    m.insert(k, v);
}

/// Relies on `DashMap::len`: the number of entries.
#[verifier::external_body]
pub(crate) fn vertex_len(m: &DashMap<usize, Vertex, RandomState>) -> (r: usize)
    ensures
        r == vertex_entries(*m).len(),
{
    m.len()
}

} // verus!
