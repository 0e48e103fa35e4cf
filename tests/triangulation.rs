use delaunay_tree::commit::{prefix_offsets, without_id};
use delaunay_tree::kernel::{pair_simplices, TreeUpdate};
use delaunay_tree::schedule::{contains_id, find_placement, group_waves, shares_id};
use delaunay_tree::tree::{sorted_ids, DelaunayTree, IntegrityError};

fn corners<const N: usize, const M: usize>(tree: &DelaunayTree<N, M>, id: usize) -> Vec<usize> {
    tree.simplices.get(&id).unwrap().vertices.clone()
}

fn links<const N: usize, const M: usize>(tree: &DelaunayTree<N, M>, id: usize) -> Vec<usize> {
    tree.simplices.get(&id).unwrap().neighbors.clone()
}

fn incident<const N: usize, const M: usize>(tree: &DelaunayTree<N, M>, id: usize) -> Vec<usize> {
    tree.vertices.get(&id).unwrap().simplex.clone()
}

#[test]
fn bootstrap_2d_shape() {
    let tree = DelaunayTree::<2, 3>::new();
    assert_eq!(tree.max_simplex_id, 3);
    assert_eq!(tree.vertices.len(), 6);
    assert_eq!(tree.simplices.len(), 4);
    assert_eq!(corners(&tree, 0), vec![0, 1, 2]);
    assert_eq!(links(&tree, 0), vec![1, 2, 3]);
    assert_eq!(corners(&tree, 3), vec![5, 1, 2]);
    assert_eq!(links(&tree, 2), vec![0]);
    assert_eq!(incident(&tree, 1), vec![0, 1, 3]);
    assert_eq!(incident(&tree, 5), vec![3]);
}

#[test]
fn bootstrap_3d_shape() {
    let tree = DelaunayTree::<3, 4>::new();
    assert_eq!(tree.max_simplex_id, 4);
    assert_eq!(tree.vertices.len(), 8);
    assert_eq!(tree.simplices.len(), 5);
    assert_eq!(corners(&tree, 0), vec![0, 1, 2, 3]);
    assert_eq!(links(&tree, 0), vec![1, 2, 3, 4]);
    assert_eq!(corners(&tree, 3), vec![6, 0, 3, 1]);
    assert_eq!(incident(&tree, 2), vec![0, 1, 2, 4]);
    assert_eq!(incident(&tree, 7), vec![4]);
}

#[test]
fn locate_super_triangle() {
    let tree = DelaunayTree::<2, 3>::new();
    let cavity = tree.locate(0, &|id: usize| id == 0).unwrap();
    assert_eq!(cavity, vec![0]);
}

#[test]
fn locate_walks_neighbours_and_sorts() {
    let tree = DelaunayTree::<3, 4>::new();
    // seeds of vertex 4 are only ghost 1; the walk reaches 0 and then 3 through links
    let cavity = tree.locate(4, &|id: usize| id == 1 || id == 0 || id == 3).unwrap();
    assert_eq!(cavity, vec![0, 1, 3]);
}

#[test]
fn locate_missing_vertex() {
    let tree = DelaunayTree::<2, 3>::new();
    assert_eq!(tree.locate(99, &|_id: usize| true), Err(IntegrityError::MissingVertex(99)));
}

#[test]
fn locate_empty_cavity() {
    let tree = DelaunayTree::<2, 3>::new();
    assert_eq!(tree.locate(0, &|_id: usize| false), Err(IntegrityError::EmptyCavity));
}

#[test]
fn new_simplices_of_super_triangle() {
    let tree = DelaunayTree::<2, 3>::new();
    let (simplices, pairs) = tree.get_new_simplices(0, 6, &|id: usize| id == 0).unwrap();
    assert_eq!(simplices, vec![vec![6, 0, 1], vec![6, 0, 2], vec![6, 1, 2]]);
    assert_eq!(pairs, vec![(1, 0), (2, 0), (3, 0)]);
}

#[test]
fn new_simplices_missing_killed() {
    let tree = DelaunayTree::<2, 3>::new();
    assert_eq!(
        tree.get_new_simplices(42, 6, &|_id: usize| false),
        Err(IntegrityError::MissingSimplex(42))
    );
}

#[test]
fn update_for_first_point_2d() {
    let tree = DelaunayTree::<2, 3>::new();
    let u = TreeUpdate::new(6, &tree, 0, &|id: usize| id == 0).unwrap();
    assert_eq!(u.vertex_id, 6);
    assert_eq!(u.killed_sites, vec![0]);
    assert_eq!(u.simplices, vec![vec![6, 0, 1], vec![6, 0, 2], vec![6, 1, 2]]);
    assert_eq!(u.simplices_id, vec![1, 2, 3]);
    assert_eq!(u.neighbors, vec![(1, 0), (2, 0), (3, 0)]);
    assert_eq!(u.new_neighbors, vec![(1, 2), (2, 1), (1, 3), (3, 1), (2, 3), (3, 2)]);
}

#[test]
fn insert_first_point_2d() {
    let mut tree = DelaunayTree::<2, 3>::new();
    let u = TreeUpdate::new(6, &tree, 0, &|id: usize| id == 0).unwrap();
    tree.insert_point(&u).unwrap();
    assert_eq!(tree.max_simplex_id, 6);
    assert_eq!(tree.vertices.len(), 7);
    assert!(tree.simplices.get(&0).is_none());
    assert_eq!(corners(&tree, 4), vec![6, 0, 1]);
    assert_eq!(corners(&tree, 5), vec![6, 0, 2]);
    assert_eq!(corners(&tree, 6), vec![6, 1, 2]);
    assert_eq!(links(&tree, 4), vec![1, 5, 6]);
    assert_eq!(links(&tree, 1), vec![4]);
    assert_eq!(links(&tree, 3), vec![6]);
    assert_eq!(incident(&tree, 6), vec![4, 5, 6]);
    assert_eq!(incident(&tree, 0), vec![1, 2, 4, 5]);
}

#[test]
fn insert_first_point_3d() {
    let mut tree = DelaunayTree::<3, 4>::new();
    let u = TreeUpdate::new(8, &tree, 0, &|id: usize| id == 0).unwrap();
    assert_eq!(u.simplices.len(), 4);
    assert_eq!(u.new_neighbors.len(), 12);
    tree.insert_point(&u).unwrap();
    assert_eq!(tree.max_simplex_id, 8);
    assert_eq!(tree.simplices.len(), 8);
    assert_eq!(incident(&tree, 8), vec![5, 6, 7, 8]);
    assert_eq!(links(&tree, 5).len(), 4);
}

#[test]
fn parallel_insert_uses_offsets() {
    let mut tree = DelaunayTree::<2, 3>::new();
    let u = TreeUpdate::new(6, &tree, 0, &|id: usize| id == 0).unwrap();
    tree.insert_points_parallel(&vec![u]).unwrap();
    assert_eq!(tree.max_simplex_id, 6);
    let a = TreeUpdate::new(7, &tree, 0, &|id: usize| id == 4).unwrap();
    tree.insert_points_parallel(&vec![a]).unwrap();
    assert_eq!(tree.max_simplex_id, 9);
    assert_eq!(tree.vertices.len(), 8);
    assert_eq!(corners(&tree, 7), vec![7, 0, 1]);
    assert_eq!(corners(&tree, 8), vec![7, 6, 0]);
    assert_eq!(corners(&tree, 9), vec![7, 6, 1]);
    assert!(tree.simplices.get(&4).is_none());
}

#[test]
fn overlapping_wave_is_an_integrity_error() {
    let mut tree = DelaunayTree::<2, 3>::new();
    let u = TreeUpdate::new(6, &tree, 0, &|id: usize| id == 0).unwrap();
    tree.insert_point(&u).unwrap();
    let a = TreeUpdate::new(7, &tree, 0, &|id: usize| id == 4).unwrap();
    let b = TreeUpdate::new(8, &tree, 2, &|id: usize| id == 6).unwrap();
    assert_eq!(b.simplices, vec![vec![8, 1, 2], vec![8, 6, 1], vec![8, 6, 2]]);
    assert_eq!(tree.insert_points_parallel(&vec![a, b]), Err(IntegrityError::MissingSimplex(4)));
}

#[test]
fn parallel_insert_of_nothing_is_a_no_op() {
    let mut tree = DelaunayTree::<2, 3>::new();
    tree.insert_points_parallel(&vec![]).unwrap();
    assert_eq!(tree.max_simplex_id, 3);
    assert_eq!(tree.vertices.len(), 6);
    assert_eq!(tree.simplices.len(), 4);
}

#[test]
fn delaunay_check_ignores_bootstrap_simplices() {
    let tree = DelaunayTree::<2, 3>::new();
    assert!(tree.check_delaunay(&|_s: usize, _v: usize| true));
}

#[test]
fn delaunay_check_finds_violation() {
    let mut tree = DelaunayTree::<2, 3>::new();
    let u = TreeUpdate::new(6, &tree, 0, &|id: usize| id == 0).unwrap();
    tree.insert_point(&u).unwrap();
    let u = TreeUpdate::new(7, &tree, 6, &|id: usize| id == 4).unwrap();
    tree.insert_point(&u).unwrap();
    let u = TreeUpdate::new(8, &tree, 7, &|id: usize| id == 9).unwrap();
    tree.insert_point(&u).unwrap();
    let real: Vec<usize> = (0..=tree.max_simplex_id)
        .filter(|s| tree.simplices.get(s).map(|x| x.vertices.iter().all(|&c| c >= 6)).unwrap_or(false))
        .collect();
    assert_eq!(real.len(), 1);
    assert_eq!(corners(&tree, real[0]), vec![8, 7, 6]);
    assert!(tree.check_delaunay(&|_s: usize, _v: usize| false));
    assert!(!tree.check_delaunay(&|_s: usize, v: usize| v == 0));
    assert!(tree.check_delaunay(&|_s: usize, v: usize| v == 7));
}

#[test]
fn conflict_set_adds_neighbours() {
    let tree = DelaunayTree::<2, 3>::new();
    let mut set = tree.conflict_set(&vec![0]).unwrap();
    set.sort();
    assert_eq!(set, vec![0, 1, 2, 3]);
    assert_eq!(tree.conflict_set(&vec![9]), Err(IntegrityError::MissingSimplex(9)));
}

#[test]
fn placement_first_free_wave() {
    let queue = vec![vec![1, 2], vec![3], vec![2, 4], vec![5], vec![4, 3]];
    assert_eq!(find_placement(&queue), vec![1, 1, 2, 1, 3]);
}

#[test]
fn placement_all_conflicting() {
    let queue = vec![vec![7], vec![7], vec![7]];
    assert_eq!(find_placement(&queue), vec![1, 2, 3]);
}

#[test]
fn placement_empty_queue() {
    let queue: Vec<Vec<usize>> = vec![];
    assert_eq!(find_placement(&queue), Vec::<usize>::new());
    assert_eq!(group_waves(&vec![]), Vec::<Vec<usize>>::new());
}

#[test]
fn waves_grouped_in_order() {
    assert_eq!(group_waves(&vec![1, 1, 2, 1, 3]), vec![vec![0, 1, 3], vec![2], vec![4]]);
}

#[test]
fn pairing_shares_facets() {
    let simplices = vec![vec![6, 0, 1], vec![6, 0, 2], vec![6, 1, 2], vec![6, 3, 4]];
    let ids = vec![1, 2, 3, 4];
    let pairs = pair_simplices::<2, 3>(&simplices, &ids);
    assert_eq!(pairs, vec![(1, 2), (2, 1), (1, 3), (3, 1), (2, 3), (3, 2)]);
}

#[test]
fn offsets_are_prefix_sums() {
    assert_eq!(prefix_offsets(&vec![3, 0, 2]), vec![0, 3, 3, 5]);
    assert_eq!(prefix_offsets(&vec![]), vec![0]);
}

#[test]
fn ids_sorted_and_deduplicated() {
    assert_eq!(sorted_ids(&vec![5, 1, 5, 3, 1]), vec![1, 3, 5]);
    assert!(contains_id(&vec![4, 2], 2));
    assert!(!contains_id(&vec![4, 2], 3));
    assert!(shares_id(&vec![1, 2], &vec![2, 3]));
    assert!(!shares_id(&vec![1, 2], &vec![3]));
}

#[test]
fn removing_an_id_keeps_the_rest_in_order() {
    assert_eq!(without_id(&vec![3, 1, 3, 2], 3), vec![1, 2]);
    assert_eq!(without_id(&vec![4], 4), Vec::<usize>::new());
}

#[test]
fn same_wave_members_do_not_conflict() {
    let queue = vec![vec![1, 2, 3], vec![3, 4], vec![5], vec![2, 6], vec![4, 5], vec![7]];
    let placement = find_placement(&queue);
    assert_eq!(placement, vec![1, 2, 1, 2, 3, 1]);
    let waves = group_waves(&placement);
    assert_eq!(waves, vec![vec![0, 2, 5], vec![1, 3], vec![4]]);
    for wave in &waves {
        for &a in wave {
            for &b in wave {
                if a != b {
                    assert!(!shares_id(&queue[a], &queue[b]));
                }
            }
        }
    }
}

#[test]
fn commit_of_stale_update_fails() {
    let mut tree = DelaunayTree::<2, 3>::new();
    let u = TreeUpdate::new(6, &tree, 0, &|id: usize| id == 0).unwrap();
    tree.insert_point(&u).unwrap();
    // the same update again: simplex 0 is gone
    let mut stale = TreeUpdate::new(6, &DelaunayTree::<2, 3>::new(), 0, &|id: usize| id == 0).unwrap();
    stale.vertex_id = 7;
    assert_eq!(tree.insert_point(&stale), Err(IntegrityError::MissingSimplex(0)));
}
