use vstd::prelude::*;

verus! {

/// The id lists held by a vector of vectors.
pub open spec fn id_lists(v: Seq<Vec<usize>>) -> Seq<Seq<usize>> {
    v.map_values(|x: Vec<usize>| x@)
}

/// Two id lists share at least one id.
pub open spec fn overlaps(a: Seq<usize>, b: Seq<usize>) -> bool {
    exists|x: usize| #[trigger] a.contains(x) && #[trigger] b.contains(x)
}

/// Some entry before `i` sits in wave `w` and conflicts with entry `i`.
pub open spec fn wave_blocked(queue: Seq<Seq<usize>>, placement: Seq<usize>, i: int, w: usize) -> bool {
    exists|j: int| 0 <= j < i && #[trigger] placement[j] == w && overlaps(queue[j], queue[i])
}

/// `placement[i]` is the smallest wave, at least 1, that holds no earlier entry whose
/// conflict set overlaps that of entry `i`.
pub open spec fn first_free_wave(queue: Seq<Seq<usize>>, placement: Seq<usize>, i: int) -> bool {
    &&& placement[i] >= 1
    &&& forall|j: int|
        0 <= j < i && #[trigger] placement[j] == placement[i] ==> !overlaps(queue[j], queue[i])
    &&& forall|w: usize| 1 <= w < placement[i] ==> #[trigger] wave_blocked(queue, placement, i, w)
}

/// Whether `x` is one of the ids in `a`.
pub fn contains_id(a: &Vec<usize>, x: usize) -> (r: bool)
    ensures
        r == a@.contains(x),
{
    let mut i: usize = 0;
    while i < a.len()
        invariant
            i <= a.len(),
            forall|k: int| 0 <= k < i ==> a@[k] != x,
        decreases a.len() - i,
    {
        if a[i] == x {
            return true;
        }
        i += 1;
    }
    false
}

/// Whether the two id lists have an id in common.
pub fn shares_id(a: &Vec<usize>, b: &Vec<usize>) -> (r: bool)
    ensures
        r == overlaps(a@, b@),
{
    let mut i: usize = 0;
    while i < a.len()
        invariant
            i <= a.len(),
            forall|k: int| 0 <= k < i ==> !b@.contains(#[trigger] a@[k]),
        decreases a.len() - i,
    {
        if contains_id(b, a[i]) {
            assert(a@.contains(a@[i as int]));
            return true;
        }
        i += 1;
    }
    assert forall|x: usize| a@.contains(x) implies !b@.contains(x) by {
        let k = choose|k: int| 0 <= k < a@.len() && a@[k] == x;
        assert(!b@.contains(a@[k]));
    }
    false
}

/// Assigns each queued insertion, in queue order, the smallest wave number `w >= 1` such
/// that no insertion already placed in wave `w` has an overlapping conflict set.
pub fn find_placement(queue: &Vec<Vec<usize>>) -> (r: Vec<usize>)
    ensures
        r.len() == queue.len(),
        forall|i: int| 0 <= i < r.len() ==> #[trigger] first_free_wave(id_lists(queue@), r@, i),
{
    let ghost q = id_lists(queue@);
    let mut r: Vec<usize> = Vec::new();
    let n = queue.len();
    for i in 0..n
        invariant
            n == queue.len(),
            q == id_lists(queue@),
            r.len() == i,
            forall|k: int| 0 <= k < i ==> #[trigger] first_free_wave(q, r@, k),
            forall|k: int| 0 <= k < i ==> r@[k] <= k + 1,
    {
        let mut w: usize = 1;
        let mut placed = false;
        while !placed
            invariant
                n == queue.len(),
                q == id_lists(queue@),
                r.len() == i,
                i < n,
                forall|k: int| 0 <= k < i ==> r@[k] <= k + 1,
                1 <= w <= i + 1,
                forall|v: usize| 1 <= v < w ==> #[trigger] wave_blocked(q, r@, i as int, v),
                placed ==> forall|j: int|
                    0 <= j < i && #[trigger] r@[j] == w ==> !overlaps(q[j], q[i as int]),
            decreases i + 1 - w + (if placed { 0int } else { 1int }),
        {
            let mut j: usize = 0;
            let mut clash = false;
            while j < i && !clash
                invariant
                    n == queue.len(),
                    q == id_lists(queue@),
                    r.len() == i,
                    i < n,
                    j <= i,
                    !clash ==> forall|k: int|
                        0 <= k < j && #[trigger] r@[k] == w ==> !overlaps(q[k], q[i as int]),
                    clash ==> exists|k: int|
                        0 <= k < i && #[trigger] r@[k] == w && overlaps(q[k], q[i as int]),
                decreases i - j + (if clash { 0int } else { 1int }),
            {
                if r[j] == w && shares_id(&queue[j], &queue[i]) {
                    clash = true;
                } else {
                    j += 1;
                }
            }
            if clash {
                assert(wave_blocked(q, r@, i as int, w));
                assert(w < i + 1) by {
                    let k = choose|k: int|
                        0 <= k < i && #[trigger] r@[k] == w && overlaps(q[k], q[i as int]);
                    assert(r@[k] <= k + 1);
                }
                w += 1;
            } else {
                placed = true;
            }
        }
        let ghost old_r = r@;
        r.push(w);
        assert forall|k: int| 0 <= k <= i implies first_free_wave(q, r@, k) by {
            assert forall|j: int| 0 <= j <= k implies r@[j] == old_r.push(w)[j] by {}
            if k < i {
                assert(first_free_wave(q, old_r, k));
                assert forall|v: usize| 1 <= v < r@[k] implies #[trigger] wave_blocked(q, r@, k, v) by {
                    assert(wave_blocked(q, old_r, k, v));
                    let j = choose|j: int| 0 <= j < k && #[trigger] old_r[j] == v && overlaps(q[j], q[k]);
                    assert(r@[j] == v);
                }
            } else {
                assert forall|v: usize| 1 <= v < r@[k] implies #[trigger] wave_blocked(q, r@, k, v) by {
                    assert(wave_blocked(q, old_r, i as int, v));
                    let j = choose|j: int| 0 <= j < i && #[trigger] old_r[j] == v && overlaps(q[j], q[i as int]);
                    assert(r@[j] == v);
                }
            }
        }
    }
    r
}

/// Groups queue positions by wave: entry `w` lists, in increasing order, the positions `i`
/// with `placement[i] == w + 1`; there are as many groups as the largest wave number.
pub fn group_waves(placement: &Vec<usize>) -> (r: Vec<Vec<usize>>)
    ensures
        forall|i: int| 0 <= i < placement.len() ==> placement@[i] <= r.len(),
        r.len() > 0 ==> exists|i: int| 0 <= i < placement.len() && placement@[i] == r.len(),
        forall|w: int, k: int| 0 <= w < r.len() && 0 <= k < r@[w].len() ==> {
            let i = #[trigger] r@[w]@[k];
            i < placement.len() && placement@[i as int] == w + 1
        },
        forall|w: int, a: int, b: int| 0 <= w < r.len() && 0 <= a < b < r@[w].len()
            ==> #[trigger] r@[w]@[a] < #[trigger] r@[w]@[b],
        forall|i: int| 0 <= i < placement.len() && placement@[i] >= 1
            ==> #[trigger] r@[placement@[i] - 1]@.contains(i as usize),
{
    let mut top: usize = 0;
    let mut i: usize = 0;
    while i < placement.len()
        invariant
            i <= placement.len(),
            forall|k: int| 0 <= k < i ==> placement@[k] <= top,
            top > 0 ==> exists|k: int| 0 <= k < i && placement@[k] == top,
        decreases placement.len() - i,
    {
        if placement[i] > top {
            top = placement[i];
        }
        i += 1;
    }
    let mut r: Vec<Vec<usize>> = Vec::new();
    let mut w: usize = 0;
    while w < top
        invariant
            w <= top,
            r.len() == w,
            forall|k: int| 0 <= k < placement.len() ==> placement@[k] <= top,
            top > 0 ==> exists|k: int| 0 <= k < placement.len() && placement@[k] == top,
            forall|v: int, k: int| 0 <= v < r.len() && 0 <= k < r@[v].len() ==> {
                let i = #[trigger] r@[v]@[k];
                i < placement.len() && placement@[i as int] == v + 1
            },
            forall|v: int, a: int, b: int| 0 <= v < r.len() && 0 <= a < b < r@[v].len()
                ==> #[trigger] r@[v]@[a] < #[trigger] r@[v]@[b],
            forall|i: int| 0 <= i < placement.len() && 1 <= placement@[i] <= w
                ==> #[trigger] r@[placement@[i] - 1]@.contains(i as usize),
        decreases top - w,
    {
        let mut group: Vec<usize> = Vec::new();
        let mut i: usize = 0;
        while i < placement.len()
            invariant
                w < top,
                i <= placement.len(),
                forall|k: int| 0 <= k < group.len() ==> #[trigger] group@[k] < i && placement@[group@[k] as int] == w + 1,
                forall|a: int, b: int| 0 <= a < b < group.len() ==> #[trigger] group@[a] < #[trigger] group@[b],
                forall|k: int| 0 <= k < i && placement@[k] == w + 1 ==> group@.contains(k as usize),
            decreases placement.len() - i,
        {
            if placement[i] == w + 1 {
                let ghost before = group@;
                group.push(i);
                assert forall|k: int| 0 <= k < i && placement@[k] == w + 1 implies group@.contains(k as usize) by {
                    let q = choose|q: int| 0 <= q < before.len() && before[q] == k as usize;
                    assert(group@[q] == k as usize);
                }
                assert(group@[group.len() - 1] == i);
            }
            i += 1;
        }
        let ghost before = r@;
        r.push(group);
        assert forall|i: int| 0 <= i < placement.len() && 1 <= placement@[i] <= w + 1
            implies #[trigger] r@[placement@[i] - 1]@.contains(i as usize) by {
            if placement@[i] <= w {
                assert(r@[placement@[i] - 1] == before[placement@[i] - 1]);
            }
        }
        w += 1;
    }
    r
}

/// Insertions that share a wave never conflict: if `placement` is the first-free placement
/// of `queue` (as `find_placement` returns it) and `waves` groups queue positions by
/// placement (as `group_waves` returns it), two distinct members of one wave have
/// disjoint conflict sets.
pub proof fn lemma_same_wave_disjoint(
    queue: Seq<Seq<usize>>,
    placement: Seq<usize>,
    waves: Seq<Seq<usize>>,
    w: int,
    a: int,
    b: int,
)
    requires
        placement.len() == queue.len(),
        forall|i: int| 0 <= i < placement.len() ==> #[trigger] first_free_wave(queue, placement, i),
        forall|v: int, k: int| 0 <= v < waves.len() && 0 <= k < waves[v].len() ==> {
            let i = #[trigger] waves[v][k];
            i < placement.len() && placement[i as int] == v + 1
        },
        0 <= w < waves.len(),
        0 <= a < waves[w].len(),
        0 <= b < waves[w].len(),
        waves[w][a] != waves[w][b],
    ensures
        !overlaps(queue[waves[w][a] as int], queue[waves[w][b] as int]),
{
    let i = waves[w][a] as int;
    let j = waves[w][b] as int;
    assert(placement[i] == w + 1);
    assert(placement[j] == w + 1);
    if i < j {
        assert(first_free_wave(queue, placement, j));
        assert(!overlaps(queue[i], queue[j]));
    } else {
        assert(first_free_wave(queue, placement, i));
        assert(!overlaps(queue[j], queue[i]));
    }
}

} // verus!
