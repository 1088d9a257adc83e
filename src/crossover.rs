//! Recombination operators: each builds one child from two parents.
use vstd::multiset::Multiset;
use vstd::prelude::*;

use crate::genalg::{
    distinct_patients, ids_in_range, lemma_distinct_patient_count, lemma_ids_in_range_same_multiset,
    lemma_ids_of_member, stop_id, copy_range, Genotype, NurseStop, MAX_STOPS,
};
use crate::mutation::get_rand_range;
use crate::wrappers::random_below;

verus! {

broadcast use vstd::seq_lib::group_to_multiset_ensures, vstd::multiset::group_multiset_axioms,
    vstd::seq_lib::lemma_multiset_commutative;

/// The position of the directed edge `(a, b)` in `edges`, if present.
fn find_edge(edges: &Vec<(usize, usize)>, a: usize, b: usize) -> (r: Option<usize>)
    ensures
        match r {
            Some(k) => k < edges@.len() && edges@[k as int] == (a, b),
            None => forall|k: int| 0 <= k < edges@.len() ==> edges@[k] != (a, b),
        },
{
    let mut k: usize = 0;
    while k < edges.len()
        invariant
            k <= edges@.len(),
            forall|j: int| 0 <= j < k ==> edges@[j] != (a, b),
        decreases edges@.len() - k,
    {
        if edges[k].0 == a && edges[k].1 == b {
            return Some(k);
        }
        k = k + 1;
    }
    None
}

/// The edge list holds the directed edge `(a, b)`.
pub open spec fn has_edge(edges: Seq<(usize, usize)>, a: int, b: int) -> bool {
    exists|k: int| 0 <= k < edges.len() && #[trigger] edges[k] == (a as usize, b as usize)
}

/// No directed edge occurs twice.
pub open spec fn no_dup_edges(edges: Seq<(usize, usize)>) -> bool {
    forall|k1: int, k2: int| 0 <= k1 < k2 < edges.len() ==> edges[k1] != edges[k2]
}

/// Records the directed edge `(x, y)` unless present; if present among the first
/// `first_len` entries it is marked common.
fn add_directed(
    edges: &mut Vec<(usize, usize)>,
    common: &mut Vec<bool>,
    x: usize,
    y: usize,
    first_len: usize,
)
    requires
        old(common)@.len() == old(edges)@.len(),
        old(edges)@.len() < usize::MAX - 1,
        no_dup_edges(old(edges)@),
        first_len <= old(edges)@.len(),
    ensures
        final(common)@.len() == final(edges)@.len(),
        old(edges)@.len() <= final(edges)@.len() <= old(edges)@.len() + 1,
        final(edges)@.subrange(0, old(edges)@.len() as int) == old(edges)@,
        forall|k: int| old(edges)@.len() <= k < final(edges)@.len() ==> final(edges)@[k] == (x, y),
        has_edge(final(edges)@, x as int, y as int),
        no_dup_edges(final(edges)@),
        forall|k: int|
            0 <= k < final(edges)@.len() ==> final(common)@[k] == ((k < old(edges)@.len() && old(common)@[k]) || (k
                < first_len && final(edges)@[k] == (x, y))),
{
    let ghost e0 = edges@;
    match find_edge(edges, x, y) {
        Some(k) => {
            if k < first_len {
                common.set(k, true);
            }
            proof {
                assert(edges@[k as int] == (x, y));
                assert(edges@.subrange(0, e0.len() as int) =~= e0);
                assert forall|j: int| 0 <= j < edges@.len() && j != k implies edges@[j] != (x, y) by {
                    if j < k {
                        assert(edges@[j] != edges@[k as int]);
                    } else {
                        assert(edges@[k as int] != edges@[j]);
                    }
                }
            }
        },
        None => {
            edges.push((x, y));
            common.push(false);
            proof {
                assert(edges@[e0.len() as int] == (x, y));
                assert(edges@.subrange(0, e0.len() as int) =~= e0);
            }
        },
    }
}

/// Records the undirected edge `a`–`b` in both directions. An edge met again among
/// the first `first_len` entries is marked common.
fn add_edge(
    edges: &mut Vec<(usize, usize)>,
    common: &mut Vec<bool>,
    a: usize,
    b: usize,
    first_len: usize,
    bound: usize,
)
    requires
        old(common)@.len() == old(edges)@.len(),
        a <= bound,
        b <= bound,
        forall|k: int| 0 <= k < old(edges)@.len() ==> old(edges)@[k].0 <= bound && old(edges)@[k].1 <= bound,
        old(edges)@.len() < usize::MAX - 2,
        no_dup_edges(old(edges)@),
        first_len <= old(edges)@.len(),
    ensures
        final(common)@.len() == final(edges)@.len(),
        old(edges)@.len() <= final(edges)@.len() <= old(edges)@.len() + 2,
        final(edges)@.subrange(0, old(edges)@.len() as int) == old(edges)@,
        forall|k: int| 0 <= k < final(edges)@.len() ==> final(edges)@[k].0 <= bound && final(edges)@[k].1 <= bound,
        forall|k: int|
            old(edges)@.len() <= k < final(edges)@.len() ==> final(edges)@[k] == (a, b) || final(edges)@[k] == (b, a),
        has_edge(final(edges)@, a as int, b as int),
        has_edge(final(edges)@, b as int, a as int),
        no_dup_edges(final(edges)@),
        forall|k: int|
            0 <= k < final(edges)@.len() ==> final(common)@[k] == ((k < old(edges)@.len() && old(common)@[k]) || (k
                < first_len && (final(edges)@[k] == (a, b) || final(edges)@[k] == (b, a)))),
{
    let ghost e0 = edges@;
    let ghost c0 = common@;
    add_directed(edges, common, a, b, first_len);
    let ghost e1 = edges@;
    let ghost c1 = common@;
    add_directed(edges, common, b, a, first_len);
    proof {
        let k0 = choose|k: int| 0 <= k < e1.len() && #[trigger] e1[k] == (a as usize, b as usize);
        assert(edges@[k0] == e1[k0]) by {
            assert(edges@.subrange(0, e1.len() as int)[k0] == e1[k0]);
        }
        assert(edges@.subrange(0, e0.len() as int) =~= e0) by {
            assert forall|j: int| 0 <= j < e0.len() implies edges@[j] == e0[j] by {
                assert(edges@.subrange(0, e1.len() as int)[j] == e1[j]);
                assert(e1.subrange(0, e0.len() as int)[j] == e0[j]);
            }
        }
        assert forall|k: int| 0 <= k < edges@.len() implies edges@[k].0 <= bound && edges@[k].1 <= bound
            && (e0.len() <= k ==> edges@[k] == (a, b) || edges@[k] == (b, a)) by {
            if k < e1.len() {
                assert(edges@.subrange(0, e1.len() as int)[k] == e1[k]);
                if k < e0.len() {
                    assert(e1.subrange(0, e0.len() as int)[k] == e0[k]);
                }
            }
        }
        assert forall|k: int| 0 <= k < edges@.len() implies common@[k] == ((k < e0.len() && c0[k]) || (k < first_len && (
        edges@[k] == (a, b) || edges@[k] == (b, a)))) by {
            if k < e1.len() {
                assert(edges@.subrange(0, e1.len() as int)[k] == e1[k]);
            }
        }
    }
}

/// The stop id before position `i` of `s`: the depot for the first position.
pub open spec fn prev_id(s: Seq<NurseStop>, i: int) -> int {
    if i == 0 {
        0
    } else {
        stop_id(s[i - 1])
    }
}

/// Position `j` of `s` joins stop ids `a` and `b` (in either order) to its predecessor.
pub open spec fn step_pair(s: Seq<NurseStop>, j: int, a: int, b: int) -> bool {
    (prev_id(s, j) == a && stop_id(s[j]) == b) || (prev_id(s, j) == b && stop_id(s[j]) == a)
}

/// Among the first `i` positions of `s` (the depot before the first), stop ids `a`
/// and `b` stand next to each other.
pub open spec fn adjacent_upto(s: Seq<NurseStop>, i: int, a: int, b: int) -> bool {
    exists|j: int| 0 <= j < i && #[trigger] step_pair(s, j, a, b)
}

/// In the depot followed by `s`, stop ids `a` and `b` stand next to each other.
pub open spec fn adjacent_in(s: Seq<NurseStop>, a: int, b: int) -> bool {
    adjacent_upto(s, s.len() as int, a, b)
}

proof fn lemma_has_edge_prefix(e0: Seq<(usize, usize)>, e1: Seq<(usize, usize)>, a: int, b: int)
    requires
        e0.len() <= e1.len(),
        e1.subrange(0, e0.len() as int) == e0,
        has_edge(e0, a, b),
    ensures
        has_edge(e1, a, b),
{
    let k = choose|k: int| 0 <= k < e0.len() && #[trigger] e0[k] == (a as usize, b as usize);
    assert(e1.subrange(0, e0.len() as int)[k] == e1[k]);
}

/// Adds the edges of `parent` (from the depot onwards) to the edge list; edges already
/// among the first `first_len` entries are marked common.
fn add_parent_edges(
    edges: &mut Vec<(usize, usize)>,
    common: &mut Vec<bool>,
    parent: &Vec<NurseStop>,
    first_len: usize,
    n: usize,
)
    requires
        old(common)@.len() == old(edges)@.len(),
        no_dup_edges(old(edges)@),
        forall|k: int| 0 <= k < old(edges)@.len() ==> old(edges)@[k].0 <= n && old(edges)@[k].1 <= n,
        first_len <= old(edges)@.len(),
        ids_in_range(parent@, n as nat),
        parent@.len() <= MAX_STOPS,
        n <= MAX_STOPS,
        old(edges)@.len() <= 2 * MAX_STOPS,
    ensures
        final(common)@.len() == final(edges)@.len(),
        no_dup_edges(final(edges)@),
        old(edges)@.len() <= final(edges)@.len() <= old(edges)@.len() + 2 * parent@.len(),
        final(edges)@.subrange(0, old(edges)@.len() as int) == old(edges)@,
        forall|k: int| 0 <= k < final(edges)@.len() ==> final(edges)@[k].0 <= n && final(edges)@[k].1 <= n,
        forall|k: int|
            old(edges)@.len() <= k < final(edges)@.len() ==> adjacent_in(
                parent@,
                final(edges)@[k].0 as int,
                final(edges)@[k].1 as int,
            ),
        forall|a: int, b: int| #[trigger] adjacent_in(parent@, a, b) ==> has_edge(final(edges)@, a, b),
        forall|k: int|
            0 <= k < final(edges)@.len() ==> #[trigger] final(common)@[k] == ((k < old(edges)@.len() && old(common)@[k]) || (k
                < first_len && adjacent_in(parent@, final(edges)@[k].0 as int, final(edges)@[k].1 as int))),
{
    let ghost e0 = edges@;
    let ghost c0 = common@;
    let ghost p = parent@;
    let len = parent.len();
    let mut last: usize = 0;
    let mut i: usize = 0;
    while i < len
        invariant
            i <= len,
            len == p.len(),
            p == parent@,
            len <= MAX_STOPS,
            n <= MAX_STOPS,
            ids_in_range(p, n as nat),
            e0.len() <= 2 * MAX_STOPS,
            first_len <= e0.len(),
            last as int == prev_id(p, i as int),
            last <= n,
            common@.len() == edges@.len(),
            no_dup_edges(edges@),
            e0.len() <= edges@.len() <= e0.len() + 2 * i,
            edges@.subrange(0, e0.len() as int) == e0,
            forall|k: int| 0 <= k < edges@.len() ==> edges@[k].0 <= n && edges@[k].1 <= n,
            forall|k: int|
                e0.len() <= k < edges@.len() ==> adjacent_upto(p, i as int, edges@[k].0 as int, edges@[k].1 as int),
            forall|a: int, b: int| #[trigger] adjacent_upto(p, i as int, a, b) ==> has_edge(edges@, a, b),
            c0.len() == e0.len(),
            forall|k: int|
                0 <= k < edges@.len() ==> #[trigger] common@[k] == ((k < e0.len() && c0[k]) || (k < first_len && adjacent_upto(
                    p,
                    i as int,
                    edges@[k].0 as int,
                    edges@[k].1 as int,
                ))),
        decreases len - i,
    {
        let cur: usize = match parent[i] {
            NurseStop::Patient(id) => id as usize,
            NurseStop::Depot => 0,
        };
        let ghost eb = edges@;
        let ghost cb = common@;
        proof {
            assert forall|k: int| 0 <= k < eb.len() implies #[trigger] cb[k] == ((k < e0.len() && c0[k]) || (k < first_len
                && adjacent_upto(p, i as int, eb[k].0 as int, eb[k].1 as int))) by {
                assert(common@[k] == cb[k] && edges@[k] == eb[k]);
            }
        }
        add_edge(edges, common, last, cur, first_len, n);
        proof {
            let ii = i as int;
            assert(cur as int == stop_id(p[ii]));
            assert(step_pair(p, ii, last as int, cur as int));
            assert(step_pair(p, ii, cur as int, last as int));
            assert forall|a: int, b: int| adjacent_upto(p, ii + 1, a, b) <==> (adjacent_upto(p, ii, a, b) || step_pair(p, ii, a, b)) by {
                if adjacent_upto(p, ii + 1, a, b) {
                    let j = choose|j: int| 0 <= j < ii + 1 && #[trigger] step_pair(p, j, a, b);
                    if j < ii {
                    }
                }
            }
            assert(edges@.subrange(0, e0.len() as int) =~= e0) by {
                assert forall|j: int| 0 <= j < e0.len() implies edges@[j] == e0[j] by {
                    assert(edges@.subrange(0, eb.len() as int)[j] == eb[j]);
                    assert(eb.subrange(0, e0.len() as int)[j] == e0[j]);
                }
            }
            assert forall|k: int| e0.len() <= k < edges@.len() implies adjacent_upto(p, ii + 1, edges@[k].0 as int, edges@[k].1 as int) by {
                if k < eb.len() {
                    assert(edges@.subrange(0, eb.len() as int)[k] == eb[k]);
                    assert(adjacent_upto(p, ii, eb[k].0 as int, eb[k].1 as int));
                } else {
                    assert(step_pair(p, ii, edges@[k].0 as int, edges@[k].1 as int));
                }
            }
            assert forall|a: int, b: int| #[trigger] adjacent_upto(p, ii + 1, a, b) implies has_edge(edges@, a, b) by {
                if adjacent_upto(p, ii, a, b) {
                    lemma_has_edge_prefix(eb, edges@, a, b);
                } else {
                    assert(step_pair(p, ii, a, b));
                    if a == last as int && b == cur as int {
                    } else {
                        assert(a == cur as int && b == last as int);
                    }
                }
            }
            assert forall|k: int| 0 <= k < edges@.len() implies common@[k] == ((k < e0.len() && c0[k]) || (k < first_len
                && adjacent_upto(p, ii + 1, edges@[k].0 as int, edges@[k].1 as int))) by {
                let e = edges@[k];
                assert(step_pair(p, ii, e.0 as int, e.1 as int) <==> (e == (last, cur) || e == (cur, last)));
                assert(adjacent_upto(p, ii + 1, e.0 as int, e.1 as int) <==> (adjacent_upto(p, ii, e.0 as int, e.1 as int)
                    || step_pair(p, ii, e.0 as int, e.1 as int)));
                if k < eb.len() {
                    assert(edges@.subrange(0, eb.len() as int)[k] == eb[k]);
                    assert(cb[k] == ((k < e0.len() && c0[k]) || (k < first_len && adjacent_upto(p, ii, e.0 as int, e.1 as int))));
                } else {
                    assert(!common@[k]);
                }
            }
        }
        last = cur;
        i = i + 1;
    }
}

/// The stop id `b` may still be placed: a depot while separators remain, a patient
/// not yet placed.
pub open spec fn may_place(available: Seq<bool>, depots_left: int, b: int) -> bool {
    if b == 0 {
        depots_left > 0
    } else {
        available[b]
    }
}

/// How many edges out of `b` in `edges` lead to a stop that may still be placed.
pub open spec fn open_count(edges: Seq<(usize, usize)>, available: Seq<bool>, depots_left: int, b: int) -> nat
    decreases edges.len(),
{
    if edges.len() == 0 {
        0
    } else {
        open_count(edges.drop_last(), available, depots_left, b) + if edges.last().0 == b && may_place(
            available,
            depots_left,
            edges.last().1 as int,
        ) {
            1nat
        } else {
            0nat
        }
    }
}

/// How many neighbours of `b` may still be placed.
fn open_degree(edges: &Vec<(usize, usize)>, available: &Vec<bool>, depots_left: usize, b: usize) -> (r: usize)
    requires
        forall|k: int| 0 <= k < edges@.len() ==> edges@[k].1 < available@.len(),
    ensures
        r == open_count(edges@, available@, depots_left as int, b as int),
{
    let mut count: usize = 0;
    let mut k: usize = 0;
    while k < edges.len()
        invariant
            k <= edges@.len(),
            count <= k,
            count == open_count(edges@.take(k as int), available@, depots_left as int, b as int),
            forall|j: int| 0 <= j < edges@.len() ==> edges@[j].1 < available@.len(),
        decreases edges@.len() - k,
    {
        proof {
            assert(edges@.take(k + 1).drop_last() =~= edges@.take(k as int));
        }
        let (x, y) = edges[k];
        if x == b {
            if (y == 0 && depots_left > 0) || (y != 0 && available[y]) {
                count = count + 1;
            }
        }
        k = k + 1;
    }
    proof {
        assert(edges@.take(edges@.len() as int) =~= edges@);
    }
    count
}

/// Edge `e` leaves `current` towards a stop that may still be placed.
pub open spec fn is_candidate(
    edges: Seq<(usize, usize)>,
    available: Seq<bool>,
    depots_left: int,
    current: int,
    e: int,
) -> bool {
    edges[e].0 == current && may_place(available, depots_left, edges[e].1 as int)
}

/// A neighbour on a common edge beats one on another edge; between two of the same
/// kind, fewer open edges win.
pub open spec fn outranks(common1: bool, open1: nat, common2: bool, open2: nat) -> bool {
    (common1 && !common2) || (common1 == common2 && open1 < open2)
}

/// The next stop of an edge-recombination child after `current`: a neighbour that may
/// still be placed, on a common edge if there is one, else with the fewest open edges;
/// equally ranked neighbours are drawn uniformly. `None` when no neighbour may be
/// placed.
pub fn best_neighbour(
    edges: &Vec<(usize, usize)>,
    common: &Vec<bool>,
    available: &Vec<bool>,
    depots_left: usize,
    current: usize,
) -> (r: Option<usize>)
    requires
        common@.len() == edges@.len(),
        forall|k: int| 0 <= k < edges@.len() ==> edges@[k].1 < available@.len(),
    ensures
        r is None ==> forall|e: int|
            0 <= e < edges@.len() ==> !is_candidate(edges@, available@, depots_left as int, current as int, e),
        r matches Some(b) ==> exists|e: int|
            0 <= e < edges@.len() && #[trigger] is_candidate(edges@, available@, depots_left as int, current as int, e)
                && edges@[e].1 == b && forall|e2: int|
                0 <= e2 < edges@.len() && is_candidate(edges@, available@, depots_left as int, current as int, e2)
                    ==> !outranks(
                    common@[e2],
                    open_count(edges@, available@, depots_left as int, edges@[e2].1 as int),
                    common@[e],
                    open_count(edges@, available@, depots_left as int, b as int),
                ),
{
    let ghost dl = depots_left as int;
    let mut best: Option<usize> = None;
    let ghost mut best_e: int = 0;
    let mut best_common = false;
    let mut best_open: usize = 0;
    let mut ties: usize = 0;
    let mut e: usize = 0;
    while e < edges.len()
        invariant
            e <= edges@.len(),
            common@.len() == edges@.len(),
            forall|k: int| 0 <= k < edges@.len() ==> edges@[k].1 < available@.len(),
            ties <= e,
            dl == depots_left,
            best is None ==> forall|e2: int| 0 <= e2 < e ==> !is_candidate(edges@, available@, dl, current as int, e2),
            best matches Some(b) ==> {
                &&& 0 <= best_e < e
                &&& is_candidate(edges@, available@, dl, current as int, best_e)
                &&& edges@[best_e].1 == b
                &&& common@[best_e] == best_common
                &&& best_open == open_count(edges@, available@, dl, b as int)
                &&& forall|e2: int|
                    0 <= e2 < e && is_candidate(edges@, available@, dl, current as int, e2) ==> !outranks(
                        common@[e2],
                        open_count(edges@, available@, dl, edges@[e2].1 as int),
                        best_common,
                        best_open as nat,
                    )
            },
        decreases edges@.len() - e,
    {
        let (a, b) = edges[e];
        if a == current && ((b == 0 && depots_left > 0) || (b != 0 && available[b])) {
            let is_common = common[e];
            let open = open_degree(edges, available, depots_left, b);
            match best {
                None => {
                    best = Some(b);
                    proof {
                        best_e = e as int;
                    }
                    best_common = is_common;
                    best_open = open;
                    ties = 1;
                },
                Some(_) => {
                    if (is_common && !best_common) || (is_common == best_common && open < best_open) {
                        best = Some(b);
                        proof {
                            best_e = e as int;
                        }
                        best_common = is_common;
                        best_open = open;
                        ties = 1;
                    } else if is_common == best_common && open == best_open {
                        ties = ties + 1;
                        if random_below(ties) == 0 {
                            best = Some(b);
                            proof {
                                best_e = e as int;
                            }
                        }
                    }
                },
            }
        }
        e = e + 1;
    }
    proof {
        if best is Some {
            assert(is_candidate(edges@, available@, dl, current as int, best_e));
        }
    }
    best
}

/// The stop with stop id `b`.
fn stop_of(b: usize) -> (r: NurseStop)
    requires
        b <= i32::MAX,
    ensures
        stop_id(r) == b,
        b == 0 ==> r == NurseStop::Depot,
        b != 0 ==> r == NurseStop::Patient(b as i32),
{
    if b == 0 {
        NurseStop::Depot
    } else {
        NurseStop::Patient(b as i32)
    }
}

/// `edges` lists, once each and in both directions, exactly the pairs of stop ids
/// that stand next to each other in either parent (each preceded by the depot), and
/// `common` marks those that do so in both.
pub open spec fn edge_map_of(edges: Seq<(usize, usize)>, common: Seq<bool>, p1: Seq<NurseStop>, p2: Seq<NurseStop>) -> bool {
    &&& common.len() == edges.len()
    &&& no_dup_edges(edges)
    &&& forall|k: int|
        0 <= k < edges.len() ==> adjacent_in(p1, edges[k].0 as int, edges[k].1 as int) || adjacent_in(
            p2,
            edges[k].0 as int,
            edges[k].1 as int,
        )
    &&& forall|a: int, b: int| #[trigger] adjacent_in(p1, a, b) ==> has_edge(edges, a, b)
    &&& forall|a: int, b: int| #[trigger] adjacent_in(p2, a, b) ==> has_edge(edges, a, b)
    &&& forall|k: int|
        0 <= k < edges.len() ==> #[trigger] common[k] == (adjacent_in(p1, edges[k].0 as int, edges[k].1 as int)
            && adjacent_in(p2, edges[k].0 as int, edges[k].1 as int))
}

/// The stop with stop id `b`.
pub open spec fn stop_at(b: int) -> NurseStop {
    if b == 0 {
        NurseStop::Depot
    } else {
        NurseStop::Patient(b as i32)
    }
}

/// After the stops `placed`, stop id `b` may still be placed: `p1` holds it more often.
pub open spec fn placeable(p1: Seq<NurseStop>, placed: Seq<NurseStop>, b: int) -> bool {
    p1.to_multiset().count(stop_at(b)) > placed.to_multiset().count(stop_at(b))
}

/// How many edges out of `b` lead to a stop id that may still be placed.
pub open spec fn open_in(edges: Seq<(usize, usize)>, p1: Seq<NurseStop>, placed: Seq<NurseStop>, b: int) -> nat
    decreases edges.len(),
{
    if edges.len() == 0 {
        0
    } else {
        open_in(edges.drop_last(), p1, placed, b) + if edges.last().0 == b && placeable(p1, placed, edges.last().1 as int) {
            1nat
        } else {
            0nat
        }
    }
}

/// Edge `k` leaves the stop before position `i` of `child` towards a stop id that may
/// still be placed there.
pub open spec fn open_edge(
    edges: Seq<(usize, usize)>,
    p1: Seq<NurseStop>,
    child: Seq<NurseStop>,
    i: int,
    k: int,
) -> bool {
    &&& 0 <= k < edges.len()
    &&& edges[k].0 == prev_id(child, i)
    &&& placeable(p1, child.take(i), edges[k].1 as int)
}

/// Position `i` of `child` follows the edge rule: when an open edge leaves the stop
/// before it, the stop is the end of such an edge that no other open edge outranks
/// (common first, then fewest open edges); otherwise it is some stop that may still be
/// placed.
pub open spec fn follows_edges(
    edges: Seq<(usize, usize)>,
    common: Seq<bool>,
    p1: Seq<NurseStop>,
    child: Seq<NurseStop>,
    i: int,
) -> bool {
    if exists|k: int| #[trigger] open_edge(edges, p1, child, i, k) {
        exists|k: int|
            #[trigger] open_edge(edges, p1, child, i, k) && edges[k].1 == stop_id(child[i]) && forall|k2: int|
                #[trigger] open_edge(edges, p1, child, i, k2) ==> !outranks(
                    common[k2],
                    open_in(edges, p1, child.take(i), edges[k2].1 as int),
                    common[k],
                    open_in(edges, p1, child.take(i), stop_id(child[i])),
                )
    } else {
        placeable(p1, child.take(i), stop_id(child[i]))
    }
}

proof fn lemma_open_counts(
    edges: Seq<(usize, usize)>,
    available: Seq<bool>,
    depots_left: int,
    p1: Seq<NurseStop>,
    placed: Seq<NurseStop>,
    n: int,
)
    requires
        forall|k: int| 0 <= k < edges.len() ==> edges[k].1 <= n,
        forall|y: int| 0 <= y <= n ==> (may_place(available, depots_left, y) <==> #[trigger] placeable(p1, placed, y)),
    ensures
        forall|b: int| #[trigger] open_count(edges, available, depots_left, b) == open_in(edges, p1, placed, b),
    decreases edges.len(),
{
    if edges.len() > 0 {
        let t = edges.drop_last();
        lemma_open_counts(t, available, depots_left, p1, placed, n);
        assert forall|b: int| #[trigger] open_count(edges, available, depots_left, b) == open_in(edges, p1, placed, b) by {
            assert(open_count(t, available, depots_left, b) == open_in(t, p1, placed, b));
            assert(edges.last().1 <= n);
        }
    }
}

proof fn lemma_follows_push(
    edges: Seq<(usize, usize)>,
    common: Seq<bool>,
    p1: Seq<NurseStop>,
    c: Seq<NurseStop>,
    s: NurseStop,
    i: int,
)
    requires
        0 <= i < c.len(),
        follows_edges(edges, common, p1, c, i),
    ensures
        follows_edges(edges, common, p1, c.push(s), i),
{
    let d = c.push(s);
    assert(d.take(i) =~= c.take(i));
    assert(d[i] == c[i]);
    assert(prev_id(d, i) == prev_id(c, i));
    assert forall|k: int| #[trigger] open_edge(edges, p1, d, i, k) <==> open_edge(edges, p1, c, i, k) by {}
    if exists|k: int| #[trigger] open_edge(edges, p1, c, i, k) {
        let k = choose|k: int|
            #[trigger] open_edge(edges, p1, c, i, k) && edges[k].1 == stop_id(c[i]) && forall|k2: int|
                #[trigger] open_edge(edges, p1, c, i, k2) ==> !outranks(
                    common[k2],
                    open_in(edges, p1, c.take(i), edges[k2].1 as int),
                    common[k],
                    open_in(edges, p1, c.take(i), stop_id(c[i])),
                );
        assert(open_edge(edges, p1, d, i, k));
        assert forall|k2: int| #[trigger] open_edge(edges, p1, d, i, k2) implies !outranks(
            common[k2],
            open_in(edges, p1, d.take(i), edges[k2].1 as int),
            common[k],
            open_in(edges, p1, d.take(i), stop_id(d[i])),
        ) by {
            assert(open_edge(edges, p1, c, i, k2));
        }
    } else {
        assert forall|k: int| !#[trigger] open_edge(edges, p1, d, i, k) by {
            assert(!open_edge(edges, p1, c, i, k));
        }
    }
}

/// Edge recombination.
///
/// The neighbours of each stop in either parent form an edge map; edges found in both
/// parents are common. Starting at the depot, the child repeatedly moves to a
/// neighbour of the current stop that may still be placed, preferring common edges,
/// then the neighbour with the fewest open edges (ties drawn at random). With no such
/// neighbour it places a uniformly drawn stop id that may still be placed. Each patient
/// is placed once and as many separators as the first parent holds.
pub fn edge_crossover(parent1: &Genotype, parent2: &Genotype) -> (child: Genotype)
    requires
        parent1.stops@.len() <= MAX_STOPS,
        ids_in_range(parent1.stops@, parent1.stops@.len()),
        distinct_patients(parent1.stops@),
        parent2.stops@.to_multiset() == parent1.stops@.to_multiset(),
    ensures
        child.stops@.to_multiset() == parent1.stops@.to_multiset(),
        exists|edges: Seq<(usize, usize)>, common: Seq<bool>|
            #[trigger] edge_map_of(edges, common, parent1.stops@, parent2.stops@) && forall|i: int|
                0 <= i < child.stops@.len() ==> #[trigger] follows_edges(edges, common, parent1.stops@, child.stops@, i),
        child.meta_genes.same(&parent1.meta_genes),
        child.travel_time.is_none(),
        child.valid.is_none(),
{
    let n = parent1.stops.len();
    let ghost p1 = parent1.stops@;
    let ghost target = p1.to_multiset();
    proof {
        lemma_ids_in_range_same_multiset(p1, parent2.stops@, n as nat);
        assert(parent2.stops@.len() == n) by {
            assert(parent2.stops@.to_multiset().len() == p1.to_multiset().len());
        }
    }

    // edge map over both parents
    let mut edges: Vec<(usize, usize)> = Vec::new();
    let mut common: Vec<bool> = Vec::new();
    add_parent_edges(&mut edges, &mut common, &parent1.stops, 0, n);
    let first_len = edges.len();
    let ghost e1 = edges@;
    let ghost c1 = common@;
    add_parent_edges(&mut edges, &mut common, &parent2.stops, first_len, n);
    proof {
        let p2 = parent2.stops@;
        let e = edges@;
        assert forall|k: int| 0 <= k < e.len() implies adjacent_in(p1, e[k].0 as int, e[k].1 as int) || adjacent_in(
            p2,
            e[k].0 as int,
            e[k].1 as int,
        ) by {
            if k < first_len {
                assert(e.subrange(0, first_len as int)[k] == e1[k]);
            }
        }
        assert forall|a: int, b: int| #[trigger] adjacent_in(p1, a, b) implies has_edge(e, a, b) by {
            lemma_has_edge_prefix(e1, e, a, b);
        }
        assert forall|k: int| 0 <= k < e.len() implies #[trigger] common@[k] == (adjacent_in(p1, e[k].0 as int, e[k].1 as int)
            && adjacent_in(p2, e[k].0 as int, e[k].1 as int)) by {
            if k < first_len {
                assert(e.subrange(0, first_len as int)[k] == e1[k]);
                assert(!c1[k]);
            } else if adjacent_in(p1, e[k].0 as int, e[k].1 as int) {
                assert(has_edge(e1, e[k].0 as int, e[k].1 as int));
                let k1 = choose|k1: int| 0 <= k1 < e1.len() && #[trigger] e1[k1] == ((e[k].0 as int) as usize, (e[k].1 as int) as usize);
                assert(e.subrange(0, first_len as int)[k1] == e1[k1]);
                assert(e[k1] == e[k]);
            }
        }
        assert(edge_map_of(e, common@, p1, p2));
    }

    // what may still be placed
    let mut available: Vec<bool> = Vec::new();
    let mut k: usize = 0;
    while k <= n
        invariant
            k <= n + 1,
            n <= MAX_STOPS,
            available@.len() == k,
            forall|j: int| 0 <= j < k ==> !available@[j],
        decreases n + 1 - k,
    {
        available.push(false);
        k = k + 1;
    }
    let mut depots_left: usize = 0;
    let mut i: usize = 0;
    while i < n
        invariant
            i <= n,
            n == p1.len(),
            n <= MAX_STOPS,
            p1 == parent1.stops@,
            ids_in_range(p1, n as nat),
            available@.len() == n + 1,
            !available@[0],
            forall|j: int|
                1 <= j <= n ==> (#[trigger] available@[j] <==> p1.take(i as int).to_multiset().count(
                    NurseStop::Patient(j as i32),
                ) > 0),
            depots_left == p1.take(i as int).to_multiset().count(NurseStop::Depot),
            depots_left <= i,
        decreases n - i,
    {
        proof {
            assert(p1.take(i + 1) == p1.take(i as int).push(p1[i as int]));
            assert(p1.take(i + 1).to_multiset() =~= p1.take(i as int).to_multiset().insert(p1[i as int]));
        }
        match parent1.stops[i] {
            NurseStop::Patient(id) => {
                available.set(id as usize, true);
                proof {
                    assert forall|j: int| 1 <= j <= n implies (#[trigger] available@[j] <==> p1.take(i + 1).to_multiset().count(
                        NurseStop::Patient(j as i32),
                    ) > 0) by {
                        assert((j as i32) as int == j);
                        if j != id as int {
                            assert(NurseStop::Patient(j as i32) != NurseStop::Patient(id));
                        }
                    }
                }
            },
            NurseStop::Depot => {
                depots_left = depots_left + 1;
            },
        }
        i = i + 1;
    }
    proof {
        assert(p1.take(n as int) == p1);
    }

    // build the child
    let mut child: Vec<NurseStop> = Vec::new();
    let mut current: usize = 0;
    let ghost mut remaining: Multiset<NurseStop> = target;
    proof {
        assert(child@.to_multiset().add(remaining) =~= target);
        assert forall|x: NurseStop| x is Patient implies #[trigger] remaining.count(x) <= 1 by {
            lemma_distinct_patient_count(p1, x);
        }
        assert forall|x: NurseStop| #[trigger] remaining.count(x) > 0 && x is Patient implies 1 <= x->Patient_0 <= n by {
            lemma_ids_of_member(p1, n as nat, x);
        }
    }
    while child.len() < n
        invariant
            n == p1.len(),
            n <= MAX_STOPS,
            available@.len() == n + 1,
            !available@[0],
            current <= n,
            common@.len() == edges@.len(),
            forall|k: int| 0 <= k < edges@.len() ==> edges@[k].0 <= n && edges@[k].1 <= n,
            child@.to_multiset().add(remaining) == target,
            remaining.count(NurseStop::Depot) == depots_left,
            forall|x: NurseStop| x is Patient ==> #[trigger] remaining.count(x) <= 1,
            forall|x: NurseStop| #[trigger] remaining.count(x) > 0 && x is Patient ==> 1 <= x->Patient_0 <= n,
            forall|j: int| 1 <= j <= n ==> (#[trigger] available@[j] <==> remaining.count(NurseStop::Patient(j as i32)) > 0),
            target.len() == n,
            target == p1.to_multiset(),
            p1 == parent1.stops@,
            edge_map_of(edges@, common@, p1, parent2.stops@),
            current as int == prev_id(child@, child@.len() as int),
            forall|i: int| 0 <= i < child@.len() ==> #[trigger] follows_edges(edges@, common@, p1, child@, i),
        decreases n - child@.len(),
    {
        proof {
            assert forall|k: int| 0 <= k < edges@.len() implies edges@[k].1 < available@.len() by {}
            assert forall|y: int| 0 <= y <= n implies (may_place(available@, depots_left as int, y) <==> #[trigger] placeable(
                p1,
                child@,
                y,
            )) by {
                assert(target.count(stop_at(y)) == child@.to_multiset().count(stop_at(y)) + remaining.count(stop_at(y)));
                if y != 0 {
                    assert((y as i32) as int == y);
                }
            }
            lemma_open_counts(edges@, available@, depots_left as int, p1, child@, n as int);
        }
        let best = best_neighbour(&edges, &common, &available, depots_left, current);
        let ghost i = child@.len() as int;
        proof {
            match best {
                Some(b) => {
                    let e = choose|e: int|
                        0 <= e < edges@.len() && #[trigger] is_candidate(edges@, available@, depots_left as int, current as int, e)
                            && edges@[e].1 == b;
                    assert(b <= n);
                },
                None => {},
            }
        }
        let pick: usize = match best {
            Some(b) => b,
            None => {
                // no neighbour left: draw among every stop id that may still be placed
                let mut cands: Vec<usize> = Vec::new();
                let mut j: usize = 0;
                while j <= n
                    invariant
                        j <= n + 1,
                        n <= MAX_STOPS,
                        available@.len() == n + 1,
                        cands@.len() <= j,
                        forall|t: int| 0 <= t < cands@.len() ==> cands@[t] <= n && may_place(available@, depots_left as int, #[trigger] cands@[t] as int),
                        cands@.len() == 0 ==> forall|t: int| 0 <= t < j ==> !may_place(available@, depots_left as int, t),
                    decreases n + 1 - j,
                {
                    if (j == 0 && depots_left > 0) || (j != 0 && available[j]) {
                        cands.push(j);
                    }
                    j = j + 1;
                }
                proof {
                    assert(remaining.len() > 0) by {
                        assert(child@.to_multiset().add(remaining).len() == child@.to_multiset().len() + remaining.len());
                        assert(child@.to_multiset().len() == child@.len());
                    }
                    let x = remaining.choose();
                    assert(remaining.count(x) > 0);
                    if x is Patient {
                        let j = x->Patient_0 as int;
                        assert(x == NurseStop::Patient(j as i32));
                        assert(may_place(available@, depots_left as int, j));
                    } else {
                        assert(x == NurseStop::Depot);
                        assert(may_place(available@, depots_left as int, 0));
                    }
                    assert(cands@.len() > 0);
                }
                cands[random_below(cands.len())]
            },
        };
        let s = stop_of(pick);
        let ghost av0 = available@;
        let ghost dl0 = depots_left as int;
        proof {
            if pick == 0 {
                assert(remaining.count(s) > 0);
            } else {
                assert(remaining.count(NurseStop::Patient(pick as i32)) > 0);
            }
            assert(child@.push(s).to_multiset() =~= child@.to_multiset().insert(s));
            assert(child@.push(s).to_multiset().add(remaining.remove(s)) =~= child@.to_multiset().add(remaining));
        }
        if pick == 0 {
            depots_left = depots_left - 1;
        } else {
            available.set(pick, false);
        }
        let ghost c0 = child@;
        child.push(s);
        proof {
            assert(child@.take(i) =~= c0);
            assert(prev_id(child@, i) == current);
            assert(stop_id(child@[i]) == pick as int);
            assert forall|k: int| #[trigger] open_edge(edges@, p1, child@, i, k) <==> is_candidate(
                edges@,
                av0,
                dl0,
                current as int,
                k,
            ) && 0 <= k < edges@.len() by {}
            match best {
                Some(b) => {
                    let e = choose|e: int|
                        0 <= e < edges@.len() && #[trigger] is_candidate(edges@, av0, dl0, current as int, e)
                            && edges@[e].1 == b && forall|e2: int|
                            0 <= e2 < edges@.len() && is_candidate(edges@, av0, dl0, current as int, e2)
                                ==> !outranks(
                                common@[e2],
                                open_count(edges@, av0, dl0, edges@[e2].1 as int),
                                common@[e],
                                open_count(edges@, av0, dl0, b as int),
                            );
                    assert(open_edge(edges@, p1, child@, i, e));
                    assert forall|k2: int| #[trigger] open_edge(edges@, p1, child@, i, k2) implies !outranks(
                        common@[k2],
                        open_in(edges@, p1, child@.take(i), edges@[k2].1 as int),
                        common@[e],
                        open_in(edges@, p1, child@.take(i), stop_id(child@[i])),
                    ) by {
                        assert(is_candidate(edges@, av0, dl0, current as int, k2));
                    }
                    assert(follows_edges(edges@, common@, p1, child@, i));
                },
                None => {
                    assert forall|k: int| !#[trigger] open_edge(edges@, p1, child@, i, k) by {
                        if 0 <= k < edges@.len() {
                            assert(!is_candidate(edges@, av0, dl0, current as int, k));
                        }
                    }
                    assert(may_place(av0, dl0, pick as int));
                    assert(placeable(p1, c0, pick as int));
                    assert(follows_edges(edges@, common@, p1, child@, i));
                },
            }
            assert forall|i2: int| 0 <= i2 < child@.len() implies #[trigger] follows_edges(edges@, common@, p1, child@, i2) by {
                if i2 < i {
                    lemma_follows_push(edges@, common@, p1, c0, s, i2);
                }
            }
            let old_remaining = remaining;
            remaining = remaining.remove(s);
            assert forall|j: int| 1 <= j <= n implies (#[trigger] available@[j] <==> remaining.count(NurseStop::Patient(j as i32)) > 0) by {
                if j == pick {
                    assert(s == NurseStop::Patient(j as i32));
                    assert(old_remaining.count(s) <= 1);
                }
            }
        }
        current = pick;
    }
    proof {
        assert(edge_map_of(edges@, common@, p1, parent2.stops@));
        assert(child@.to_multiset().len() == n);
        assert(child@.to_multiset().add(remaining).len() == child@.to_multiset().len() + remaining.len());
        assert(remaining.len() == 0);
        assert(remaining =~= Multiset::empty());
        assert(child@.to_multiset() =~= target);
    }
    Genotype::new(child, parent1.meta_genes.copy())
}


/// The first position of `x` in `v`, if any.
fn position_of(v: &Vec<NurseStop>, x: NurseStop) -> (r: Option<usize>)
    ensures
        match r {
            Some(k) => k < v@.len() && v@[k as int] == x,
            None => v@.to_multiset().count(x) == 0,
        },
{
    let mut k: usize = 0;
    while k < v.len()
        invariant
            k <= v@.len(),
            forall|j: int| 0 <= j < k ==> v@[j] != x,
        decreases v@.len() - k,
    {
        if v[k] == x {
            return Some(k);
        }
        k = k + 1;
    }
    proof {
        if v@.to_multiset().count(x) > 0 {
            assert(v@.contains(x));
        }
    }
    None
}

/// The stops of `a` that `b` does not match one for one (multiset difference), in
/// the order they stand in `a`.
pub fn multiset_minus(a: &Vec<NurseStop>, b: &Vec<NurseStop>) -> (r: Vec<NurseStop>)
    ensures
        r@.to_multiset() == a@.to_multiset().sub(b@.to_multiset()),
{
    let mut rest: Vec<NurseStop> = b.clone();
    proof {
        assert(rest@ =~= b@);
    }
    let mut r: Vec<NurseStop> = Vec::new();
    let mut i: usize = 0;
    while i < a.len()
        invariant
            i <= a@.len(),
            r@.to_multiset().add(b@.to_multiset()) == a@.take(i as int).to_multiset().add(rest@.to_multiset()),
            forall|y: NurseStop| r@.to_multiset().count(y) > 0 ==> rest@.to_multiset().count(y) == 0,
        decreases a@.len() - i,
    {
        let x = a[i];
        proof {
            assert(a@.take(i + 1) == a@.take(i as int).push(x));
            assert(a@.take(i + 1).to_multiset() =~= a@.take(i as int).to_multiset().insert(x));
        }
        match position_of(&rest, x) {
            Some(k) => {
                proof {
                    assert(rest@.contains(x));
                    assert(rest@.to_multiset().count(x) > 0);
                    assert(rest@.remove(k as int).to_multiset() == rest@.to_multiset().remove(x));
                }
                let ghost old_rest = rest@;
                rest.remove(k);
                proof {
                    assert(rest@.to_multiset() == old_rest.to_multiset().remove(x));
                    assert forall|y: NurseStop|
                        r@.to_multiset().add(b@.to_multiset()).count(y) == a@.take(i + 1).to_multiset().add(
                            rest@.to_multiset(),
                        ).count(y) by {
                        if y == x {
                        } else {
                        }
                    }
                    assert(r@.to_multiset().add(b@.to_multiset()) =~= a@.take(i + 1).to_multiset().add(rest@.to_multiset()));
                }
            },
            None => {
                let ghost old_r = r@;
                r.push(x);
                proof {
                    assert(r@.to_multiset() =~= old_r.to_multiset().insert(x));
                    assert forall|y: NurseStop|
                        r@.to_multiset().add(b@.to_multiset()).count(y) == a@.take(i + 1).to_multiset().add(
                            rest@.to_multiset(),
                        ).count(y) by {
                        assert(old_r.to_multiset().add(b@.to_multiset()).count(y) == a@.take(i as int).to_multiset().add(
                            rest@.to_multiset(),
                        ).count(y));
                    }
                    assert(r@.to_multiset().add(b@.to_multiset()) =~= a@.take(i + 1).to_multiset().add(rest@.to_multiset()));
                }
            },
        }
        i = i + 1;
    }
    proof {
        assert(a@.take(a@.len() as int) == a@);
        assert forall|y: NurseStop| r@.to_multiset().count(y) == a@.to_multiset().sub(b@.to_multiset()).count(y) by {
            assert(r@.to_multiset().add(b@.to_multiset()).count(y) == a@.to_multiset().add(rest@.to_multiset()).count(y));
        }
        assert(r@.to_multiset() =~= a@.to_multiset().sub(b@.to_multiset()));
    }
    r
}

/// The multiset of `s` at positions `lo..hi`.
pub open spec fn window(s: Seq<NurseStop>, lo: int, hi: int) -> Multiset<NurseStop> {
    s.subrange(lo, hi).to_multiset()
}

/// `y` occurs more often in `a` than in `b`.
pub open spec fn in_excess(a: Multiset<NurseStop>, b: Multiset<NurseStop>, y: NurseStop) -> bool {
    a.count(y) > b.count(y)
}

/// Replaces, over positions `from..to`, each stop still listed in `remove` by the last
/// entry of `fill`.
fn repair_span(
    child: &mut Vec<NurseStop>,
    remove: &mut Vec<NurseStop>,
    fill: &mut Vec<NurseStop>,
    from: usize,
    to: usize,
    Ghost(rest): Ghost<Multiset<NurseStop>>,
    Ghost(target): Ghost<Multiset<NurseStop>>,
    Ghost(r0): Ghost<Multiset<NurseStop>>,
    Ghost(f0): Ghost<Multiset<NurseStop>>,
)
    requires
        from <= to <= old(child)@.len(),
        old(remove)@.len() == old(fill)@.len(),
        old(child)@.to_multiset().add(old(fill)@.to_multiset()) == target.add(old(remove)@.to_multiset()),
        old(remove)@.to_multiset().subset_of(window(old(child)@, from as int, to as int).add(rest)),
        old(remove)@.to_multiset().subset_of(r0),
        old(fill)@.to_multiset().subset_of(f0),
    ensures
        final(child)@.len() == old(child)@.len(),
        forall|i: int|
            0 <= i < old(child)@.len() && !(from <= i < to) ==> final(child)@[i] == old(child)@[i],
        forall|i: int|
            from <= i < to ==> final(child)@[i] == old(child)@[i] || (r0.count(old(child)@[i]) > 0
                && f0.count(final(child)@[i]) > 0),
        final(remove)@.len() == final(fill)@.len(),
        final(child)@.to_multiset().add(final(fill)@.to_multiset()) == target.add(final(remove)@.to_multiset()),
        final(remove)@.to_multiset().subset_of(rest),
        final(remove)@.to_multiset().subset_of(r0),
        final(fill)@.to_multiset().subset_of(f0),
{
    let ghost c0 = child@;
    let mut j: usize = from;
    while j < to
        invariant
            from <= j <= to <= child@.len(),
            child@.len() == c0.len(),
            remove@.len() == fill@.len(),
            child@.to_multiset().add(fill@.to_multiset()) == target.add(remove@.to_multiset()),
            remove@.to_multiset().subset_of(window(child@, j as int, to as int).add(rest)),
            remove@.to_multiset().subset_of(r0),
            fill@.to_multiset().subset_of(f0),
            forall|i: int| 0 <= i < c0.len() && !(from <= i < j) ==> child@[i] == c0[i],
            forall|i: int|
                from <= i < j ==> child@[i] == c0[i] || (r0.count(c0[i]) > 0 && f0.count(child@[i]) > 0),
        decreases to - j,
    {
        let x = child[j];
        proof {
            assert(child@.subrange(j as int, to as int) =~= child@.subrange(j + 1, to as int).insert(0, x));
            assert(window(child@, j as int, to as int) =~= window(child@, j + 1, to as int).insert(x));
        }
        match position_of(remove, x) {
            Some(k) => {
                proof {
                    assert(remove@.to_multiset().count(x) > 0);
                    assert(fill@.len() > 0);
                    assert(fill@.to_multiset().count(fill@.last()) > 0) by {
                        assert(fill@.contains(fill@.last()));
                    }
                    assert(fill@.drop_last().push(fill@.last()) =~= fill@);
                    assert(remove@.remove(k as int).to_multiset() == remove@.to_multiset().remove(x));
                }
                let ghost old_child = child@;
                let ghost old_fill = fill@;
                let ghost old_remove = remove@;
                let f = fill.pop().unwrap();
                child.set(j, f);
                remove.remove(k);
                proof {
                    assert(old_fill =~= fill@.push(f));
                    assert(old_fill.to_multiset() =~= fill@.to_multiset().insert(f));
                    assert(child@ == old_child.update(j as int, f));
                    assert(old_child.to_multiset().count(x) > 0) by {
                        assert(old_child.contains(x));
                    }
                    assert(remove@.to_multiset() == old_remove.to_multiset().remove(x));
                    assert(child@.to_multiset() == old_child.to_multiset().insert(f).remove(x));
                    assert forall|y: NurseStop|
                        child@.to_multiset().add(fill@.to_multiset()).count(y) == target.add(remove@.to_multiset()).count(y) by {
                        assert(old_child.to_multiset().add(old_fill.to_multiset()).count(y) == target.add(old_remove.to_multiset()).count(y));
                        assert(old_fill.to_multiset().count(y) == fill@.to_multiset().count(y) + if y == f { 1int } else { 0int });
                        assert(old_remove.to_multiset().count(y) == remove@.to_multiset().count(y) + if y == x { 1int } else { 0int });
                        assert(child@.to_multiset().count(y) + (if y == x { 1int } else { 0int }) == old_child.to_multiset().count(y) + if y == f { 1int } else { 0int });
                    }
                    assert(child@.subrange(j + 1, to as int) =~= old_child.subrange(j + 1, to as int));
                    assert(child@.to_multiset().add(fill@.to_multiset()) =~= target.add(remove@.to_multiset()));
                }
            },
            None => {
                proof {
                    assert(child@.subrange(j + 1, to as int) =~= child@.subrange(j + 1, to as int));
                }
            },
        }
        j = j + 1;
    }
}

/// Partially-mapped crossover over the window `lo..hi`.
///
/// The child is `parent2` with the window copied from `parent1`. The stops the window
/// brought in beyond those it replaced (`remove`) are then, outside the window and from
/// left to right, each replaced once by one of the stops the window pushed out (`fill`,
/// taken from its end). Depots are matched by count, so any of them may be the one
/// replaced.
pub fn pmx_with_range(parent1: &Genotype, parent2: &Genotype, lo: usize, hi: usize) -> (child: Genotype)
    requires
        lo <= hi <= parent1.stops@.len(),
        parent2.stops@.to_multiset() == parent1.stops@.to_multiset(),
    ensures
        child.stops@.len() == parent2.stops@.len(),
        forall|i: int| lo <= i < hi ==> child.stops@[i] == parent1.stops@[i],
        forall|i: int|
            0 <= i < child.stops@.len() && !(lo <= i < hi) ==> child.stops@[i] == parent2.stops@[i] || (
            in_excess(
                window(parent1.stops@, lo as int, hi as int),
                window(parent2.stops@, lo as int, hi as int),
                parent2.stops@[i],
            ) && in_excess(
                window(parent2.stops@, lo as int, hi as int),
                window(parent1.stops@, lo as int, hi as int),
                child.stops@[i],
            )),
        child.stops@.to_multiset() == parent2.stops@.to_multiset(),
        child.meta_genes.same(&parent1.meta_genes),
        child.travel_time.is_none(),
        child.valid.is_none(),
{
    let ghost p1 = parent1.stops@;
    let ghost p2 = parent2.stops@;
    let len = parent2.stops.len();
    proof {
        assert(p1.to_multiset().len() == p2.to_multiset().len());
    }
    let p1w = copy_range(&parent1.stops, lo, hi);
    let p2w = copy_range(&parent2.stops, lo, hi);
    let mut remove_stops = multiset_minus(&p1w, &p2w);
    let mut fill_stops = multiset_minus(&p2w, &p1w);
    let ghost a = p1w@.to_multiset();
    let ghost b = p2w@.to_multiset();
    let ghost r0 = remove_stops@.to_multiset();
    let ghost f0 = fill_stops@.to_multiset();
    proof {
        assert(r0.add(b) =~= f0.add(a));
        assert(r0.add(b).len() == r0.len() + b.len());
        assert(f0.add(a).len() == f0.len() + a.len());
        assert(remove_stops@.len() == fill_stops@.len());
    }
    let mut stops = parent2.stops.clone();
    proof {
        assert(stops@ =~= p2);
    }
    let mut i: usize = lo;
    while i < hi
        invariant
            lo <= i <= hi <= len,
            p1 == parent1.stops@,
            p2 == parent2.stops@,
            len == p2.len(),
            len == p1.len(),
            stops@.len() == len,
            forall|k: int| 0 <= k < len && !(lo <= k < i) ==> stops@[k] == p2[k],
            forall|k: int| lo <= k < i ==> stops@[k] == p1[k],
        decreases hi - i,
    {
        stops.set(i, parent1.stops[i]);
        i = i + 1;
    }
    let ghost c = stops@;
    proof {
        let pre = p2.subrange(0, lo as int);
        let post = p2.subrange(hi as int, len as int);
        assert(p2 =~= pre + p2.subrange(lo as int, hi as int) + post);
        assert(c =~= pre + p1.subrange(lo as int, hi as int) + post);
        assert(p1 =~= p1.subrange(0, lo as int) + p1.subrange(lo as int, hi as int) + p1.subrange(hi as int, len as int));
        assert(c.subrange(0, lo as int) =~= pre);
        assert(c.subrange(hi as int, len as int) =~= post);
        assert(p1.subrange(lo as int, hi as int) == p1w@);
        assert(p2.subrange(lo as int, hi as int) == p2w@);
        assert(c.to_multiset().add(f0) =~= p2.to_multiset().add(r0));
        assert forall|y: NurseStop| r0.count(y) <= window(c, 0, lo as int).add(window(c, hi as int, len as int)).count(y) by {
            assert(p1.to_multiset().count(y) >= a.count(y));
        }
        assert(r0.subset_of(window(c, 0, lo as int).add(window(c, hi as int, len as int))));
    }
    repair_span(&mut stops, &mut remove_stops, &mut fill_stops, 0, lo,
        Ghost(window(c, hi as int, len as int)), Ghost(p2.to_multiset()), Ghost(r0), Ghost(f0));
    let ghost c1 = stops@;
    proof {
        assert(c1.subrange(hi as int, len as int) =~= c.subrange(hi as int, len as int));
    }
    repair_span(&mut stops, &mut remove_stops, &mut fill_stops, hi, len,
        Ghost(Multiset::empty()), Ghost(p2.to_multiset()), Ghost(r0), Ghost(f0));
    proof {
        assert(remove_stops@.to_multiset() =~= Multiset::empty());
        assert(remove_stops@.to_multiset().len() == 0);
        assert(remove_stops@.len() == 0);
        assert(fill_stops@ =~= Seq::<NurseStop>::empty());
        assert(fill_stops@.to_multiset() =~= Multiset::empty());
        assert(fill_stops@.to_multiset().len() == 0);
        assert(stops@.to_multiset().add(fill_stops@.to_multiset()) == p2.to_multiset().add(remove_stops@.to_multiset()));
        assert forall|y: NurseStop| stops@.to_multiset().count(y) == p2.to_multiset().count(y) by {
            assert(stops@.to_multiset().add(fill_stops@.to_multiset()).count(y) == p2.to_multiset().add(remove_stops@.to_multiset()).count(y));
        }
        assert(stops@.to_multiset() =~= p2.to_multiset());
        assert forall|y: NurseStop| r0.count(y) > 0 implies in_excess(a, b, y) by {}
        assert forall|y: NurseStop| f0.count(y) > 0 implies in_excess(b, a, y) by {}
    }
    Genotype::new(stops, parent1.meta_genes.copy())
}


/// `child` is a partially-mapped child of `p1` and `p2` over the window `lo..hi`: the
/// window holds `p1`'s stops; outside it each position keeps `p2`'s stop, unless that
/// stop is in excess in `p1`'s window and was replaced by one in excess in `p2`'s.
pub open spec fn pmx_child(child: Seq<NurseStop>, p1: Seq<NurseStop>, p2: Seq<NurseStop>, lo: int, hi: int) -> bool {
    &&& child.len() == p2.len()
    &&& forall|i: int| lo <= i < hi ==> child[i] == p1[i]
    &&& forall|i: int|
        0 <= i < child.len() && !(lo <= i < hi) ==> child[i] == p2[i] || (in_excess(
            window(p1, lo, hi),
            window(p2, lo, hi),
            p2[i],
        ) && in_excess(window(p2, lo, hi), window(p1, lo, hi), child[i]))
}

/// PMX over a random window of the parents' length.
pub fn partially_mapped_crossover(parent1: &Genotype, parent2: &Genotype) -> (child: Genotype)
    requires
        parent2.stops@.to_multiset() == parent1.stops@.to_multiset(),
    ensures
        exists|lo: int, hi: int|
            0 <= lo <= hi <= parent1.stops@.len() && (parent1.stops@.len() > 0 ==> hi < parent1.stops@.len())
                && #[trigger] pmx_child(child.stops@, parent1.stops@, parent2.stops@, lo, hi),
        child.stops@.len() == parent2.stops@.len(),
        child.stops@.to_multiset() == parent2.stops@.to_multiset(),
        child.meta_genes.same(&parent1.meta_genes),
        child.travel_time.is_none(),
        child.valid.is_none(),
{
    let len = parent1.stops.len();
    let (lo, hi) = if len == 0 {
        (0, 0)
    } else {
        get_rand_range(len)
    };
    let child = pmx_with_range(parent1, parent2, lo, hi);
    proof {
        assert(pmx_child(child.stops@, parent1.stops@, parent2.stops@, lo as int, hi as int));
    }
    child
}

/// The positions `lo..hi` of the route of `s` that holds position `pos`: the largest
/// span around `pos` without a depot (empty when `pos` is a depot).
pub fn route_span(s: &Vec<NurseStop>, pos: usize) -> (r: (usize, usize))
    requires
        pos < s@.len(),
    ensures
        r.0 <= r.1 <= s@.len(),
        r.0 <= pos,
        s@[pos as int] is Patient ==> pos < r.1,
        s@[pos as int] is Depot ==> r.0 == pos && r.1 == pos,
        forall|i: int| r.0 <= i < r.1 ==> s@[i] is Patient,
        r.0 > 0 && r.0 < r.1 ==> s@[r.0 - 1] is Depot,
        r.1 < s@.len() && r.0 < r.1 ==> s@[r.1 as int] is Depot,
{
    if s[pos] == NurseStop::Depot {
        return (pos, pos);
    }
    let mut lo: usize = pos;
    while lo > 0 && s[lo - 1] != NurseStop::Depot
        invariant
            lo <= pos < s@.len(),
            forall|i: int| lo <= i <= pos ==> s@[i] is Patient,
        decreases lo,
    {
        lo = lo - 1;
    }
    let n = s.len();
    let mut hi: usize = pos + 1;
    while hi < s.len() && s[hi] != NurseStop::Depot
        invariant
            pos < hi <= s@.len(),
            forall|i: int| lo <= i < hi ==> s@[i] is Patient,
        decreases s@.len() - hi,
    {
        hi = hi + 1;
    }
    (lo, hi)
}

/// Sub-path crossover: PMX whose window is one whole route of `parent1`, the route
/// holding a randomly drawn position.
pub fn simple_sub_path_crossover(parent1: &Genotype, parent2: &Genotype) -> (child: Genotype)
    requires
        parent2.stops@.to_multiset() == parent1.stops@.to_multiset(),
    ensures
        exists|lo: int, hi: int|
            0 <= lo <= hi <= parent1.stops@.len() && #[trigger] pmx_child(child.stops@, parent1.stops@, parent2.stops@, lo, hi)
                && forall|i: int| lo <= i < hi ==> parent1.stops@[i] is Patient,
        child.stops@.len() == parent2.stops@.len(),
        child.stops@.to_multiset() == parent2.stops@.to_multiset(),
        child.meta_genes.same(&parent1.meta_genes),
        child.travel_time.is_none(),
        child.valid.is_none(),
{
    let len = parent1.stops.len();
    let (lo, hi) = if len == 0 {
        (0, 0)
    } else {
        route_span(&parent1.stops, random_below(len))
    };
    let child = pmx_with_range(parent1, parent2, lo, hi);
    proof {
        assert(pmx_child(child.stops@, parent1.stops@, parent2.stops@, lo as int, hi as int));
    }
    child
}

} // verus!
