//! Laws that relate several functions of the library.
use vstd::prelude::*;

use crate::environment::EnvPruned;
use crate::encoding::{lemma_routes_nonempty, routes_of, visits};
use crate::genalg::{
    close_route, cost, feasible, is_evaluated, is_genome_of, misses_window, overloaded, returns_late,
    sim_prefix, sim_step, simulate, Genotype, NurseStop, SimState,
};
use crate::selection::sorted_by_cost;

verus! {

/// Any rearrangement of a genome of an instance is again a genome of that instance:
/// operators that keep the multiset of stops keep the genome invariant.
pub proof fn lemma_rearrangement_keeps_genome(env: &EnvPruned, before: Seq<NurseStop>, after: Seq<NurseStop>)
    requires
        is_genome_of(before, env),
        after.to_multiset() == before.to_multiset(),
    ensures
        is_genome_of(after, env),
{
}

/// Evaluation is deterministic: two evaluations of the same stops agree on cost and
/// feasibility.
pub proof fn lemma_evaluation_deterministic(env: &EnvPruned, a: Genotype, b: Genotype)
    requires
        is_evaluated(env, a),
        is_evaluated(env, b),
        a.stops@ == b.stops@,
    ensures
        a.travel_time == b.travel_time,
        a.valid == b.valid,
{
}

/// Keeping the first genomes of a population sorted by cost never makes its best cost
/// worse: every genome of the population costs at least as much as some survivor.
pub proof fn lemma_elitism_keeps_best(pop: Seq<Genotype>, num: nat)
    requires
        sorted_by_cost(pop),
        1 <= num <= pop.len(),
    ensures
        forall|i: int|
            0 <= i < pop.len() ==> exists|j: int| 0 <= j < num && cost(pop.take(num as int)[j]) <= cost(#[trigger] pop[i]),
{
    assert forall|i: int| 0 <= i < pop.len() implies exists|j: int| 0 <= j < num && cost(pop.take(num as int)[j]) <= cost(#[trigger] pop[i]) by {
        assert(pop.take(num as int)[0] == pop[0]);
        if i > 0 {
            assert(cost(pop[0]) <= cost(pop[i]));
        }
    }
}

/// The simulation of one route from the depot, over the patients `r`.
pub open spec fn route_state(env: &EnvPruned, r: Seq<i32>) -> SimState {
    sim_prefix(env, visits(r))
}

/// The violations of one route, its closing checks included.
pub open spec fn route_violations(env: &EnvPruned, r: Seq<i32>) -> int {
    close_route(env, route_state(env, r)).violations
}

/// The violations of all the routes `routes`.
pub open spec fn violation_sum(env: &EnvPruned, routes: Seq<Seq<i32>>) -> int
    decreases routes.len(),
{
    if routes.len() == 0 {
        0
    } else {
        violation_sum(env, routes.drop_last()) + route_violations(env, routes.last())
    }
}

/// A route is feasible: every patient's service ends within its window, the route's
/// load stays within the capacity, and the route is back at the depot in time.
pub open spec fn route_feasible(env: &EnvPruned, r: Seq<i32>) -> bool {
    &&& forall|j: int| 0 <= j < r.len() ==> !misses_window(env, route_state(env, r.take(j)), #[trigger] r[j] as int)
    &&& !overloaded(env, route_state(env, r))
    &&& !returns_late(env, route_state(env, r))
}

proof fn lemma_visits_push(r: Seq<i32>, p: i32)
    ensures
        visits(r.push(p)) == visits(r).push(NurseStop::Patient(p)),
{
    assert(visits(r.push(p)) =~= visits(r).push(NurseStop::Patient(p)));
}

proof fn lemma_sim_push(env: &EnvPruned, s: Seq<NurseStop>, x: NurseStop)
    ensures
        sim_prefix(env, s.push(x)) == sim_step(env, sim_prefix(env, s), x),
{
    assert(s.push(x).drop_last() =~= s);
}

/// Within a route the violation count starts at zero and only grows; it stays zero
/// exactly when every service ends within its window.
proof fn lemma_route_state(env: &EnvPruned, r: Seq<i32>)
    ensures
        route_state(env, r).violations >= 0,
        route_state(env, r).violations == 0 <==> forall|j: int|
            0 <= j < r.len() ==> !misses_window(env, route_state(env, r.take(j)), #[trigger] r[j] as int),
    decreases r.len(),
{
    if r.len() == 0 {
        assert(visits(r) =~= Seq::<NurseStop>::empty());
    } else {
        let t = r.drop_last();
        let p = r.last();
        lemma_route_state(env, t);
        assert(r == t.push(p));
        lemma_visits_push(t, p);
        lemma_sim_push(env, visits(t), NurseStop::Patient(p));
        assert(r.take(r.len() - 1) =~= t);
        assert forall|j: int| 0 <= j < t.len() implies r.take(j) == t.take(j) && r[j] == t[j] by {
            assert(r.take(j) =~= t.take(j));
        }
        if route_state(env, r).violations == 0 {
            assert forall|j: int| 0 <= j < r.len() implies !misses_window(env, route_state(env, r.take(j)), #[trigger] r[j] as int) by {
                if j < t.len() {
                    assert(r.take(j) == t.take(j));
                }
            }
        } else {
            if route_state(env, t).violations == 0 {
                assert(misses_window(env, route_state(env, t), p as int));
                assert(r[r.len() - 1] == p);
            } else {
                let j = choose|j: int| 0 <= j < t.len() && misses_window(env, route_state(env, t.take(j)), #[trigger] t[j] as int);
                assert(r.take(j) == t.take(j));
            }
        }
    }
}

/// The simulation state after a prefix: the current route's own state, with the
/// violations of the routes already closed added.
proof fn lemma_prefix_decomposition(env: &EnvPruned, s: Seq<NurseStop>)
    ensures
        routes_of(s).len() >= 1,
        ({
            let rs = routes_of(s);
            let cur = route_state(env, rs.last());
            let st = sim_prefix(env, s);
            &&& st.prev == cur.prev
            &&& st.clock == cur.clock
            &&& st.load == cur.load
            &&& st.violations == violation_sum(env, rs.drop_last()) + cur.violations
        }),
    decreases s.len(),
{
    lemma_routes_nonempty(s);
    if s.len() == 0 {
        assert(visits(Seq::<i32>::empty()) =~= Seq::<NurseStop>::empty());
        assert(routes_of(s).drop_last() =~= Seq::<Seq<i32>>::empty());
    } else {
        let t = s.drop_last();
        lemma_prefix_decomposition(env, t);
        lemma_routes_nonempty(t);
        let rs = routes_of(t);
        assert(s == t.push(s.last()));
        lemma_sim_push(env, t, s.last());
        match s.last() {
            NurseStop::Depot => {
                let rs2 = rs.push(Seq::<i32>::empty());
                assert(routes_of(s) == rs2);
                assert(rs2.drop_last() =~= rs);
                assert(rs2.last() == Seq::<i32>::empty());
                assert(visits(Seq::<i32>::empty()) =~= Seq::<NurseStop>::empty());
                assert(rs.drop_last().push(rs.last()) =~= rs);
            },
            NurseStop::Patient(p) => {
                let rs2 = rs.update(rs.len() - 1, rs.last().push(p));
                assert(routes_of(s) == rs2);
                assert(rs2.drop_last() =~= rs.drop_last());
                assert(rs2.last() == rs.last().push(p));
                lemma_visits_push(rs.last(), p);
                lemma_sim_push(env, visits(rs.last()), NurseStop::Patient(p));
            },
        }
    }
}

proof fn lemma_violation_sum(env: &EnvPruned, routes: Seq<Seq<i32>>)
    ensures
        violation_sum(env, routes) >= 0,
        violation_sum(env, routes) == 0 <==> forall|k: int| 0 <= k < routes.len() ==> route_violations(env, #[trigger] routes[k]) == 0,
    decreases routes.len(),
{
    if routes.len() > 0 {
        let t = routes.drop_last();
        lemma_violation_sum(env, t);
        lemma_route_state(env, routes.last());
        assert forall|k: int| 0 <= k < t.len() implies t[k] == routes[k] by {}
        if violation_sum(env, routes) == 0 {
            assert forall|k: int| 0 <= k < routes.len() implies route_violations(env, #[trigger] routes[k]) == 0 by {
                lemma_route_state(env, routes[k]);
                if k < t.len() {
                    assert(t[k] == routes[k]);
                }
            }
        } else if violation_sum(env, t) != 0 {
            let k = choose|k: int| 0 <= k < t.len() && route_violations(env, #[trigger] t[k]) != 0;
            assert(routes[k] == t[k]);
        } else {
            assert(routes[routes.len() - 1] == routes.last());
        }
    }
}

/// A genome is feasible exactly when each of its routes is: every route's load is
/// within the capacity, every route is back at the depot within the return bound, and
/// every patient's service ends within its window.
pub proof fn lemma_feasible_iff_routes_feasible(env: &EnvPruned, s: Seq<NurseStop>)
    ensures
        feasible(env, s) <==> forall|k: int| 0 <= k < routes_of(s).len() ==> route_feasible(env, #[trigger] routes_of(s)[k]),
{
    lemma_prefix_decomposition(env, s);
    let rs = routes_of(s);
    assert(rs.drop_last().push(rs.last()) =~= rs);
    assert(simulate(env, s).violations == violation_sum(env, rs)) by {
        assert(rs.drop_last() == rs.drop_last());
    }
    lemma_violation_sum(env, rs);
    assert forall|k: int| 0 <= k < rs.len() implies (route_violations(env, #[trigger] rs[k]) == 0 <==> route_feasible(env, rs[k])) by {
        lemma_route_state(env, rs[k]);
    }
}

} // verus!
