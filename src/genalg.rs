//! The genome, its fitness simulation and its route decomposition.
use vstd::multiset::Multiset;
use vstd::prelude::*;

use crate::environment::{EnvPruned, MAX_PATIENTS};
use crate::mutation::{MetaGenes, NUM_OPERATORS, RATE_SCALE};
use crate::wrappers::shuffle_in_place;

verus! {

broadcast use vstd::seq_lib::group_to_multiset_ensures, vstd::multiset::group_multiset_axioms,
    vstd::seq_lib::lemma_multiset_commutative;

/// Largest genome length any valid instance produces; evaluation requires it so that
/// distances, clocks and the penalised cost stay within their integer types.
pub const MAX_STOPS: usize = 200_000;

/// Penalty weights are kept exactly: a cost is `distance * (PENALTY_BASE + violations)`,
/// that is the distance scaled by `PENALTY_BASE` and raised by one `PENALTY_BASE`-th per
/// violation.
pub const PENALTY_BASE: u128 = 20;

/// One element of a route encoding: a patient visit, or a route separator.
#[derive(Debug, Clone, Copy, PartialEq, Eq, Hash, PartialOrd, Structural)]
pub enum NurseStop {
    /// The patient id, in `1..=number of patients`.
    Patient(i32),
    /// A route separator: the nurse returns to the depot and the next one starts.
    Depot,
}

/// A candidate solution: the route encoding, its self-adaptive parameters and the
/// cached evaluation.
#[derive(Debug, Clone)]
pub struct Genotype {
    pub stops: Vec<NurseStop>,
    pub meta_genes: MetaGenes,
    /// Cached cost, `None` until evaluated.
    pub travel_time: Option<u128>,
    /// Cached feasibility, `None` until evaluated.
    pub valid: Option<bool>,
}

/// The stop id of a stop: the patient id, or 0 for the depot.
pub open spec fn stop_id(s: NurseStop) -> int {
    match s {
        NurseStop::Patient(id) => id as int,
        NurseStop::Depot => 0,
    }
}

/// Every patient id in `s` lies in `1..=n`.
pub open spec fn ids_in_range(s: Seq<NurseStop>, n: nat) -> bool {
    forall|i: int|
        0 <= i < s.len() ==> (#[trigger] s[i] is Patient ==> 1 <= s[i]->Patient_0 <= n)
}

/// `k` depot separators.
pub open spec fn depots(k: nat) -> Multiset<NurseStop>
    decreases k,
{
    if k == 0 {
        Multiset::empty()
    } else {
        depots((k - 1) as nat).insert(NurseStop::Depot)
    }
}

/// The multiset every genome of an instance with `n` patients and `k` separators holds:
/// each of `Patient(1)..Patient(n)` once and `k` depots.
pub open spec fn genome_multiset(n: nat, k: nat) -> Multiset<NurseStop>
    decreases n,
{
    if n == 0 {
        depots(k)
    } else {
        genome_multiset((n - 1) as nat, k).insert(NurseStop::Patient(n as i32))
    }
}

/// `s` is a route encoding of the instance `env`.
pub open spec fn is_genome_of(s: Seq<NurseStop>, env: &EnvPruned) -> bool {
    s.to_multiset() == genome_multiset(env.num_patients(), env.num_separators())
}

/// The state of the route simulation after some prefix of a genome.
pub struct SimState {
    /// Stop id of the last stop of the current route (0 at its start).
    pub prev: int,
    /// Time on the current route.
    pub clock: int,
    /// Demand served on the current route.
    pub load: int,
    /// Total distance travelled so far.
    pub distance: int,
    /// Number of violated constraints so far.
    pub violations: int,
}

pub open spec fn sim_start() -> SimState {
    SimState { prev: 0, clock: 0, load: 0, distance: 0, violations: 0 }
}

/// The time at which service at patient `id` starts, coming from `st`.
pub open spec fn service_start(env: &EnvPruned, st: SimState, id: int) -> int {
    let arrive = st.clock + env.travel(st.prev, id);
    let open = env.patients@[id - 1].start_time as int;
    if arrive < open {
        open
    } else {
        arrive
    }
}

/// Service at patient `id`, coming from `st`, would end after the window closes.
pub open spec fn misses_window(env: &EnvPruned, st: SimState, id: int) -> bool {
    let p = env.patients@[id - 1];
    service_start(env, st, id) + p.care_time > p.end_time
}

/// Visit patient `id`: travel, wait for the window, serve (a late service is
/// counted as a violation and does not advance the clock).
pub open spec fn visit(env: &EnvPruned, st: SimState, id: int) -> SimState {
    let p = env.patients@[id - 1];
    let start = service_start(env, st, id);
    let late = misses_window(env, st, id);
    SimState {
        prev: id,
        clock: if late {
            start
        } else {
            start + p.care_time
        },
        load: st.load + p.demand,
        distance: st.distance + env.travel(st.prev, id),
        violations: st.violations + if late {
            1int
        } else {
            0int
        },
    }
}

/// The route that `st` is on returns later than the depot bound.
pub open spec fn returns_late(env: &EnvPruned, st: SimState) -> bool {
    st.clock + env.travel(st.prev, 0) > env.depo_ret_time
}

/// The route that `st` is on serves more than the capacity.
pub open spec fn overloaded(env: &EnvPruned, st: SimState) -> bool {
    st.load > env.capacity_nurse
}

/// Return to the depot, check the route's bounds, and start a new route.
pub open spec fn close_route(env: &EnvPruned, st: SimState) -> SimState {
    SimState {
        prev: 0,
        clock: 0,
        load: 0,
        distance: st.distance + env.travel(st.prev, 0),
        violations: st.violations + (if returns_late(env, st) {
            1int
        } else {
            0int
        }) + (if overloaded(env, st) {
            1int
        } else {
            0int
        }),
    }
}

pub open spec fn sim_step(env: &EnvPruned, st: SimState, s: NurseStop) -> SimState {
    match s {
        NurseStop::Patient(id) => visit(env, st, id as int),
        NurseStop::Depot => close_route(env, st),
    }
}

/// The simulation state after the stops `s`, starting at the depot.
pub open spec fn sim_prefix(env: &EnvPruned, s: Seq<NurseStop>) -> SimState
    decreases s.len(),
{
    if s.len() == 0 {
        sim_start()
    } else {
        sim_step(env, sim_prefix(env, s.drop_last()), s.last())
    }
}

/// The full simulation: every stop, then the closing return of the last route.
pub open spec fn simulate(env: &EnvPruned, s: Seq<NurseStop>) -> SimState {
    close_route(env, sim_prefix(env, s))
}

/// The cost of a genome: its distance times the penalty factor
/// `(PENALTY_BASE + violations) / PENALTY_BASE`, scaled by `PENALTY_BASE`.
pub open spec fn fitness(env: &EnvPruned, s: Seq<NurseStop>) -> int {
    simulate(env, s).distance * (PENALTY_BASE + simulate(env, s).violations)
}

/// A genome is feasible when no constraint is ever violated.
pub open spec fn feasible(env: &EnvPruned, s: Seq<NurseStop>) -> bool {
    simulate(env, s).violations == 0
}

/// A genome whose cache holds its evaluation.
pub open spec fn is_evaluated(env: &EnvPruned, g: Genotype) -> bool {
    &&& g.travel_time is Some
    &&& g.travel_time->Some_0 == fitness(env, g.stops@)
    &&& g.valid == Some(feasible(env, g.stops@))
}

/// Bounds on the simulation state after `k` steps, which keep the arithmetic small.
pub open spec fn sim_bounded(st: SimState, k: int) -> bool {
    &&& 0 <= st.prev
    &&& 0 <= st.clock <= k * 0x4_0000_0000
    &&& 0 <= st.load <= k * 0x8000_0000
    &&& 0 <= st.distance <= k * 0x1_0000_0000
    &&& 0 <= st.violations <= 2 * k
}

impl Genotype {
    /// A fresh, unevaluated genome.
    pub fn new(nurse_stop: Vec<NurseStop>, meta_genes: MetaGenes) -> (r: Genotype)
        ensures
            r.stops == nurse_stop,
            r.meta_genes == meta_genes,
            r.travel_time.is_none(),
            r.valid.is_none(),
    {
        Genotype { meta_genes, stops: nurse_stop, travel_time: None, valid: None }
    }
}

proof fn lemma_sim_prefix_take(env: &EnvPruned, s: Seq<NurseStop>, i: int)
    requires
        0 <= i < s.len(),
    ensures
        sim_prefix(env, s.take(i + 1)) == sim_step(env, sim_prefix(env, s.take(i)), s[i]),
{
    assert(s.take(i + 1).drop_last() =~= s.take(i));
}

/// Simulates the genome's routes and stores its cost and feasibility.
pub fn calculate_and_set_travel_time(env: &EnvPruned, genotype: &mut Genotype)
    requires
        env.wf(),
        old(genotype).stops@.len() <= MAX_STOPS,
        ids_in_range(old(genotype).stops@, env.num_patients()),
    ensures
        final(genotype).stops == old(genotype).stops,
        final(genotype).meta_genes == old(genotype).meta_genes,
        is_evaluated(env, *final(genotype)),
{
    let mut prev: i32 = 0;
    let mut clock: u64 = 0;
    let mut load: u64 = 0;
    let mut distance: u64 = 0;
    let mut violations: u64 = 0;
    let n = genotype.stops.len();
    let mut i: usize = 0;
    while i < n
        invariant
            env.wf(),
            n == genotype.stops@.len(),
            n <= MAX_STOPS,
            ids_in_range(genotype.stops@, env.num_patients()),
            0 <= i <= n,
            ({
                let st = sim_prefix(env, genotype.stops@.take(i as int));
                &&& st.prev == prev as int
                &&& st.clock == clock as int
                &&& st.load == load as int
                &&& st.distance == distance as int
                &&& st.violations == violations as int
                &&& sim_bounded(st, i as int)
                &&& 0 <= prev <= env.num_patients()
            }),
        decreases n - i,
    {
        proof {
            lemma_sim_prefix_take(env, genotype.stops@, i as int);
        }
        match genotype.stops[i] {
            NurseStop::Patient(patient_id) => {
                let patient = &env.patients[(patient_id - 1) as usize];
                proof {
                    assert(env.patients@[patient_id - 1].wf());
                }
                let t = env.get_travel_time_between(&prev, &patient_id) as u64;
                distance = distance + t;
                clock = clock + t;
                if clock < patient.start_time as u64 {
                    clock = patient.start_time as u64;
                }
                if clock + patient.care_time as u64 > patient.end_time as u64 {
                    violations = violations + 1;
                } else {
                    clock = clock + patient.care_time as u64;
                }
                load = load + patient.demand as u64;
                prev = patient_id;
            },
            NurseStop::Depot => {
                let t = env.get_travel_time_between(&prev, &0) as u64;
                distance = distance + t;
                if clock + t > env.depo_ret_time as u64 || env.depo_ret_time < 0 {
                    violations = violations + 1;
                }
                if load > env.capacity_nurse as u64 || env.capacity_nurse < 0 {
                    violations = violations + 1;
                }
                clock = 0;
                load = 0;
                prev = 0;
            },
        }
        i = i + 1;
    }
    proof {
        assert(genotype.stops@.take(n as int) =~= genotype.stops@);
    }
    let t = env.get_travel_time_between(&prev, &0) as u64;
    distance = distance + t;
    if clock + t > env.depo_ret_time as u64 || env.depo_ret_time < 0 {
        violations = violations + 1;
    }
    if load > env.capacity_nurse as u64 || env.capacity_nurse < 0 {
        violations = violations + 1;
    }
    proof {
        assert((distance as int) * (20 + violations as int) <= 0x1_0000_0000_0000_0000_0000_0000) by (nonlinear_arith)
            requires
                distance <= 0x10_0000_0000_0000,
                violations <= 0x10_0000,
        ;
    }
    genotype.travel_time = Some(distance as u128 * (PENALTY_BASE + violations as u128));
    genotype.valid = Some(violations == 0);
}


/// No patient occurs twice in `s` (depots may recur).
pub open spec fn distinct_patients(s: Seq<NurseStop>) -> bool {
    forall|i: int, j: int|
        0 <= i < j < s.len() && #[trigger] s[i] is Patient ==> s[i] != #[trigger] s[j]
}

pub proof fn lemma_distinct_patient_count(s: Seq<NurseStop>, x: NurseStop)
    requires
        distinct_patients(s),
        x is Patient,
    ensures
        s.to_multiset().count(x) <= 1,
    decreases s.len(),
{
    if s.len() > 0 {
        let t = s.drop_last();
        assert(s == t.push(s.last()));
        assert(distinct_patients(t)) by {
            assert forall|i: int, j: int|
                0 <= i < j < t.len() && #[trigger] t[i] is Patient implies t[i] != #[trigger] t[j] by {
                assert(s[i] == t[i] && s[j] == t[j]);
            }
        }
        lemma_distinct_patient_count(t, x);
        if s.last() == x {
            if t.to_multiset().count(x) > 0 {
                assert(t.contains(x));
                let k = choose|k: int| 0 <= k < t.len() && t[k] == x;
                assert(s[k] == x && s[s.len() - 1] == x);
            }
        }
    }
}

pub proof fn lemma_ids_of_member(s: Seq<NurseStop>, n: nat, x: NurseStop)
    requires
        ids_in_range(s, n),
        s.to_multiset().count(x) > 0,
        x is Patient,
    ensures
        1 <= x->Patient_0 <= n,
{
    assert(s.contains(x));
    let k = choose|k: int| 0 <= k < s.len() && s[k] == x;
    assert(s[k] is Patient);
}

pub proof fn lemma_ids_in_range_same_multiset(s: Seq<NurseStop>, t: Seq<NurseStop>, n: nat)
    requires
        ids_in_range(s, n),
        t.to_multiset() == s.to_multiset(),
    ensures
        ids_in_range(t, n),
{
    assert forall|i: int| 0 <= i < t.len() implies (#[trigger] t[i] is Patient ==> 1 <= t[i]->Patient_0 <= n) by {
        if t[i] is Patient {
            assert(t.contains(t[i]));
            assert(t.to_multiset().count(t[i]) > 0);
            lemma_ids_of_member(s, n, t[i]);
        }
    }
}

/// The stops of `v` at positions `lo..hi`.
pub(crate) fn copy_range(v: &Vec<NurseStop>, lo: usize, hi: usize) -> (r: Vec<NurseStop>)
    requires
        lo <= hi <= v@.len(),
    ensures
        r@ == v@.subrange(lo as int, hi as int),
{
    let mut r: Vec<NurseStop> = Vec::new();
    let mut i: usize = lo;
    while i < hi
        invariant
            lo <= i <= hi <= v@.len(),
            r@ == v@.subrange(lo as int, i as int),
        decreases hi - i,
    {
        r.push(v[i]);
        proof {
            assert(v@.subrange(lo as int, i + 1) =~= v@.subrange(lo as int, i as int).push(v@[i as int]));
        }
        i = i + 1;
    }
    r
}

/// Writes `src` over the positions `lo..lo + src.len()` of `stops`.
pub(crate) fn overwrite_window(stops: &mut Vec<NurseStop>, lo: usize, src: &Vec<NurseStop>)
    requires
        lo + src@.len() <= old(stops)@.len(),
    ensures
        final(stops)@ == old(stops)@.subrange(0, lo as int) + src@ + old(stops)@.subrange(
            lo + src@.len(),
            old(stops)@.len() as int,
        ),
        src@.to_multiset() == old(stops)@.subrange(lo as int, lo + src@.len()).to_multiset()
            ==> final(stops)@.to_multiset() == old(stops)@.to_multiset(),
{
    let ghost s0 = stops@;
    let len = stops.len();
    let mut k: usize = 0;
    while k < src.len()
        invariant
            k <= src@.len(),
            lo + src@.len() <= s0.len(),
            stops@.len() == s0.len(),
            len == s0.len(),
            forall|i: int| 0 <= i < s0.len() && !(lo <= i < lo + k) ==> stops@[i] == s0[i],
            forall|i: int| lo <= i < lo + k ==> stops@[i] == src@[i - lo],
        decreases src@.len() - k,
    {
        stops.set(lo + k, src[k]);
        k = k + 1;
    }
    let ghost hi = lo + src@.len();
    proof {
        assert(stops@ =~= s0.subrange(0, lo as int) + src@ + s0.subrange(hi, s0.len() as int));
        assert(s0 =~= s0.subrange(0, lo as int) + s0.subrange(lo as int, hi) + s0.subrange(hi, s0.len() as int));
    }
}

/// Only the order of the stops changed; the parameters and caches are kept.
pub open spec fn reordered(before: Genotype, after: Genotype) -> bool {
    &&& after.stops@.len() == before.stops@.len()
    &&& after.stops@.to_multiset() == before.stops@.to_multiset()
    &&& after.meta_genes == before.meta_genes
    &&& after.travel_time == before.travel_time
    &&& after.valid == before.valid
}

/// `k` depots contain nothing but depots, `k` of them.
proof fn lemma_depots(k: nat)
    ensures
        depots(k).len() == k,
        depots(k).count(NurseStop::Depot) == k,
        forall|x: NurseStop| x is Patient ==> #[trigger] depots(k).count(x) == 0,
    decreases k,
{
    if k > 0 {
        lemma_depots((k - 1) as nat);
    }
}

/// Counts in the multiset of a genome.
proof fn lemma_genome_multiset(n: nat, k: nat)
    requires
        n <= i32::MAX,
    ensures
        genome_multiset(n, k).len() == n + k,
        genome_multiset(n, k).count(NurseStop::Depot) == k,
        forall|x: NurseStop|
            x is Patient ==> #[trigger] genome_multiset(n, k).count(x) == if 1 <= x->Patient_0 <= n {
                1nat
            } else {
                0nat
            },
    decreases n,
{
    lemma_depots(k);
    if n > 0 {
        lemma_genome_multiset((n - 1) as nat, k);
        assert forall|x: NurseStop|
            x is Patient implies #[trigger] genome_multiset(n, k).count(x) == if 1 <= x->Patient_0 <= n {
                1nat
            } else {
                0nat
            } by {
            if x == NurseStop::Patient(n as i32) {
            } else {
                assert(x->Patient_0 != n);
            }
        }
    }
}

/// A seq holding a value at two positions counts it at least twice.
proof fn lemma_two_positions(s: Seq<NurseStop>, i: int, j: int)
    requires
        0 <= i < j < s.len(),
        s[i] == s[j],
    ensures
        s.to_multiset().count(s[i]) >= 2,
{
    let t = s.remove(j);
    assert(t[i] == s[i]);
    assert(t.contains(s[i]));
    assert(t.to_multiset().count(s[i]) > 0);
    assert(t.to_multiset() == s.to_multiset().remove(s[j]));
}

/// What a genome of an instance implies: its length and the range and uniqueness of
/// its patient ids.
pub proof fn lemma_genome_facts(s: Seq<NurseStop>, env: &EnvPruned)
    requires
        env.wf(),
        is_genome_of(s, env),
    ensures
        s.len() == env.num_patients() + env.num_separators(),
        s.len() <= MAX_STOPS,
        ids_in_range(s, env.num_patients()),
        distinct_patients(s),
{
    lemma_genome_multiset(env.num_patients(), env.num_separators());
    assert forall|i: int| 0 <= i < s.len() implies (#[trigger] s[i] is Patient ==> 1 <= s[i]->Patient_0 <= env.num_patients()) by {
        if s[i] is Patient {
            assert(s.contains(s[i]));
            assert(s.to_multiset().count(s[i]) > 0);
        }
    }
    assert forall|i: int, j: int|
        0 <= i < j < s.len() && #[trigger] s[i] is Patient implies s[i] != #[trigger] s[j] by {
        if s[i] == s[j] {
            lemma_two_positions(s, i, j);
        }
    }
}

/// The cached cost of an evaluated genome.
pub open spec fn cost(g: Genotype) -> int {
    g.travel_time->Some_0 as int
}

/// Every genome of `pop` holds a cached cost.
pub open spec fn all_evaluated(pop: Seq<Genotype>) -> bool {
    forall|i: int| 0 <= i < pop.len() ==> (#[trigger] pop[i]).travel_time is Some
}

impl Genotype {
    /// Field-wise equality.
    pub open spec fn same(&self, o: &Genotype) -> bool {
        &&& self.stops@ == o.stops@
        &&& self.meta_genes.same(&o.meta_genes)
        &&& self.travel_time == o.travel_time
        &&& self.valid == o.valid
    }

    /// A copy with the same fields.
    pub fn copy(&self) -> (r: Genotype)
        ensures
            r.same(self),
    {
        let stops = self.stops.clone();
        proof {
            assert(stops@ =~= self.stops@);
        }
        Genotype {
            stops,
            meta_genes: self.meta_genes.copy(),
            travel_time: self.travel_time,
            valid: self.valid,
        }
    }

    /// The cached cost.
    pub fn cost_of(&self) -> (r: u128)
        requires
            self.travel_time is Some,
        ensures
            r == cost(*self),
    {
        match self.travel_time {
            Some(t) => t,
            None => 0,
        }
    }
}

/// Evaluates every genome whose cache is empty; the others keep their cache.
pub fn calculate_and_set_travel_time_multiple(env: &EnvPruned, genotypes: &mut Vec<Genotype>)
    requires
        env.wf(),
        forall|i: int| 0 <= i < old(genotypes)@.len() ==> is_genome_of(#[trigger] old(genotypes)@[i].stops@, env),
    ensures
        final(genotypes)@.len() == old(genotypes)@.len(),
        forall|i: int|
            0 <= i < old(genotypes)@.len() ==> {
                let (a, b) = (old(genotypes)@[i], #[trigger] final(genotypes)@[i]);
                &&& b.stops == a.stops
                &&& b.meta_genes == a.meta_genes
                &&& a.travel_time is None ==> is_evaluated(env, b)
                &&& a.travel_time is Some ==> b.travel_time == a.travel_time && b.valid == a.valid
            },
{
    let ghost g0 = genotypes@;
    let mut i: usize = 0;
    while i < genotypes.len()
        invariant
            env.wf(),
            i <= genotypes@.len(),
            genotypes@.len() == g0.len(),
            forall|k: int| 0 <= k < g0.len() ==> is_genome_of(#[trigger] g0[k].stops@, env),
            forall|k: int| i <= k < g0.len() ==> #[trigger] genotypes@[k] == g0[k],
            forall|k: int|
                0 <= k < i ==> {
                    let (a, b) = (g0[k], #[trigger] genotypes@[k]);
                    &&& b.stops == a.stops
                    &&& b.meta_genes == a.meta_genes
                    &&& a.travel_time is None ==> is_evaluated(env, b)
                    &&& a.travel_time is Some ==> b.travel_time == a.travel_time && b.valid == a.valid
                },
        decreases g0.len() - i,
    {
        if genotypes[i].travel_time.is_none() {
            proof {
                lemma_genome_facts(g0[i as int].stops@, env);
            }
            calculate_and_set_travel_time(env, &mut genotypes[i]);
        }
        i = i + 1;
    }
}

/// `pop_size` random genomes of `env`: every patient once and one depot fewer than
/// nurses, shuffled, with fresh parameters and no evaluation.
pub fn generate_random_genome(env: &EnvPruned, pop_size: i32) -> (r: Vec<Genotype>)
    requires
        env.wf(),
    ensures
        r@.len() == if pop_size < 0 {
            0
        } else {
            pop_size as int
        },
        forall|i: int|
            0 <= i < r@.len() ==> {
                &&& is_genome_of((#[trigger] r@[i]).stops@, env)
                &&& r@[i].meta_genes.wf()
                &&& r@[i].meta_genes.cross_rate < RATE_SCALE
                &&& r@[i].meta_genes.mut_rate < RATE_SCALE
                &&& forall|w: int| 0 <= w < NUM_OPERATORS ==> #[trigger] r@[i].meta_genes.mut_weight_vec@[w] == 1
                &&& r@[i].travel_time is None
                &&& r@[i].valid is None
            },
{
    let num_patients = env.patients.len();
    let num_nurses = (env.number_nurses - 1) as usize;
    let mut ret: Vec<Genotype> = Vec::new();
    let mut made: i32 = 0;
    while made < pop_size
        invariant
            env.wf(),
            num_patients == env.num_patients(),
            num_nurses == env.num_separators(),
            0 <= made,
            pop_size >= 0 ==> made <= pop_size,
            pop_size < 0 ==> made == 0,
            ret@.len() == made,
            forall|i: int|
                0 <= i < ret@.len() ==> {
                    &&& is_genome_of((#[trigger] ret@[i]).stops@, env)
                    &&& ret@[i].meta_genes.wf()
                    &&& ret@[i].meta_genes.cross_rate < RATE_SCALE
                    &&& ret@[i].meta_genes.mut_rate < RATE_SCALE
                    &&& forall|w: int| 0 <= w < NUM_OPERATORS ==> #[trigger] ret@[i].meta_genes.mut_weight_vec@[w] == 1
                    &&& ret@[i].travel_time is None
                    &&& ret@[i].valid is None
                },
        decreases pop_size - made,
    {
        let mut chromosome: Vec<NurseStop> = Vec::new();
        let mut d: usize = 0;
        while d < num_nurses
            invariant
                d <= num_nurses,
                chromosome@.to_multiset() == depots(d as nat),
            decreases num_nurses - d,
        {
            chromosome.push(NurseStop::Depot);
            d = d + 1;
        }
        let mut n: usize = 1;
        while n <= num_patients
            invariant
                1 <= n <= num_patients + 1,
                num_patients <= MAX_PATIENTS,
                chromosome@.to_multiset() == genome_multiset((n - 1) as nat, num_nurses as nat),
            decreases num_patients + 1 - n,
        {
            chromosome.push(NurseStop::Patient(n as i32));
            n = n + 1;
        }
        shuffle_in_place(&mut chromosome);
        ret.push(Genotype::new(chromosome, MetaGenes::new()));
        made = made + 1;
    }
    ret
}

/// A prefix counts a value at most as often as the whole sequence.
proof fn lemma_prefix_count(s: Seq<NurseStop>, i: int, x: NurseStop)
    requires
        0 <= i <= s.len(),
    ensures
        s.take(i).to_multiset().count(x) <= s.to_multiset().count(x),
{
    assert(s =~= s.take(i) + s.skip(i));
}

/// Checks that `stops` is a route encoding of `env`: every patient once, ids in
/// range, and one depot fewer than nurses.
pub fn is_genome_for(env: &EnvPruned, stops: &Vec<NurseStop>) -> (r: bool)
    requires
        env.wf(),
    ensures
        r == is_genome_of(stops@, env),
{
    let n = env.patients.len();
    let k = (env.number_nurses - 1) as usize;
    let mut counts: Vec<usize> = Vec::new();
    let mut j: usize = 0;
    while j <= n
        invariant
            j <= n + 1,
            n <= MAX_PATIENTS,
            counts@.len() == j,
            forall|t: int| 0 <= t < j ==> counts@[t] == 0,
        decreases n + 1 - j,
    {
        counts.push(0);
        j = j + 1;
    }
    let mut depots_seen: usize = 0;
    let mut i: usize = 0;
    while i < stops.len()
        invariant
            i <= stops@.len(),
            env.wf(),
            n == env.num_patients(),
            n <= MAX_PATIENTS,
            counts@.len() == n + 1,
            ids_in_range(stops@.take(i as int), n as nat),
            forall|t: int| 1 <= t <= n ==> #[trigger] counts@[t] == stops@.take(i as int).to_multiset().count(NurseStop::Patient(t as i32)),
            forall|t: int| 1 <= t <= n ==> #[trigger] counts@[t] <= 1,
            depots_seen == stops@.take(i as int).to_multiset().count(NurseStop::Depot),
            depots_seen <= i,
        decreases stops@.len() - i,
    {
        proof {
            assert(stops@.take(i + 1) =~= stops@.take(i as int).push(stops@[i as int]));
        }
        match stops[i] {
            NurseStop::Patient(id) => {
                if id < 1 || id as usize > n {
                    proof {
                        if is_genome_of(stops@, env) {
                            lemma_genome_facts(stops@, env);
                            assert(stops@[i as int] is Patient);
                        }
                    }
                    return false;
                }
                let c = counts[id as usize];
                if c >= 1 {
                    proof {
                        let x = NurseStop::Patient(id);
                        assert(x == NurseStop::Patient((id as int) as i32));
                        assert(stops@.take(i + 1).to_multiset().count(x) >= 2);
                        lemma_prefix_count(stops@, i + 1, x);
                        if is_genome_of(stops@, env) {
                            lemma_genome_facts(stops@, env);
                            lemma_distinct_patient_count(stops@, x);
                        }
                    }
                    return false;
                }
                counts.set(id as usize, c + 1);
                proof {
                    assert forall|t: int| 1 <= t <= n implies #[trigger] counts@[t] == stops@.take(i + 1).to_multiset().count(NurseStop::Patient(t as i32)) by {
                        assert((t as i32) as int == t);
                        if t != id as int {
                            assert(NurseStop::Patient(t as i32) != NurseStop::Patient(id));
                        }
                    }
                }
            },
            NurseStop::Depot => {
                depots_seen = depots_seen + 1;
            },
        }
        i = i + 1;
    }
    proof {
        assert(stops@.take(stops@.len() as int) =~= stops@);
        lemma_genome_multiset(n as nat, k as nat);
    }
    if depots_seen != k {
        return false;
    }
    let mut t: usize = 1;
    while t <= n
        invariant
            1 <= t <= n + 1,
            n <= MAX_PATIENTS,
            counts@.len() == n + 1,
            k == env.num_separators(),
            n == env.num_patients(),
            forall|u: int| 1 <= u <= n ==> #[trigger] counts@[u] == stops@.to_multiset().count(NurseStop::Patient(u as i32)),
            forall|x: NurseStop|
                x is Patient ==> #[trigger] genome_multiset(n as nat, k as nat).count(x) == if 1 <= x->Patient_0 <= n {
                    1nat
                } else {
                    0nat
                },
            forall|u: int| 1 <= u < t ==> #[trigger] counts@[u] == 1,
        decreases n + 1 - t,
    {
        if counts[t] != 1 {
            proof {
                assert(counts@[t as int] == stops@.to_multiset().count(NurseStop::Patient(t as i32)));
                assert(genome_multiset(n as nat, k as nat).count(NurseStop::Patient(t as i32)) == 1);
            }
            return false;
        }
        t = t + 1;
    }
    proof {
        let s = stops@;
        assert(s.take(s.len() as int) =~= s);
        lemma_genome_multiset(n as nat, k as nat);
        assert forall|x: NurseStop| s.to_multiset().count(x) == genome_multiset(n as nat, k as nat).count(x) by {
            if x is Patient {
                let id = x->Patient_0;
                if 1 <= id <= n {
                    assert(counts@[id as int] == 1);
                    assert(x == NurseStop::Patient((id as int) as i32));
                } else if s.to_multiset().count(x) > 0 {
                    lemma_ids_of_member(s, n as nat, x);
                }
            }
        }
        assert(s.to_multiset() =~= genome_multiset(n as nat, k as nat));
    }
    true
}

/// The two stop sequences are equal.
pub fn same_stops(a: &Vec<NurseStop>, b: &Vec<NurseStop>) -> (r: bool)
    ensures
        r == (a@ == b@),
{
    if a.len() != b.len() {
        return false;
    }
    let mut i: usize = 0;
    while i < a.len()
        invariant
            i <= a@.len(),
            a@.len() == b@.len(),
            forall|k: int| 0 <= k < i ==> a@[k] == b@[k],
        decreases a@.len() - i,
    {
        if a[i] != b[i] {
            return false;
        }
        i = i + 1;
    }
    proof {
        assert(a@ =~= b@);
    }
    true
}

/// Genomes are equal when their stops are.
impl PartialEq for Genotype {
    fn eq(&self, other: &Genotype) -> bool {
        same_stops(&self.stops, &other.stops)
    }
}

impl vstd::std_specs::cmp::PartialEqSpecImpl for Genotype {
    open spec fn obeys_eq_spec() -> bool {
        true
    }

    open spec fn eq_spec(&self, other: &Genotype) -> bool {
        self.stops@ == other.stops@
    }
}

/// The order of two cached costs; none when either genome is unevaluated.
pub open spec fn cost_order(a: Option<u128>, b: Option<u128>) -> Option<std::cmp::Ordering> {
    match (a, b) {
        (Some(x), Some(y)) => Some(
            if x < y {
                std::cmp::Ordering::Less
            } else if x == y {
                std::cmp::Ordering::Equal
            } else {
                std::cmp::Ordering::Greater
            },
        ),
        _ => None,
    }
}

/// Genomes are ordered by cached cost, cheapest first.
impl PartialOrd for Genotype {
    fn partial_cmp(&self, other: &Genotype) -> Option<std::cmp::Ordering> {
        match (self.travel_time, other.travel_time) {
            (Some(x), Some(y)) => Some(
                if x < y {
                    std::cmp::Ordering::Less
                } else if x == y {
                    std::cmp::Ordering::Equal
                } else {
                    std::cmp::Ordering::Greater
                },
            ),
            _ => None,
        }
    }
}

impl vstd::std_specs::cmp::PartialOrdSpecImpl for Genotype {
    open spec fn obeys_partial_cmp_spec() -> bool {
        true
    }

    open spec fn partial_cmp_spec(&self, other: &Genotype) -> Option<std::cmp::Ordering> {
        cost_order(self.travel_time, other.travel_time)
    }
}

} // verus!
