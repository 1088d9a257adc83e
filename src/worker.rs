//! One worker of the island search: its generational step and migration decisions.
//!
//! The worker holds its population and decides; whoever runs it moves migrants
//! between workers and reports improvements.
use vstd::prelude::*;

use crate::crossover::simple_sub_path_crossover;
use crate::environment::EnvPruned;
use crate::genalg::{
    all_evaluated, calculate_and_set_travel_time, calculate_and_set_travel_time_multiple, cost,
    generate_random_genome, is_evaluated, is_genome_for, is_genome_of, lemma_genome_facts,
    Genotype,
};
use crate::encoding::word_of;
use crate::crossover::pmx_child;
use crate::mutation::{
    copy_stops, meta_changed, mutate, structural_step, MetaGenes, BRUTE_FORCE_AFTER, NUM_OPERATORS, RATE_SCALE,
};
use crate::genalg::NurseStop;
use crate::wrappers::{random_below, random_bool};
use crate::selection::{
    copied_from, elitism_survivor_selection, sort_population, sorted_by_cost, tournament_parent_selection,
    tournament_surivor_selection, tournament_winner, tournament_winner_copy,
};

verus! {

/// Upper bound on the extra mutations one child receives after the first.
pub const MAX_EXTRA_MUTATIONS: usize = 1000;

/// Tournament size used for parent selection, survivor selection and emigrants.
pub const TOURNAMENT_SIZE: usize = 30;

/// Settings of one worker. Chances are in `RATE_SCALE`-ths.
#[derive(Clone, Debug)]
pub struct GenAlgConfig {
    pub train_set: i32,
    pub pop_size: usize,
    pub children_per_parent_pair: usize,
    pub num_parent_pairs: usize,
    pub train_iterations: usize,
    pub crowding: bool,
    pub crossover_chance: u32,
    pub mutation_chance: u32,
    pub next_mut_chance: u32,
    pub early_stop_after: i32,
    pub cross_per: i32,
    pub cross_num: i32,
}

impl GenAlgConfig {
    /// Checks the invariant of the settings. The size limits keep counts and casts to
    /// `i32` in range; real runs stay far below them.
    pub fn is_wf(&self) -> (r: bool)
        ensures
            r == self.wf(),
    {
        1 <= self.pop_size && self.pop_size <= 1_000_000 && self.children_per_parent_pair <= 1_000_000
            && self.num_parent_pairs <= 1_000_000 && self.crossover_chance <= RATE_SCALE
            && self.next_mut_chance <= RATE_SCALE && self.cross_per >= 1 && self.cross_num >= 0
    }

    pub open spec fn wf(&self) -> bool {
        &&& 1 <= self.pop_size <= 1_000_000
        &&& self.children_per_parent_pair <= 1_000_000
        &&& self.num_parent_pairs <= 1_000_000
        &&& self.crossover_chance <= RATE_SCALE
        &&& self.next_mut_chance <= RATE_SCALE
        &&& self.cross_per >= 1
        &&& self.cross_num >= 0
    }
}

/// A genome that may take part in the search on `env`.
pub open spec fn is_member(env: &EnvPruned, g: Genotype) -> bool {
    &&& is_genome_of(g.stops@, env)
    &&& g.meta_genes.wf()
}

/// Every genome of `pop` may take part in the search and is evaluated.
pub open spec fn population_ok(env: &EnvPruned, pop: Seq<Genotype>) -> bool {
    forall|i: int| 0 <= i < pop.len() ==> is_member(env, #[trigger] pop[i]) && is_evaluated(env, pop[i])
}

/// The stops `child` start from: with `cross`, a sub-path crossover over one
/// depot-free window of the first parent (see `pmx_child`), else a copy of the first
/// parent. The first parent is `p1` when `first`, else `p2`.
pub open spec fn recombined(child: Seq<NurseStop>, p1: Seq<NurseStop>, p2: Seq<NurseStop>, cross: bool, first: bool) -> bool {
    if cross && first {
        sub_path_child(child, p1, p2)
    } else if cross {
        sub_path_child(child, p2, p1)
    } else if first {
        child == p1
    } else {
        child == p2
    }
}

/// `child` is a partially-mapped child of `a` and `b` over a depot-free window of `a`.
pub open spec fn sub_path_child(child: Seq<NurseStop>, a: Seq<NurseStop>, b: Seq<NurseStop>) -> bool {
    exists|lo: int, hi: int|
        0 <= lo <= hi <= a.len() && #[trigger] pmx_child(child, a, b, lo, hi) && forall|i: int| lo <= i < hi ==> a[i] is Patient
}

/// The parent that a child starts from.
pub open spec fn first_parent(p1: Genotype, p2: Genotype, first: bool) -> Genotype {
    if first {
        p1
    } else {
        p2
    }
}

/// One mutation (see `mutate`): a self-adaptive step from `m` to `m2` and one
/// structural operator from `s` to `s2`.
pub open spec fn mutation_step(
    env: &EnvPruned,
    s: Seq<NurseStop>,
    m: MetaGenes,
    s2: Seq<NurseStop>,
    m2: MetaGenes,
    itr: i32,
) -> bool {
    &&& exists|op: int|
        0 <= op < (if itr > BRUTE_FORCE_AFTER {
            6int
        } else {
            5int
        }) && #[trigger] structural_step(env, s, s2, op)
    &&& exists|draw: usize, index: usize, factor: usize, which: usize, coin: i32|
        draw < NUM_OPERATORS && index < NUM_OPERATORS && factor < 3 && which < 3 && (coin == 1 || coin == -1)
            && #[trigger] meta_changed(m, m2, draw, index, factor, which, coin)
}

/// `(s1, m1)` follows from `(s0, m0)` by `count` mutations.
pub open spec fn mutated_from(
    env: &EnvPruned,
    s0: Seq<NurseStop>,
    m0: MetaGenes,
    s1: Seq<NurseStop>,
    m1: MetaGenes,
    count: nat,
    itr: i32,
) -> bool {
    exists|stops: Seq<Seq<NurseStop>>, metas: Seq<MetaGenes>|
        #![trigger stops.len(), metas.len()]
        stops.len() == count + 1 && metas.len() == count + 1 && stops[0] == s0 && metas[0].same(&m0) && stops[count as int]
            == s1 && metas[count as int].same(&m1) && forall|t: int|
            0 <= t < count ==> #[trigger] mutation_step(env, stops[t], metas[t], stops[t + 1], metas[t + 1], itr)
}

/// `child` is what `gen_child_with` makes from the parents for the given draws.
pub open spec fn bred_child(
    env: &EnvPruned,
    p1: Genotype,
    p2: Genotype,
    cross: bool,
    first: bool,
    mutations: nat,
    itr: i32,
    child: Genotype,
) -> bool {
    exists|s0: Seq<NurseStop>|
        #[trigger] recombined(s0, p1.stops@, p2.stops@, cross, first) && mutated_from(
            env,
            s0,
            first_parent(p1, p2, first).meta_genes,
            child.stops@,
            child.meta_genes,
            mutations,
            itr,
        )
}

/// `child` is a child of the parents for some draws of `gen_child`.
pub open spec fn bred_from(env: &EnvPruned, p1: Genotype, p2: Genotype, itr: i32, child: Genotype) -> bool {
    exists|cross: bool, first: bool, mutations: nat|
        mutations <= MAX_EXTRA_MUTATIONS + 1 && #[trigger] bred_child(env, p1, p2, cross, first, mutations, itr, child)
}

/// Makes one child for given draws: a sub-path crossover of the parents (with `cross`)
/// or a copy of one of them, the first parent being `parent_1` when `first`; then
/// `mutations` mutations. The child is evaluated.
pub fn gen_child_with(
    parent_1: &Genotype,
    parent_2: &Genotype,
    environment: &EnvPruned,
    cross: bool,
    first: bool,
    mutations: usize,
    itr: i32,
) -> (child: Genotype)
    requires
        environment.wf(),
        is_member(environment, *parent_1),
        is_member(environment, *parent_2),
    ensures
        is_member(environment, child),
        is_evaluated(environment, child),
        child.stops@.to_multiset() == parent_1.stops@.to_multiset(),
        bred_child(environment, *parent_1, *parent_2, cross, first, mutations as nat, itr, child),
{
    let mut child = if cross {
        if first {
            simple_sub_path_crossover(parent_1, parent_2)
        } else {
            simple_sub_path_crossover(parent_2, parent_1)
        }
    } else {
        if first {
            Genotype::new(copy_stops(&parent_1.stops), parent_1.meta_genes.copy())
        } else {
            Genotype::new(copy_stops(&parent_2.stops), parent_2.meta_genes.copy())
        }
    };
    let ghost s0 = child.stops@;
    let ghost src = first_parent(*parent_1, *parent_2, first);
    proof {
        assert(recombined(s0, parent_1.stops@, parent_2.stops@, cross, first));
        assert(child.meta_genes.same(&src.meta_genes));
    }
    let ghost mut stops_seq: Seq<Seq<NurseStop>> = seq![child.stops@];
    let ghost mut metas: Seq<MetaGenes> = seq![child.meta_genes];
    let mut t: usize = 0;
    while t < mutations
        invariant
            environment.wf(),
            is_member(environment, child),
            child.stops@.to_multiset() == parent_1.stops@.to_multiset(),
            t <= mutations,
            stops_seq.len() == t + 1,
            metas.len() == t + 1,
            stops_seq[0] == s0,
            metas[0].same(&src.meta_genes),
            stops_seq[t as int] == child.stops@,
            metas[t as int] == child.meta_genes,
            forall|u: int|
                0 <= u < t ==> #[trigger] mutation_step(environment, stops_seq[u], metas[u], stops_seq[u + 1], metas[u + 1], itr),
        decreases mutations - t,
    {
        let ghost before_s = child.stops@;
        let ghost before_m = child.meta_genes;
        mutate(&mut child, environment, itr);
        proof {
            assert(mutation_step(environment, before_s, before_m, child.stops@, child.meta_genes, itr));
            let old_s = stops_seq;
            let old_m = metas;
            stops_seq = stops_seq.push(child.stops@);
            metas = metas.push(child.meta_genes);
            assert forall|u: int|
                0 <= u < t + 1 implies #[trigger] mutation_step(environment, stops_seq[u], metas[u], stops_seq[u + 1], metas[u + 1], itr) by {
                if u < t {
                    assert(stops_seq[u] == old_s[u] && stops_seq[u + 1] == old_s[u + 1]);
                    assert(metas[u] == old_m[u] && metas[u + 1] == old_m[u + 1]);
                }
            }
        }
        t = t + 1;
    }
    proof {
        lemma_genome_facts(child.stops@, environment);
    }
    let ghost final_s = child.stops@;
    let ghost final_m = child.meta_genes;
    calculate_and_set_travel_time(environment, &mut child);
    proof {
        assert(stops_seq.len() == mutations + 1 && metas.len() == mutations + 1);
        assert(mutated_from(environment, s0, src.meta_genes, child.stops@, child.meta_genes, mutations as nat, itr));
        assert(bred_child(environment, *parent_1, *parent_2, cross, first, mutations as nat, itr, child));
    }
    child
}

/// Makes one child: with the crossover chance a sub-path crossover of the parents in
/// random order, else a copy of one of them; then, with the first parent's mutation
/// rate raised by `mut_1_delta`, a mutation, repeated while the chance
/// `next_mut_chance + mut_2_delta` draws (at most `MAX_EXTRA_MUTATIONS` times). The
/// child is evaluated.
pub fn gen_child(
    parent_1: &Genotype,
    parent_2: &Genotype,
    config: &GenAlgConfig,
    environment: &EnvPruned,
    mut_1_delta: u32,
    mut_2_delta: u32,
    itr: i32,
) -> (child: Genotype)
    requires
        environment.wf(),
        config.wf(),
        is_member(environment, *parent_1),
        is_member(environment, *parent_2),
        mut_1_delta <= RATE_SCALE,
        mut_2_delta <= RATE_SCALE,
    ensures
        is_member(environment, child),
        is_evaluated(environment, child),
        child.stops@.to_multiset() == parent_1.stops@.to_multiset(),
        bred_from(environment, *parent_1, *parent_2, itr, child),
{
    let cross = config.crossover_chance as usize > random_below(RATE_SCALE as usize);
    let first = random_bool();
    let rate = if first {
        parent_1.meta_genes.mut_rate
    } else {
        parent_2.meta_genes.mut_rate
    };
    let mut mutations: usize = 0;
    if (rate + mut_1_delta) as usize > random_below(RATE_SCALE as usize) {
        mutations = 1;
        while mutations <= MAX_EXTRA_MUTATIONS && (config.next_mut_chance + mut_2_delta) as usize > random_below(
            RATE_SCALE as usize,
        )
            invariant
                config.wf(),
                mut_2_delta <= RATE_SCALE,
                1 <= mutations <= MAX_EXTRA_MUTATIONS + 1,
            decreases MAX_EXTRA_MUTATIONS + 1 - mutations,
        {
            mutations = mutations + 1;
        }
    }
    let child = gen_child_with(parent_1, parent_2, environment, cross, first, mutations, itr);
    proof {
        assert(bred_child(environment, *parent_1, *parent_2, cross, first, mutations as nat, itr, child));
    }
    child
}

/// Genome `i` of `pop` is the first with its word.
pub open spec fn first_of_word(pop: Seq<Genotype>, i: int) -> bool {
    forall|j: int| 0 <= j < i ==> word_of(pop[j].stops@) != word_of(#[trigger] pop[i].stops@)
}

/// The genomes of `pop` that are the first of their word, in order.
pub open spec fn distinct_by_word(pop: Seq<Genotype>) -> Seq<Genotype>
    decreases pop.len(),
{
    if pop.len() == 0 {
        Seq::empty()
    } else {
        let rest = distinct_by_word(pop.drop_last());
        if first_of_word(pop, pop.len() - 1) {
            rest.push(pop.last())
        } else {
            rest
        }
    }
}

/// Copies of the genomes of `population` that are the first of their word.
pub fn dedup_by_word(population: &Vec<Genotype>) -> (r: Vec<Genotype>)
    ensures
        r@.len() == distinct_by_word(population@).len(),
        forall|k: int| 0 <= k < r@.len() ==> (#[trigger] r@[k]).same(&distinct_by_word(population@)[k]),
{
    let mut words: Vec<String> = Vec::new();
    let mut out: Vec<Genotype> = Vec::new();
    let mut i: usize = 0;
    while i < population.len()
        invariant
            i <= population@.len(),
            words@.len() == i,
            forall|k: int| 0 <= k < i ==> (#[trigger] words@[k])@ == word_of(population@[k].stops@),
            out@.len() == distinct_by_word(population@.take(i as int)).len(),
            forall|k: int| 0 <= k < out@.len() ==> (#[trigger] out@[k]).same(&distinct_by_word(population@.take(i as int))[k]),
        decreases population@.len() - i,
    {
        let w = population[i].get_as_word();
        let mut seen = false;
        let mut j: usize = 0;
        while j < i
            invariant
                j <= i,
                words@.len() == i,
                seen <==> exists|k: int| 0 <= k < j && (#[trigger] words@[k])@ == w@,
            decreases i - j,
        {
            if words[j] == w {
                seen = true;
            }
            j = j + 1;
        }
        let ghost p = population@.take(i + 1);
        proof {
            assert(p.drop_last() =~= population@.take(i as int));
            assert(p.last() == population@[i as int]);
            if seen {
                let k = choose|k: int| 0 <= k < i && (#[trigger] words@[k])@ == w@;
                assert(p[k] == population@[k]);
                assert(!first_of_word(p, i as int));
            } else {
                assert forall|k: int| 0 <= k < i implies word_of(p[k].stops@) != word_of(#[trigger] p[i as int].stops@) by {
                    assert(p[k] == population@[k]);
                    assert(words@[k]@ != w@);
                }
                assert(first_of_word(p, i as int));
            }
        }
        if !seen {
            out.push(population[i].copy());
        }
        words.push(w);
        i = i + 1;
    }
    proof {
        assert(population@.take(population@.len() as int) =~= population@);
    }
    out
}

/// Iterations after which a worker's spike batch joins its population.
pub const SPIKE_AFTER: usize = 5000;

/// Raise of the first mutation chance in exploring workers.
pub const EXPLORE_MUTATION_DELTA: u32 = 300_000;

/// Raise of the repeated mutation chance in exploring workers.
pub const EXPLORE_SECONDARY_DELTA: u32 = 400_000;

pub proof fn lemma_same_member(env: &EnvPruned, a: Genotype, b: Genotype)
    requires
        a.same(&b),
        is_member(env, b),
        is_evaluated(env, b),
    ensures
        is_member(env, a),
        is_evaluated(env, a),
{
}

pub proof fn lemma_permuted_ok(env: &EnvPruned, p: Seq<Genotype>, q: Seq<Genotype>)
    requires
        p.to_multiset() == q.to_multiset(),
        population_ok(env, q),
    ensures
        population_ok(env, p),
{
    broadcast use vstd::seq_lib::group_to_multiset_ensures;

    assert forall|i: int| 0 <= i < p.len() implies is_member(env, #[trigger] p[i]) && is_evaluated(env, p[i]) by {
        assert(p.contains(p[i]));
        assert(q.to_multiset().count(p[i]) > 0);
        assert(q.contains(p[i]));
    }
}

pub proof fn lemma_distinct_by_word(pop: Seq<Genotype>)
    ensures
        pop.len() >= 1 ==> distinct_by_word(pop).len() >= 1,
        forall|k: int| 0 <= k < distinct_by_word(pop).len() ==> pop.contains(#[trigger] distinct_by_word(pop)[k]),
    decreases pop.len(),
{
    if pop.len() > 0 {
        let t = pop.drop_last();
        lemma_distinct_by_word(t);
        assert forall|k: int| 0 <= k < distinct_by_word(pop).len() implies pop.contains(#[trigger] distinct_by_word(pop)[k]) by {
            if k < distinct_by_word(t).len() {
                let e = distinct_by_word(t)[k];
                assert(t.contains(e));
                let w = choose|w: int| 0 <= w < t.len() && t[w] == e;
                assert(pop[w] == e);
            } else {
                assert(pop[pop.len() - 1] == pop.last());
            }
        }
    }
}

/// Copies of the genomes of `population` that are the first of their word, all of
/// them members.
fn dedup_members(env: &EnvPruned, population: &Vec<Genotype>) -> (r: Vec<Genotype>)
    requires
        population_ok(env, population@),
        population@.len() >= 1,
    ensures
        population_ok(env, r@),
        r@.len() >= 1,
        copies_of(r@, distinct_by_word(population@)),
{
    let r = dedup_by_word(population);
    proof {
        lemma_distinct_by_word(population@);
        assert forall|k: int| 0 <= k < r@.len() implies is_member(env, #[trigger] r@[k]) && is_evaluated(env, r@[k]) by {
            let e = distinct_by_word(population@)[k];
            assert(population@.contains(e));
            let w = choose|w: int| 0 <= w < population@.len() && population@[w] == e;
            lemma_same_member(env, r@[k], population@[w]);
        }
    }
    r
}

/// The genomes of `batch` that may take part in the search on `env`, in order.
pub open spec fn members_of(env: &EnvPruned, batch: Seq<Genotype>) -> Seq<Genotype>
    decreases batch.len(),
{
    if batch.len() == 0 {
        Seq::empty()
    } else if is_member(env, batch.last()) {
        members_of(env, batch.drop_last()).push(batch.last())
    } else {
        members_of(env, batch.drop_last())
    }
}

/// The genomes of `batch` that may take part in the search on `env`, re-evaluated.
pub fn fitting_migrants(env: &EnvPruned, batch: &Vec<Genotype>) -> (r: Vec<Genotype>)
    requires
        env.wf(),
    ensures
        population_ok(env, r@),
        r@.len() == members_of(env, batch@).len(),
        forall|k: int|
            0 <= k < r@.len() ==> (#[trigger] r@[k]).stops@ == members_of(env, batch@)[k].stops@
                && r@[k].meta_genes.same(&members_of(env, batch@)[k].meta_genes),
{
    let mut out: Vec<Genotype> = Vec::new();
    let mut i: usize = 0;
    while i < batch.len()
        invariant
            env.wf(),
            i <= batch@.len(),
            population_ok(env, out@),
            out@.len() == members_of(env, batch@.take(i as int)).len(),
            forall|k: int|
                0 <= k < out@.len() ==> (#[trigger] out@[k]).stops@ == members_of(env, batch@.take(i as int))[k].stops@
                    && out@[k].meta_genes.same(&members_of(env, batch@.take(i as int))[k].meta_genes),
        decreases batch@.len() - i,
    {
        proof {
            let t = batch@.take(i + 1);
            assert(t.drop_last() =~= batch@.take(i as int));
            assert(t.last() == batch@[i as int]);
        }
        if is_genome_for(env, &batch[i].stops) && batch[i].meta_genes.is_wf() {
            let mut g = batch[i].copy();
            proof {
                lemma_genome_facts(g.stops@, env);
            }
            calculate_and_set_travel_time(env, &mut g);
            out.push(g);
        }
        i = i + 1;
    }
    proof {
        assert(batch@.take(batch@.len() as int) =~= batch@);
    }
    out
}

/// `r` holds field-wise copies of `s`, in order.
pub open spec fn copies_of(r: Seq<Genotype>, s: Seq<Genotype>) -> bool {
    r.len() == s.len() && forall|k: int| 0 <= k < r.len() ==> (#[trigger] r[k]).same(&s[k])
}

/// `r` is `s` ordered by ascending cost.
pub open spec fn sorted_perm(r: Seq<Genotype>, s: Seq<Genotype>) -> bool {
    r.to_multiset() == s.to_multiset() && sorted_by_cost(r)
}

/// `g0` and `g1` are copies of the two cheapest genomes of `brood`.
pub open spec fn top_two_of(brood: Seq<Genotype>, g0: Genotype, g1: Genotype) -> bool {
    exists|b: Seq<Genotype>| #[trigger] sorted_perm(b, brood) && b.len() >= 2 && g0.same(&b[0]) && g1.same(&b[1])
}

/// `g` is one of the genomes of `pop`.
pub open spec fn in_pop(pop: Seq<Genotype>, g: Genotype) -> bool {
    exists|i: int| 0 <= i < pop.len() && g == #[trigger] pop[i]
}

/// A crowding brood: `per` children of two genomes of `pop` (see `bred_from`), then
/// copies of those two.
pub open spec fn brood_ok(env: &EnvPruned, pop: Seq<Genotype>, brood: Seq<Genotype>, per: nat, itr: i32) -> bool {
    &&& brood.len() == per + 2
    &&& population_ok(env, brood)
    &&& exists|i: int, j: int|
        #![trigger pop[i], pop[j]]
        0 <= i < pop.len() && 0 <= j < pop.len() && brood[per as int].same(&pop[i]) && brood[(per + 1) as int].same(&pop[j])
            && forall|c: int| 0 <= c < per ==> bred_from(env, pop[i], pop[j], itr, #[trigger] brood[c])
}

/// Positions `2q` and `2q + 1` of `next` are the two cheapest of some crowding brood.
pub open spec fn brood_pick(env: &EnvPruned, pop: Seq<Genotype>, next: Seq<Genotype>, q: int, per: nat, itr: i32) -> bool {
    exists|brood: Seq<Genotype>| #[trigger] brood_ok(env, pop, brood, per, itr) && top_two_of(brood, next[2 * q], next[2 * q + 1])
}

/// Every genome of `children` is a child (see `bred_from`) of one of the `n` parent
/// pairs `pairs`, whose genomes are genomes of `pop`.
pub open spec fn children_bred(
    env: &EnvPruned,
    pop: Seq<Genotype>,
    pairs: Seq<(Genotype, Genotype)>,
    children: Seq<Genotype>,
    n: nat,
    itr: i32,
) -> bool {
    &&& pairs.len() == n
    &&& forall|q: int| 0 <= q < n ==> in_pop(pop, (#[trigger] pairs[q]).0) && in_pop(pop, pairs[q].1)
    &&& forall|k: int| 0 <= k < children.len() ==> child_of_some_pair(env, pairs, n, itr, #[trigger] children[k])
}

/// `g` is a child (see `bred_from`) of one of the first `n` parent pairs `pairs`.
pub open spec fn child_of_some_pair(env: &EnvPruned, pairs: Seq<(Genotype, Genotype)>, n: nat, itr: i32, g: Genotype) -> bool {
    exists|q: int| 0 <= q < n && bred_from(env, (#[trigger] pairs[q]).0, pairs[q].1, itr, g)
}

/// The iteration number as the mutation dispatch sees it.
pub open spec fn iteration_tag(iteration: usize) -> i32 {
    if iteration > i32::MAX {
        i32::MAX
    } else {
        iteration as i32
    }
}

/// Tournament size over a population of `len`.
pub open spec fn tournament_size_for(len: nat) -> nat {
    if len < TOURNAMENT_SIZE {
        len
    } else {
        TOURNAMENT_SIZE as nat
    }
}

/// A generation without crowding: `pairs * per` children join `old_pop`; the union is
/// made distinct by word and sorted by cost; exploring workers keep its first
/// `pop_size`, the others `pop_size` tournament winners from it.
pub open spec fn plain_generation(
    env: &EnvPruned,
    old_pop: Seq<Genotype>,
    new_pop: Seq<Genotype>,
    per: nat,
    pairs: nat,
    pop_size: nat,
    explore: bool,
    itr: i32,
) -> bool {
    exists|children: Seq<Genotype>, d: Seq<Genotype>, sorted: Seq<Genotype>, parents: Seq<(Genotype, Genotype)>|
        #![trigger sorted_perm(sorted, d), children_bred(env, old_pop, parents, children, pairs, itr)]
        sorted_perm(sorted, d) && children.len() == pairs * per && population_ok(env, children) && children_bred(
            env,
            old_pop,
            parents,
            children,
            pairs,
            itr,
        ) && copies_of(
            d,
            distinct_by_word(old_pop + children),
        ) && (explore ==> new_pop == sorted.take(if pop_size < sorted.len() {
            pop_size as int
        } else {
            sorted.len() as int
        })) && (!explore ==> new_pop.len() == pop_size && forall|k: int|
            0 <= k < new_pop.len() ==> tournament_winner(sorted, #[trigger] new_pop[k], tournament_size_for(sorted.len()), false))
}

/// A generation with crowding: each parent pair's brood gives its two cheapest; those
/// are sorted by cost and made distinct by word, and `fill` fresh genomes top them up
/// to `pop_size`.
pub open spec fn crowded_generation(
    env: &EnvPruned,
    old_pop: Seq<Genotype>,
    new_pop: Seq<Genotype>,
    fill: nat,
    per: nat,
    pairs: nat,
    pop_size: nat,
    itr: i32,
) -> bool {
    exists|next: Seq<Genotype>, sorted: Seq<Genotype>|
        #[trigger] sorted_perm(sorted, next) && next.len() == 2 * pairs && (forall|q: int|
            0 <= q < pairs ==> #[trigger] brood_pick(env, old_pop, next, q, per, itr)) && distinct_by_word(sorted).len()
            <= new_pop.len() && copies_of(new_pop.take(distinct_by_word(sorted).len() as int), distinct_by_word(sorted))
            && fill == (if distinct_by_word(sorted).len() < pop_size {
            pop_size - distinct_by_word(sorted).len()
        } else {
            0
        }) && new_pop.len() == distinct_by_word(sorted).len() + fill
}

/// Copies of the two cheapest genomes of `brood`.
fn best_two(brood: Vec<Genotype>) -> (r: (Genotype, Genotype))
    requires
        all_evaluated(brood@),
        brood@.len() >= 2,
    ensures
        top_two_of(brood@, r.0, r.1),
{
    let ghost b0 = brood@;
    let mut b = brood;
    sort_population(&mut b);
    let r = (b[0].copy(), b[1].copy());
    proof {
        assert(sorted_perm(b@, b0));
    }
    r
}

/// The state of one worker between generations.
pub struct Worker {
    pub config: GenAlgConfig,
    pub population: Vec<Genotype>,
    /// Best cost reported so far.
    pub best: u128,
    pub round_since_improve: i32,
    pub mutation_rate_delta: u32,
    pub mutation_rate_secondary_delta: u32,
    pub explore: bool,
    /// How many random genomes the last crowding step added.
    pub crowd_fill: usize,
    /// Emigrants were sent and no batch has arrived since.
    pub round_r_waiting: bool,
    /// Genomes to inject once after `SPIKE_AFTER` iterations.
    pub spike: Option<Vec<Genotype>>,
}

/// The two workers share their settings: configuration, role and mutation raises.
pub open spec fn same_settings(a: Worker, b: Worker) -> bool {
    &&& a.config == b.config
    &&& a.explore == b.explore
    &&& a.mutation_rate_delta == b.mutation_rate_delta
    &&& a.mutation_rate_secondary_delta == b.mutation_rate_secondary_delta
}

impl Worker {
    pub open spec fn wf(&self, env: &EnvPruned) -> bool {
        &&& self.config.wf()
        &&& self.population@.len() >= 1
        &&& population_ok(env, self.population@)
        &&& self.mutation_rate_delta <= RATE_SCALE
        &&& self.mutation_rate_secondary_delta <= RATE_SCALE
        &&& match self.spike {
            Some(s) => population_ok(env, s@),
            None => true,
        }
    }

    /// A worker with a random, evaluated population. Even-numbered workers explore:
    /// their mutation chances are raised. Spike genomes that do not fit `environment`
    /// are dropped.
    pub fn new(config: GenAlgConfig, tr_num: i32, environment: &EnvPruned, spike: Option<Vec<Genotype>>) -> (w: Worker)
        requires
            environment.wf(),
            config.wf(),
        ensures
            w.wf(environment),
            w.population@.len() == config.pop_size,
            w.best == cost(w.population@[0]),
            w.round_since_improve == 0,
            w.explore == (tr_num % 2 == 0),
            !w.round_r_waiting,
            w.crowd_fill == 0,
    {
        let explore = tr_num % 2 == 0;
        let mut population = generate_random_genome(environment, config.pop_size as i32);
        proof {
            assert forall|i: int| 0 <= i < population@.len() implies is_genome_of(#[trigger] population@[i].stops@, environment) by {}
        }
        let ghost before = population@;
        calculate_and_set_travel_time_multiple(environment, &mut population);
        proof {
            assert forall|i: int| 0 <= i < population@.len() implies is_member(environment, #[trigger] population@[i]) && is_evaluated(environment, population@[i]) by {
                assert(before[i].travel_time is None);
            }
        }
        let best = population[0].cost_of();
        let spike = match spike {
            Some(s) => Some(fitting_migrants(environment, &s)),
            None => None,
        };
        Worker {
            config,
            population,
            best,
            round_since_improve: 0,
            mutation_rate_delta: if explore { EXPLORE_MUTATION_DELTA } else { 0 },
            mutation_rate_secondary_delta: if explore { EXPLORE_SECONDARY_DELTA } else { 0 },
            explore,
            crowd_fill: 0,
            round_r_waiting: false,
            spike,
        }
    }

    /// After `SPIKE_AFTER` iterations the spike batch, if any, joins the population once.
    pub fn inject_spike(&mut self, env: &EnvPruned, iteration: usize)
        requires
            old(self).wf(env),
        ensures
            final(self).wf(env),
            iteration > SPIKE_AFTER && old(self).spike is Some ==> final(self).spike is None
                && final(self).population@ == old(self).population@ + old(self).spike->Some_0@,
            !(iteration > SPIKE_AFTER && old(self).spike is Some) ==> final(self).population@ == old(self).population@
                && final(self).spike == old(self).spike,
            same_settings(*old(self), *final(self)),
            final(self).best == old(self).best,
            final(self).round_since_improve == old(self).round_since_improve,
            final(self).crowd_fill == old(self).crowd_fill,
            final(self).round_r_waiting == old(self).round_r_waiting,
    {
        if iteration > SPIKE_AFTER {
            let mut taken: Option<Vec<Genotype>> = None;
            core::mem::swap(&mut self.spike, &mut taken);
            match taken {
                Some(mut s) => {
                    let ghost p0 = self.population@;
                    let ghost s0 = s@;
                    self.population.append(&mut s);
                    proof {
                        assert forall|i: int| 0 <= i < self.population@.len() implies is_member(env, #[trigger] self.population@[i]) && is_evaluated(env, self.population@[i]) by {
                            if i >= p0.len() {
                                assert(self.population@[i] == s0[i - p0.len()]);
                            }
                        }
                    }
                },
                None => {},
            }
        }
    }

    /// Emigrants are due on every `cross_per`-th iteration.
    pub fn migration_due(&self, iteration: usize) -> (r: bool)
        requires
            self.config.wf(),
        ensures
            r == (iteration % (self.config.cross_per as usize) == 0),
    {
        iteration % (self.config.cross_per as usize) == 0
    }

    /// `cross_num` tournament winners to send to the next worker; the worker then waits
    /// for a batch of its own.
    pub fn emigrants(&mut self) -> (r: Vec<Genotype>)
        requires
            old(self).config.wf(),
            old(self).population@.len() >= 1,
            all_evaluated(old(self).population@),
        ensures
            final(self).round_r_waiting,
            final(self).population == old(self).population,
            final(self).config == old(self).config,
            final(self).spike == old(self).spike,
            final(self).best == old(self).best,
            final(self).round_since_improve == old(self).round_since_improve,
            final(self).mutation_rate_delta == old(self).mutation_rate_delta,
            final(self).mutation_rate_secondary_delta == old(self).mutation_rate_secondary_delta,
            final(self).explore == old(self).explore,
            final(self).crowd_fill == old(self).crowd_fill,
            r@.len() == old(self).config.cross_num,
            forall|k: int| 0 <= k < r@.len() ==> copied_from(old(self).population@, #[trigger] r@[k]),
            forall|k: int|
                0 <= k < r@.len() ==> tournament_winner(
                    old(self).population@,
                    #[trigger] r@[k],
                    (if old(self).population@.len() < TOURNAMENT_SIZE {
                        old(self).population@.len()
                    } else {
                        TOURNAMENT_SIZE as nat
                    }),
                    false,
                ),
    {
        self.round_r_waiting = true;
        let send_n = self.config.cross_num as usize;
        let len = self.population.len();
        let size = if len < TOURNAMENT_SIZE {
            len
        } else {
            TOURNAMENT_SIZE
        };
        let mut to_send: Vec<Genotype> = Vec::new();
        while to_send.len() < send_n
            invariant
                to_send@.len() <= send_n,
                len == self.population@.len(),
                1 <= size <= len,
                all_evaluated(self.population@),
                forall|k: int| 0 <= k < to_send@.len() ==> copied_from(self.population@, #[trigger] to_send@[k]),
                forall|k: int|
                    0 <= k < to_send@.len() ==> tournament_winner(self.population@, #[trigger] to_send@[k], size as nat, false),
            decreases send_n - to_send@.len(),
        {
            let g = tournament_winner_copy(&self.population, &size, &false);
            to_send.push(g);
            proof {
                assert forall|k: int| 0 <= k < to_send@.len() implies copied_from(self.population@, #[trigger] to_send@[k])
                    && tournament_winner(self.population@, to_send@[k], size as nat, false) by {
                    if k < to_send@.len() - 1 {
                        assert(to_send@[k] == to_send@.drop_last()[k]);
                    }
                }
            }
        }
        to_send
    }

    /// A batch from the previous worker joins the population (genomes that do not fit
    /// the instance are dropped); the worker no longer waits.
    pub fn receive(&mut self, env: &EnvPruned, batch: Vec<Genotype>)
        requires
            env.wf(),
            old(self).wf(env),
        ensures
            final(self).wf(env),
            !final(self).round_r_waiting,
            final(self).population@.len() == old(self).population@.len() + members_of(env, batch@).len(),
            final(self).population@.subrange(0, old(self).population@.len() as int) == old(self).population@,
            forall|k: int|
                0 <= k < members_of(env, batch@).len() ==> (#[trigger] final(self).population@[old(self).population@.len() + k]).stops@
                    == members_of(env, batch@)[k].stops@ && final(self).population@[old(self).population@.len() + k].meta_genes.same(
                    &members_of(env, batch@)[k].meta_genes,
                ),
            same_settings(*old(self), *final(self)),
            final(self).best == old(self).best,
            final(self).round_since_improve == old(self).round_since_improve,
            final(self).crowd_fill == old(self).crowd_fill,
            final(self).spike == old(self).spike,
    {
        let mut fit = fitting_migrants(env, &batch);
        let ghost p0 = self.population@;
        let ghost f0 = fit@;
        self.population.append(&mut fit);
        self.round_r_waiting = false;
        proof {
            assert(self.population@.subrange(0, p0.len() as int) =~= p0);
            assert forall|i: int| 0 <= i < self.population@.len() implies is_member(env, #[trigger] self.population@[i]) && is_evaluated(env, self.population@[i]) by {
                if i >= p0.len() {
                    assert(self.population@[i] == f0[i - p0.len()]);
                }
            }
        }
    }

    /// Sorts the population by cost and records whether its best beats the best so
    /// far (then the best is updated and the count of rounds without improvement
    /// restarts; else the count grows).
    pub fn rank_population(&mut self, env: &EnvPruned) -> (improved: bool)
        requires
            old(self).wf(env),
        ensures
            final(self).wf(env),
            final(self).population@.to_multiset() == old(self).population@.to_multiset(),
            sorted_by_cost(final(self).population@),
            improved == (cost(final(self).population@[0]) < old(self).best),
            improved ==> final(self).best == cost(final(self).population@[0]) && final(self).round_since_improve == 0,
            !improved ==> final(self).best == old(self).best && final(self).round_since_improve == (if old(self).round_since_improve
                == i32::MAX {
                i32::MAX as int
            } else {
                old(self).round_since_improve + 1
            }),
            final(self).config == old(self).config,
            final(self).explore == old(self).explore,
            final(self).crowd_fill == old(self).crowd_fill,
            final(self).round_r_waiting == old(self).round_r_waiting,
            same_settings(*old(self), *final(self)),
            final(self).spike == old(self).spike,
    {
        proof {
            assert(all_evaluated(self.population@));
        }
        let ghost p0 = self.population@;
        sort_population(&mut self.population);
        proof {
            lemma_permuted_ok(env, self.population@, p0);
        }
        let pop_best = self.population[0].cost_of();
        if pop_best < self.best {
            self.best = pop_best;
            self.round_since_improve = 0;
            true
        } else {
            if self.round_since_improve < i32::MAX {
                self.round_since_improve = self.round_since_improve + 1;
            }
            false
        }
    }

    /// The population without the random genomes the last crowding step added.
    pub fn used_population_len(&self) -> (r: usize)
        ensures
            r == if self.crowd_fill < self.population@.len() {
                self.population@.len() - self.crowd_fill
            } else {
                0
            },
    {
        if self.crowd_fill < self.population.len() {
            self.population.len() - self.crowd_fill
        } else {
            0
        }
    }

    /// One generation after ranking: tournament parent pairs (with replacement) breed
    /// children. Tournaments hold `TOURNAMENT_SIZE` genomes, or the whole population
    /// when it is smaller. With crowding, each pair's two parents and children compete
    /// and the best two stay; the survivors are sorted, made distinct by word and topped
    /// up with random genomes to `pop_size` (see `crowded_generation`). Without
    /// crowding, the children join the population, which is made distinct by word,
    /// sorted, and cut to `pop_size`: exploring workers keep the best, the others
    /// tournament winners (see `plain_generation`). Returns whether the rounds without
    /// improvement exceed `early_stop_after`.
    pub fn breed(&mut self, env: &EnvPruned, iteration: usize) -> (stop: bool)
        requires
            env.wf(),
            old(self).wf(env),
        ensures
            final(self).wf(env),
            final(self).config == old(self).config,
            final(self).best == old(self).best,
            final(self).round_since_improve == old(self).round_since_improve,
            final(self).explore == old(self).explore,
            final(self).round_r_waiting == old(self).round_r_waiting,
            same_settings(*old(self), *final(self)),
            final(self).spike == old(self).spike,
            !final(self).config.crowding ==> final(self).crowd_fill == old(self).crowd_fill,
            !final(self).config.crowding ==> final(self).population@.len() <= final(self).config.pop_size,
            !final(self).config.crowding && final(self).explore ==> sorted_by_cost(final(self).population@),
            final(self).config.crowding ==> final(self).population@.len() >= final(self).config.pop_size,
            !final(self).config.crowding ==> plain_generation(
                env,
                old(self).population@,
                final(self).population@,
                old(self).config.children_per_parent_pair as nat,
                old(self).config.num_parent_pairs as nat,
                old(self).config.pop_size as nat,
                old(self).explore,
                iteration_tag(iteration),
            ),
            final(self).config.crowding ==> crowded_generation(
                env,
                old(self).population@,
                final(self).population@,
                final(self).crowd_fill as nat,
                old(self).config.children_per_parent_pair as nat,
                old(self).config.num_parent_pairs as nat,
                old(self).config.pop_size as nat,
                iteration_tag(iteration),
            ),
            stop == (final(self).round_since_improve > final(self).config.early_stop_after),
    {
        let itr: i32 = if iteration > i32::MAX as usize {
            i32::MAX
        } else {
            iteration as i32
        };
        proof {
            assert(itr == iteration_tag(iteration));
        }
        let ghost pop0 = self.population@;
        proof {
            assert(all_evaluated(self.population@));
        }
        let per = self.config.children_per_parent_pair;
        let parent_pairs = tournament_parent_selection(
            &self.population,
            self.config.num_parent_pairs as i32,
            TOURNAMENT_SIZE,
            true,
        );
        proof {
            assert forall|k: int| 0 <= k < parent_pairs@.len() implies is_member(env, *(#[trigger] parent_pairs@[k]).0)
                && is_member(env, *parent_pairs@[k].1) && is_evaluated(env, *parent_pairs@[k].0) && is_evaluated(env, *parent_pairs@[k].1)
                && in_pop(pop0, *parent_pairs@[k].0) && in_pop(pop0, *parent_pairs@[k].1) by {
                let pool = choose|pool: Seq<usize>|
                    crate::selection::is_tournament(pool, self.population@.len(), TOURNAMENT_SIZE as nat, true)
                        && #[trigger] crate::selection::best_of_pool(self.population@, pool, crate::selection::pair_seq(parent_pairs@[k]));
                let r = crate::selection::pair_seq(parent_pairs@[k]);
                assert(r[0] == parent_pairs@[k].0);
                assert(r[1] == parent_pairs@[k].1);
                let i0 = choose|i: int| 0 <= i < self.population@.len() && *#[trigger] r[0] == self.population@[i];
                let i1 = choose|i: int| 0 <= i < self.population@.len() && *#[trigger] r[1] == self.population@[i];
                assert(*r[0] == pop0[i0]);
                assert(*r[1] == pop0[i1]);
            }
        }
        let npairs = parent_pairs.len();
        if self.config.crowding {
            let mut next: Vec<Genotype> = Vec::new();
            let mut k: usize = 0;
            while k < npairs
                invariant
                    env.wf(),
                    self.wf(env),
                    pop0 == self.population@,
                    npairs == parent_pairs@.len(),
                    per == self.config.children_per_parent_pair,
                    k <= npairs,
                    forall|q: int| 0 <= q < parent_pairs@.len() ==> is_member(env, *(#[trigger] parent_pairs@[q]).0)
                        && is_member(env, *parent_pairs@[q].1) && is_evaluated(env, *parent_pairs@[q].0) && is_evaluated(env, *parent_pairs@[q].1)
                        && in_pop(pop0, *parent_pairs@[q].0) && in_pop(pop0, *parent_pairs@[q].1),
                    population_ok(env, next@),
                    next@.len() == 2 * k,
                    forall|q: int| 0 <= q < k ==> #[trigger] brood_pick(env, pop0, next@, q, per as nat, itr),
                decreases npairs - k,
            {
                let (parent_1, parent_2) = parent_pairs[k];
                let brood = self.brood_of(env, parent_1, parent_2, itr);
                proof {
                    assert(brood_ok(env, pop0, brood@, per as nat, itr));
                }
                let ghost bv = brood@;
                let (g0, g1) = best_two(brood);
                let ghost n0 = next@;
                next.push(g0);
                next.push(g1);
                proof {
                    let b = choose|b: Seq<Genotype>| #[trigger] sorted_perm(b, bv) && b.len() >= 2 && g0.same(&b[0]) && g1.same(&b[1]);
                    lemma_permuted_ok(env, b, bv);
                    lemma_same_member(env, g0, b[0]);
                    lemma_same_member(env, g1, b[1]);
                    assert(next@[2 * k as int] == g0 && next@[2 * k + 1] == g1);
                    assert(brood_pick(env, pop0, next@, k as int, per as nat, itr));
                    assert forall|q: int| 0 <= q < k + 1 implies #[trigger] brood_pick(env, pop0, next@, q, per as nat, itr) by {
                        if q < k {
                            assert(brood_pick(env, pop0, n0, q, per as nat, itr));
                            assert(next@[2 * q] == n0[2 * q] && next@[2 * q + 1] == n0[2 * q + 1]);
                        }
                    }
                    assert forall|i: int| 0 <= i < next@.len() implies is_member(env, #[trigger] next@[i]) && is_evaluated(env, next@[i]) by {
                        if i < n0.len() {
                            assert(next@[i] == n0[i]);
                        }
                    }
                }
                k = k + 1;
            }
            let ghost next0 = next@;
            let ghost mut sorted = next@;
            let mut population = if next.len() == 0 {
                proof {
                    assert(distinct_by_word(sorted) =~= Seq::<Genotype>::empty());
                }
                next
            } else {
                sort_population(&mut next);
                proof {
                    sorted = next@;
                    lemma_permuted_ok(env, next@, next0);
                }
                dedup_members(env, &next)
            };
            proof {
                assert(sorted_perm(sorted, next0));
                assert(copies_of(population@, distinct_by_word(sorted)));
            }
            let kept = population.len();
            let pop_size = self.config.pop_size;
            self.crowd_fill = if kept < pop_size {
                pop_size - kept
            } else {
                0
            };
            if kept < pop_size {
                let num_missing = pop_size - kept;
                let mut fresh = generate_random_genome(env, num_missing as i32);
                let ghost f0 = fresh@;
                calculate_and_set_travel_time_multiple(env, &mut fresh);
                let ghost p0 = population@;
                let ghost f1 = fresh@;
                population.append(&mut fresh);
                proof {
                    assert forall|i: int| 0 <= i < population@.len() implies is_member(env, #[trigger] population@[i]) && is_evaluated(env, population@[i]) by {
                        if i >= p0.len() {
                            assert(population@[i] == f1[i - p0.len()]);
                            assert(f0[i - p0.len()].travel_time is None);
                        }
                    }
                    assert(population@.take(kept as int) =~= p0);
                }
            } else {
                proof {
                    assert(population@.take(kept as int) =~= population@);
                }
            }
            self.population = population;
            proof {
                assert(crowded_generation(env, pop0, self.population@, self.crowd_fill as nat, per as nat,
                    self.config.num_parent_pairs as nat, pop_size as nat, itr));
            }
        } else {
            let ghost pairs = parent_pairs@.map_values(|p: (&Genotype, &Genotype)| (*p.0, *p.1));
            let mut children: Vec<Genotype> = Vec::new();
            let mut k: usize = 0;
            while k < npairs
                invariant
                    env.wf(),
                    self.wf(env),
                    npairs == parent_pairs@.len(),
                    per == self.config.children_per_parent_pair,
                    per <= 1_000_000,
                    npairs <= 1_000_000,
                    k <= npairs,
                    forall|q: int| 0 <= q < parent_pairs@.len() ==> is_member(env, *(#[trigger] parent_pairs@[q]).0)
                        && is_member(env, *parent_pairs@[q].1) && in_pop(pop0, *parent_pairs@[q].0) && in_pop(pop0, *parent_pairs@[q].1),
                    pairs == parent_pairs@.map_values(|p: (&Genotype, &Genotype)| (*p.0, *p.1)),
                    pop0 == self.population@,
                    population_ok(env, children@),
                    children@.len() == k * per,
                    forall|c: int| 0 <= c < children@.len() ==> child_of_some_pair(env, pairs, k as nat, itr, #[trigger] children@[c]),
                decreases npairs - k,
            {
                let (parent_1, parent_2) = parent_pairs[k];
                let mut brood = self.children_of(env, parent_1, parent_2, itr);
                let ghost c0 = children@;
                let ghost b0 = brood@;
                children.append(&mut brood);
                proof {
                    assert(pairs[k as int] == (*parent_1, *parent_2));
                    assert forall|c: int| 0 <= c < children@.len() implies child_of_some_pair(env, pairs, (k + 1) as nat, itr, #[trigger] children@[c]) by {
                        if c < c0.len() {
                            assert(children@[c] == c0[c]);
                            assert(child_of_some_pair(env, pairs, k as nat, itr, c0[c]));
                            let q = choose|q: int| 0 <= q < k && bred_from(env, (#[trigger] pairs[q]).0, pairs[q].1, itr, c0[c]);
                            assert(bred_from(env, pairs[q].0, pairs[q].1, itr, children@[c]));
                        } else {
                            assert(children@[c] == b0[c - c0.len()]);
                            assert(bred_from(env, pairs[k as int].0, pairs[k as int].1, itr, children@[c]));
                        }
                    }
                    assert((k + 1) * per == k * per + per) by (nonlinear_arith);
                    assert forall|i: int| 0 <= i < children@.len() implies is_member(env, #[trigger] children@[i]) && is_evaluated(env, children@[i]) by {
                        if i >= c0.len() {
                            assert(children@[i] == b0[i - c0.len()]);
                        }
                    }
                }
                k = k + 1;
            }
            let ghost ch = children@;
            proof {
                assert(pairs.len() == npairs);
                assert(npairs == self.config.num_parent_pairs);
                assert forall|q: int| 0 <= q < npairs implies in_pop(pop0, (#[trigger] pairs[q]).0) && in_pop(pop0, pairs[q].1) by {
                    assert(pairs[q] == (*parent_pairs@[q].0, *parent_pairs@[q].1));
                }
                assert(k == npairs);
                assert forall|c: int| 0 <= c < ch.len() implies child_of_some_pair(
                    env,
                    pairs,
                    self.config.num_parent_pairs as nat,
                    itr,
                    #[trigger] ch[c],
                ) by {
                    assert(child_of_some_pair(env, pairs, k as nat, itr, children@[c]));
                }
                assert(children_bred(env, pop0, pairs, ch, self.config.num_parent_pairs as nat, itr));
            }
            self.population.append(&mut children);
            proof {
                assert(self.population@ == pop0 + ch);
                assert forall|i: int| 0 <= i < self.population@.len() implies is_member(env, #[trigger] self.population@[i]) && is_evaluated(env, self.population@[i]) by {
                    if i >= pop0.len() {
                        assert(self.population@[i] == ch[i - pop0.len()]);
                    }
                }
            }
            let mut population = dedup_members(env, &self.population);
            let ghost d0 = population@;
            sort_population(&mut population);
            let ghost sorted = population@;
            proof {
                lemma_permuted_ok(env, population@, d0);
                assert(sorted_perm(sorted, d0));
            }
            let pop_size = self.config.pop_size;
            if self.explore {
                let keep = if population.len() < pop_size {
                    population.len()
                } else {
                    pop_size
                };
                population = elitism_survivor_selection(population, &keep);
                proof {
                    assert(sorted_by_cost(population@));
                    assert forall|i: int| 0 <= i < population@.len() implies is_member(env, #[trigger] population@[i]) && is_evaluated(env, population@[i]) by {
                        assert(population@[i] == sorted[i]);
                    }
                }
            } else {
                let plen = population.len();
                let tsize = if plen < TOURNAMENT_SIZE {
                    plen
                } else {
                    TOURNAMENT_SIZE
                };
                proof {
                    assert(all_evaluated(sorted));
                }
                population = tournament_surivor_selection(population, &pop_size, &tsize, &false);
                proof {
                    assert forall|i: int| 0 <= i < population@.len() implies is_member(env, #[trigger] population@[i]) && is_evaluated(env, population@[i]) by {
                        assert(copied_from(sorted, population@[i]));
                        let j = choose|j: int| 0 <= j < sorted.len() && population@[i].same(&sorted[j]);
                        lemma_same_member(env, population@[i], sorted[j]);
                    }
                }
            }
            self.population = population;
            proof {
                assert(plain_generation(env, pop0, self.population@, per as nat, self.config.num_parent_pairs as nat,
                    pop_size as nat, self.explore, itr));
            }
        }
        self.round_since_improve > self.config.early_stop_after
    }

    /// `children_per_parent_pair` children of the two parents (see `gen_child`).
    fn children_of(&self, env: &EnvPruned, parent_1: &Genotype, parent_2: &Genotype, itr: i32) -> (r: Vec<Genotype>)
        requires
            env.wf(),
            self.wf(env),
            is_member(env, *parent_1),
            is_member(env, *parent_2),
        ensures
            r@.len() == self.config.children_per_parent_pair,
            population_ok(env, r@),
            forall|i: int| 0 <= i < r@.len() ==> bred_from(env, *parent_1, *parent_2, itr, #[trigger] r@[i]),
    {
        let mut brood: Vec<Genotype> = Vec::new();
        let mut c: usize = 0;
        while c < self.config.children_per_parent_pair
            invariant
                env.wf(),
                self.wf(env),
                is_member(env, *parent_1),
                is_member(env, *parent_2),
                population_ok(env, brood@),
                brood@.len() == c,
                c <= self.config.children_per_parent_pair,
                forall|i: int| 0 <= i < brood@.len() ==> bred_from(env, *parent_1, *parent_2, itr, #[trigger] brood@[i]),
            decreases self.config.children_per_parent_pair - c,
        {
            let child = gen_child(
                parent_1,
                parent_2,
                &self.config,
                env,
                self.mutation_rate_delta,
                self.mutation_rate_secondary_delta,
                itr,
            );
            brood.push(child);
            c = c + 1;
        }
        brood
    }

    /// A crowding brood: children of the two parents, then copies of both parents.
    fn brood_of(&self, env: &EnvPruned, parent_1: &Genotype, parent_2: &Genotype, itr: i32) -> (r: Vec<Genotype>)
        requires
            env.wf(),
            self.wf(env),
            is_member(env, *parent_1),
            is_member(env, *parent_2),
            is_evaluated(env, *parent_1),
            is_evaluated(env, *parent_2),
            in_pop(self.population@, *parent_1),
            in_pop(self.population@, *parent_2),
        ensures
            brood_ok(env, self.population@, r@, self.config.children_per_parent_pair as nat, itr),
    {
        let mut brood = self.children_of(env, parent_1, parent_2, itr);
        let c1 = parent_1.copy();
        let c2 = parent_2.copy();
        let ghost b0 = brood@;
        brood.push(c1);
        brood.push(c2);
        proof {
            let j1 = choose|j: int| 0 <= j < self.population@.len() && *parent_1 == #[trigger] self.population@[j];
            let j2 = choose|j: int| 0 <= j < self.population@.len() && *parent_2 == #[trigger] self.population@[j];
            assert(c1.same(&self.population@[j1]));
            assert(c2.same(&self.population@[j2]));
            let per = self.config.children_per_parent_pair as int;
            assert(brood@[per] == c1 && brood@[per + 1] == c2);
            assert forall|c: int| 0 <= c < per implies bred_from(env, self.population@[j1], self.population@[j2], itr, #[trigger] brood@[c]) by {
                assert(brood@[c] == b0[c]);
            }
            assert forall|i: int| 0 <= i < brood@.len() implies is_member(env, #[trigger] brood@[i]) && is_evaluated(env, brood@[i]) by {
                if i < b0.len() {
                    assert(brood@[i] == b0[i]);
                } else if i == per {
                    lemma_same_member(env, c1, *parent_1);
                } else {
                    lemma_same_member(env, c2, *parent_2);
                }
            }
        }
        brood
    }
}

/// The worker that worker `i` of `n` sends emigrants to: the next one on the ring.
pub fn ring_successor(i: usize, n: usize) -> (r: usize)
    requires
        i < n,
    ensures
        r == (i + 1) % (n as int),
        r < n,
{
    proof {
        if i + 1 < n {
            vstd::arithmetic::div_mod::lemma_small_mod((i + 1) as nat, n as nat);
        } else {
            assert((n as int) % (n as int) == 0) by (nonlinear_arith)
                requires
                    n > 0,
            ;
        }
    }
    if i + 1 == n {
        0
    } else {
        i + 1
    }
}

/// Collects the workers' reports of new bests until every worker has finished.
pub struct BestHistory {
    /// Best genome reported so far.
    pub best: Option<Genotype>,
    /// Every report that beat all earlier ones, in order.
    pub history: Vec<Genotype>,
    /// Workers that have not finished yet.
    pub running: usize,
}

impl BestHistory {
    pub fn new(workers: usize) -> (r: BestHistory)
        ensures
            r.best is None,
            r.history@.len() == 0,
            r.running == workers,
    {
        BestHistory { best: None, history: Vec::new(), running: workers }
    }

    /// Handles one report: `Some(g)` is a worker's new best, `None` says that a worker
    /// finished. A report joins the history when it beats every earlier one. Returns
    /// whether every worker has finished.
    pub fn on_report(&mut self, report: Option<Genotype>) -> (done: bool)
        requires
            report matches Some(g) ==> g.travel_time is Some,
            old(self).best matches Some(b) ==> b.travel_time is Some,
        ensures
            final(self).best matches Some(b) ==> b.travel_time is Some,
            done == (final(self).running == 0),
            match report {
                None => {
                    &&& final(self).running == (if old(self).running == 0 {
                        0
                    } else {
                        old(self).running - 1
                    })
                    &&& final(self).best == old(self).best
                    &&& final(self).history == old(self).history
                },
                Some(g) => {
                    &&& final(self).running == old(self).running
                    &&& if old(self).best matches Some(b) && cost(b) <= cost(g) {
                        &&& final(self).best == old(self).best
                        &&& final(self).history == old(self).history
                    } else {
                        &&& final(self).best == Some(g)
                        &&& final(self).history@.len() == old(self).history@.len() + 1
                        &&& final(self).history@.drop_last() == old(self).history@
                        &&& final(self).history@.last().same(&g)
                    }
                },
            },
    {
        match report {
            None => {
                if self.running > 0 {
                    self.running = self.running - 1;
                }
            },
            Some(g) => {
                let better = match &self.best {
                    Some(b) => g.cost_of() < b.cost_of(),
                    None => true,
                };
                if better {
                    let ghost h0 = self.history@;
                    self.history.push(g.copy());
                    proof {
                        assert(self.history@.drop_last() =~= h0);
                    }
                    self.best = Some(g);
                }
            },
        }
        self.running == 0
    }
}

} // verus!
