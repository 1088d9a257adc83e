//! Parent and survivor selection, and ordering a population by cost.
use vstd::prelude::*;

use crate::genalg::{all_evaluated, cost, Genotype};
use crate::wrappers::{random_below, sample_distinct, weight_sum, weighted_index};

verus! {

broadcast use vstd::seq_lib::group_to_multiset_ensures, vstd::multiset::group_multiset_axioms;

/// `pop` is ordered by ascending cost.
pub open spec fn sorted_by_cost(pop: Seq<Genotype>) -> bool {
    forall|i: int, j: int| 0 <= i < j < pop.len() ==> cost(pop[i]) <= cost(pop[j])
}

/// The indices `idx` into `pop` are ordered by ascending cost.
pub open spec fn indices_sorted_by_cost(pop: Seq<Genotype>, idx: Seq<usize>) -> bool {
    forall|i: int, j: int| 0 <= i < j < idx.len() ==> cost(pop[idx[i] as int]) <= cost(pop[idx[j] as int])
}

/// Orders the population by ascending cost, keeping the order of equal costs.
pub fn sort_population(population: &mut Vec<Genotype>)
    requires
        all_evaluated(old(population)@),
    ensures
        final(population)@.to_multiset() == old(population)@.to_multiset(),
        final(population)@.len() == old(population)@.len(),
        all_evaluated(final(population)@),
        sorted_by_cost(final(population)@),
{
    let ghost p0 = population@;
    let n = population.len();
    if n == 0 {
        return;
    }
    let mut i: usize = 1;
    while i < n
        invariant
            1 <= i <= n,
            n == population@.len(),
            population@.to_multiset() == p0.to_multiset(),
            all_evaluated(population@),
            forall|a: int, b: int| 0 <= a < b < i ==> cost(#[trigger] population@[a]) <= cost(#[trigger] population@[b]),
        decreases n - i,
    {
        let ghost before = population@;
        let x = population.remove(i);
        let xc = x.cost_of();
        let mut j: usize = 0;
        while j < i && population[j].cost_of() <= xc
            invariant
                j <= i < n,
                before.len() == n,
                population@ == before.remove(i as int),
                all_evaluated(population@),
                forall|k: int| 0 <= k < j ==> cost(population@[k]) <= xc,
            decreases i - j,
        {
            j = j + 1;
        }
        let ghost removed = population@;
        population.insert(j, x);
        proof {
            assert(before.to_multiset().count(x) > 0) by {
                assert(before[i as int] == x);
                assert(before.contains(x));
            }
            assert(population@.to_multiset() =~= before.to_multiset());
            assert(population@ == removed.insert(j as int, x));
            assert forall|a: int, b: int| 0 <= a < b < i + 1 implies cost(#[trigger] population@[a]) <= cost(#[trigger] population@[b]) by {
                if j < i {
                    assert(cost(removed[j as int]) > xc);
                }
                if a < j && b > j {
                    assert(cost(removed[a]) <= cost(removed[b - 1]));
                } else if a == j && b > j {
                    assert(cost(removed[j as int]) <= cost(removed[b - 1]));
                } else if a > j {
                    assert(cost(removed[a - 1]) <= cost(removed[b - 1]));
                }
            }
        }
        i = i + 1;
    }
}

/// The indices rise strictly.
pub open spec fn increasing(idx: Seq<usize>) -> bool {
    forall|a: int, b: int| 0 <= a < b < idx.len() ==> idx[a] < idx[b]
}

/// Indices of genomes of equal cost keep their relative order.
pub open spec fn stable_by_cost(pop: Seq<Genotype>, idx: Seq<usize>) -> bool {
    forall|a: int, b: int|
        0 <= a < b < idx.len() && cost(pop[idx[a] as int]) == cost(pop[idx[b] as int]) ==> #[trigger] idx[a] < #[trigger] idx[b]
}

/// Orders the indices `idx` by ascending cost of the genomes they point at, keeping the
/// order of equal costs.
pub fn sort_indices_by_cost(population: &Vec<Genotype>, idx: &mut Vec<usize>)
    requires
        all_evaluated(population@),
        forall|k: int| 0 <= k < old(idx)@.len() ==> old(idx)@[k] < population@.len(),
    ensures
        final(idx)@.to_multiset() == old(idx)@.to_multiset(),
        final(idx)@.len() == old(idx)@.len(),
        forall|k: int| 0 <= k < final(idx)@.len() ==> final(idx)@[k] < population@.len(),
        indices_sorted_by_cost(population@, final(idx)@),
        increasing(old(idx)@) ==> stable_by_cost(population@, final(idx)@),
{
    let ghost i0 = idx@;
    let ghost inc = increasing(i0);
    let n = idx.len();
    if n == 0 {
        return;
    }
    let mut i: usize = 1;
    while i < n
        invariant
            1 <= i <= n,
            n == idx@.len(),
            all_evaluated(population@),
            idx@.to_multiset() == i0.to_multiset(),
            forall|k: int| 0 <= k < idx@.len() ==> idx@[k] < population@.len(),
            forall|a: int, b: int|
                0 <= a < b < i ==> cost(population@[#[trigger] idx@[a] as int]) <= cost(population@[#[trigger] idx@[b] as int]),
            i0.len() == n,
            inc == increasing(i0),
            forall|k: int| i <= k < n ==> #[trigger] idx@[k] == i0[k],
            inc ==> forall|a: int, k: int| 0 <= a < i <= k < n ==> #[trigger] idx@[a] < #[trigger] idx@[k],
            inc ==> forall|a: int, b: int|
                0 <= a < b < i && cost(population@[idx@[a] as int]) == cost(population@[idx@[b] as int]) ==> #[trigger] idx@[a]
                    < #[trigger] idx@[b],
        decreases n - i,
    {
        let ghost before = idx@;
        let x = idx.remove(i);
        let xc = population[x].cost_of();
        let mut j: usize = 0;
        while j < i && population[idx[j]].cost_of() <= xc
            invariant
                j <= i < n,
                before.len() == n,
                idx@ == before.remove(i as int),
                all_evaluated(population@),
                forall|k: int| 0 <= k < idx@.len() ==> idx@[k] < population@.len(),
                forall|k: int| 0 <= k < j ==> cost(population@[#[trigger] idx@[k] as int]) <= xc,
            decreases i - j,
        {
            j = j + 1;
        }
        let ghost removed = idx@;
        idx.insert(j, x);
        proof {
            assert(before.to_multiset().count(x) > 0) by {
                assert(before[i as int] == x);
                assert(before.contains(x));
            }
            assert(idx@.to_multiset() =~= before.to_multiset());
            assert(idx@ == removed.insert(j as int, x));
            assert forall|a: int, b: int|
                0 <= a < b < i + 1 implies cost(population@[#[trigger] idx@[a] as int]) <= cost(population@[#[trigger] idx@[b] as int]) by {
                if j < i {
                    assert(cost(population@[removed[j as int] as int]) > xc);
                }
                if a < j && b > j {
                    assert(cost(population@[removed[a] as int]) <= cost(population@[removed[b - 1] as int]));
                } else if a == j && b > j {
                    assert(cost(population@[removed[j as int] as int]) <= cost(population@[removed[b - 1] as int]));
                } else if a > j {
                    assert(cost(population@[removed[a - 1] as int]) <= cost(population@[removed[b - 1] as int]));
                }
            }
            assert forall|k: int| i + 1 <= k < n implies #[trigger] idx@[k] == i0[k] by {
                assert(idx@[k] == removed[k - 1]);
                assert(removed[k - 1] == before[k]);
            }
            if inc {
                assert(x == i0[i as int]);
                assert forall|a: int, k: int| 0 <= a < i + 1 <= k < n implies #[trigger] idx@[a] < #[trigger] idx@[k] by {
                    assert(idx@[k] == i0[k]);
                    if a < j {
                        assert(idx@[a] == before[a]);
                        assert(before[a] < before[i as int]);
                    } else if a == j {
                        assert(idx@[a] == x);
                    } else {
                        assert(idx@[a] == before[a - 1]);
                        assert(before[a - 1] < before[i as int]);
                    }
                }
                assert forall|a: int, b: int|
                    0 <= a < b < i + 1 && cost(population@[idx@[a] as int]) == cost(population@[idx@[b] as int]) implies #[trigger] idx@[a]
                        < #[trigger] idx@[b] by {
                    if j < i {
                        assert(cost(population@[removed[j as int] as int]) > xc);
                    }
                    if b < j {
                        assert(idx@[a] == before[a] && idx@[b] == before[b]);
                    } else if b == j {
                        assert(idx@[a] == before[a]);
                        assert(before[a] < before[i as int]);
                    } else if a == j {
                        assert(cost(population@[removed[j as int] as int]) <= cost(population@[removed[b - 1] as int]));
                    } else if a < j {
                        assert(cost(population@[removed[a] as int]) <= xc);
                        assert(cost(population@[removed[j as int] as int]) <= cost(population@[removed[b - 1] as int]));
                    } else {
                        assert(idx@[a] == before[a - 1] && idx@[b] == before[b - 1]);
                    }
                }
            }
        }
        i = i + 1;
    }
}

/// `r` is the best `r.len()` genomes of the pool `pool` of indices, cheapest first.
pub open spec fn best_of_pool(pop: Seq<Genotype>, pool: Seq<usize>, r: Seq<&Genotype>) -> bool {
    &&& exists|s: Seq<usize>|
        #![trigger indices_sorted_by_cost(pop, s)]
        s.to_multiset() == pool.to_multiset() && indices_sorted_by_cost(pop, s) && r.len() <= s.len()
            && forall|k: int| 0 <= k < r.len() ==> *r[k] == pop[#[trigger] s[k] as int]
    &&& forall|k: int| 0 <= k < r.len() ==> exists|i: int| 0 <= i < pop.len() && *#[trigger] r[k] == pop[i]
    &&& forall|a: int, b: int| 0 <= a < b < r.len() ==> cost(*r[a]) <= cost(*r[b])
    &&& r.len() > 0 ==> forall|t: int| 0 <= t < pool.len() ==> cost(*r[0]) <= cost(pop[#[trigger] pool[t] as int])
    &&& r.len() > 0 ==> exists|t: int| 0 <= t < pool.len() && *r[0] == pop[#[trigger] pool[t] as int]
}

/// The best `num` genomes among the pool of indices `pool`, cheapest first.
pub fn pick_best<'a>(population: &'a Vec<Genotype>, pool: Vec<usize>, num: usize) -> (r: Vec<&'a Genotype>)
    requires
        all_evaluated(population@),
        forall|k: int| 0 <= k < pool@.len() ==> pool@[k] < population@.len(),
        num <= pool@.len(),
    ensures
        r@.len() == num,
        best_of_pool(population@, pool@, r@),
{
    let mut sorted = pool;
    let ghost p0 = sorted@;
    sort_indices_by_cost(population, &mut sorted);
    let mut ret: Vec<&'a Genotype> = Vec::new();
    let mut n: usize = 0;
    while n < num
        invariant
            n <= num <= sorted@.len(),
            ret@.len() == n,
            forall|k: int| 0 <= k < sorted@.len() ==> sorted@[k] < population@.len(),
            forall|k: int| 0 <= k < n ==> *ret@[k] == population@[sorted@[k] as int],
        decreases num - n,
    {
        ret.push(&population[sorted[n]]);
        n = n + 1;
    }
    proof {
        let s = sorted@;
        assert(indices_sorted_by_cost(population@, s));
        assert forall|k: int| 0 <= k < ret@.len() implies exists|i: int| 0 <= i < population@.len() && *#[trigger] ret@[k] == population@[i] by {
            assert(*ret@[k] == population@[s[k] as int]);
        }
        if num > 0 {
            assert forall|t: int| 0 <= t < p0.len() implies cost(*ret@[0]) <= cost(population@[#[trigger] p0[t] as int]) by {
                assert(p0.contains(p0[t]));
                assert(s.to_multiset().count(p0[t]) > 0);
                assert(s.contains(p0[t]));
                let u = choose|u: int| 0 <= u < s.len() && s[u] == p0[t];
                if u > 0 {
                    assert(cost(population@[s[0] as int]) <= cost(population@[s[u] as int]));
                }
            }
            assert(s.contains(s[0]));
            assert(p0.to_multiset().count(s[0]) > 0);
            assert(p0.contains(s[0]));
        }
    }
    ret
}

/// `pool` is a tournament of `size` indices into a population of `len`, all distinct
/// unless drawn with replacement.
pub open spec fn is_tournament(pool: Seq<usize>, len: nat, size: nat, with_replacement: bool) -> bool {
    &&& pool.len() == size
    &&& forall|k: int| 0 <= k < pool.len() ==> pool[k] < len
    &&& !with_replacement ==> forall|a: int, b: int| 0 <= a < b < pool.len() ==> pool[a] != pool[b]
}

/// Draws a tournament of `tournament_size` genomes and returns the best `num` of them,
/// cheapest first.
pub fn tournament_pick<'a>(
    population: &'a Vec<Genotype>,
    num: &usize,
    tournament_size: &usize,
    pick_with_replacement: &bool,
) -> (r: Vec<&'a Genotype>)
    requires
        all_evaluated(population@),
        population@.len() > 0,
        *num <= *tournament_size,
        !*pick_with_replacement ==> *tournament_size <= population@.len(),
    ensures
        r@.len() == *num,
        exists|pool: Seq<usize>|
            is_tournament(pool, population@.len(), *tournament_size as nat, *pick_with_replacement)
                && #[trigger] best_of_pool(population@, pool, r@),
{
    let len = population.len();
    let idx_list = if *pick_with_replacement {
        let mut v: Vec<usize> = Vec::new();
        while v.len() < *tournament_size
            invariant
                v@.len() <= *tournament_size,
                len == population@.len(),
                len > 0,
                forall|k: int| 0 <= k < v@.len() ==> v@[k] < len,
            decreases *tournament_size - v@.len(),
        {
            v.push(random_below(len));
        }
        v
    } else {
        sample_distinct(len, *tournament_size)
    };
    let ghost pool = idx_list@;
    let r = pick_best(population, idx_list, *num);
    proof {
        assert(is_tournament(pool, population@.len(), *tournament_size as nat, *pick_with_replacement));
    }
    r
}

/// A pair of parents as a sequence of two.
pub open spec fn pair_seq<'a>(p: (&'a Genotype, &'a Genotype)) -> Seq<&'a Genotype> {
    seq![p.0, p.1]
}

/// `p` is the best two of some tournament of `size` over `pop`.
pub open spec fn tournament_pair<'a>(
    pop: Seq<Genotype>,
    p: (&'a Genotype, &'a Genotype),
    size: nat,
    with_replacement: bool,
) -> bool {
    exists|pool: Seq<usize>|
        is_tournament(pool, pop.len(), size, with_replacement) && #[trigger] best_of_pool(pop, pool, pair_seq(p))
}

/// Parent pairs from `num_parents` tournaments of `tournament_size`: the two best of each.
pub fn tournament_parent_selection(
    population: &Vec<Genotype>,
    num_parents: i32,
    tournament_size: usize,
    pick_with_replacement: bool,
) -> (r: Vec<(&Genotype, &Genotype)>)
    requires
        all_evaluated(population@),
        population@.len() > 0,
        2 <= tournament_size,
        !pick_with_replacement ==> tournament_size <= population@.len(),
    ensures
        r@.len() == if num_parents < 0 {
            0
        } else {
            num_parents as int
        },
        forall|k: int|
            0 <= k < r@.len() ==> tournament_pair(population@, #[trigger] r@[k], tournament_size as nat, pick_with_replacement),
{
    let mut parent_pairs: Vec<(&Genotype, &Genotype)> = Vec::new();
    let mut n: i32 = 0;
    while n < num_parents
        invariant
            all_evaluated(population@),
            population@.len() > 0,
            2 <= tournament_size,
            !pick_with_replacement ==> tournament_size <= population@.len(),
            0 <= n,
            num_parents >= 0 ==> n <= num_parents,
            num_parents < 0 ==> n == 0,
            parent_pairs@.len() == n,
            forall|k: int|
                0 <= k < parent_pairs@.len() ==> tournament_pair(population@, #[trigger] parent_pairs@[k], tournament_size as nat, pick_with_replacement),
        decreases num_parents - n,
    {
        let tourney_result = tournament_pick(population, &2, &tournament_size, &pick_with_replacement);
        let pair = (tourney_result[0], tourney_result[1]);
        proof {
            assert(pair_seq(pair) =~= tourney_result@);
        }
        parent_pairs.push(pair);
        proof {
            assert forall|k: int|
                0 <= k < parent_pairs@.len() implies tournament_pair(population@, #[trigger] parent_pairs@[k], tournament_size as nat, pick_with_replacement) by {
                if k == n {
                    assert(parent_pairs@[k] == pair);
                }
            }
        }
        n = n + 1;
    }
    parent_pairs
}

/// The indices `0..n` in order.
pub open spec fn all_indices(n: nat) -> Seq<usize> {
    Seq::new(n, |i: int| i as usize)
}

/// `order` lists every index of `pop` once, by ascending cost.
pub open spec fn cost_sorted_order(pop: Seq<Genotype>, order: Seq<usize>) -> bool {
    &&& order.to_multiset() == all_indices(pop.len()).to_multiset()
    &&& forall|k: int| 0 <= k < order.len() ==> order[k] < pop.len()
    &&& indices_sorted_by_cost(pop, order)
    &&& stable_by_cost(pop, order)
}

/// The indices of the population, ordered by ascending cost (equal costs keep their
/// order).
pub fn cost_order_of(population: &Vec<Genotype>) -> (order: Vec<usize>)
    requires
        all_evaluated(population@),
    ensures
        order@.len() == population@.len(),
        cost_sorted_order(population@, order@),
{
    let mut order: Vec<usize> = Vec::new();
    let mut i: usize = 0;
    while i < population.len()
        invariant
            i <= population@.len(),
            order@ == all_indices(i as nat),
        decreases population@.len() - i,
    {
        order.push(i);
        proof {
            assert(order@ =~= all_indices((i + 1) as nat));
        }
        i = i + 1;
    }
    proof {
        assert(order@ =~= all_indices(population@.len()));
    }
    sort_indices_by_cost(population, &mut order);
    order
}

/// Both genomes of `p` stand among the first `bound` of `pop` in the cost order `order`.
pub open spec fn pair_ranked<'a>(pop: Seq<Genotype>, order: Seq<usize>, p: (&'a Genotype, &'a Genotype), bound: int) -> bool {
    &&& exists|a: int| 0 <= a < bound && *p.0 == pop[#[trigger] order[a] as int]
    &&& exists|b: int| 0 <= b < bound && *p.1 == pop[#[trigger] order[b] as int]
}

/// Sorts the population by cost and pairs it off in order: `(0, 1), (2, 3), ...`.
pub fn elitism_parent_selection(population: &Vec<Genotype>, num_parents: i32) -> (r: Vec<(&Genotype, &Genotype)>)
    requires
        all_evaluated(population@),
        2 * num_parents <= population@.len(),
    ensures
        r@.len() == if num_parents < 0 {
            0
        } else {
            num_parents as int
        },
        exists|order: Seq<usize>|
            #[trigger] cost_sorted_order(population@, order) && forall|k: int|
                0 <= k < r@.len() ==> *r@[k].0 == population@[order[2 * k] as int]
                    && *r@[k].1 == population@[order[2 * k + 1] as int],
{
    let order = cost_order_of(population);
    let mut parent_pairs: Vec<(&Genotype, &Genotype)> = Vec::new();
    let mut n: i32 = 0;
    while n < num_parents
        invariant
            2 * num_parents <= population@.len(),
            order@.len() == population@.len(),
            forall|k: int| 0 <= k < order@.len() ==> order@[k] < population@.len(),
            0 <= n,
            num_parents >= 0 ==> n <= num_parents,
            num_parents < 0 ==> n == 0,
            parent_pairs@.len() == n,
            forall|k: int|
                0 <= k < parent_pairs@.len() ==> *parent_pairs@[k].0 == population@[order@[2 * k] as int]
                    && *parent_pairs@[k].1 == population@[order@[2 * k + 1] as int],
        decreases num_parents - n,
    {
        let ix1 = (n as usize) * 2;
        let ix2 = ix1 + 1;
        parent_pairs.push((&population[order[ix1]], &population[order[ix2]]));
        n = n + 1;
    }
    parent_pairs
}

/// Parent pairs drawn uniformly from the best half of the population (by cost).
pub fn random_best_half_parent_selection(population: &Vec<Genotype>, num_parents: i32) -> (r: Vec<(&Genotype, &Genotype)>)
    requires
        all_evaluated(population@),
        population@.len() >= 2,
    ensures
        r@.len() == if num_parents < 0 {
            0
        } else {
            num_parents as int
        },
        exists|order: Seq<usize>|
            #[trigger] cost_sorted_order(population@, order) && forall|k: int|
                0 <= k < r@.len() ==> pair_ranked(population@, order, #[trigger] r@[k], population@.len() as int / 2),
{
    let order = cost_order_of(population);
    let max = population.len() / 2;
    let mut parent_pairs: Vec<(&Genotype, &Genotype)> = Vec::new();
    let mut n: i32 = 0;
    while n < num_parents
        invariant
            population@.len() >= 2,
            max == population@.len() / 2,
            order@.len() == population@.len(),
            forall|k: int| 0 <= k < order@.len() ==> order@[k] < population@.len(),
            0 <= n,
            num_parents >= 0 ==> n <= num_parents,
            num_parents < 0 ==> n == 0,
            parent_pairs@.len() == n,
            forall|k: int| 0 <= k < parent_pairs@.len() ==> pair_ranked(population@, order@, #[trigger] parent_pairs@[k], max as int),
        decreases num_parents - n,
    {
        let a = random_below(max);
        let b = random_below(max);
        parent_pairs.push((&population[order[a]], &population[order[b]]));
        proof {
            let k = n as int;
            assert(*parent_pairs@[k].0 == population@[order@[a as int] as int]);
            assert(*parent_pairs@[k].1 == population@[order@[b as int] as int]);
            assert(pair_ranked(population@, order@, parent_pairs@[k], max as int));
        }
        n = n + 1;
    }
    parent_pairs
}

/// Linear rank weights: the genome at position `i` of `len` weighs `len - 1 - i`.
pub fn rank_weights(len: usize) -> (w: Vec<u64>)
    requires
        len <= u32::MAX,
    ensures
        w@.len() == len,
        forall|i: int| 0 <= i < len ==> w@[i] == len - 1 - i,
        weight_sum(w@) <= len * len,
{
    let mut w: Vec<u64> = Vec::new();
    let mut i: usize = 0;
    while i < len
        invariant
            i <= len <= u32::MAX,
            w@.len() == i,
            forall|k: int| 0 <= k < i ==> w@[k] == len - 1 - k,
            weight_sum(w@) <= i * len,
        decreases len - i,
    {
        let ghost before = w@;
        w.push((len - 1 - i) as u64);
        proof {
            assert(w@.drop_last() == before);
            assert((i + 1) * len == i * len + len) by (nonlinear_arith);
        }
        i = i + 1;
    }
    w
}

/// Parent pairs drawn with probability proportional to linear rank weight: in the cost
/// order, the cheapest genome weighs most and the dearest nothing.
pub fn rank_parent_selection(population: &Vec<Genotype>, num_parents: i32) -> (r: Vec<(&Genotype, &Genotype)>)
    requires
        all_evaluated(population@),
        2 <= population@.len() <= u32::MAX,
    ensures
        r@.len() == if num_parents < 0 {
            0
        } else {
            num_parents as int
        },
        exists|order: Seq<usize>|
            #[trigger] cost_sorted_order(population@, order) && forall|k: int|
                0 <= k < r@.len() ==> pair_ranked(population@, order, #[trigger] r@[k], population@.len() - 1),
{
    let order = cost_order_of(population);
    let len = population.len();
    let weights = rank_weights(len);
    proof {
        assert(weights@[0] > 0);
        assert(len * len <= u64::MAX) by (nonlinear_arith)
            requires
                len <= u32::MAX,
        ;
    }
    let mut parent_pairs: Vec<(&Genotype, &Genotype)> = Vec::new();
    let mut n: i32 = 0;
    while n < num_parents
        invariant
            len == population@.len(),
            len >= 2,
            order@.len() == len,
            forall|k: int| 0 <= k < order@.len() ==> order@[k] < population@.len(),
            weights@.len() == len,
            forall|i: int| 0 <= i < len ==> weights@[i] == len - 1 - i,
            weight_sum(weights@) <= u64::MAX,
            0 <= n,
            num_parents >= 0 ==> n <= num_parents,
            num_parents < 0 ==> n == 0,
            parent_pairs@.len() == n,
            forall|k: int| 0 <= k < parent_pairs@.len() ==> pair_ranked(population@, order@, #[trigger] parent_pairs@[k], len - 1),
        decreases num_parents - n,
    {
        assert(weights@[0] > 0);
        let a = weighted_index(&weights);
        let b = weighted_index(&weights);
        parent_pairs.push((&population[order[a]], &population[order[b]]));
        proof {
            let k = n as int;
            assert(*parent_pairs@[k].0 == population@[order@[a as int] as int]);
            assert(*parent_pairs@[k].1 == population@[order@[b as int] as int]);
            assert(pair_ranked(population@, order@, parent_pairs@[k], len - 1));
        }
        n = n + 1;
    }
    parent_pairs
}

/// Keeps the first `num_survivors` genomes of the sorted population.
pub fn elitism_survivor_selection(population: Vec<Genotype>, num_survivors: &usize) -> (r: Vec<Genotype>)
    requires
        *num_survivors <= population@.len(),
    ensures
        r@ == population@.take(*num_survivors as int),
{
    let mut population = population;
    population.truncate(*num_survivors);
    population
}

/// `g` is a copy of some genome of `pop`.
pub open spec fn copied_from(pop: Seq<Genotype>, g: Genotype) -> bool {
    exists|i: int| 0 <= i < pop.len() && g.same(&pop[i])
}

/// `g` is a copy of the cheapest genome of some tournament of `size` over `pop`.
pub open spec fn tournament_winner(pop: Seq<Genotype>, g: Genotype, size: nat, with_replacement: bool) -> bool {
    exists|pool: Seq<usize>|
        #[trigger] is_tournament(pool, pop.len(), size, with_replacement) && (forall|t: int|
            0 <= t < pool.len() ==> cost(g) <= cost(pop[pool[t] as int])) && exists|t: int|
            0 <= t < pool.len() && g.same(&pop[#[trigger] pool[t] as int])
}

/// A copy of the winner of one tournament of `tourney_size` over `population`.
pub fn tournament_winner_copy(population: &Vec<Genotype>, tourney_size: &usize, replacement: &bool) -> (g: Genotype)
    requires
        all_evaluated(population@),
        population@.len() > 0,
        1 <= *tourney_size,
        !*replacement ==> *tourney_size <= population@.len(),
    ensures
        copied_from(population@, g),
        tournament_winner(population@, g, *tourney_size as nat, *replacement),
        g.travel_time is Some,
{
    let v = tournament_pick(population, &1, tourney_size, replacement);
    let winner = v[0].copy();
    proof {
        let pool = choose|pool: Seq<usize>|
            is_tournament(pool, population@.len(), *tourney_size as nat, *replacement)
                && #[trigger] best_of_pool(population@, pool, v@);
        let t = choose|t: int| 0 <= t < pool.len() && *v@[0] == population@[#[trigger] pool[t] as int];
        assert(winner.same(&population@[pool[t] as int]));
        assert(is_tournament(pool, population@.len(), *tourney_size as nat, *replacement));
    }
    winner
}

/// Collects `num_survivors` winners of tournaments of `tourney_size` (the same genome
/// may win more than once).
pub fn tournament_surivor_selection(
    population: Vec<Genotype>,
    num_survivors: &usize,
    tourney_size: &usize,
    replacement: &bool,
) -> (r: Vec<Genotype>)
    requires
        all_evaluated(population@),
        population@.len() > 0,
        1 <= *tourney_size,
        !*replacement ==> *tourney_size <= population@.len(),
    ensures
        r@.len() == *num_survivors,
        forall|k: int| 0 <= k < r@.len() ==> copied_from(population@, #[trigger] r@[k]),
        forall|k: int|
            0 <= k < r@.len() ==> tournament_winner(
                population@,
                #[trigger] r@[k],
                *tourney_size as nat,
                *replacement,
            ),
        all_evaluated(r@),
{
    let mut res: Vec<Genotype> = Vec::new();
    while res.len() < *num_survivors
        invariant
            all_evaluated(population@),
            population@.len() > 0,
            1 <= *tourney_size,
            !*replacement ==> *tourney_size <= population@.len(),
            res@.len() <= *num_survivors,
            forall|k: int| 0 <= k < res@.len() ==> copied_from(population@, #[trigger] res@[k]),
            forall|k: int|
                0 <= k < res@.len() ==> tournament_winner(
                    population@,
                    #[trigger] res@[k],
                    *tourney_size as nat,
                    *replacement,
                ),
            all_evaluated(res@),
        decreases *num_survivors - res@.len(),
    {
        let winner = tournament_winner_copy(&population, tourney_size, replacement);
        res.push(winner);
        proof {
            assert forall|k: int| 0 <= k < res@.len() implies copied_from(population@, #[trigger] res@[k])
                && tournament_winner(population@, res@[k], *tourney_size as nat, *replacement) by {
                if k < res@.len() - 1 {
                    assert(res@[k] == res@.drop_last()[k]);
                }
            }
        }
    }
    res
}

} // verus!
