//! Structural mutation operators and the self-adaptive parameter layer.
use vstd::prelude::*;

use crate::environment::EnvPruned;
use crate::genalg::{
    calculate_and_set_travel_time, copy_range, fitness, ids_in_range, is_evaluated,
    is_genome_of, lemma_genome_facts, lemma_ids_in_range_same_multiset, overwrite_window,
    reordered, stop_id, Genotype, NurseStop, MAX_STOPS,
};
use crate::wrappers::{all_orderings, random_below, random_bool, shuffle_in_place, weight_sum, weighted_index};

verus! {

broadcast use vstd::seq_lib::group_to_multiset_ensures, vstd::multiset::group_multiset_axioms,
    vstd::seq_lib::lemma_multiset_commutative;

/// Rates are fixed-point fractions with this denominator.
pub const RATE_SCALE: u32 = 1_000_000;

/// Number of structural mutation operators.
pub const NUM_OPERATORS: usize = 6;

/// Self-adaptive parameters carried by each genome.
#[derive(Debug, Clone)]
pub struct MetaGenes {
    /// Crossover rate, in `RATE_SCALE`-ths.
    pub cross_rate: u32,
    /// Mutation rate, in `RATE_SCALE`-ths.
    pub mut_rate: u32,
    /// One weight per mutation operator, each at least 1.
    pub mut_weight_vec: Vec<i32>,
}

impl MetaGenes {
    pub open spec fn wf(&self) -> bool {
        &&& self.cross_rate <= RATE_SCALE
        &&& self.mut_rate <= RATE_SCALE
        &&& self.mut_weight_vec@.len() == NUM_OPERATORS
        &&& forall|i: int| 0 <= i < NUM_OPERATORS ==> #[trigger] self.mut_weight_vec@[i] >= 1
    }
}


impl MetaGenes {
    /// Field-wise equality.
    pub open spec fn same(&self, o: &MetaGenes) -> bool {
        &&& self.cross_rate == o.cross_rate
        &&& self.mut_rate == o.mut_rate
        &&& self.mut_weight_vec@ == o.mut_weight_vec@
    }

    /// A copy with the same fields.
    pub fn copy(&self) -> (r: MetaGenes)
        ensures
            r.same(self),
    {
        let w = self.mut_weight_vec.clone();
        proof {
            assert(w@ =~= self.mut_weight_vec@);
        }
        MetaGenes { cross_rate: self.cross_rate, mut_rate: self.mut_rate, mut_weight_vec: w }
    }
}


/// Two random positions in `0..max`, in order.
pub fn get_rand_range(max: usize) -> (r: (usize, usize))
    requires
        max > 0,
    ensures
        r.0 <= r.1 < max,
{
    let point_1 = random_below(max);
    let point_2 = random_below(max);
    if point_1 > point_2 {
        (point_2, point_1)
    } else {
        (point_1, point_2)
    }
}


/// Exchanges the stops at positions `i` and `j`.
pub fn swap_positions(stops: &mut Vec<NurseStop>, i: usize, j: usize)
    requires
        i < old(stops)@.len(),
        j < old(stops)@.len(),
    ensures
        final(stops)@ == old(stops)@.update(i as int, old(stops)@[j as int]).update(j as int, old(stops)@[i as int]),
        final(stops)@.to_multiset() == old(stops)@.to_multiset(),
{
    let ghost s0 = stops@;
    let a = stops[i];
    let b = stops[j];
    stops.set(i, b);
    stops.set(j, a);
    proof {
        let s1 = s0.update(i as int, b);
        assert(s1.to_multiset() == s0.to_multiset().insert(b).remove(a));
        assert(stops@.to_multiset() == s1.to_multiset().insert(a).remove(s1[j as int]));
        assert(s0.to_multiset().count(a) > 0) by {
            assert(s0.contains(a));
        }
        assert(stops@.to_multiset() =~= s0.to_multiset());
    }
}

/// Moves the stop at position `take` to position `put` of the remaining stops.
pub fn relocate(stops: &mut Vec<NurseStop>, take: usize, put: usize)
    requires
        take < old(stops)@.len(),
        put < old(stops)@.len(),
    ensures
        final(stops)@ == old(stops)@.remove(take as int).insert(put as int, old(stops)@[take as int]),
        final(stops)@.to_multiset() == old(stops)@.to_multiset(),
{
    let ghost s0 = stops@;
    let val = stops.remove(take);
    stops.insert(put, val);
    proof {
        assert(s0.to_multiset().count(val) > 0) by {
            assert(s0.contains(val));
        }
        assert(stops@.to_multiset() =~= s0.to_multiset());
    }
}

/// Reverses the stops at positions `lo..hi`.
pub fn reverse_range(stops: &mut Vec<NurseStop>, lo: usize, hi: usize)
    requires
        lo <= hi <= old(stops)@.len(),
    ensures
        final(stops)@.len() == old(stops)@.len(),
        forall|k: int| 0 <= k < old(stops)@.len() && !(lo <= k < hi) ==> final(stops)@[k] == old(stops)@[k],
        forall|k: int| lo <= k < hi ==> final(stops)@[k] == old(stops)@[lo + hi - 1 - k],
        final(stops)@.to_multiset() == old(stops)@.to_multiset(),
{
    let ghost s0 = stops@;
    let mut a: usize = lo;
    let mut b: usize = hi;
    while b - a > 1
        invariant
            lo <= a <= b <= hi <= s0.len(),
            a - lo == hi - b,
            stops@.len() == s0.len(),
            stops@.to_multiset() == s0.to_multiset(),
            forall|k: int| 0 <= k < s0.len() && !(lo <= k < hi) ==> stops@[k] == s0[k],
            forall|k: int| a <= k < b ==> stops@[k] == s0[k],
            forall|k: int| (lo <= k < a || b <= k < hi) ==> stops@[k] == s0[lo + hi - 1 - k],
        decreases b - a,
    {
        swap_positions(stops, a, b - 1);
        a = a + 1;
        b = b - 1;
    }
}

/// Cuts out the stops at positions `lo..hi` and splices them back in after the first
/// `at` of the remaining stops.
pub fn move_segment(stops: &mut Vec<NurseStop>, lo: usize, hi: usize, at: usize)
    requires
        lo <= hi <= old(stops)@.len(),
        at <= old(stops)@.len() - (hi - lo),
    ensures
        ({
            let s = old(stops)@;
            let rest = s.subrange(0, lo as int) + s.subrange(hi as int, s.len() as int);
            final(stops)@ == rest.take(at as int) + s.subrange(lo as int, hi as int) + rest.skip(at as int)
        }),
        final(stops)@.to_multiset() == old(stops)@.to_multiset(),
{
    let ghost s = stops@;
    let len = stops.len();
    let seg = copy_range(stops, lo, hi);
    let mut rest = copy_range(stops, 0, lo);
    let mut tail = copy_range(stops, hi, len);
    rest.append(&mut tail);
    let rlen = rest.len();
    let mut out = copy_range(&rest, 0, at);
    let mut seg2 = seg;
    out.append(&mut seg2);
    let mut after = copy_range(&rest, at, rlen);
    out.append(&mut after);
    proof {
        let r = rest@;
        assert(r.subrange(0, at as int) == r.take(at as int));
        assert(r.subrange(at as int, r.len() as int) == r.skip(at as int));
        assert(s =~= s.subrange(0, lo as int) + s.subrange(lo as int, hi as int) + s.subrange(hi as int, s.len() as int));
        assert(r =~= r.take(at as int) + r.skip(at as int));
        let pre = s.subrange(0, lo as int);
        let mid = s.subrange(lo as int, hi as int);
        let post = s.subrange(hi as int, s.len() as int);
        assert(r == pre + post);
        assert(out@ == r.take(at as int) + mid + r.skip(at as int));
        assert(out@.to_multiset() =~= r.take(at as int).to_multiset().add(mid.to_multiset()).add(r.skip(at as int).to_multiset()));
        assert(r.to_multiset() =~= r.take(at as int).to_multiset().add(r.skip(at as int).to_multiset()));
        assert(r.to_multiset() =~= pre.to_multiset().add(post.to_multiset()));
        assert(s.to_multiset() =~= pre.to_multiset().add(mid.to_multiset()).add(post.to_multiset()));
        assert forall|y: NurseStop| out@.to_multiset().count(y) == s.to_multiset().count(y) by {
            assert(out@.to_multiset().count(y) == r.take(at as int).to_multiset().count(y) + mid.to_multiset().count(y)
                + r.skip(at as int).to_multiset().count(y));
            assert(r.to_multiset().count(y) == r.take(at as int).to_multiset().count(y) + r.skip(at as int).to_multiset().count(y));
            assert(r.to_multiset().count(y) == pre.to_multiset().count(y) + post.to_multiset().count(y));
            assert(s.to_multiset().count(y) == pre.to_multiset().count(y) + mid.to_multiset().count(y) + post.to_multiset().count(y));
        }
        assert(out@.to_multiset() =~= s.to_multiset());
    }
    *stops = out;
}

/// `s` with the stops at positions `i` and `j` exchanged.
pub open spec fn swapped(s: Seq<NurseStop>, i: int, j: int) -> Seq<NurseStop> {
    s.update(i, s[j]).update(j, s[i])
}

/// `new` is `old` with the window `lo..hi` rearranged and nothing else changed.
pub open spec fn window_rearranged(old: Seq<NurseStop>, new: Seq<NurseStop>, lo: int, hi: int) -> bool {
    &&& new.len() == old.len()
    &&& new.subrange(0, lo) == old.subrange(0, lo)
    &&& new.subrange(hi, old.len() as int) == old.subrange(hi, old.len() as int)
    &&& new.subrange(lo, hi).to_multiset() == old.subrange(lo, hi).to_multiset()
}

/// `new` is `old` with the window `lo..hi` reversed and nothing else changed.
pub open spec fn window_reversed(old: Seq<NurseStop>, new: Seq<NurseStop>, lo: int, hi: int) -> bool {
    &&& new.len() == old.len()
    &&& forall|k: int| 0 <= k < old.len() && !(lo <= k < hi) ==> new[k] == old[k]
    &&& forall|k: int| lo <= k < hi ==> new[k] == old[lo + hi - 1 - k]
}

/// `s` with the window `lo..hi` cut out and spliced back in after the first `at` of the
/// remaining stops.
pub open spec fn segment_moved(s: Seq<NurseStop>, lo: int, hi: int, at: int) -> Seq<NurseStop> {
    let rest = s.subrange(0, lo) + s.subrange(hi, s.len() as int);
    rest.take(at) + s.subrange(lo, hi) + rest.skip(at)
}

/// Mutation by exchanging two random positions.
pub fn swap_mutate(genome: &mut Genotype)
    ensures
        reordered(*old(genome), *final(genome)),
        old(genome).stops@.len() > 0 ==> exists|i: int, j: int|
            0 <= i < old(genome).stops@.len() && 0 <= j < old(genome).stops@.len() && final(genome).stops@
                == #[trigger] swapped(old(genome).stops@, i, j),
{
    let len = genome.stops.len();
    if len == 0 {
        return;
    }
    let point_1 = random_below(len);
    let point_2 = random_below(len);
    let ghost s0 = genome.stops@;
    swap_positions(&mut genome.stops, point_1, point_2);
    proof {
        assert(genome.stops@ == swapped(s0, point_1 as int, point_2 as int));
    }
}

/// Mutation by moving one stop to another random position.
pub fn insert_mutate(genome: &mut Genotype)
    ensures
        reordered(*old(genome), *final(genome)),
        old(genome).stops@.len() >= 2 ==> exists|take: int, put: int|
            0 <= take < old(genome).stops@.len() && 0 <= put < old(genome).stops@.len() - 1 && final(genome).stops@
                == #[trigger] reinserted(old(genome).stops@, take, put),
{
    let len = genome.stops.len();
    if len < 2 {
        return;
    }
    let take = random_below(len);
    let put = random_below(len - 1);
    let ghost s0 = genome.stops@;
    relocate(&mut genome.stops, take, put);
    proof {
        assert(genome.stops@ == reinserted(s0, take as int, put as int));
    }
}

/// Mutation by shuffling a random sub-range.
pub fn scramble_mutate(genome: &mut Genotype)
    ensures
        reordered(*old(genome), *final(genome)),
        old(genome).stops@.len() > 0 ==> exists|lo: int, hi: int|
            0 <= lo <= hi < old(genome).stops@.len() && #[trigger] window_rearranged(
                old(genome).stops@,
                final(genome).stops@,
                lo,
                hi,
            ),
{
    let len = genome.stops.len();
    if len == 0 {
        return;
    }
    let (point_1, point_2) = get_rand_range(len);
    let ghost s0 = genome.stops@;
    let mut seg = copy_range(&genome.stops, point_1, point_2);
    shuffle_in_place(&mut seg);
    overwrite_window(&mut genome.stops, point_1, &seg);
    proof {
        let (lo, hi) = (point_1 as int, point_2 as int);
        let s1 = genome.stops@;
        assert(s1.subrange(0, lo) =~= s0.subrange(0, lo));
        assert(s1.subrange(hi, len as int) =~= s0.subrange(hi, len as int));
        assert(s1.subrange(lo, hi) =~= seg@);
        assert(window_rearranged(s0, s1, lo, hi));
    }
}

/// Mutation by reversing a random sub-range.
pub fn inverse_mutation(genome: &mut Genotype)
    ensures
        reordered(*old(genome), *final(genome)),
        old(genome).stops@.len() > 0 ==> exists|lo: int, hi: int|
            0 <= lo <= hi < old(genome).stops@.len() && #[trigger] window_reversed(
                old(genome).stops@,
                final(genome).stops@,
                lo,
                hi,
            ),
{
    let len = genome.stops.len();
    if len == 0 {
        return;
    }
    let (point_1, point_2) = get_rand_range(len);
    let ghost s0 = genome.stops@;
    reverse_range(&mut genome.stops, point_1, point_2);
    proof {
        assert(window_reversed(s0, genome.stops@, point_1 as int, point_2 as int));
    }
}

/// Mutation by moving a random sub-range to a random split point of the rest.
pub fn move_seq_mutation(genome: &mut Genotype)
    ensures
        reordered(*old(genome), *final(genome)),
        old(genome).stops@.len() > 0 ==> exists|lo: int, hi: int, at: int|
            0 <= lo <= hi < old(genome).stops@.len() && 0 <= at < old(genome).stops@.len() - (hi - lo)
                && final(genome).stops@ == #[trigger] segment_moved(old(genome).stops@, lo, hi, at),
{
    let len = genome.stops.len();
    if len == 0 {
        return;
    }
    let (point_1, point_2) = get_rand_range(len);
    let drop_at = random_below(len - (point_2 - point_1));
    let ghost s0 = genome.stops@;
    move_segment(&mut genome.stops, point_1, point_2, drop_at);
    proof {
        assert(genome.stops@ == segment_moved(s0, point_1 as int, point_2 as int, drop_at as int));
    }
}


/// Iterations after which the brute-force operator joins the dispatch.
pub const BRUTE_FORCE_AFTER: i32 = 10000;

/// `rate` scaled by `factor` fifths (0.8, 1.0 or 1.2 for `factor` 0, 1, 2), capped at 1.
pub open spec fn scaled_rate(rate: u32, factor: usize) -> u32 {
    let v = rate as int * (4 + factor as int) / 5;
    if v > RATE_SCALE {
        RATE_SCALE
    } else {
        v as u32
    }
}

/// A weight moved by `coin`, floored at 1 (and held below the integer limit).
pub open spec fn stepped_weight(w: i32, coin: i32) -> i32 {
    let v = w as int + coin as int;
    if v < 1 {
        1
    } else if v > i32::MAX {
        i32::MAX
    } else {
        v as i32
    }
}

impl MetaGenes {
    /// Checks the invariant of the parameters.
    pub fn is_wf(&self) -> (r: bool)
        ensures
            r == self.wf(),
    {
        if self.cross_rate > RATE_SCALE || self.mut_rate > RATE_SCALE || self.mut_weight_vec.len() != NUM_OPERATORS {
            return false;
        }
        let mut i: usize = 0;
        while i < NUM_OPERATORS
            invariant
                i <= NUM_OPERATORS,
                self.mut_weight_vec@.len() == NUM_OPERATORS,
                forall|k: int| 0 <= k < i ==> #[trigger] self.mut_weight_vec@[k] >= 1,
            decreases NUM_OPERATORS - i,
        {
            if self.mut_weight_vec[i] < 1 {
                return false;
            }
            i = i + 1;
        }
        true
    }

    /// Random rates and all operator weights 1.
    pub fn new() -> (r: MetaGenes)
        ensures
            r.wf(),
            r.cross_rate < RATE_SCALE,
            r.mut_rate < RATE_SCALE,
            forall|i: int| 0 <= i < NUM_OPERATORS ==> #[trigger] r.mut_weight_vec@[i] == 1,
    {
        let cross_rate = random_below(RATE_SCALE as usize) as u32;
        let mut_rate = random_below(RATE_SCALE as usize) as u32;
        MetaGenes { cross_rate, mut_rate, mut_weight_vec: vec![1, 1, 1, 1, 1, 1] }
    }

    /// Applies one self-adaptive step (see `meta_changed`).
    pub fn apply_meta_change(&mut self, draw: usize, index: usize, factor: usize, which: usize, coin: i32)
        requires
            old(self).wf(),
            draw < NUM_OPERATORS,
            index < NUM_OPERATORS,
            factor < 3,
            which < 3,
            coin == 1 || coin == -1,
        ensures
            final(self).wf(),
            meta_changed(*old(self), *final(self), draw, index, factor, which, coin),
    {
        if draw == 5 {
            if which == 0 {
                self.cross_rate = scale_rate(self.cross_rate, factor);
            } else if which == 1 {
                self.mut_rate = scale_rate(self.mut_rate, factor);
            }
        } else {
            let v = self.mut_weight_vec[index];
            let w = if v == i32::MAX && coin == 1 {
                i32::MAX
            } else if v + coin < 1 {
                1
            } else {
                v + coin
            };
            self.mut_weight_vec.set(index, w);
        }
    }
}

/// One self-adaptive step from `old` to `new`. `draw` 5 scales a rate: `which` 0 the
/// crossover rate, 1 the mutation rate, 2 neither, by `factor` (see `scaled_rate`).
/// Any other `draw` moves weight `index` by `coin`, floored at 1.
pub open spec fn meta_changed(
    old: MetaGenes,
    new: MetaGenes,
    draw: usize,
    index: usize,
    factor: usize,
    which: usize,
    coin: i32,
) -> bool {
    if draw == 5 {
        &&& new.mut_weight_vec@ == old.mut_weight_vec@
        &&& new.cross_rate == if which == 0 {
            scaled_rate(old.cross_rate, factor)
        } else {
            old.cross_rate
        }
        &&& new.mut_rate == if which == 1 {
            scaled_rate(old.mut_rate, factor)
        } else {
            old.mut_rate
        }
    } else {
        &&& new.cross_rate == old.cross_rate
        &&& new.mut_rate == old.mut_rate
        &&& new.mut_weight_vec@ == old.mut_weight_vec@.update(
            index as int,
            stepped_weight(old.mut_weight_vec@[index as int], coin),
        )
    }
}

fn scale_rate(rate: u32, factor: usize) -> (r: u32)
    requires
        rate <= RATE_SCALE,
        factor < 3,
    ensures
        r == scaled_rate(rate, factor),
{
    proof {
        assert(rate as u64 * (4 + factor as u64) <= 6 * RATE_SCALE) by (nonlinear_arith)
            requires
                rate <= RATE_SCALE,
                factor < 3,
        ;
    }
    let v = rate as u64 * (4 + factor as u64) / 5;
    if v > RATE_SCALE as u64 {
        RATE_SCALE
    } else {
        v as u32
    }
}

/// A fair draw of -1 or 1.
pub fn flip_coin() -> (r: i32)
    ensures
        r == 1 || r == -1,
{
    if random_bool() {
        -1
    } else {
        1
    }
}

/// Self-adaptation: with chance 1/6 scales one of the rates (or neither), else moves
/// one of the six operator weights by one.
pub fn meta_mutate(genome: &mut Genotype)
    requires
        old(genome).meta_genes.wf(),
    ensures
        final(genome).meta_genes.wf(),
        exists|draw: usize, index: usize, factor: usize, which: usize, coin: i32|
            draw < NUM_OPERATORS && index < NUM_OPERATORS && factor < 3 && which < 3 && (coin == 1 || coin == -1)
                && #[trigger] meta_changed(old(genome).meta_genes, final(genome).meta_genes, draw, index, factor, which, coin),
        final(genome).stops == old(genome).stops,
        final(genome).travel_time == old(genome).travel_time,
        final(genome).valid == old(genome).valid,
{
    let draw = random_below(NUM_OPERATORS);
    let index = random_below(NUM_OPERATORS);
    let factor = random_below(3);
    let which = random_below(3);
    let coin = flip_coin();
    let ghost m0 = genome.meta_genes;
    genome.meta_genes.apply_meta_change(draw, index, factor, which, coin);
    proof {
        assert(meta_changed(m0, genome.meta_genes, draw, index, factor, which, coin));
    }
}

/// The stops at positions `lo..hi` hold a depot.
pub fn has_depot(s: &Vec<NurseStop>, lo: usize, hi: usize) -> (r: bool)
    requires
        lo <= hi <= s@.len(),
    ensures
        r == exists|i: int| lo <= i < hi && s@[i] is Depot,
{
    let mut i: usize = lo;
    while i < hi
        invariant
            lo <= i <= hi <= s@.len(),
            forall|k: int| lo <= k < i ==> s@[k] is Patient,
        decreases hi - i,
    {
        if s[i] == NurseStop::Depot {
            return true;
        }
        i = i + 1;
    }
    false
}

/// A copy of a stop sequence.
pub(crate) fn copy_stops(v: &Vec<NurseStop>) -> (r: Vec<NurseStop>)
    ensures
        r@ == v@,
{
    let r = v.clone();
    proof {
        assert(r@ =~= v@);
    }
    r
}

/// The genome with positions `lo..lo + w.len()` replaced by `w`.
pub open spec fn with_window(s: Seq<NurseStop>, lo: int, w: Seq<NurseStop>) -> Seq<NurseStop> {
    s.subrange(0, lo) + w + s.subrange(lo + w.len(), s.len() as int)
}

/// The stops at positions `lo..hi` are all patients.
pub open spec fn depot_free(s: Seq<NurseStop>, lo: int, hi: int) -> bool {
    forall|i: int| lo <= i < hi ==> s[i] is Patient
}

/// Every window of `k` stops holds a depot.
pub open spec fn no_free_window(s: Seq<NurseStop>, k: int) -> bool {
    forall|q: int| 0 <= q && q + k <= s.len() ==> !#[trigger] depot_free(s, q, q + k)
}

/// `new` is `old` with the depot-free window `s..s + k` put in its cheapest order: the
/// window holds a rearrangement of its stops, and no rearrangement is cheaper.
pub open spec fn best_window_ordering(env: &EnvPruned, old: Seq<NurseStop>, new: Seq<NurseStop>, s: int, k: int) -> bool {
    &&& 0 <= s
    &&& s + k <= old.len()
    &&& depot_free(old, s, s + k)
    &&& exists|w: Seq<NurseStop>|
        w.to_multiset() == old.subrange(s, s + k).to_multiset() && new == #[trigger] with_window(old, s, w)
    &&& forall|w2: Seq<NurseStop>|
        w2.to_multiset() == old.subrange(s, s + k).to_multiset() ==> fitness(env, new) <= fitness(
            env,
            #[trigger] with_window(old, s, w2),
        )
}

/// The outcome of a brute-force search over windows of `k` stops: with no depot-free
/// window the stops are unchanged, else some window is in its cheapest order.
pub open spec fn brute_force_outcome(env: &EnvPruned, old: Seq<NurseStop>, new: Seq<NurseStop>, k: int) -> bool {
    (no_free_window(old, k) && new == old) || exists|s: int| #[trigger] best_window_ordering(env, old, new, s, k)
}

/// Exhaustive local search: picks a random depot-free window of 2 to 5 stops, tries
/// every ordering of it, and keeps the cheapest ordering when it beats the genome.
pub fn brute_f_seg(genome: &mut Genotype, env: &EnvPruned)
    requires
        env.wf(),
        old(genome).stops@.len() <= MAX_STOPS,
        ids_in_range(old(genome).stops@, env.num_patients()),
    ensures
        final(genome).stops@.len() == old(genome).stops@.len(),
        final(genome).stops@.to_multiset() == old(genome).stops@.to_multiset(),
        fitness(env, final(genome).stops@) <= fitness(env, old(genome).stops@),
        final(genome).stops@ != old(genome).stops@ ==> fitness(env, final(genome).stops@) < fitness(env, old(genome).stops@),
        final(genome).meta_genes == old(genome).meta_genes,
        final(genome).travel_time == old(genome).travel_time,
        final(genome).valid == old(genome).valid,
        exists|k: int| 2 <= k <= 5 && #[trigger] brute_force_outcome(env, old(genome).stops@, final(genome).stops@, k),
{
    let ghost s0 = genome.stops@;
    let len = genome.stops.len();
    let num_to_bf = 2 + random_below(4);
    if len < num_to_bf {
        proof {
            assert(no_free_window(s0, num_to_bf as int));
            assert(brute_force_outcome(env, s0, genome.stops@, num_to_bf as int));
        }
        return;
    }
    let mut starts: Vec<usize> = Vec::new();
    let mut p: usize = 0;
    while p <= len - num_to_bf
        invariant
            2 <= num_to_bf <= len,
            len == genome.stops@.len(),
            p <= len - num_to_bf + 1,
            s0 == genome.stops@,
            forall|k: int| 0 <= k < starts@.len() ==> #[trigger] starts@[k] + num_to_bf <= len,
            forall|k: int| 0 <= k < starts@.len() ==> depot_free(s0, #[trigger] starts@[k] as int, starts@[k] + num_to_bf),
            starts@.len() == 0 ==> forall|q: int| 0 <= q < p ==> !#[trigger] depot_free(s0, q, q + num_to_bf),
        decreases len - num_to_bf + 1 - p,
    {
        if !has_depot(&genome.stops, p, p + num_to_bf) {
            starts.push(p);
        }
        p = p + 1;
    }
    if starts.len() == 0 {
        proof {
            assert(no_free_window(s0, num_to_bf as int));
            assert(brute_force_outcome(env, s0, genome.stops@, num_to_bf as int));
        }
        return;
    }
    let start_p = starts[random_below(starts.len())];
    let bf_slice = copy_range(&genome.stops, start_p, start_p + num_to_bf);
    let mut tmp = Genotype::new(copy_stops(&genome.stops), genome.meta_genes.copy());
    calculate_and_set_travel_time(env, &mut tmp);
    let init_best = tmp.travel_time.unwrap();
    let mut best_s_time = init_best;
    let mut best_s: Option<Vec<NurseStop>> = None;
    let orderings = all_orderings(&bf_slice);
    let mut k: usize = 0;
    while k < orderings.len()
        invariant
            env.wf(),
            s0.len() == len,
            len <= MAX_STOPS,
            ids_in_range(s0, env.num_patients()),
            start_p + num_to_bf <= len,
            bf_slice@ == s0.subrange(start_p as int, start_p + num_to_bf),
            forall|i: int| 0 <= i < orderings@.len() ==> #[trigger] orderings@[i]@.to_multiset() == bf_slice@.to_multiset(),
            tmp.stops@.len() == len,
            tmp.stops@.to_multiset() == s0.to_multiset(),
            tmp.stops@.subrange(start_p as int, start_p + num_to_bf).to_multiset() == bf_slice@.to_multiset(),
            tmp.stops@.subrange(0, start_p as int) == s0.subrange(0, start_p as int),
            tmp.stops@.subrange(start_p + num_to_bf, len as int) == s0.subrange(start_p + num_to_bf, len as int),
            best_s_time == init_best || best_s is Some,
            best_s is Some ==> best_s_time < init_best,
            init_best == fitness(env, s0),
            best_s_time <= init_best,
            match best_s {
                Some(b) => b@.len() == num_to_bf && b@.to_multiset() == bf_slice@.to_multiset()
                    && fitness(env, with_window(s0, start_p as int, b@)) == best_s_time,
                None => best_s_time == init_best,
            },
            forall|j: int| 0 <= j < k ==> best_s_time <= fitness(env, with_window(s0, start_p as int, #[trigger] orderings@[j]@)),
        decreases orderings@.len() - k,
    {
        let cand = &orderings[k];
        proof {
            assert(cand@.len() == num_to_bf) by {
                assert(cand@.to_multiset().len() == bf_slice@.to_multiset().len());
            }
            lemma_ids_in_range_same_multiset(s0, tmp.stops@, env.num_patients());
        }
        let ghost before = tmp.stops@;
        overwrite_window(&mut tmp.stops, start_p, cand);
        proof {
            assert(before.subrange(start_p as int, start_p + num_to_bf) == before.subrange(start_p as int, start_p + cand@.len()));
            assert(tmp.stops@ =~= with_window(s0, start_p as int, cand@));
            assert(tmp.stops@.subrange(start_p as int, start_p + num_to_bf) =~= cand@);
            assert(tmp.stops@.subrange(0, start_p as int) =~= s0.subrange(0, start_p as int));
            assert(tmp.stops@.subrange(start_p + num_to_bf, len as int) =~= s0.subrange(start_p + num_to_bf, len as int));
            lemma_ids_in_range_same_multiset(s0, tmp.stops@, env.num_patients());
        }
        calculate_and_set_travel_time(env, &mut tmp);
        let comb_t = tmp.travel_time.unwrap();
        let ghost prev_best = best_s_time;
        if comb_t < best_s_time {
            best_s_time = comb_t;
            best_s = Some(copy_stops(cand));
        }
        proof {
            assert(comb_t == fitness(env, with_window(s0, start_p as int, orderings@[k as int]@)));
            assert forall|j: int| 0 <= j < k + 1 implies best_s_time <= fitness(env, with_window(s0, start_p as int, #[trigger] orderings@[j]@)) by {
                if j < k {
                    assert(prev_best <= fitness(env, with_window(s0, start_p as int, orderings@[j]@)));
                }
            }
        }
        k = k + 1;
    }
    let ghost lo = start_p as int;
    let ghost kk = num_to_bf as int;
    proof {
        assert(depot_free(s0, lo, lo + kk));
        assert forall|w2: Seq<NurseStop>|
            w2.to_multiset() == s0.subrange(lo, lo + kk).to_multiset() implies best_s_time <= fitness(
                env,
                #[trigger] with_window(s0, lo, w2),
            ) by {
            assert(w2.to_multiset() == bf_slice@.to_multiset());
            let i = choose|i: int| 0 <= i < orderings@.len() && orderings@[i]@ == w2;
        }
    }
    match best_s {
        Some(b) => {
            overwrite_window(&mut genome.stops, start_p, &b);
            proof {
                assert(genome.stops@ =~= with_window(s0, start_p as int, b@));
                assert(s0.subrange(start_p as int, start_p + b@.len()) == bf_slice@);
                assert(fitness(env, genome.stops@) == best_s_time);
                assert(b@.to_multiset() == s0.subrange(lo, lo + kk).to_multiset());
                assert(genome.stops@ == with_window(s0, lo, b@));
                assert(best_window_ordering(env, s0, genome.stops@, lo, kk));
                assert(2 <= kk <= 5);
                assert(brute_force_outcome(env, s0, genome.stops@, kk));
            }
        },
        None => {
            proof {
                assert(s0 =~= with_window(s0, lo, bf_slice@));
                assert(best_window_ordering(env, s0, genome.stops@, lo, kk));
                assert(brute_force_outcome(env, s0, genome.stops@, kk));
            }
        },
    }
}

/// `new` comes from `old` by structural operator `op`: 0 swap, 1 insert, 2 scramble,
/// 3 inverse, 4 move-segment, 5 brute-force segment (each as its function states).
pub open spec fn structural_step(env: &EnvPruned, old: Seq<NurseStop>, new: Seq<NurseStop>, op: int) -> bool {
    &&& new.len() == old.len()
    &&& new.to_multiset() == old.to_multiset()
    &&& op == 0 && old.len() > 0 ==> exists|i: int, j: int|
        0 <= i < old.len() && 0 <= j < old.len() && new == #[trigger] swapped(old, i, j)
    &&& op == 1 && old.len() >= 2 ==> exists|take: int, put: int|
        0 <= take < old.len() && 0 <= put < old.len() - 1 && new == #[trigger] reinserted(old, take, put)
    &&& op == 2 && old.len() > 0 ==> exists|lo: int, hi: int|
        0 <= lo <= hi < old.len() && #[trigger] window_rearranged(old, new, lo, hi)
    &&& op == 3 && old.len() > 0 ==> exists|lo: int, hi: int|
        0 <= lo <= hi < old.len() && #[trigger] window_reversed(old, new, lo, hi)
    &&& op == 4 && old.len() > 0 ==> exists|lo: int, hi: int, at: int|
        0 <= lo <= hi < old.len() && 0 <= at < old.len() - (hi - lo) && new == #[trigger] segment_moved(old, lo, hi, at)
    &&& op == 5 ==> exists|k: int| 2 <= k <= 5 && #[trigger] brute_force_outcome(env, old, new, k)
}

/// Dispatches one mutation: first the self-adaptive step, then one structural
/// operator drawn uniformly from the first five, or from all six once `itr` passes
/// `BRUTE_FORCE_AFTER`. The stops changed, so the cached evaluation is dropped.
pub fn mutate(genome: &mut Genotype, env: &EnvPruned, itr: i32)
    requires
        env.wf(),
        is_genome_of(old(genome).stops@, env),
        old(genome).meta_genes.wf(),
    ensures
        final(genome).stops@.to_multiset() == old(genome).stops@.to_multiset(),
        final(genome).meta_genes.wf(),
        exists|draw: usize, index: usize, factor: usize, which: usize, coin: i32|
            draw < NUM_OPERATORS && index < NUM_OPERATORS && factor < 3 && which < 3 && (coin == 1 || coin == -1)
                && #[trigger] meta_changed(old(genome).meta_genes, final(genome).meta_genes, draw, index, factor, which, coin),
        exists|op: int|
            0 <= op < (if itr > BRUTE_FORCE_AFTER {
                6int
            } else {
                5int
            }) && #[trigger] structural_step(env, old(genome).stops@, final(genome).stops@, op),
        final(genome).travel_time.is_none(),
        final(genome).valid.is_none(),
{
    proof {
        lemma_genome_facts(genome.stops@, env);
    }
    let ghost meta_before = genome.meta_genes;
    meta_mutate(genome);
    let to: usize = if itr > BRUTE_FORCE_AFTER {
        6
    } else {
        5
    };
    let val = random_below(to);
    let ghost s0 = genome.stops@;
    let ghost m0 = genome.meta_genes;
    if val == 0 {
        swap_mutate(genome);
    } else if val == 1 {
        insert_mutate(genome);
    } else if val == 2 {
        scramble_mutate(genome);
    } else if val == 3 {
        inverse_mutation(genome);
    } else if val == 4 {
        move_seq_mutation(genome);
    } else {
        brute_f_seg(genome, env);
    }
    proof {
        assert(structural_step(env, s0, genome.stops@, val as int));
        assert(genome.meta_genes == m0);
    }
    genome.travel_time = None;
    genome.valid = None;
    proof {
        assert(structural_step(env, s0, genome.stops@, val as int));
        let (d, i, f, w, c) = choose|d: usize, i: usize, f: usize, w: usize, c: i32|
            d < NUM_OPERATORS && i < NUM_OPERATORS && f < 3 && w < 3 && (c == 1 || c == -1)
                && #[trigger] meta_changed(meta_before, m0, d, i, f, w, c);
        assert(meta_changed(meta_before, genome.meta_genes, d, i, f, w, c));
    }
}

/// The travel time along `s`, stop to stop, from its first stop to its last.
pub open spec fn path_length(env: &EnvPruned, s: Seq<NurseStop>) -> int
    decreases s.len(),
{
    if s.len() <= 1 {
        0
    } else {
        path_length(env, s.drop_last()) + env.travel(stop_id(s[s.len() - 2]), stop_id(s.last()))
    }
}

/// The travel time along a stop sequence, from its first stop to its last.
pub fn get_seq_tt(seq: &Vec<NurseStop>, env: &EnvPruned) -> (r: u64)
    requires
        env.wf(),
        1 <= seq@.len() <= MAX_STOPS,
        ids_in_range(seq@, env.num_patients()),
    ensures
        r == path_length(env, seq@),
{
    let mut last: i32 = match seq[0] {
        NurseStop::Patient(n) => n,
        NurseStop::Depot => 0,
    };
    let mut roll: u64 = 0;
    let mut i: usize = 1;
    while i < seq.len()
        invariant
            env.wf(),
            1 <= i <= seq@.len() <= MAX_STOPS,
            ids_in_range(seq@, env.num_patients()),
            last == stop_id(seq@[i - 1]),
            0 <= last <= env.num_patients(),
            roll == path_length(env, seq@.take(i as int)),
            roll <= i * 0x1_0000_0000,
        decreases seq@.len() - i,
    {
        let cur: i32 = match seq[i] {
            NurseStop::Patient(n) => n,
            NurseStop::Depot => 0,
        };
        proof {
            let t = seq@.take(i + 1);
            assert(t.drop_last() =~= seq@.take(i as int));
            assert(t[t.len() - 2] == seq@[i - 1]);
        }
        roll = roll + env.get_travel_time_between(&last, &cur) as u64;
        last = cur;
        i = i + 1;
    }
    proof {
        assert(seq@.take(seq@.len() as int) =~= seq@);
    }
    roll
}

/// The stops `s` with the stop at `take` moved to position `put` of the others.
pub open spec fn reinserted(s: Seq<NurseStop>, take: int, put: int) -> Seq<NurseStop> {
    s.remove(take).insert(put, s[take])
}

/// Takes the stop at a random position out and puts it back at the position, among
/// all of them, that gives the cheapest genome (the first such; its old position when
/// none is cheaper). The genome is left evaluated.
pub fn insert_optimal_mutate(genome: &mut Genotype, env: &EnvPruned)
    requires
        env.wf(),
        old(genome).stops@.len() <= MAX_STOPS,
        ids_in_range(old(genome).stops@, env.num_patients()),
    ensures
        final(genome).stops@.len() == old(genome).stops@.len(),
        final(genome).stops@.to_multiset() == old(genome).stops@.to_multiset(),
        fitness(env, final(genome).stops@) <= fitness(env, old(genome).stops@),
        final(genome).meta_genes == old(genome).meta_genes,
        is_evaluated(env, *final(genome)),
        old(genome).stops@.len() > 0 ==> exists|take: int, put: int|
            0 <= take < old(genome).stops@.len() && 0 <= put < old(genome).stops@.len()
                && #[trigger] reinserted(old(genome).stops@, take, put) == final(genome).stops@
                && forall|p: int|
                0 <= p < old(genome).stops@.len() ==> fitness(env, final(genome).stops@) <= fitness(
                    env,
                    #[trigger] reinserted(old(genome).stops@, take, p),
                ),
{
    let ghost s0 = genome.stops@;
    let len = genome.stops.len();
    if len == 0 {
        calculate_and_set_travel_time(env, genome);
        return;
    }
    let take = random_below(len);
    let val = genome.stops[take];
    let mut rest = copy_stops(&genome.stops);
    rest.remove(take);
    proof {
        assert(rest@ == s0.remove(take as int));
    }
    proof {
        assert(rest@.insert(take as int, val) =~= s0);
    }
    let mut probe = Genotype::new(copy_stops(&genome.stops), genome.meta_genes.copy());
    calculate_and_set_travel_time(env, &mut probe);
    let mut best_travel_t = probe.cost_of();
    let mut best_idx = take;
    let mut n: usize = 0;
    while n < len
        invariant
            env.wf(),
            len == s0.len(),
            len <= MAX_STOPS,
            ids_in_range(s0, env.num_patients()),
            rest@.len() == len - 1,
            take < len,
            rest@.insert(take as int, val) == s0,
            best_idx < len,
            best_travel_t == fitness(env, rest@.insert(best_idx as int, val)),
            best_travel_t <= fitness(env, s0),
            n <= len,
            rest@ == s0.remove(take as int),
            val == s0[take as int],
            forall|p: int| 0 <= p < n ==> best_travel_t <= fitness(env, #[trigger] reinserted(s0, take as int, p)),
        decreases len - n,
    {
        let mut cand = copy_stops(&rest);
        cand.insert(n, val);
        proof {
            assert(cand@.to_multiset() == s0.to_multiset()) by {
                assert(cand@.to_multiset() == rest@.to_multiset().insert(val));
                assert(s0.to_multiset() == rest@.to_multiset().insert(val));
            }
            lemma_ids_in_range_same_multiset(s0, cand@, env.num_patients());
        }
        let mut trial = Genotype::new(cand, genome.meta_genes.copy());
        calculate_and_set_travel_time(env, &mut trial);
        let t = trial.cost_of();
        proof {
            assert(trial.stops@ == reinserted(s0, take as int, n as int));
        }
        let ghost prev_best = best_travel_t;
        if t < best_travel_t {
            best_travel_t = t;
            best_idx = n;
        }
        proof {
            assert forall|p: int| 0 <= p < n + 1 implies best_travel_t <= fitness(env, #[trigger] reinserted(s0, take as int, p)) by {
                if p < n {
                    assert(prev_best <= fitness(env, reinserted(s0, take as int, p)));
                }
            }
        }
        n = n + 1;
    }
    let mut stops = copy_stops(&rest);
    stops.insert(best_idx, val);
    proof {
        assert(stops@.to_multiset() == s0.to_multiset()) by {
            assert(stops@.to_multiset() == rest@.to_multiset().insert(val));
            assert(s0.to_multiset() == rest@.to_multiset().insert(val));
        }
        lemma_ids_in_range_same_multiset(s0, stops@, env.num_patients());
    }
    genome.stops = stops;
    calculate_and_set_travel_time(env, genome);
    proof {
        assert(reinserted(s0, take as int, best_idx as int) == genome.stops@);
        assert forall|p: int| 0 <= p < s0.len() implies fitness(env, genome.stops@) <= fitness(env, #[trigger] reinserted(s0, take as int, p)) by {}
    }
}

/// The first `to` operator weights, as draw weights.
fn operator_weights(meta: &MetaGenes, to: usize) -> (w: Vec<u64>)
    requires
        meta.wf(),
        1 <= to <= NUM_OPERATORS,
    ensures
        w@.len() == to,
        forall|i: int| 0 <= i < to ==> #[trigger] w@[i] == meta.mut_weight_vec@[i] as u64,
        forall|i: int| 0 <= i < to ==> #[trigger] w@[i] >= 1,
        weight_sum(w@) <= to * 0x8000_0000,
{
    let mut w: Vec<u64> = Vec::new();
    let mut i: usize = 0;
    while i < to
        invariant
            meta.wf(),
            i <= to <= NUM_OPERATORS,
            w@.len() == i,
            forall|k: int| 0 <= k < i ==> #[trigger] w@[k] == meta.mut_weight_vec@[k] as u64,
            forall|k: int| 0 <= k < i ==> #[trigger] w@[k] >= 1,
            weight_sum(w@) <= i * 0x8000_0000,
        decreases to - i,
    {
        let ghost before = w@;
        w.push(meta.mut_weight_vec[i] as u64);
        proof {
            assert(w@.drop_last() == before);
        }
        i = i + 1;
    }
    w
}

/// Like `mutate`, but the structural operator is drawn with probability proportional
/// to the genome's own operator weights (the first five of them, or all six once `itr`
/// passes `BRUTE_FORCE_AFTER`).
pub fn mutate_weighted(genome: &mut Genotype, env: &EnvPruned, itr: i32)
    requires
        env.wf(),
        is_genome_of(old(genome).stops@, env),
        old(genome).meta_genes.wf(),
    ensures
        final(genome).stops@.to_multiset() == old(genome).stops@.to_multiset(),
        final(genome).meta_genes.wf(),
        exists|draw: usize, index: usize, factor: usize, which: usize, coin: i32|
            draw < NUM_OPERATORS && index < NUM_OPERATORS && factor < 3 && which < 3 && (coin == 1 || coin == -1)
                && #[trigger] meta_changed(old(genome).meta_genes, final(genome).meta_genes, draw, index, factor, which, coin),
        exists|op: int|
            0 <= op < (if itr > BRUTE_FORCE_AFTER {
                6int
            } else {
                5int
            }) && #[trigger] structural_step(env, old(genome).stops@, final(genome).stops@, op),
        final(genome).travel_time.is_none(),
        final(genome).valid.is_none(),
{
    proof {
        lemma_genome_facts(genome.stops@, env);
    }
    let ghost meta_before = genome.meta_genes;
    meta_mutate(genome);
    let to: usize = if itr > BRUTE_FORCE_AFTER {
        6
    } else {
        5
    };
    let weights = operator_weights(&genome.meta_genes, to);
    proof {
        assert(weights@[0] >= 1);
    }
    let val = weighted_index(&weights);
    let ghost s0 = genome.stops@;
    let ghost m0 = genome.meta_genes;
    if val == 0 {
        swap_mutate(genome);
    } else if val == 1 {
        insert_mutate(genome);
    } else if val == 2 {
        scramble_mutate(genome);
    } else if val == 3 {
        inverse_mutation(genome);
    } else if val == 4 {
        move_seq_mutation(genome);
    } else {
        brute_f_seg(genome, env);
    }
    proof {
        assert(structural_step(env, s0, genome.stops@, val as int));
        assert(genome.meta_genes == m0);
    }
    genome.travel_time = None;
    genome.valid = None;
    proof {
        assert(structural_step(env, s0, genome.stops@, val as int));
        let (d, i, f, w, c) = choose|d: usize, i: usize, f: usize, w: usize, c: i32|
            d < NUM_OPERATORS && i < NUM_OPERATORS && f < 3 && w < 3 && (c == 1 || c == -1)
                && #[trigger] meta_changed(meta_before, m0, d, i, f, w, c);
        assert(meta_changed(meta_before, genome.meta_genes, d, i, f, w, c));
    }
}

} // verus!
