//! Encodings of a genome: its routes as patient-id sequences, its word, and the
//! stop-to-stop transitions of a population.
use vstd::prelude::*;

use crate::genalg::{ids_in_range, stop_id, Genotype, NurseStop, MAX_STOPS};
use crate::environment::MAX_PATIENTS;
use crate::wrappers::chars_to_string;

verus! {

broadcast use vstd::seq_lib::group_to_multiset_ensures, vstd::multiset::group_multiset_axioms,
    vstd::seq_lib::lemma_multiset_commutative;

/// The patient ids of `s`, split into routes at every depot (an empty route where
/// two depots meet or at an end).
pub open spec fn routes_of(s: Seq<NurseStop>) -> Seq<Seq<i32>>
    decreases s.len(),
{
    if s.len() == 0 {
        seq![Seq::empty()]
    } else {
        let r = routes_of(s.drop_last());
        match s.last() {
            NurseStop::Depot => r.push(Seq::empty()),
            NurseStop::Patient(p) => r.update(r.len() - 1, r.last().push(p)),
        }
    }
}

/// The stops visiting the patients `r` in order.
pub open spec fn visits(r: Seq<i32>) -> Seq<NurseStop> {
    r.map_values(|p: i32| NurseStop::Patient(p))
}

/// Routes joined back into one stop sequence, with a depot between consecutive routes.
pub open spec fn join_routes(routes: Seq<Seq<i32>>) -> Seq<NurseStop>
    decreases routes.len(),
{
    if routes.len() == 0 {
        Seq::empty()
    } else if routes.len() == 1 {
        visits(routes[0])
    } else {
        join_routes(routes.drop_last()) + seq![NurseStop::Depot] + visits(routes.last())
    }
}

pub proof fn lemma_routes_nonempty(s: Seq<NurseStop>)
    ensures
        routes_of(s).len() >= 1,
        routes_of(s).len() == s.to_multiset().count(NurseStop::Depot) + 1,
    decreases s.len(),
{
    if s.len() > 0 {
        lemma_routes_nonempty(s.drop_last());
        assert(s =~= s.drop_last().push(s.last()));
    }
}

/// Splitting a stop sequence into routes and joining them again with depots gives back
/// the same sequence.
pub proof fn lemma_routes_round_trip(s: Seq<NurseStop>)
    ensures
        join_routes(routes_of(s)) == s,
    decreases s.len(),
{
    if s.len() == 0 {
        assert(visits(Seq::empty()) =~= Seq::<NurseStop>::empty());
    } else {
        let t = s.drop_last();
        lemma_routes_round_trip(t);
        lemma_routes_nonempty(t);
        let r = routes_of(t);
        assert(s =~= t.push(s.last()));
        match s.last() {
            NurseStop::Depot => {
                let r2 = r.push(Seq::<i32>::empty());
                assert(r2.drop_last() =~= r);
                assert(visits(Seq::<i32>::empty()) =~= Seq::<NurseStop>::empty());
                assert(join_routes(r2) =~= s);
            },
            NurseStop::Patient(p) => {
                let r2 = r.update(r.len() - 1, r.last().push(p));
                assert(visits(r.last().push(p)) =~= visits(r.last()).push(NurseStop::Patient(p)));
                if r.len() == 1 {
                    assert(join_routes(r2) =~= s);
                } else {
                    assert(r2.drop_last() =~= r.drop_last());
                    assert(join_routes(r2) =~= s);
                }
            },
        }
    }
}

impl Genotype {
    /// The patient ids of each route, in order (see `routes_of`).
    pub fn get_as_delivery_str(&self) -> (r: Vec<Vec<i32>>)
        ensures
            r@.len() == routes_of(self.stops@).len(),
            forall|k: int| 0 <= k < r@.len() ==> (#[trigger] r@[k])@ == routes_of(self.stops@)[k],
    {
        let mut res: Vec<Vec<i32>> = Vec::new();
        let mut tmp_vec: Vec<i32> = Vec::new();
        let mut i: usize = 0;
        while i < self.stops.len()
            invariant
                i <= self.stops@.len(),
                routes_of(self.stops@.take(i as int)).len() == res@.len() + 1,
                forall|k: int| 0 <= k < res@.len() ==> (#[trigger] res@[k])@ == routes_of(self.stops@.take(i as int))[k],
                tmp_vec@ == routes_of(self.stops@.take(i as int)).last(),
            decreases self.stops@.len() - i,
        {
            proof {
                assert(self.stops@.take(i + 1).drop_last() =~= self.stops@.take(i as int));
            }
            match self.stops[i] {
                NurseStop::Patient(p_num) => {
                    tmp_vec.push(p_num);
                },
                NurseStop::Depot => {
                    let done = tmp_vec.clone();
                    proof {
                        assert(done@ =~= tmp_vec@);
                    }
                    res.push(done);
                    tmp_vec.clear();
                },
            }
            i = i + 1;
        }
        proof {
            assert(self.stops@.take(self.stops@.len() as int) =~= self.stops@);
        }
        res.push(tmp_vec);
        res
    }
}

/// Joins routes of patient ids into one stop sequence, with a depot between
/// consecutive routes.
pub fn join_delivery(routes: &Vec<Vec<i32>>) -> (r: Vec<NurseStop>)
    ensures
        r@ == join_routes(routes@.map_values(|v: Vec<i32>| v@)),
{
    let ghost rv = routes@.map_values(|v: Vec<i32>| v@);
    let mut out: Vec<NurseStop> = Vec::new();
    let mut k: usize = 0;
    while k < routes.len()
        invariant
            k <= routes@.len(),
            rv == routes@.map_values(|v: Vec<i32>| v@),
            out@ == join_routes(rv.take(k as int)),
        decreases routes@.len() - k,
    {
        let ghost before = out@;
        if k > 0 {
            out.push(NurseStop::Depot);
        }
        let route = &routes[k];
        let mut j: usize = 0;
        while j < route.len()
            invariant
                j <= route@.len(),
                out@ == (if k > 0 {
                    before + seq![NurseStop::Depot]
                } else {
                    before
                }) + visits(route@.take(j as int)),
            decreases route@.len() - j,
        {
            out.push(NurseStop::Patient(route[j]));
            proof {
                assert(visits(route@.take(j + 1)) =~= visits(route@.take(j as int)).push(NurseStop::Patient(route@[j as int])));
            }
            j = j + 1;
        }
        proof {
            assert(route@.take(route@.len() as int) =~= route@);
            assert(rv.take(k + 1).drop_last() =~= rv.take(k as int));
            assert(rv.take(k + 1).last() == route@);
            if k == 0 {
                assert(before =~= Seq::<NurseStop>::empty());
                assert(out@ =~= join_routes(rv.take(k + 1)));
            } else {
                assert(out@ =~= join_routes(rv.take(k + 1)));
            }
        }
        k = k + 1;
    }
    proof {
        assert(rv.take(routes@.len() as int) =~= rv);
    }
    out
}

/// The character of a decimal digit.
pub open spec fn digit_char(d: int) -> char {
    if d == 0 {
        '0'
    } else if d == 1 {
        '1'
    } else if d == 2 {
        '2'
    } else if d == 3 {
        '3'
    } else if d == 4 {
        '4'
    } else if d == 5 {
        '5'
    } else if d == 6 {
        '6'
    } else if d == 7 {
        '7'
    } else if d == 8 {
        '8'
    } else {
        '9'
    }
}

/// The decimal digits of `n`, most significant first.
pub open spec fn decimal(n: nat) -> Seq<char>
    decreases n,
{
    if n < 10 {
        seq![digit_char(n as int)]
    } else {
        decimal(n / 10).push(digit_char(n as int % 10))
    }
}

/// An integer in decimal, with a leading `-` when negative.
pub open spec fn int_text(x: int) -> Seq<char> {
    if x < 0 {
        seq!['-'] + decimal((-x) as nat)
    } else {
        decimal(x as nat)
    }
}

/// The word of a stop sequence before trimming: each patient as `<id>-`, and a `D`
/// for each depot that does not directly follow another `D`.
pub open spec fn raw_word(s: Seq<NurseStop>) -> Seq<char>
    decreases s.len(),
{
    if s.len() == 0 {
        Seq::empty()
    } else {
        let w = raw_word(s.drop_last());
        match s.last() {
            NurseStop::Patient(p) => w + int_text(p as int) + seq!['-'],
            NurseStop::Depot => if w.len() > 0 && w.last() == 'D' {
                w
            } else {
                w.push('D')
            },
        }
    }
}

/// The word of a stop sequence: `raw_word` without a leading and a trailing `D`.
pub open spec fn word_of(s: Seq<NurseStop>) -> Seq<char> {
    let w = raw_word(s);
    let w1 = if w.len() > 0 && w[0] == 'D' {
        w.drop_first()
    } else {
        w
    };
    if w1.len() > 0 && w1.last() == 'D' {
        w1.drop_last()
    } else {
        w1
    }
}

fn digit(d: u64) -> (r: char)
    requires
        d < 10,
    ensures
        r == digit_char(d as int),
{
    if d == 0 {
        '0'
    } else if d == 1 {
        '1'
    } else if d == 2 {
        '2'
    } else if d == 3 {
        '3'
    } else if d == 4 {
        '4'
    } else if d == 5 {
        '5'
    } else if d == 6 {
        '6'
    } else if d == 7 {
        '7'
    } else if d == 8 {
        '8'
    } else {
        '9'
    }
}

fn push_decimal(out: &mut Vec<char>, n: u64)
    ensures
        final(out)@ == old(out)@ + decimal(n as nat),
    decreases n,
{
    if n >= 10 {
        push_decimal(out, n / 10);
    }
    out.push(digit(n % 10));
    proof {
        if n < 10 {
            assert(old(out)@ + decimal(n as nat) =~= old(out)@.push(digit_char(n as int)));
        } else {
            assert(decimal(n as nat) == decimal((n / 10) as nat).push(digit_char(n as int % 10)));
            assert((old(out)@ + decimal((n / 10) as nat)).push(digit_char(n as int % 10)) =~= old(out)@ + decimal(n as nat));
        }
    }
}

impl Genotype {
    /// The genome as a word (see `word_of`): routes of `<id>-` items separated by `D`.
    pub fn get_as_word(&self) -> (r: String)
        ensures
            r@ == word_of(self.stops@),
    {
        let mut word: Vec<char> = Vec::new();
        let mut i: usize = 0;
        while i < self.stops.len()
            invariant
                i <= self.stops@.len(),
                word@ == raw_word(self.stops@.take(i as int)),
            decreases self.stops@.len() - i,
        {
            proof {
                assert(self.stops@.take(i + 1).drop_last() =~= self.stops@.take(i as int));
            }
            match self.stops[i] {
                NurseStop::Patient(p_num) => {
                    if p_num < 0 {
                        word.push('-');
                        push_decimal(&mut word, (-(p_num as i64)) as u64);
                    } else {
                        push_decimal(&mut word, p_num as u64);
                    }
                    word.push('-');
                    proof {
                        let w = raw_word(self.stops@.take(i as int));
                        if p_num < 0 {
                            assert(word@ =~= w + int_text(p_num as int) + seq!['-']);
                        } else {
                            assert(word@ =~= w + int_text(p_num as int) + seq!['-']);
                        }
                    }
                },
                NurseStop::Depot => {
                    let wl = word.len();
                    if !(wl > 0 && word[wl - 1] == 'D') {
                        word.push('D');
                    }
                },
            }
            i = i + 1;
        }
        proof {
            assert(self.stops@.take(self.stops@.len() as int) =~= self.stops@);
        }
        if word.len() > 0 && word[0] == 'D' {
            word.remove(0);
            proof {
                assert(word@ =~= raw_word(self.stops@).drop_first());
            }
        }
        let wl = word.len();
        if wl > 0 && word[wl - 1] == 'D' {
            word.pop();
        }
        chars_to_string(&word)
    }
}

/// The transitions of a genome as (from, to) stop-id pairs: from the depot to the first
/// stop, between consecutive stops, and from the last stop back to the depot.
pub open spec fn transitions(s: Seq<NurseStop>) -> Seq<(int, int)> {
    Seq::new(
        s.len() + 1,
        |i: int|
            (if i == 0 {
                0
            } else {
                stop_id(s[i - 1])
            }, if i == s.len() {
                0
            } else {
                stop_id(s[i])
            }),
    )
}

/// The transitions of every genome of `pop`, one genome after the other.
pub open spec fn all_transitions(pop: Seq<Genotype>) -> Seq<(int, int)>
    decreases pop.len(),
{
    if pop.len() == 0 {
        Seq::empty()
    } else {
        all_transitions(pop.drop_last()) + transitions(pop.last().stops@)
    }
}

/// The cell of the pair `(a, b)` in an `m` by `m` matrix laid out row by row.
pub open spec fn cell_of(a: int, b: int, m: int) -> int {
    a * m + b
}

proof fn lemma_cell_index(a: int, b: int, c: int, d: int, m: int)
    requires
        0 <= a < m,
        0 <= b < m,
        0 <= c < m,
        0 <= d < m,
        a * m + b == c * m + d,
    ensures
        a == c && b == d,
{
    assert(a == c) by (nonlinear_arith)
        requires
            0 <= b < m,
            0 <= d < m,
            a * m + b == c * m + d,
    ;
}

/// Counts the transitions of the population: cell `from * (n + 1) + to` of the result
/// holds how often a genome goes from stop id `from` to stop id `to`, with
/// `n = number_of_patients`.
pub fn transition_counts(population: &Vec<Genotype>, number_of_patients: usize) -> (r: Vec<u64>)
    requires
        number_of_patients <= MAX_PATIENTS,
        (number_of_patients + 1) * (number_of_patients + 1) <= usize::MAX,
        population@.len() <= u32::MAX,
        forall|g: int|
            0 <= g < population@.len() ==> {
                &&& ids_in_range((#[trigger] population@[g]).stops@, number_of_patients as nat)
                &&& population@[g].stops@.len() <= MAX_STOPS
            },
    ensures
        r@.len() == (number_of_patients + 1) * (number_of_patients + 1),
        forall|a: int, b: int|
            0 <= a <= number_of_patients && 0 <= b <= number_of_patients ==> r@[#[trigger] cell_of(a, b, number_of_patients + 1)]
                == all_transitions(population@).to_multiset().count((a, b)),
{
    let m = number_of_patients + 1;
    let ghost mi = m as int;
    proof {
        assert(mi * mi <= 0x1_0000_0000_0000) by (nonlinear_arith)
            requires
                0 <= mi <= MAX_PATIENTS + 1,
        ;
    }
    let cells = m * m;
    let mut count: Vec<u64> = Vec::new();
    let mut c: usize = 0;
    while c < cells
        invariant
            c <= cells,
            count@.len() == c,
            forall|t: int| 0 <= t < c ==> count@[t] == 0,
        decreases cells - c,
    {
        count.push(0);
        c = c + 1;
    }
    proof {
        assert forall|a: int, b: int| 0 <= a < mi && 0 <= b < mi implies 0 <= #[trigger] cell_of(a, b, mi) < mi * mi by {
            assert(0 <= #[trigger] cell_of(a, b, mi) < mi * mi) by (nonlinear_arith)
                requires
                    0 <= a < mi,
                    0 <= b < mi,
            ;
        }
        assert(all_transitions(population@.take(0)) =~= Seq::<(int, int)>::empty());
    }
    let mut g: usize = 0;
    while g < population.len()
        invariant
            g <= population@.len(),
            population@.len() <= u32::MAX,
            m == number_of_patients + 1,
            mi == m,
            m <= MAX_PATIENTS + 1,
            cells == mi * mi,
            count@.len() == cells,
            forall|a: int, b: int| 0 <= a < mi && 0 <= b < mi ==> 0 <= #[trigger] cell_of(a, b, mi) < mi * mi,
            forall|q: int|
                0 <= q < population@.len() ==> {
                    &&& ids_in_range((#[trigger] population@[q]).stops@, number_of_patients as nat)
                    &&& population@[q].stops@.len() <= MAX_STOPS
                },
            all_transitions(population@.take(g as int)).len() <= g * (MAX_STOPS + 1),
            forall|a: int, b: int|
                0 <= a < mi && 0 <= b < mi ==> count@[#[trigger] cell_of(a, b, mi)] == all_transitions(population@.take(g as int)).to_multiset().count((a, b)),
        decreases population@.len() - g,
    {
        let stops = &population[g].stops;
        let ghost base = all_transitions(population@.take(g as int));
        let ghost tr = transitions(stops@);
        let mut last: usize = 0;
        let mut i: usize = 0;
        while i <= stops.len()
            invariant
                i <= stops@.len() + 1,
                stops@.len() <= MAX_STOPS,
                ids_in_range(stops@, number_of_patients as nat),
                tr == transitions(stops@),
                g < u32::MAX,
                base.len() <= g * (MAX_STOPS + 1),
                m == number_of_patients + 1,
                mi == m,
                count@.len() == cells,
                cells == mi * mi,
                forall|a: int, b: int| 0 <= a < mi && 0 <= b < mi ==> 0 <= #[trigger] cell_of(a, b, mi) < mi * mi,
                i > 0 ==> last == tr[i - 1].1,
                i == 0 ==> last == 0,
                last < m,
                forall|a: int, b: int|
                    0 <= a < mi && 0 <= b < mi ==> count@[#[trigger] cell_of(a, b, mi)] == (base + tr.take(i as int)).to_multiset().count((a, b)),
            decreases stops@.len() + 1 - i,
        {
            let next: usize = if i == stops.len() {
                0
            } else {
                match stops[i] {
                    NurseStop::Patient(n) => n as usize,
                    NurseStop::Depot => 0,
                }
            };
            let ghost pair = (last as int, next as int);
            proof {
                assert(tr[i as int] == pair);
                assert(tr.take(i + 1) =~= tr.take(i as int).push(pair));
                assert((base + tr.take(i + 1)) =~= (base + tr.take(i as int)).push(pair));
                assert((base + tr.take(i as int)).to_multiset().count(pair) <= (base + tr.take(i as int)).len()) by {
                    vstd::multiset::axiom_count_le_len((base + tr.take(i as int)).to_multiset(), pair);
                }
                assert(base.len() + i < 0xffff_ffff_ffff_ffff) by (nonlinear_arith)
                    requires
                        base.len() <= g * (MAX_STOPS + 1),
                        g < u32::MAX,
                        i <= MAX_STOPS + 1,
                ;
            }
            proof {
                assert(next <= number_of_patients);
                assert(0 <= cell_of(last as int, next as int, mi) < mi * mi);
                assert(count@[cell_of(last as int, next as int, mi)] == (base + tr.take(i as int)).to_multiset().count(pair));
                assert(last * m <= cell_of(last as int, next as int, mi));
            }
            let cell = last * m + next;
            let v = count[cell];
            count.set(cell, v + 1);
            proof {
                assert forall|a: int, b: int|
                    0 <= a < mi && 0 <= b < mi implies count@[#[trigger] cell_of(a, b, mi)] == (base + tr.take(i + 1)).to_multiset().count((a, b)) by {
                    if cell_of(a, b, mi) == cell {
                        assert(cell == cell_of(last as int, next as int, mi));
                        lemma_cell_index(a, b, last as int, next as int, mi);
                    } else {
                        assert((a, b) != pair);
                    }
                }
            }
            last = next;
            i = i + 1;
        }
        proof {
            let p = population@.take(g + 1);
            assert(p.drop_last() =~= population@.take(g as int));
            assert(p.last() == population@[g as int]);
            assert(tr.take(tr.len() as int) =~= tr);
            assert(all_transitions(p) == base + tr);
            assert(base.len() + tr.len() <= (g + 1) * (MAX_STOPS + 1)) by (nonlinear_arith)
                requires
                    base.len() <= g * (MAX_STOPS + 1),
                    tr.len() <= MAX_STOPS + 1,
            ;
        }
        g = g + 1;
    }
    proof {
        assert(population@.take(population@.len() as int) =~= population@);
    }
    count
}

} // verus!
