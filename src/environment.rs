//! The problem instance: patients, travel times, fleet and depot bounds.
//!
//! All times, demands and travel times are plain integers in one common unit,
//! chosen by whoever builds the instance.
use vstd::prelude::*;

verus! {

/// Largest number of patients an instance may hold. This and the fleet bound keep the
/// route simulation's integer sums far inside `u64`; real instances are far smaller.
pub const MAX_PATIENTS: usize = 100_000;

/// Largest fleet an instance may hold.
pub const MAX_NURSES: i32 = 100_000;

/// One patient's service record.
pub struct PatientPruned {
    /// Row and column of this patient in the travel matrix (its id).
    pub travel_index: usize,
    pub care_time: i32,
    pub demand: i32,
    pub end_time: i32,
    pub start_time: i32,
}

/// An immutable problem instance.
///
/// `travel_matrix` is square with `_travel_jump_size == patients.len() + 1`
/// rows, row-major; stop id 0 is the depot, id `k` is patient `k`.
pub struct EnvPruned {
    pub set_name: String,
    pub number_nurses: i32,
    pub capacity_nurse: i32,
    pub benchmark: u64,
    pub depo_ret_time: i32,
    pub patients: Vec<PatientPruned>,
    pub _travel_jump_size: i32,
    pub travel_matrix: Vec<u32>,
}

impl PatientPruned {
    pub open spec fn wf(&self) -> bool {
        &&& self.care_time >= 0
        &&& self.demand >= 0
        &&& self.start_time >= 0
        &&& self.end_time >= 0
    }

    /// The record is well formed and describes patient `id`.
    pub fn fits(&self, id: usize) -> (r: bool)
        ensures
            r == (self.wf() && self.travel_index == id),
    {
        self.travel_index == id && self.care_time >= 0 && self.demand >= 0 && self.start_time >= 0
            && self.end_time >= 0
    }
}

impl EnvPruned {
    /// Number of patients, as a spec value.
    pub open spec fn num_patients(&self) -> nat {
        self.patients@.len()
    }

    /// Number of depot separators in every genome of this instance.
    pub open spec fn num_separators(&self) -> nat {
        (self.number_nurses - 1) as nat
    }

    pub open spec fn wf(&self) -> bool {
        &&& 1 <= self.number_nurses <= MAX_NURSES
        &&& self.patients@.len() <= MAX_PATIENTS
        &&& self._travel_jump_size == self.patients@.len() + 1
        &&& self.travel_matrix@.len() == (self.patients@.len() + 1) * (self.patients@.len() + 1)
        &&& forall|i: int|
            0 <= i < self.patients@.len() ==> {
                &&& #[trigger] self.patients@[i].wf()
                &&& self.patients@[i].travel_index == i + 1
            }
    }

    /// Travel time from stop id `from` to stop id `to`.
    pub open spec fn travel(&self, from: int, to: int) -> int {
        self.travel_matrix@[from * (self.patients@.len() + 1) + to] as int
    }

    /// Travel time from stop id `from` to stop id `to` (0 is the depot).
    pub fn get_travel_time_between(&self, from: &i32, to: &i32) -> (r: u32)
        requires
            self.wf(),
            0 <= *from <= self.patients@.len(),
            0 <= *to <= self.patients@.len(),
        ensures
            r == self.travel(*from as int, *to as int),
    {
        let n1 = self.patients.len() + 1;
        let f = *from as usize;
        let t = *to as usize;
        let ml = self.travel_matrix.len();
        proof {
            let len = ml as int;
            assert(f * n1 + t < n1 * n1 && 0 <= f * n1) by (nonlinear_arith)
                requires
                    f < n1,
                    t < n1,
                    0 <= f,
                    0 <= t,
            ;
            assert(n1 * n1 == len);
        }
        self.travel_matrix[f * n1 + t]
    }

    /// The conditions under which `from_parts` builds an instance.
    pub open spec fn parts_ok(
        number_nurses: i32,
        patients: Seq<PatientPruned>,
        travel_times: Seq<Vec<u32>>,
    ) -> bool {
        &&& 1 <= number_nurses <= MAX_NURSES
        &&& patients.len() <= MAX_PATIENTS
        &&& travel_times.len() == patients.len() + 1
        &&& forall|r: int| 0 <= r < travel_times.len() ==> (#[trigger] travel_times[r])@.len() == patients.len() + 1
        &&& forall|i: int|
            0 <= i < patients.len() ==> {
                &&& #[trigger] patients[i].wf()
                &&& patients[i].travel_index == i + 1
            }
    }

    /// An instance from its parts: the patients in id order (patient `k` at position
    /// `k - 1`) and the travel-time rows, depot first. `None` when the parts do not fit
    /// together: a row count or row length other than one more than the patients, a
    /// patient whose `travel_index` is not its id or with a negative time or demand,
    /// a fleet outside `1..=MAX_NURSES`, or more than `MAX_PATIENTS` patients.
    pub fn from_parts(
        set_name: String,
        number_nurses: i32,
        capacity_nurse: i32,
        benchmark: u64,
        depo_ret_time: i32,
        patients: Vec<PatientPruned>,
        travel_times: &Vec<Vec<u32>>,
    ) -> (r: Option<EnvPruned>)
        ensures
            r is Some <==> Self::parts_ok(number_nurses, patients@, travel_times@),
            r matches Some(env) ==> {
                &&& env.wf()
                &&& env.set_name == set_name
                &&& env.number_nurses == number_nurses
                &&& env.capacity_nurse == capacity_nurse
                &&& env.benchmark == benchmark
                &&& env.depo_ret_time == depo_ret_time
                &&& env.patients@ == patients@
                &&& forall|a: int, b: int|
                    0 <= a <= patients@.len() && 0 <= b <= patients@.len() ==> #[trigger] env.travel(a, b)
                        == travel_times@[a]@[b]
            },
    {
        let n = patients.len();
        if number_nurses < 1 || number_nurses > MAX_NURSES || n > MAX_PATIENTS || travel_times.len() != n + 1 {
            return None;
        }
        let mut i: usize = 0;
        while i < n
            invariant
                i <= n,
                n == patients@.len(),
                forall|k: int| 0 <= k < i ==> {
                    &&& #[trigger] patients@[k].wf()
                    &&& patients@[k].travel_index == k + 1
                },
            decreases n - i,
        {
            let ok = patients[i].fits(i + 1);
            proof {
                assert(ok == (patients@[i as int].wf() && patients@[i as int].travel_index == i + 1));
            }
            if !ok {
                return None;
            }
            proof {
                assert forall|k: int| 0 <= k < i + 1 implies {
                    &&& #[trigger] patients@[k].wf()
                    &&& patients@[k].travel_index == k + 1
                } by {
                    if k < i {
                        assert(patients@[k].wf());
                    }
                }
            }
            i = i + 1;
        }
        let m = n + 1;
        let mut matrix: Vec<u32> = Vec::new();
        let mut row: usize = 0;
        while row < m
            invariant
                row <= m,
                m == n + 1,
                n <= MAX_PATIENTS,
                travel_times@.len() == m,
                forall|r: int| 0 <= r < row ==> (#[trigger] travel_times@[r])@.len() == m,
                matrix@.len() == row * m,
                forall|a: int, b: int| 0 <= a < row && 0 <= b < m ==> matrix@[a * m + b] == #[trigger] travel_times@[a]@[b],
            decreases m - row,
        {
            let line = &travel_times[row];
            if line.len() != m {
                proof {
                    assert(travel_times@[row as int]@.len() != m);
                }
                return None;
            }
            let ghost before = matrix@;
            let mut col: usize = 0;
            while col < m
                invariant
                    col <= m,
                    line@.len() == m,
                    m <= MAX_PATIENTS + 1,
                    row < m,
                    matrix@.len() == row * m + col,
                    matrix@.subrange(0, row * m) == before,
                    before.len() == row * m,
                    forall|b: int| 0 <= b < col ==> matrix@[row * m + b] == line@[b],
                decreases m - col,
            {
                proof {
                    assert(row * m + col < m * m) by (nonlinear_arith)
                        requires
                            row < m,
                            col < m,
                    ;
                    assert(m * m <= 0x1_0000_0000_0000) by (nonlinear_arith)
                        requires
                            m <= MAX_PATIENTS + 1,
                    ;
                }
                let ghost mid = matrix@;
                matrix.push(line[col]);
                proof {
                    assert(matrix@.subrange(0, row * m) =~= mid.subrange(0, row * m));
                }
                col = col + 1;
            }
            proof {
                assert((row + 1) * m == row * m + m) by (nonlinear_arith);
                assert forall|a: int, b: int| 0 <= a < row + 1 && 0 <= b < m implies matrix@[a * m + b] == #[trigger] travel_times@[a]@[b] by {
                    if a < row {
                        assert(a * m + b < row * m) by (nonlinear_arith)
                            requires
                                a < row,
                                b < m,
                                0 <= a,
                                0 <= b,
                        ;
                        assert(matrix@[a * m + b] == matrix@.subrange(0, row * m)[a * m + b]);
                    } else {
                        assert(a == row);
                    }
                }
            }
            row = row + 1;
        }
        let jump = m as i32;
        Some(EnvPruned {
            set_name,
            number_nurses,
            capacity_nurse,
            benchmark,
            depo_ret_time,
            patients,
            _travel_jump_size: jump,
            travel_matrix: matrix,
        })
    }
}

} // verus!
