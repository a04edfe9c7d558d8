use vstd::prelude::*;
use crate::day::{Day, DayView, lift_views};
use crate::lifting::{
    Lift, LiftAttempt, LiftAttemptResult, LiftAttemptView, LiftView, format_lift_spec,
};
use crate::set::RepSet;
use crate::weight_scheme::{Multiplier, WeightScheme};

verus! {

// The progression engine: the program state and the transition that one
// completed workout applies to it.

/// A lift's canonical notation text is its key in the weights ledger.
pub open spec fn lift_key(l: LiftView) -> Seq<char> {
    format_lift_spec(l)
}

/// The independently tracked working weights, keyed by each lift's canonical
/// notation.  Order of first insertion is kept.
#[derive(Clone, Debug)]
pub struct Weights {
    pub entries: Vec<(String, u64)>,
}

impl View for Weights {
    type V = Seq<(Seq<char>, int)>;

    open spec fn view(&self) -> Seq<(Seq<char>, int)> {
        self.entries@.map_values(|e: (String, u64)| (e.0@, e.1 as int))
    }
}

/// Lookup by key: the first entry with that key, if any.
pub open spec fn w_get(w: Seq<(Seq<char>, int)>, k: Seq<char>) -> Option<int>
    decreases w.len(),
{
    if w.len() == 0 {
        None
    } else if w[0].0 == k {
        Some(w[0].1)
    } else {
        w_get(w.drop_first(), k)
    }
}

/// Raise the key's entry by `a`, or append the entry `(k, a)` if absent.
pub open spec fn w_add(w: Seq<(Seq<char>, int)>, k: Seq<char>, a: int) -> Seq<(Seq<char>, int)>
    decreases w.len(),
{
    if w.len() == 0 {
        seq![(k, a)]
    } else if w[0].0 == k {
        seq![(w[0].0, w[0].1 + a)] + w.drop_first()
    } else {
        seq![w[0]] + w_add(w.drop_first(), k, a)
    }
}

/// Lookup resolves at the first entry whose key matches.
pub proof fn lemma_w_get_found(w: Seq<(Seq<char>, int)>, k: Seq<char>, idx: int)
    requires
        0 <= idx < w.len(),
        w[idx].0 == k,
        forall|j: int| 0 <= j < idx ==> #[trigger] w[j].0 != k,
    ensures
        w_get(w, k) == Some(w[idx].1),
    decreases idx,
{
    if idx > 0 {
        let d = w.drop_first();
        assert(forall|j: int| 0 <= j < d.len() ==> #[trigger] d[j] == w[j + 1]);
        lemma_w_get_found(d, k, idx - 1);
    }
}

/// Lookup misses when no entry carries the key.
pub proof fn lemma_w_get_absent(w: Seq<(Seq<char>, int)>, k: Seq<char>)
    requires
        forall|j: int| 0 <= j < w.len() ==> #[trigger] w[j].0 != k,
    ensures
        w_get(w, k) is None,
    decreases w.len(),
{
    if w.len() > 0 {
        let d = w.drop_first();
        assert(forall|j: int| 0 <= j < d.len() ==> #[trigger] d[j] == w[j + 1]);
        lemma_w_get_absent(d, k);
    }
}

/// Raising a present key updates its entry in place.
pub proof fn lemma_w_add_found(w: Seq<(Seq<char>, int)>, k: Seq<char>, a: int, idx: int)
    requires
        0 <= idx < w.len(),
        w[idx].0 == k,
        forall|j: int| 0 <= j < idx ==> #[trigger] w[j].0 != k,
    ensures
        w_add(w, k, a) == w.update(idx, (w[idx].0, w[idx].1 + a)),
    decreases idx,
{
    if idx == 0 {
        assert(w_add(w, k, a) =~= w.update(0, (w[0].0, w[0].1 + a)));
    } else {
        let d = w.drop_first();
        assert(forall|j: int| 0 <= j < d.len() ==> #[trigger] d[j] == w[j + 1]);
        lemma_w_add_found(d, k, a, idx - 1);
        assert(w_add(w, k, a) =~= w.update(idx, (w[idx].0, w[idx].1 + a))) by {
            assert(w_add(w, k, a) == seq![w[0]] + w_add(d, k, a));
            assert(forall|j: int|
                0 <= j < d.len() ==> #[trigger] d.update(idx - 1, (d[idx - 1].0, d[idx - 1].1 + a))[j]
                    == (if j == idx - 1 {
                    (d[idx - 1].0, d[idx - 1].1 + a)
                } else {
                    d[j]
                }));
        }
    }
}

/// Raising an absent key appends its entry.
pub proof fn lemma_w_add_absent(w: Seq<(Seq<char>, int)>, k: Seq<char>, a: int)
    requires
        forall|j: int| 0 <= j < w.len() ==> #[trigger] w[j].0 != k,
    ensures
        w_add(w, k, a) == w.push((k, a)),
    decreases w.len(),
{
    if w.len() == 0 {
        assert(w_add(w, k, a) =~= w.push((k, a)));
    } else {
        let d = w.drop_first();
        assert(forall|j: int| 0 <= j < d.len() ==> #[trigger] d[j] == w[j + 1]);
        lemma_w_add_absent(d, k, a);
        assert(w_add(w, k, a) =~= w.push((k, a)));
    }
}

/// After `w_add`, the key reads back raised by `a`, and every other key is
/// untouched.
pub proof fn lemma_w_add_get(w: Seq<(Seq<char>, int)>, k: Seq<char>, a: int)
    ensures
        w_get(w_add(w, k, a), k) == Some(
            match w_get(w, k) {
                Some(v) => v + a,
                None => a,
            },
        ),
        forall|k2: Seq<char>| k2 != k ==> w_get(w_add(w, k, a), k2) == w_get(w, k2),
    decreases w.len(),
{
    let r = w_add(w, k, a);
    if w.len() == 0 {
        assert(r[0] == (k, a));
        assert forall|k2: Seq<char>| k2 != k implies w_get(r, k2) == w_get(w, k2) by {
            assert(r.drop_first() =~= Seq::<(Seq<char>, int)>::empty());
            assert(w_get(r.drop_first(), k2) is None);
        }
    } else if w[0].0 == k {
        assert(r.drop_first() =~= w.drop_first());
        assert(r[0] == (w[0].0, w[0].1 + a));
        assert forall|k2: Seq<char>| k2 != k implies w_get(r, k2) == w_get(w, k2) by {
            assert(w_get(r, k2) == w_get(r.drop_first(), k2));
            assert(w_get(w, k2) == w_get(w.drop_first(), k2));
        }
    } else {
        lemma_w_add_get(w.drop_first(), k, a);
        assert(r[0] == w[0]);
        assert(r.drop_first() =~= w_add(w.drop_first(), k, a));
        assert forall|k2: Seq<char>| k2 != k implies w_get(r, k2) == w_get(w, k2) by {
            if r[0].0 != k2 {
                assert(w_get(r, k2) == w_get(r.drop_first(), k2));
                assert(w_get(w, k2) == w_get(w.drop_first(), k2));
            }
        }
    }
}

impl Weights {
    /// An empty ledger.
    pub fn new() -> (r: Weights)
        ensures
            r@ == Seq::<(Seq<char>, int)>::empty(),
    {
        let r = Weights { entries: Vec::new() };
        proof {
            assert(r@ =~= Seq::<(Seq<char>, int)>::empty());
        }
        r
    }

    /// Index of the first entry for the key, if any.
    fn find(&self, key: &String) -> (r: Option<usize>)
        ensures
            match r {
                Some(i) => {
                    &&& 0 <= i < self@.len()
                    &&& self@[i as int].0 == key@
                    &&& forall|j: int| 0 <= j < i ==> #[trigger] self@[j].0 != key@
                },
                None => forall|j: int| 0 <= j < self@.len() ==> #[trigger] self@[j].0 != key@,
            },
    {
        let mut i: usize = 0;
        while i < self.entries.len()
            invariant
                0 <= i <= self.entries@.len(),
                forall|j: int| 0 <= j < i ==> #[trigger] self@[j].0 != key@,
            decreases self.entries@.len() - i,
        {
            proof {
                assert(self@[i as int] == (self.entries@[i as int].0@, self.entries@[i as int].1
                    as int));
            }
            if self.entries[i].0 == *key {
                return Some(i);
            }
            i = i + 1;
        }
        None
    }

    /// The recorded weight for a key, if any.
    pub fn get(&self, key: &String) -> (r: Option<u64>)
        ensures
            match w_get(self@, key@) {
                Some(v) => r matches Some(x) && x == v,
                None => r is None,
            },
    {
        match self.find(key) {
            Some(i) => {
                proof {
                    lemma_w_get_found(self@, key@, i as int);
                    assert(self@[i as int] == (self.entries@[i as int].0@, self.entries@[i
                        as int].1 as int));
                }
                Some(self.entries[i].1)
            },
            None => {
                proof {
                    lemma_w_get_absent(self@, key@);
                }
                None
            },
        }
    }

    /// Raise the key's weight by `amount`, or record `amount` for a new key.
    pub fn add(&mut self, key: String, amount: u64)
        requires
            match w_get(old(self)@, key@) {
                Some(v) => v + amount <= u64::MAX,
                None => true,
            },
        ensures
            final(self)@ == w_add(old(self)@, key@, amount as int),
    {
        let ghost w0 = self@;
        match self.find(&key) {
            Some(i) => {
                proof {
                    lemma_w_get_found(w0, key@, i as int);
                    lemma_w_add_found(w0, key@, amount as int, i as int);
                    assert(w0[i as int] == (self.entries@[i as int].0@, self.entries@[i as int].1
                        as int));
                }
                let v = self.entries[i].1;
                self.entries[i] = (key, v + amount);
                proof {
                    assert(final(self)@ =~= w0.update(
                        i as int,
                        (w0[i as int].0, w0[i as int].1 + amount),
                    ));
                }
            },
            None => {
                proof {
                    lemma_w_add_absent(w0, key@, amount as int);
                }
                self.entries.push((key, amount));
                proof {
                    assert(final(self)@ =~= w0.push((key@, amount as int)));
                }
            },
        }
    }
}

impl core::cmp::PartialEq for Weights {
    fn eq(&self, other: &Self) -> (r: bool) {
        if self.entries.len() != other.entries.len() {
            proof {
                if self@ == other@ {
                    assert(self@.len() == other@.len());
                }
            }
            return false;
        }
        let mut i: usize = 0;
        while i < self.entries.len()
            invariant
                0 <= i <= self.entries@.len() == other.entries@.len(),
                forall|j: int| 0 <= j < i ==> #[trigger] self@[j] == other@[j],
            decreases self.entries@.len() - i,
        {
            proof {
                assert(self@[i as int] == (self.entries@[i as int].0@, self.entries@[i as int].1
                    as int));
                assert(other@[i as int] == (other.entries@[i as int].0@, other.entries@[i
                    as int].1 as int));
            }
            if !(self.entries[i].0 == other.entries[i].0) || self.entries[i].1
                != other.entries[i].1 {
                proof {
                    let ghost ii = i as int;
                    if self@ == other@ {
                        assert(self@[ii] == other@[ii]);
                    }
                }
                return false;
            }
            i = i + 1;
        }
        proof {
            assert(self@ =~= other@);
        }
        true
    }
}

impl vstd::std_specs::cmp::PartialEqSpecImpl for Weights {
    open spec fn obeys_eq_spec() -> bool {
        true
    }

    open spec fn eq_spec(&self, other: &Self) -> bool {
        self@ == other@
    }
}

// The program itself: the aggregate the engine advances.

#[derive(Clone, Debug)]
pub struct Program {
    pub days: Vec<Day>,
    pub name: String,
    pub reference_weight: u64,
    pub starting_reference_weight: u64,
    pub workouts_completed: u64,
    pub weights: Weights,
    pub current_day: usize,
    pub current_cycle_attempt_results: Vec<Vec<LiftAttemptResult>>,
}

/// The mathematical shape of a program.
#[verifier::ext_equal]
pub ghost struct ProgramView {
    pub days: Seq<DayView>,
    pub name: Seq<char>,
    pub reference_weight: int,
    pub starting_reference_weight: int,
    pub workouts_completed: int,
    pub weights: Seq<(Seq<char>, int)>,
    pub current_day: int,
    pub current_cycle_attempt_results: Seq<Seq<LiftAttemptResult>>,
}

impl View for Program {
    type V = ProgramView;

    open spec fn view(&self) -> ProgramView {
        ProgramView {
            days: self.days@.map_values(|d: Day| d@),
            name: self.name@,
            reference_weight: self.reference_weight as int,
            starting_reference_weight: self.starting_reference_weight as int,
            workouts_completed: self.workouts_completed as int,
            weights: self.weights@,
            current_day: self.current_day as int,
            current_cycle_attempt_results: self.current_cycle_attempt_results@.map_values(
                |day: Vec<LiftAttemptResult>| day@,
            ),
        }
    }
}

/// A well-formed program: the day index is inside the cycle, and every lift
/// is well formed.
pub open spec fn program_wf(p: ProgramView) -> bool {
    &&& 0 <= p.current_day < p.days.len()
    &&& forall|d: int, i: int|
        0 <= d < p.days.len() && 0 <= i < p.days[d].lifts.len() ==> (
        #[trigger] p.days[d].lifts[i]).weight.wf()
}

/// The attempt results extended so index `day` exists, then overwritten at
/// `day` with the fresh results.  Nothing else is touched — in particular,
/// entries from earlier cycles are never cleared.
pub open spec fn record_results(
    res: Seq<Seq<LiftAttemptResult>>,
    day: int,
    results: Seq<LiftAttemptResult>,
) -> Seq<Seq<LiftAttemptResult>> {
    let padded = if res.len() >= day + 1 {
        res
    } else {
        res + Seq::new((day + 1 - res.len()) as nat, |i: int| Seq::<LiftAttemptResult>::empty())
    };
    padded.update(day, results)
}

pub open spec fn completed_max() -> LiftAttemptResult {
    LiftAttemptResult::Completed { completed_maximum_reps: true }
}

/// The weights after the ratchet has run over the first `n` lifts of the
/// day: each linear lift whose result completed its maximum reps has its
/// tracked weight raised by its own increment, in lift order.
pub open spec fn ratchet_upto(
    w: Seq<(Seq<char>, int)>,
    lifts: Seq<LiftView>,
    results: Seq<LiftAttemptResult>,
    n: int,
) -> Seq<(Seq<char>, int)>
    decreases n,
{
    if n <= 0 {
        w
    } else {
        let w1 = ratchet_upto(w, lifts, results, n - 1);
        match lifts[n - 1].weight {
            WeightScheme::LinearBasedOnPrevious { amount_to_increase } => if results[n - 1]
                == completed_max() {
                w_add(w1, lift_key(lifts[n - 1]), amount_to_increase as int)
            } else {
                w1
            },
            _ => w1,
        }
    }
}

pub open spec fn ratchet(
    w: Seq<(Seq<char>, int)>,
    lifts: Seq<LiftView>,
    results: Seq<LiftAttemptResult>,
) -> Seq<(Seq<char>, int)> {
    ratchet_upto(w, lifts, results, lifts.len() as int)
}

/// No addition of the ratchet overflows a `u64`.
pub open spec fn ratchet_fits(
    w: Seq<(Seq<char>, int)>,
    lifts: Seq<LiftView>,
    results: Seq<LiftAttemptResult>,
    n: int,
) -> bool
    decreases n,
{
    if n <= 0 {
        true
    } else {
        &&& ratchet_fits(w, lifts, results, n - 1)
        &&& match lifts[n - 1].weight {
            WeightScheme::LinearBasedOnPrevious { amount_to_increase } => results[n - 1]
                == completed_max() ==> (match w_get(
                ratchet_upto(w, lifts, results, n - 1),
                lift_key(lifts[n - 1]),
            ) {
                Some(v) => v + amount_to_increase <= u64::MAX,
                None => amount_to_increase <= u64::MAX,
            }),
            _ => true,
        }
    }
}

pub open spec fn is_reference_lift(l: LiftView) -> bool {
    l.weight is BasedOnReference
}

/// Have all reference-based lifts, across every day of the cycle, a recorded
/// result that completed the maximum reps?
pub open spec fn all_reference_lifts_completed(
    days: Seq<DayView>,
    res: Seq<Seq<LiftAttemptResult>>,
) -> bool {
    forall|d: int, i: int|
        0 <= d < days.len() && 0 <= i < days[d].lifts.len() && is_reference_lift(
            #[trigger] days[d].lifts[i],
        ) ==> 0 <= d < res.len() && 0 <= i < res[d].len() && res[d][i] == completed_max()
}

/// The reference check reads a recorded result for every reference lift of
/// an earlier day; the fresh results cover the current day.
pub open spec fn reference_results_indexable(p: ProgramView) -> bool {
    p.current_day == p.days.len() - 1 ==> forall|d: int, i: int|
        0 <= d < p.days.len() && 0 <= i < p.days[d].lifts.len() && is_reference_lift(
            #[trigger] p.days[d].lifts[i],
        ) && d != p.current_day ==> d < p.current_cycle_attempt_results.len() && i
            < p.current_cycle_attempt_results[d].len()
}

/// What one completed workout does to the program, in order: record the
/// results, ratchet the linear weights, raise the reference weight by five
/// at a fully completed cycle close, count the workout, advance the day.
pub open spec fn complete_workout_spec(
    p: ProgramView,
    results: Seq<LiftAttemptResult>,
) -> ProgramView {
    let recorded = record_results(p.current_cycle_attempt_results, p.current_day, results);
    let new_weights = ratchet(p.weights, p.days[p.current_day].lifts, results);
    let closes_cycle = p.current_day == p.days.len() - 1;
    let new_ref = if closes_cycle && all_reference_lifts_completed(p.days, recorded) {
        p.reference_weight + 5
    } else {
        p.reference_weight
    };
    ProgramView {
        days: p.days,
        name: p.name,
        reference_weight: new_ref,
        starting_reference_weight: p.starting_reference_weight,
        workouts_completed: p.workouts_completed + 1,
        weights: new_weights,
        current_day: (p.current_day + 1) % (p.days.len() as int),
        current_cycle_attempt_results: recorded,
    }
}

/// The weight a lift attempt is prescribed: the raw reference weight for
/// reference-based lifts, the tracked weight for linear lifts, nothing for
/// the rest.
pub open spec fn next_weight_spec(p: ProgramView, l: LiftView) -> Option<int> {
    match l.weight {
        WeightScheme::BasedOnReference { multiplier, offset } => Some(p.reference_weight),
        WeightScheme::Any => None,
        WeightScheme::NoWeight => None,
        WeightScheme::LinearBasedOnPrevious { amount_to_increase } => w_get(
            p.weights,
            lift_key(l),
        ),
    }
}

pub open spec fn opt_int(o: Option<u64>) -> Option<int> {
    match o {
        Some(v) => Some(v as int),
        None => None,
    }
}

/// An explicit deep copy of a lift, field for field.
pub fn clone_lift(l: &Lift) -> (r: Lift)
    ensures
        r@ == l@,
{
    let r = Lift {
        name: l.name.clone(),
        sets: vstd::slice::slice_to_vec(l.sets.as_slice()),
        weight: l.weight,
    };
    proof {
        assert(r@ =~= l@);
    }
    r
}

impl Program {
    pub open spec fn wf(&self) -> bool {
        program_wf(self@)
    }

    /// The lift attempts of the current day, each with its resolved weight.
    pub fn next_workout(&self) -> (r: Vec<LiftAttempt>)
        requires
            self.wf(),
        ensures
            r@.len() == self@.days[self@.current_day].lifts.len(),
            forall|i: int|
                0 <= i < r@.len() ==> (#[trigger] r@[i])@.lift == self@.days[self@.current_day].lifts[i],
            forall|i: int|
                0 <= i < r@.len() ==> opt_int((#[trigger] r@[i])@.weight) == next_weight_spec(
                    self@,
                    self@.days[self@.current_day].lifts[i],
                ),
    {
        let day = &self.days[self.current_day];
        let ghost dv = self@.days[self@.current_day];
        proof {
            assert(dv == day@);
        }
        let mut out: Vec<LiftAttempt> = Vec::new();
        let mut i: usize = 0;
        while i < day.lifts.len()
            invariant
                0 <= i <= day.lifts@.len(),
                self.wf(),
                day == &self.days[self@.current_day],
                dv == day@,
                0 <= self@.current_day < self@.days.len(),
                dv == self@.days[self@.current_day],
                out@.len() == i,
                forall|j: int| 0 <= j < i ==> (#[trigger] out@[j])@.lift == dv.lifts[j],
                forall|j: int|
                    0 <= j < i ==> opt_int((#[trigger] out@[j])@.weight) == next_weight_spec(
                        self@,
                        dv.lifts[j],
                    ),
            decreases day.lifts@.len() - i,
        {
            let lift = &day.lifts[i];
            proof {
                assert(dv.lifts[i as int] == lift@);
                assert(self@.days[self@.current_day].lifts[i as int].weight.wf());
            }
            let weight: Option<u64> = match &lift.weight {
                WeightScheme::BasedOnReference { multiplier, offset } => Some(
                    self.reference_weight,
                ),
                WeightScheme::Any => None,
                WeightScheme::NoWeight => None,
                WeightScheme::LinearBasedOnPrevious { amount_to_increase } => {
                    let key = lift.format();
                    self.weights.get(&key)
                },
            };
            out.push(LiftAttempt { lift: clone_lift(lift), weight });
            proof {
                assert(out@.last()@.lift =~= dv.lifts[i as int]);
            }
            i = i + 1;
        }
        out
    }
}

/// The reference check restricted to positions before day `d`, or in day
/// `d` before lift `j`: used to follow the scan as it walks the cycle.
pub open spec fn ref_completed_before(
    days: Seq<DayView>,
    res: Seq<Seq<LiftAttemptResult>>,
    d: int,
    j: int,
) -> bool {
    forall|d2: int, i2: int|
        0 <= d2 < days.len() && 0 <= i2 < days[d2].lifts.len() && is_reference_lift(
            #[trigger] days[d2].lifts[i2],
        ) && (d2 < d || (d2 == d && i2 < j)) ==> 0 <= d2 < res.len() && 0 <= i2 < res[d2].len()
            && res[d2][i2] == completed_max()
}

/// One scan step: the predicate extends by one lift position.
proof fn lemma_ref_completed_step(
    days: Seq<DayView>,
    res: Seq<Seq<LiftAttemptResult>>,
    d: int,
    j: int,
)
    requires
        0 <= d < days.len(),
        0 <= j < days[d].lifts.len(),
    ensures
        is_reference_lift(days[d].lifts[j]) ==> ref_completed_before(days, res, d, j + 1) == (
        ref_completed_before(days, res, d, j) && (0 <= d < res.len() && 0 <= j < res[d].len()
            && res[d][j] == completed_max())),
        !is_reference_lift(days[d].lifts[j]) ==> ref_completed_before(days, res, d, j + 1)
            == ref_completed_before(days, res, d, j),
{
}

/// Finishing a day's scan is the same as starting the next day's.
proof fn lemma_ref_completed_day_roll(
    days: Seq<DayView>,
    res: Seq<Seq<LiftAttemptResult>>,
    d: int,
)
    requires
        0 <= d < days.len(),
    ensures
        ref_completed_before(days, res, d + 1, 0) == ref_completed_before(
            days,
            res,
            d,
            days[d].lifts.len() as int,
        ),
{
}

/// Scanning every day is the whole reference check.
proof fn lemma_ref_completed_full(days: Seq<DayView>, res: Seq<Seq<LiftAttemptResult>>)
    ensures
        ref_completed_before(days, res, days.len() as int, 0) == all_reference_lifts_completed(
            days,
            res,
        ),
{
}

/// Monotonicity of the overflow guard: a bound for the whole day bounds
/// every prefix.
proof fn lemma_ratchet_fits_prefix(
    w: Seq<(Seq<char>, int)>,
    lifts: Seq<LiftView>,
    results: Seq<LiftAttemptResult>,
    n: int,
    m: int,
)
    requires
        ratchet_fits(w, lifts, results, n),
        m <= n,
    ensures
        ratchet_fits(w, lifts, results, m),
    decreases n - m,
{
    if m < n {
        lemma_ratchet_fits_prefix(w, lifts, results, n - 1, m);
    }
}

impl Program {
    /// Record the day's results, ratchet the linear weights, close the cycle
    /// if this was its last day, count the workout, and advance.  Consumes
    /// the old program and returns the new one; nothing is mutated in place.
    pub fn complete_workout(self, results: &[LiftAttemptResult]) -> (r: Program)
        requires
            self.wf(),
            results@.len() == self@.days[self@.current_day].lifts.len(),
            self@.current_day == self@.days.len() - 1 ==> self@.reference_weight + 5 <= u64::MAX,
            self@.workouts_completed + 1 <= u64::MAX,
            ratchet_fits(
                self@.weights,
                self@.days[self@.current_day].lifts,
                results@,
                self@.days[self@.current_day].lifts.len() as int,
            ),
            reference_results_indexable(self@),
        ensures
            r@ == complete_workout_spec(self@, results@),
    {
        let ghost p0 = self@;
        let ghost recorded = record_results(p0.current_cycle_attempt_results, p0.current_day, results@);
        let mut p = self;
        let cd = p.current_day;
        let nd0 = p.days.len();
        proof {
            assert(cd < nd0);
        }
        let ghost res0 = p0.current_cycle_attempt_results;

        // 1. record: extend with empty entries so index `cd` exists, then set it
        while p.current_cycle_attempt_results.len() < cd + 1
            invariant
                p.days == self.days,
                p.name == self.name,
                p.reference_weight == self.reference_weight,
                p.starting_reference_weight == self.starting_reference_weight,
                p.workouts_completed == self.workouts_completed,
                p.weights == self.weights,
                p.current_day == cd == self.current_day,
                cd < nd0,
                res0.len() <= p@.current_cycle_attempt_results.len(),
                res0.len() < cd + 1 ==> p@.current_cycle_attempt_results.len() <= cd + 1,
                res0.len() >= cd + 1 ==> p@.current_cycle_attempt_results == res0,
                forall|j: int|
                    0 <= j < res0.len() ==> #[trigger] p@.current_cycle_attempt_results[j]
                        == res0[j],
                forall|j: int|
                    res0.len() <= j < p@.current_cycle_attempt_results.len()
                        ==> #[trigger] p@.current_cycle_attempt_results[j]
                        == Seq::<LiftAttemptResult>::empty(),
            decreases cd + 1 - p.current_cycle_attempt_results.len(),
        {
            let ghost prev = p@.current_cycle_attempt_results;
            let empty: Vec<LiftAttemptResult> = Vec::new();
            p.current_cycle_attempt_results.push(empty);
            proof {
                assert(p@.current_cycle_attempt_results =~= prev.push(
                    Seq::<LiftAttemptResult>::empty(),
                ));
            }
        }
        proof {
            if res0.len() >= cd + 1 {
                assert(p@.current_cycle_attempt_results =~= res0);
            } else {
                assert(p@.current_cycle_attempt_results =~= res0 + Seq::new(
                    (cd + 1 - res0.len()) as nat,
                    |i: int| Seq::<LiftAttemptResult>::empty(),
                ));
            }
        }
        let fresh: Vec<LiftAttemptResult> = vstd::slice::slice_to_vec(results);
        let ghost padded_exec = p@.current_cycle_attempt_results;
        p.current_cycle_attempt_results[cd] = fresh;
        proof {
            assert(p@.current_cycle_attempt_results =~= padded_exec.update(cd as int, results@));
            assert(p@.current_cycle_attempt_results =~= recorded);
        }

        // 2. ratchet the linear weights of the day
        let ghost lifts = p0.days[cd as int].lifts;
        let nlifts = p.days[cd].lifts.len();
        proof {
            assert(p.days@.map_values(|d: Day| d@) == p0.days);
            assert(p0.days[cd as int] == p.days@[cd as int]@);
            assert(lifts.len() == nlifts);
            assert(p@.weights =~= ratchet_upto(p0.weights, lifts, results@, 0));
        }
        let mut i: usize = 0;
        while i < nlifts
            invariant
                p.days == self.days,
                p.name == self.name,
                p.reference_weight == self.reference_weight,
                p.starting_reference_weight == self.starting_reference_weight,
                p.workouts_completed == self.workouts_completed,
                p.current_day == cd == self.current_day,
                p@.current_cycle_attempt_results == recorded,
                self.wf(),
                0 <= i <= nlifts,
                0 <= cd < p.days@.len(),
                lifts == p.days@[cd as int]@.lifts,
                lifts.len() == nlifts == p.days@[cd as int].lifts@.len(),
                results@.len() == nlifts,
                ratchet_fits(p0.weights, lifts, results@, nlifts as int),
                p@.weights == ratchet_upto(p0.weights, lifts, results@, i as int),
            decreases nlifts - i,
        {
            let scheme = p.days[cd].lifts[i].weight;
            proof {
                assert(lifts[i as int] == p.days@[cd as int].lifts@[i as int]@);
                assert(scheme == lifts[i as int].weight);
            }
            match scheme {
                WeightScheme::LinearBasedOnPrevious { amount_to_increase } => {
                    let done = results[i] == (LiftAttemptResult::Completed {
                        completed_maximum_reps: true,
                    });
                    if done {
                        let key = p.days[cd].lifts[i].format();
                        proof {
                            assert(key@ == lift_key(lifts[i as int]));
                            lemma_ratchet_fits_prefix(
                                p0.weights,
                                lifts,
                                results@,
                                nlifts as int,
                                i + 1,
                            );
                        }
                        p.weights.add(key, amount_to_increase);
                        proof {
                            assert(p@.weights == ratchet_upto(
                                p0.weights,
                                lifts,
                                results@,
                                i + 1,
                            ));
                        }
                    } else {
                        proof {
                            assert(results@[i as int] != completed_max());
                            assert(p@.weights == ratchet_upto(
                                p0.weights,
                                lifts,
                                results@,
                                i + 1,
                            ));
                        }
                    }
                },
                _ => {
                    proof {
                        assert(p@.weights == ratchet_upto(p0.weights, lifts, results@, i + 1));
                    }
                },
            }
            i = i + 1;
        }
        proof {
            assert(p@.weights == ratchet(p0.weights, lifts, results@));
        }

        // 3. close the cycle: raise the reference weight only if every
        //    reference lift of the whole cycle completed its maximum reps
        let ndays = p.days.len();
        if cd == ndays - 1 {
            proof {
                assert(recorded.len() >= ndays);
                assert(recorded[cd as int] == results@);
            }
            let mut all: bool = true;
            let mut d: usize = 0;
            while d < ndays
                invariant
                    p.days == self.days,
                    self.wf(),
                    cd == self.current_day,
                    cd == ndays - 1,
                    ndays == p.days@.len(),
                    p@.current_cycle_attempt_results == recorded,
                    recorded.len() >= ndays,
                    results@.len() == p0.days[cd as int].lifts.len(),
                    recorded[cd as int] == results@,
                    reference_results_indexable(p0),
                    res0 == p0.current_cycle_attempt_results,
                    forall|d2: int|
                        0 <= d2 < res0.len() && d2 != cd ==> #[trigger] recorded[d2] == res0[d2],
                    p0.days == p.days@.map_values(|dd: Day| dd@),
                    p0.current_day == cd,
                    0 <= d <= ndays,
                    all == ref_completed_before(p0.days, recorded, d as int, 0),
                decreases ndays - d,
            {
                let m = p.days[d].lifts.len();
                proof {
                    assert(p0.days[d as int] == p.days@[d as int]@);
                }
                let mut j: usize = 0;
                while j < m
                    invariant
                        p.days == self.days,
                        self.wf(),
                        cd == self.current_day,
                        cd == ndays - 1,
                        ndays == p.days@.len(),
                        p@.current_cycle_attempt_results == recorded,
                        recorded.len() >= ndays,
                        results@.len() == p0.days[cd as int].lifts.len(),
                        recorded[cd as int] == results@,
                        reference_results_indexable(p0),
                        res0 == p0.current_cycle_attempt_results,
                        forall|d2: int|
                            0 <= d2 < res0.len() && d2 != cd ==> #[trigger] recorded[d2] == res0[
                            d2],
                        p0.days == p.days@.map_values(|dd: Day| dd@),
                        p0.current_day == cd,
                        0 <= d < ndays,
                        m == p0.days[d as int].lifts.len(),
                        0 <= j <= m,
                        all == ref_completed_before(p0.days, recorded, d as int, j as int),
                    decreases m - j,
                {
                    let is_ref = matches!(
                        p.days[d].lifts[j].weight,
                        WeightScheme::BasedOnReference { .. }
                    );
                    proof {
                        let ghost jj = j as int;
                        assert(p0.days[d as int].lifts[jj] == p.days@[d as int].lifts@[jj]@);
                    }
                    if is_ref {
                        proof {
                            if d == cd {
                                assert(recorded[d as int].len() == results@.len());
                            } else {
                                assert(d < res0.len() && j < res0[d as int].len());
                                assert(recorded[d as int] == res0[d as int]);
                            }
                            assert(j < recorded[d as int].len());
                            assert(p.current_cycle_attempt_results@.len() == recorded.len());
                            assert(p.current_cycle_attempt_results@[d as int]@ == recorded[
                                d as int]);
                        }
                        let ok = p.current_cycle_attempt_results[d][j]
                            == (LiftAttemptResult::Completed { completed_maximum_reps: true });
                        all = all && ok;
                        proof {
                            lemma_ref_completed_step(p0.days, recorded, d as int, j as int);
                        }
                    } else {
                        proof {
                            lemma_ref_completed_step(p0.days, recorded, d as int, j as int);
                        }
                    }
                    j = j + 1;
                }
                proof {
                    lemma_ref_completed_day_roll(p0.days, recorded, d as int);
                }
                d = d + 1;
            }
            proof {
                lemma_ref_completed_full(p0.days, recorded);
                if all {
                    assert(all_reference_lifts_completed(p0.days, recorded));
                } else {
                    assert(!all_reference_lifts_completed(p0.days, recorded));
                }
            }
            if all {
                p.reference_weight = p.reference_weight + 5;
            }
        }

        // 4. count the workout
        p.workouts_completed = p.workouts_completed + 1;

        // 5. advance to the next day of the cycle
        let ndays2 = p.days.len();
        if cd + 1 >= ndays2 {
            p.current_day = 0;
        } else {
            p.current_day = cd + 1;
        }
        proof {
            assert(p@.current_day == (p0.current_day + 1) % (p0.days.len() as int))
                by (nonlinear_arith)
                requires
                    0 <= p0.current_day < p0.days.len(),
                    p0.days.len() == ndays2,
                    p@.current_day == (if p0.current_day + 1 >= ndays2 {
                        0
                    } else {
                        p0.current_day + 1
                    }),
            ;
            assert(p@.days == p0.days);
            assert(p@ =~~= complete_workout_spec(p0, results@));
        }
        p
    }
}

// The laws of the progression engine, stated over the spec transition that
// `complete_workout` is proved to implement.

/// The program after a run of consecutive workouts, first results list
/// applied first.
pub open spec fn run_workouts(p: ProgramView, rss: Seq<Seq<LiftAttemptResult>>) -> ProgramView
    decreases rss.len(),
{
    if rss.len() == 0 {
        p
    } else {
        run_workouts(complete_workout_spec(p, rss[0]), rss.drop_first())
    }
}

/// One completed workout advances the day by one, modulo the cycle length,
/// counts one workout, and touches neither the cycle template, the name,
/// nor the starting reference weight.
pub proof fn lemma_one_workout_advances(p: ProgramView, rs: Seq<LiftAttemptResult>)
    requires
        program_wf(p),
    ensures
        complete_workout_spec(p, rs).current_day == (p.current_day + 1) % (p.days.len() as int),
        complete_workout_spec(p, rs).workouts_completed == p.workouts_completed + 1,
        complete_workout_spec(p, rs).days == p.days,
        complete_workout_spec(p, rs).name == p.name,
        complete_workout_spec(p, rs).starting_reference_weight == p.starting_reference_weight,
        program_wf(complete_workout_spec(p, rs)),
{
    assert(0 <= (p.current_day + 1) % (p.days.len() as int) < p.days.len()) by (nonlinear_arith)
        requires
            0 <= p.current_day < p.days.len(),
    ;
}

/// A run of workouts advances the day by its length, modulo the cycle
/// length, and counts them all.
pub proof fn lemma_run_advances(p: ProgramView, rss: Seq<Seq<LiftAttemptResult>>)
    requires
        program_wf(p),
    ensures
        run_workouts(p, rss).current_day == (p.current_day + rss.len()) % (p.days.len() as int),
        run_workouts(p, rss).workouts_completed == p.workouts_completed + rss.len(),
        run_workouts(p, rss).days == p.days,
        run_workouts(p, rss).name == p.name,
        run_workouts(p, rss).starting_reference_weight == p.starting_reference_weight,
        program_wf(run_workouts(p, rss)),
    decreases rss.len(),
{
    let len = p.days.len() as int;
    if rss.len() == 0 {
        assert(p.current_day % len == p.current_day) by (nonlinear_arith)
            requires
                0 <= p.current_day < len,
        ;
    } else {
        let q = complete_workout_spec(p, rss[0]);
        lemma_one_workout_advances(p, rss[0]);
        lemma_run_advances(q, rss.drop_first());
        let a = p.current_day + 1;
        let b = rss.len() - 1;
        vstd::arithmetic::div_mod::lemma_add_mod_noop(a, b, len);
        vstd::arithmetic::div_mod::lemma_add_mod_noop(a % len, b, len);
        vstd::arithmetic::div_mod::lemma_mod_twice(a, len);
        assert((a % len + b) % len == (a + b) % len);
    }
}

/// Completing one full cycle of workouts brings `current_day` back to its
/// starting value and raises `workouts_completed` by exactly the cycle
/// length.
pub proof fn lemma_full_cycle_returns(p: ProgramView, rss: Seq<Seq<LiftAttemptResult>>)
    requires
        program_wf(p),
        rss.len() == p.days.len(),
    ensures
        run_workouts(p, rss).current_day == p.current_day,
        run_workouts(p, rss).workouts_completed == p.workouts_completed + p.days.len(),
{
    lemma_run_advances(p, rss);
    assert((p.current_day + p.days.len()) % (p.days.len() as int) == p.current_day)
        by (nonlinear_arith)
        requires
            0 <= p.current_day < p.days.len(),
    ;
}

/// Results lists that complete the maximum reps of every lift of their day.
pub open spec fn all_results_perfect(
    days: Seq<DayView>,
    start: int,
    rss: Seq<Seq<LiftAttemptResult>>,
) -> bool {
    forall|k: int, i: int|
        0 <= k < rss.len() && 0 <= i < rss[k].len() ==> #[trigger] rss[k][i] == completed_max()
}

pub open spec fn results_lengths_match(
    days: Seq<DayView>,
    start: int,
    rss: Seq<Seq<LiftAttemptResult>>,
) -> bool {
    forall|k: int|
        0 <= k < rss.len() ==> (#[trigger] rss[k]).len() == days[start + k].lifts.len()
}

/// Every reference lift of a day before `c` has a perfect recorded result.
pub open spec fn earlier_days_perfect(p: ProgramView, c: int) -> bool {
    forall|d: int, i: int|
        0 <= d < c && 0 <= i < p.days[d].lifts.len() && is_reference_lift(
            #[trigger] p.days[d].lifts[i],
        ) ==> 0 <= d < p.current_cycle_attempt_results.len() && 0 <= i
            < p.current_cycle_attempt_results[d].len() && p.current_cycle_attempt_results[d][i]
            == completed_max()
}

/// Running out the rest of a cycle with perfect results raises the
/// reference weight by exactly five at the close, provided the days already
/// behind in this cycle were perfect too.
proof fn lemma_perfect_tail_raises(p: ProgramView, rss: Seq<Seq<LiftAttemptResult>>)
    requires
        program_wf(p),
        rss.len() == p.days.len() - p.current_day,
        results_lengths_match(p.days, p.current_day, rss),
        all_results_perfect(p.days, p.current_day, rss),
        earlier_days_perfect(p, p.current_day),
    ensures
        run_workouts(p, rss).reference_weight == p.reference_weight + 5,
    decreases rss.len(),
{
    let len = p.days.len() as int;
    let c = p.current_day;
    let recorded = record_results(p.current_cycle_attempt_results, c, rss[0]);
    let q = complete_workout_spec(p, rss[0]);
    assert(forall|d: int|
        0 <= d < recorded.len() && d != c ==> #[trigger] recorded[d] == (if d
            < p.current_cycle_attempt_results.len() {
            p.current_cycle_attempt_results[d]
        } else {
            Seq::<LiftAttemptResult>::empty()
        }));
    assert(recorded[c] == rss[0]);
    if c == len - 1 {
        assert(rss.len() == 1);
        assert(all_reference_lifts_completed(p.days, recorded)) by {
            assert forall|d: int, i: int|
                0 <= d < p.days.len() && 0 <= i < p.days[d].lifts.len() && is_reference_lift(
                    #[trigger] p.days[d].lifts[i],
                ) implies 0 <= d < recorded.len() && 0 <= i < recorded[d].len() && recorded[d][i]
                == completed_max() by {
                if d == c {
                    assert(recorded[c].len() == p.days[c].lifts.len());
                    assert(recorded[c][i] == rss[0][i]);
                } else {
                    assert(recorded[d] == p.current_cycle_attempt_results[d]);
                }
            }
        }
        assert(q.reference_weight == p.reference_weight + 5);
        assert(run_workouts(q, rss.drop_first()) == q);
    } else {
        assert(!(c == len - 1));
        assert(q.reference_weight == p.reference_weight);
        lemma_one_workout_advances(p, rss[0]);
        assert(q.current_day == c + 1) by (nonlinear_arith)
            requires
                0 <= c,
                c + 1 < len,
                q.current_day == (c + 1) % len,
        ;
        assert(earlier_days_perfect(q, c + 1)) by {
            assert forall|d: int, i: int|
                0 <= d < c + 1 && 0 <= i < q.days[d].lifts.len() && is_reference_lift(
                    #[trigger] q.days[d].lifts[i],
                ) implies 0 <= d < q.current_cycle_attempt_results.len() && 0 <= i
                < q.current_cycle_attempt_results[d].len() && q.current_cycle_attempt_results[d][i]
                == completed_max() by {
                if d == c {
                    assert(recorded[c][i] == rss[0][i]);
                } else {
                    assert(recorded[d] == p.current_cycle_attempt_results[d]);
                }
            }
        }
        assert(results_lengths_match(q.days, c + 1, rss.drop_first())) by {
            assert(forall|k: int|
                0 <= k < rss.drop_first().len() ==> #[trigger] rss.drop_first()[k] == rss[k + 1]);
        }
        assert(all_results_perfect(q.days, c + 1, rss.drop_first())) by {
            assert(forall|k: int|
                0 <= k < rss.drop_first().len() ==> #[trigger] rss.drop_first()[k] == rss[k + 1]);
        }
        lemma_perfect_tail_raises(q, rss.drop_first());
    }
}

/// If every lift attempt across an entire cycle completes its maximum reps,
/// the reference weight rises by exactly five at the close of that cycle,
/// and the starting reference weight does not move.
pub proof fn lemma_perfect_cycle_raises_reference(
    p: ProgramView,
    rss: Seq<Seq<LiftAttemptResult>>,
)
    requires
        program_wf(p),
        p.current_day == 0,
        rss.len() == p.days.len(),
        results_lengths_match(p.days, 0, rss),
        all_results_perfect(p.days, 0, rss),
    ensures
        run_workouts(p, rss).reference_weight == p.reference_weight + 5,
        run_workouts(p, rss).starting_reference_weight == p.starting_reference_weight,
{
    lemma_perfect_tail_raises(p, rss);
    lemma_run_advances(p, rss);
}

/// Somewhere in what is left of the cycle, or already on record, one
/// reference lift's result misses the maximum reps.
pub open spec fn some_reference_lift_failed(p: ProgramView, rss: Seq<Seq<LiftAttemptResult>>) -> bool {
    exists|d: int, i: int|
        0 <= d < p.days.len() && 0 <= i < p.days[d].lifts.len() && is_reference_lift(
            #[trigger] p.days[d].lifts[i],
        ) && (if d >= p.current_day {
            i < rss[d - p.current_day].len() && rss[d - p.current_day][i] != completed_max()
        } else {
            d < p.current_cycle_attempt_results.len() && i
                < p.current_cycle_attempt_results[d].len() && p.current_cycle_attempt_results[d][i]
                != completed_max()
        })
}

proof fn lemma_failed_tail_keeps(p: ProgramView, rss: Seq<Seq<LiftAttemptResult>>)
    requires
        program_wf(p),
        rss.len() == p.days.len() - p.current_day,
        some_reference_lift_failed(p, rss),
    ensures
        run_workouts(p, rss).reference_weight == p.reference_weight,
    decreases rss.len(),
{
    let len = p.days.len() as int;
    let c = p.current_day;
    let recorded = record_results(p.current_cycle_attempt_results, c, rss[0]);
    let q = complete_workout_spec(p, rss[0]);
    let (d, i) = choose|d: int, i: int|
        0 <= d < p.days.len() && 0 <= i < p.days[d].lifts.len() && is_reference_lift(
            #[trigger] p.days[d].lifts[i],
        ) && (if d >= p.current_day {
            i < rss[d - p.current_day].len() && rss[d - p.current_day][i] != completed_max()
        } else {
            d < p.current_cycle_attempt_results.len() && i
                < p.current_cycle_attempt_results[d].len() && p.current_cycle_attempt_results[d][i]
                != completed_max()
        });
    assert(forall|d2: int|
        0 <= d2 < recorded.len() && d2 != c ==> #[trigger] recorded[d2] == (if d2
            < p.current_cycle_attempt_results.len() {
            p.current_cycle_attempt_results[d2]
        } else {
            Seq::<LiftAttemptResult>::empty()
        }));
    assert(recorded[c] == rss[0]);
    // after this step the witness is on record, or still ahead
    assert(d < recorded.len() && i < recorded[d].len() && recorded[d][i] != completed_max() || (d
        > c && i < rss[d - c].len() && rss[d - c][i] != completed_max()));
    if c == len - 1 {
        assert(rss.len() == 1);
        assert(d <= c);
        assert(recorded[d][i] != completed_max());
        assert(!all_reference_lifts_completed(p.days, recorded));
        assert(q.reference_weight == p.reference_weight);
        assert(run_workouts(q, rss.drop_first()) == q);
    } else {
        assert(q.reference_weight == p.reference_weight);
        lemma_one_workout_advances(p, rss[0]);
        assert(q.current_day == c + 1) by (nonlinear_arith)
            requires
                0 <= c,
                c + 1 < len,
                q.current_day == (c + 1) % len,
        ;
        assert(some_reference_lift_failed(q, rss.drop_first())) by {
            assert(forall|k: int|
                0 <= k < rss.drop_first().len() ==> #[trigger] rss.drop_first()[k] == rss[k + 1]);
            if d >= c + 1 {
                assert(0 <= d < q.days.len() && 0 <= i < q.days[d].lifts.len()
                    && is_reference_lift(q.days[d].lifts[i]) && (i < rss.drop_first()[d - (c
                    + 1)].len() && rss.drop_first()[d - (c + 1)][i] != completed_max()));
            } else {
                assert(0 <= d < q.days.len() && 0 <= i < q.days[d].lifts.len()
                    && is_reference_lift(q.days[d].lifts[i]) && (d
                    < q.current_cycle_attempt_results.len() && i
                    < q.current_cycle_attempt_results[d].len()
                    && q.current_cycle_attempt_results[d][i] != completed_max()));
            }
        }
        lemma_failed_tail_keeps(q, rss.drop_first());
    }
}

/// If any single reference-based lift anywhere in the cycle does not
/// complete its maximum reps, the reference weight does not change at the
/// cycle's close.
pub proof fn lemma_failed_cycle_keeps_reference(
    p: ProgramView,
    rss: Seq<Seq<LiftAttemptResult>>,
)
    requires
        program_wf(p),
        p.current_day == 0,
        rss.len() == p.days.len(),
        exists|d: int, i: int|
            0 <= d < p.days.len() && 0 <= i < p.days[d].lifts.len() && is_reference_lift(
                #[trigger] p.days[d].lifts[i],
            ) && i < rss[d].len() && rss[d][i] != completed_max(),
    ensures
        run_workouts(p, rss).reference_weight == p.reference_weight,
        run_workouts(p, rss).starting_reference_weight == p.starting_reference_weight,
{
    let (d, i) = choose|d: int, i: int|
        0 <= d < p.days.len() && 0 <= i < p.days[d].lifts.len() && is_reference_lift(
            #[trigger] p.days[d].lifts[i],
        ) && i < rss[d].len() && rss[d][i] != completed_max();
    assert(some_reference_lift_failed(p, rss));
    lemma_failed_tail_keeps(p, rss);
    lemma_run_advances(p, rss);
}

/// The ratchet changes only the key of lift `i`: an induction over the
/// day's positions.
proof fn lemma_ratchet_key(
    w0: Seq<(Seq<char>, int)>,
    lifts: Seq<LiftView>,
    results: Seq<LiftAttemptResult>,
    i: int,
    n: int,
)
    requires
        0 <= i < lifts.len(),
        lifts[i].weight is LinearBasedOnPrevious,
        forall|j: int|
            0 <= j < lifts.len() && j != i && (#[trigger] lifts[j]).weight
                is LinearBasedOnPrevious ==> lift_key(lifts[j]) != lift_key(lifts[i]),
        0 <= n <= lifts.len(),
    ensures
        w_get(ratchet_upto(w0, lifts, results, n), lift_key(lifts[i])) == (if i < n && results[i]
            == completed_max() {
            Some(
                match w_get(w0, lift_key(lifts[i])) {
                    Some(v) => v + (lifts[i].weight)->LinearBasedOnPrevious_amount_to_increase,
                    None => (lifts[i].weight)->LinearBasedOnPrevious_amount_to_increase as int,
                },
            )
        } else {
            w_get(w0, lift_key(lifts[i]))
        }),
    decreases n,
{
    if n > 0 {
        lemma_ratchet_key(w0, lifts, results, i, n - 1);
        let w1 = ratchet_upto(w0, lifts, results, n - 1);
        match lifts[n - 1].weight {
            WeightScheme::LinearBasedOnPrevious { amount_to_increase } => {
                if results[n - 1] == completed_max() {
                    lemma_w_add_get(w1, lift_key(lifts[n - 1]), amount_to_increase as int);
                }
            },
            _ => {},
        }
    }
}

/// A lift's tracked weight rises by exactly its own increment when its
/// result in the just-completed day completed the maximum reps, and is
/// otherwise unchanged.  The lift's key must not be shared with another
/// linear lift of the same day.
pub proof fn lemma_linear_weight_ratchet(p: ProgramView, results: Seq<LiftAttemptResult>, i: int)
    requires
        program_wf(p),
        0 <= i < p.days[p.current_day].lifts.len(),
        p.days[p.current_day].lifts[i].weight is LinearBasedOnPrevious,
        forall|j: int|
            0 <= j < p.days[p.current_day].lifts.len() && j != i && (#[trigger] p.days[
            p.current_day].lifts[j]).weight is LinearBasedOnPrevious ==> lift_key(
                p.days[p.current_day].lifts[j],
            ) != lift_key(p.days[p.current_day].lifts[i]),
    ensures
        ({
            let l = p.days[p.current_day].lifts[i];
            let a = l.weight->LinearBasedOnPrevious_amount_to_increase as int;
            let after = complete_workout_spec(p, results).weights;
            if results[i] == completed_max() {
                w_get(after, lift_key(l)) == Some(
                    match w_get(p.weights, lift_key(l)) {
                        Some(v) => v + a,
                        None => a,
                    },
                )
            } else {
                w_get(after, lift_key(l)) == w_get(p.weights, lift_key(l))
            }
        }),
{
    let lifts = p.days[p.current_day].lifts;
    lemma_ratchet_key(p.weights, lifts, results, i, lifts.len() as int);
}

/// A key that belongs to no successfully completed linear lift of the day
/// keeps its tracked weight.
pub proof fn lemma_other_weights_unchanged(
    p: ProgramView,
    results: Seq<LiftAttemptResult>,
    k: Seq<char>,
)
    requires
        program_wf(p),
        forall|j: int|
            0 <= j < p.days[p.current_day].lifts.len() && (#[trigger] p.days[
            p.current_day].lifts[j]).weight is LinearBasedOnPrevious && results[j]
                == completed_max() ==> lift_key(p.days[p.current_day].lifts[j]) != k,
    ensures
        w_get(complete_workout_spec(p, results).weights, k) == w_get(p.weights, k),
{
    let lifts = p.days[p.current_day].lifts;
    lemma_untouched_key(p.weights, lifts, results, k, lifts.len() as int);
}

proof fn lemma_untouched_key(
    w0: Seq<(Seq<char>, int)>,
    lifts: Seq<LiftView>,
    results: Seq<LiftAttemptResult>,
    k: Seq<char>,
    n: int,
)
    requires
        0 <= n <= lifts.len(),
        forall|j: int|
            0 <= j < lifts.len() && (#[trigger] lifts[j]).weight is LinearBasedOnPrevious
                && results[j] == completed_max() ==> lift_key(lifts[j]) != k,
    ensures
        w_get(ratchet_upto(w0, lifts, results, n), k) == w_get(w0, k),
    decreases n,
{
    if n > 0 {
        lemma_untouched_key(w0, lifts, results, k, n - 1);
        let w1 = ratchet_upto(w0, lifts, results, n - 1);
        match lifts[n - 1].weight {
            WeightScheme::LinearBasedOnPrevious { amount_to_increase } => {
                if results[n - 1] == completed_max() {
                    lemma_w_add_get(w1, lift_key(lifts[n - 1]), amount_to_increase as int);
                }
            },
            _ => {},
        }
    }
}

// The fixed GZCL-based four-day cycle template.

/// The cycle template: Pull, Push, Legs, Core.
pub open spec fn gzcl_days() -> Seq<DayView> {
    seq![
        DayView { name: "Pull"@, lifts: seq![
        LiftView { name: "Weighted Pullup"@, sets: seq![RepSet::Defined { reps: 3 }, RepSet::Defined { reps: 3 }, RepSet::Defined { reps: 3 }, RepSet::Defined { reps: 3 }, RepSet::Amrap { minimum_reps: 3 }], weight: WeightScheme::BasedOnReference { multiplier: Multiplier { mantissa: 5, scale: 1 }, offset: (-30) as i64 } },
        LiftView { name: "Pullup"@, sets: seq![RepSet::Amrap { minimum_reps: 7 }, RepSet::Amrap { minimum_reps: 7 }, RepSet::Amrap { minimum_reps: 7 }], weight: WeightScheme::NoWeight },
        LiftView { name: "Barbell Row"@, sets: seq![RepSet::Defined { reps: 10 }, RepSet::Defined { reps: 10 }, RepSet::Defined { reps: 10 }], weight: WeightScheme::BasedOnReference { multiplier: Multiplier { mantissa: 65, scale: 2 }, offset: 0 } },
        LiftView { name: "Face Pull"@, sets: seq![RepSet::Defined { reps: 15 }, RepSet::Defined { reps: 15 }, RepSet::Range { maximum_reps: 25, minimum_reps: 15 }], weight: WeightScheme::LinearBasedOnPrevious { amount_to_increase: 20 } },
        LiftView { name: "Cable Curl"@, sets: seq![RepSet::Defined { reps: 15 }, RepSet::Defined { reps: 15 }, RepSet::Range { maximum_reps: 25, minimum_reps: 15 }], weight: WeightScheme::LinearBasedOnPrevious { amount_to_increase: 20 } },
    ] },
        DayView { name: "Push"@, lifts: seq![
        LiftView { name: "Bench press"@, sets: seq![RepSet::Defined { reps: 3 }, RepSet::Defined { reps: 3 }, RepSet::Defined { reps: 3 }, RepSet::Defined { reps: 3 }, RepSet::Amrap { minimum_reps: 3 }], weight: WeightScheme::BasedOnReference { multiplier: Multiplier { mantissa: 1, scale: 0 }, offset: 0 } },
        LiftView { name: "Overhead press"@, sets: seq![RepSet::Defined { reps: 10 }, RepSet::Defined { reps: 10 }, RepSet::Defined { reps: 10 }], weight: WeightScheme::BasedOnReference { multiplier: Multiplier { mantissa: 5, scale: 1 }, offset: 0 } },
        LiftView { name: "Incline bench press"@, sets: seq![RepSet::Defined { reps: 10 }, RepSet::Defined { reps: 10 }, RepSet::Defined { reps: 10 }], weight: WeightScheme::BasedOnReference { multiplier: Multiplier { mantissa: 6, scale: 1 }, offset: 0 } },
        LiftView { name: "Pushup"@, sets: seq![RepSet::Amrap { minimum_reps: 15 }, RepSet::Amrap { minimum_reps: 15 }, RepSet::Amrap { minimum_reps: 15 }], weight: WeightScheme::NoWeight },
        LiftView { name: "Tricep Cable Pressdown"@, sets: seq![RepSet::Defined { reps: 15 }, RepSet::Defined { reps: 15 }, RepSet::Range { maximum_reps: 25, minimum_reps: 15 }], weight: WeightScheme::LinearBasedOnPrevious { amount_to_increase: 20 } },
    ] },
        DayView { name: "Legs"@, lifts: seq![
        LiftView { name: "Squat"@, sets: seq![RepSet::Defined { reps: 3 }, RepSet::Defined { reps: 3 }, RepSet::Defined { reps: 3 }, RepSet::Defined { reps: 3 }, RepSet::Amrap { minimum_reps: 3 }], weight: WeightScheme::BasedOnReference { multiplier: Multiplier { mantissa: 135, scale: 2 }, offset: 0 } },
        LiftView { name: "Deadlift"@, sets: seq![RepSet::Defined { reps: 8 }, RepSet::Defined { reps: 8 }, RepSet::Defined { reps: 8 }], weight: WeightScheme::BasedOnReference { multiplier: Multiplier { mantissa: 125, scale: 2 }, offset: 0 } },
        LiftView { name: "Romanian Deadlift"@, sets: seq![RepSet::Defined { reps: 10 }, RepSet::Defined { reps: 10 }, RepSet::Defined { reps: 10 }], weight: WeightScheme::BasedOnReference { multiplier: Multiplier { mantissa: 675, scale: 3 }, offset: 0 } },
        LiftView { name: "Leg press"@, sets: seq![RepSet::Defined { reps: 15 }, RepSet::Defined { reps: 15 }, RepSet::Range { maximum_reps: 25, minimum_reps: 15 }], weight: WeightScheme::LinearBasedOnPrevious { amount_to_increase: 30 } },
        LiftView { name: "Standing dumbbell calf raise"@, sets: seq![RepSet::Defined { reps: 15 }, RepSet::Defined { reps: 15 }, RepSet::Range { maximum_reps: 25, minimum_reps: 15 }], weight: WeightScheme::LinearBasedOnPrevious { amount_to_increase: 20 } },
    ] },
        DayView { name: "Core"@, lifts: seq![
        LiftView { name: "Plank"@, sets: seq![RepSet::Time { seconds: 30 }], weight: WeightScheme::Any },
        LiftView { name: "Ab Rollout"@, sets: seq![RepSet::Any, RepSet::Any, RepSet::Any], weight: WeightScheme::NoWeight },
        LiftView { name: "Cable Core Press"@, sets: seq![RepSet::Any, RepSet::Any, RepSet::Any], weight: WeightScheme::Any },
        LiftView { name: "Bent-knee reverse hyperextension"@, sets: seq![RepSet::Any, RepSet::Any, RepSet::Any], weight: WeightScheme::Any },
        LiftView { name: "Knee raises"@, sets: seq![RepSet::Any, RepSet::Any, RepSet::Any], weight: WeightScheme::NoWeight },
        LiftView { name: "Leg extensions"@, sets: seq![RepSet::Any, RepSet::Any, RepSet::Any], weight: WeightScheme::Any },
    ] },
    ]
}

pub open spec fn gzcl_name() -> Seq<char> {
    "GZCL-based 4-day cycle (Pull, Push, Legs, Core)"@
}

/// The pre-seeded weights for the known linear lifts, keyed by their
/// canonical notation.
pub open spec fn gzcl_seed_weights() -> Seq<(Seq<char>, int)> {
    seq![
        (lift_key(gzcl_days()[0].lifts[3]), 30),
        (lift_key(gzcl_days()[0].lifts[4]), 20),
        (lift_key(gzcl_days()[1].lifts[4]), 20),
        (lift_key(gzcl_days()[2].lifts[3]), 45),
        (lift_key(gzcl_days()[2].lifts[4]), 45),
    ]
}

/// A fresh `String` with the characters of the literal.
fn new_string(s: &str) -> (r: String)
    ensures
        r@ == s@,
{
    <String as vstd::string::StringExecFns>::from_str(s)
}

/// Push `n` copies of one set.
fn push_n(sets: &mut Vec<RepSet>, s: RepSet, n: usize)
    ensures
        final(sets)@ == old(sets)@ + Seq::new(n as nat, |i: int| s),
{
    let mut i: usize = 0;
    while i < n
        invariant
            0 <= i <= n,
            sets@ == old(sets)@ + Seq::new(i as nat, |j: int| s),
        decreases n - i,
    {
        sets.push(s);
        proof {
            assert(old(sets)@ + Seq::new((i + 1) as nat, |j: int| s) =~= (old(sets)@ + Seq::new(
                i as nat,
                |j: int| s,
            )).push(s));
        }
        i = i + 1;
    }
}

fn gzcl_day_0() -> (d: Day)
    ensures
        d@ == gzcl_days()[0],
        d.wf(),
{
    let mut lifts: Vec<Lift> = Vec::new();
    {
        let mut sets: Vec<RepSet> = Vec::new();
        push_n(&mut sets, RepSet::Defined { reps: 3 }, 4);
        push_n(&mut sets, RepSet::Amrap { minimum_reps: 3 }, 1);
        lifts.push(Lift { name: new_string("Weighted Pullup"), sets, weight: WeightScheme::BasedOnReference { multiplier: Multiplier { mantissa: 5, scale: 1 }, offset: (-30) as i64 } });
    }
    {
        let mut sets: Vec<RepSet> = Vec::new();
        push_n(&mut sets, RepSet::Amrap { minimum_reps: 7 }, 3);
        lifts.push(Lift { name: new_string("Pullup"), sets, weight: WeightScheme::NoWeight });
    }
    {
        let mut sets: Vec<RepSet> = Vec::new();
        push_n(&mut sets, RepSet::Defined { reps: 10 }, 3);
        lifts.push(Lift { name: new_string("Barbell Row"), sets, weight: WeightScheme::BasedOnReference { multiplier: Multiplier { mantissa: 65, scale: 2 }, offset: 0 } });
    }
    {
        let mut sets: Vec<RepSet> = Vec::new();
        push_n(&mut sets, RepSet::Defined { reps: 15 }, 2);
        push_n(&mut sets, RepSet::Range { maximum_reps: 25, minimum_reps: 15 }, 1);
        lifts.push(Lift { name: new_string("Face Pull"), sets, weight: WeightScheme::LinearBasedOnPrevious { amount_to_increase: 20 } });
    }
    {
        let mut sets: Vec<RepSet> = Vec::new();
        push_n(&mut sets, RepSet::Defined { reps: 15 }, 2);
        push_n(&mut sets, RepSet::Range { maximum_reps: 25, minimum_reps: 15 }, 1);
        lifts.push(Lift { name: new_string("Cable Curl"), sets, weight: WeightScheme::LinearBasedOnPrevious { amount_to_increase: 20 } });
    }
    let d = Day { name: new_string("Pull"), lifts };
    proof {
        assert(d@.lifts =~~= gzcl_days()[0].lifts);
        assert(d@ =~~= gzcl_days()[0]);
    }
    d
}

fn gzcl_day_1() -> (d: Day)
    ensures
        d@ == gzcl_days()[1],
        d.wf(),
{
    let mut lifts: Vec<Lift> = Vec::new();
    {
        let mut sets: Vec<RepSet> = Vec::new();
        push_n(&mut sets, RepSet::Defined { reps: 3 }, 4);
        push_n(&mut sets, RepSet::Amrap { minimum_reps: 3 }, 1);
        lifts.push(Lift { name: new_string("Bench press"), sets, weight: WeightScheme::BasedOnReference { multiplier: Multiplier { mantissa: 1, scale: 0 }, offset: 0 } });
    }
    {
        let mut sets: Vec<RepSet> = Vec::new();
        push_n(&mut sets, RepSet::Defined { reps: 10 }, 3);
        lifts.push(Lift { name: new_string("Overhead press"), sets, weight: WeightScheme::BasedOnReference { multiplier: Multiplier { mantissa: 5, scale: 1 }, offset: 0 } });
    }
    {
        let mut sets: Vec<RepSet> = Vec::new();
        push_n(&mut sets, RepSet::Defined { reps: 10 }, 3);
        lifts.push(Lift { name: new_string("Incline bench press"), sets, weight: WeightScheme::BasedOnReference { multiplier: Multiplier { mantissa: 6, scale: 1 }, offset: 0 } });
    }
    {
        let mut sets: Vec<RepSet> = Vec::new();
        push_n(&mut sets, RepSet::Amrap { minimum_reps: 15 }, 3);
        lifts.push(Lift { name: new_string("Pushup"), sets, weight: WeightScheme::NoWeight });
    }
    {
        let mut sets: Vec<RepSet> = Vec::new();
        push_n(&mut sets, RepSet::Defined { reps: 15 }, 2);
        push_n(&mut sets, RepSet::Range { maximum_reps: 25, minimum_reps: 15 }, 1);
        lifts.push(Lift { name: new_string("Tricep Cable Pressdown"), sets, weight: WeightScheme::LinearBasedOnPrevious { amount_to_increase: 20 } });
    }
    let d = Day { name: new_string("Push"), lifts };
    proof {
        assert(d@.lifts =~~= gzcl_days()[1].lifts);
        assert(d@ =~~= gzcl_days()[1]);
    }
    d
}

fn gzcl_day_2() -> (d: Day)
    ensures
        d@ == gzcl_days()[2],
        d.wf(),
{
    let mut lifts: Vec<Lift> = Vec::new();
    {
        let mut sets: Vec<RepSet> = Vec::new();
        push_n(&mut sets, RepSet::Defined { reps: 3 }, 4);
        push_n(&mut sets, RepSet::Amrap { minimum_reps: 3 }, 1);
        lifts.push(Lift { name: new_string("Squat"), sets, weight: WeightScheme::BasedOnReference { multiplier: Multiplier { mantissa: 135, scale: 2 }, offset: 0 } });
    }
    {
        let mut sets: Vec<RepSet> = Vec::new();
        push_n(&mut sets, RepSet::Defined { reps: 8 }, 3);
        lifts.push(Lift { name: new_string("Deadlift"), sets, weight: WeightScheme::BasedOnReference { multiplier: Multiplier { mantissa: 125, scale: 2 }, offset: 0 } });
    }
    {
        let mut sets: Vec<RepSet> = Vec::new();
        push_n(&mut sets, RepSet::Defined { reps: 10 }, 3);
        lifts.push(Lift { name: new_string("Romanian Deadlift"), sets, weight: WeightScheme::BasedOnReference { multiplier: Multiplier { mantissa: 675, scale: 3 }, offset: 0 } });
    }
    {
        let mut sets: Vec<RepSet> = Vec::new();
        push_n(&mut sets, RepSet::Defined { reps: 15 }, 2);
        push_n(&mut sets, RepSet::Range { maximum_reps: 25, minimum_reps: 15 }, 1);
        lifts.push(Lift { name: new_string("Leg press"), sets, weight: WeightScheme::LinearBasedOnPrevious { amount_to_increase: 30 } });
    }
    {
        let mut sets: Vec<RepSet> = Vec::new();
        push_n(&mut sets, RepSet::Defined { reps: 15 }, 2);
        push_n(&mut sets, RepSet::Range { maximum_reps: 25, minimum_reps: 15 }, 1);
        lifts.push(Lift { name: new_string("Standing dumbbell calf raise"), sets, weight: WeightScheme::LinearBasedOnPrevious { amount_to_increase: 20 } });
    }
    let d = Day { name: new_string("Legs"), lifts };
    proof {
        assert(d@.lifts =~~= gzcl_days()[2].lifts);
        assert(d@ =~~= gzcl_days()[2]);
    }
    d
}

fn gzcl_day_3() -> (d: Day)
    ensures
        d@ == gzcl_days()[3],
        d.wf(),
{
    let mut lifts: Vec<Lift> = Vec::new();
    {
        let mut sets: Vec<RepSet> = Vec::new();
        push_n(&mut sets, RepSet::Time { seconds: 30 }, 1);
        lifts.push(Lift { name: new_string("Plank"), sets, weight: WeightScheme::Any });
    }
    {
        let mut sets: Vec<RepSet> = Vec::new();
        push_n(&mut sets, RepSet::Any, 3);
        lifts.push(Lift { name: new_string("Ab Rollout"), sets, weight: WeightScheme::NoWeight });
    }
    {
        let mut sets: Vec<RepSet> = Vec::new();
        push_n(&mut sets, RepSet::Any, 3);
        lifts.push(Lift { name: new_string("Cable Core Press"), sets, weight: WeightScheme::Any });
    }
    {
        let mut sets: Vec<RepSet> = Vec::new();
        push_n(&mut sets, RepSet::Any, 3);
        lifts.push(Lift { name: new_string("Bent-knee reverse hyperextension"), sets, weight: WeightScheme::Any });
    }
    {
        let mut sets: Vec<RepSet> = Vec::new();
        push_n(&mut sets, RepSet::Any, 3);
        lifts.push(Lift { name: new_string("Knee raises"), sets, weight: WeightScheme::NoWeight });
    }
    {
        let mut sets: Vec<RepSet> = Vec::new();
        push_n(&mut sets, RepSet::Any, 3);
        lifts.push(Lift { name: new_string("Leg extensions"), sets, weight: WeightScheme::Any });
    }
    let d = Day { name: new_string("Core"), lifts };
    proof {
        assert(d@.lifts =~~= gzcl_days()[3].lifts);
        assert(d@ =~~= gzcl_days()[3]);
    }
    d
}

/// Start the fixed GZCL-based four-day program at the given reference
/// weight: day zero, no workouts completed, the known linear lifts
/// pre-seeded, and the starting reference weight remembered.
pub fn start_gzcl_4day(reference_weight: u64) -> (r: Program)
    ensures
        r@.days == gzcl_days(),
        r@.name == gzcl_name(),
        r@.reference_weight == reference_weight,
        r@.starting_reference_weight == reference_weight,
        r@.workouts_completed == 0,
        r@.current_day == 0,
        r@.current_cycle_attempt_results == Seq::<Seq<LiftAttemptResult>>::empty(),
        r@.weights == gzcl_seed_weights(),
        r.wf(),
{
    let d0 = gzcl_day_0();
    let d1 = gzcl_day_1();
    let d2 = gzcl_day_2();
    let d3 = gzcl_day_3();
    proof {
        assert(gzcl_days()[0].lifts.len() == 5);
        assert(gzcl_days()[1].lifts.len() == 5);
        assert(gzcl_days()[2].lifts.len() == 5);
        assert(d0@.lifts.len() == 5 && d1@.lifts.len() == 5 && d2@.lifts.len() == 5);
        assert(d0.lifts@.len() == d0@.lifts.len());
        assert(d1.lifts@.len() == d1@.lifts.len());
        assert(d2.lifts@.len() == d2@.lifts.len());
        assert(d0.lifts@[3]@ == d0@.lifts[3] && d0.lifts@[4]@ == d0@.lifts[4]);
        assert(d1.lifts@[4]@ == d1@.lifts[4]);
        assert(d2.lifts@[3]@ == d2@.lifts[3] && d2.lifts@[4]@ == d2@.lifts[4]);
        assert(d0.lifts@[3].wf() && d0.lifts@[4].wf());
        assert(d1.lifts@[4].wf());
        assert(d2.lifts@[3].wf() && d2.lifts@[4].wf());
    }
    let mut entries: Vec<(String, u64)> = Vec::new();
    entries.push((d0.lifts[3].format(), 30));
    entries.push((d0.lifts[4].format(), 20));
    entries.push((d1.lifts[4].format(), 20));
    entries.push((d2.lifts[3].format(), 45));
    entries.push((d2.lifts[4].format(), 45));
    let weights = Weights { entries };
    let mut days_vec: Vec<Day> = Vec::new();
    days_vec.push(d0);
    days_vec.push(d1);
    days_vec.push(d2);
    days_vec.push(d3);
    let r = Program {
        days: days_vec,
        name: new_string("GZCL-based 4-day cycle (Pull, Push, Legs, Core)"),
        reference_weight,
        starting_reference_weight: reference_weight,
        workouts_completed: 0,
        weights,
        current_day: 0,
        current_cycle_attempt_results: Vec::new(),
    };
    proof {
        assert(r@.days =~= gzcl_days());
        assert(r@.weights =~= gzcl_seed_weights());
        assert(r@.current_cycle_attempt_results =~= Seq::<Seq<LiftAttemptResult>>::empty());
        assert(program_wf(r@));
    }
    r
}

/// Are two day vectors elementwise equal?
fn days_eq(a: &Vec<Day>, b: &Vec<Day>) -> (r: bool)
    ensures
        r == (a@.map_values(|d: Day| d@) == b@.map_values(|d: Day| d@)),
{
    if a.len() != b.len() {
        proof {
            if a@.map_values(|d: Day| d@) == b@.map_values(|d: Day| d@) {
                assert(a@.map_values(|d: Day| d@).len() == b@.map_values(|d: Day| d@).len());
            }
        }
        return false;
    }
    let mut i: usize = 0;
    while i < a.len()
        invariant
            0 <= i <= a.len() == b.len(),
            forall|j: int| 0 <= j < i ==> #[trigger] a@[j]@ == b@[j]@,
        decreases a.len() - i,
    {
        if !(a[i] == b[i]) {
            proof {
                let ghost ii = i as int;
                if a@.map_values(|d: Day| d@) == b@.map_values(|d: Day| d@) {
                    assert(a@.map_values(|d: Day| d@)[ii] == b@.map_values(|d: Day| d@)[ii]);
                }
            }
            return false;
        }
        i = i + 1;
    }
    proof {
        assert(a@.map_values(|d: Day| d@) =~= b@.map_values(|d: Day| d@));
    }
    true
}

/// Are two recorded-results tables equal?
fn results_eq(a: &Vec<Vec<LiftAttemptResult>>, b: &Vec<Vec<LiftAttemptResult>>) -> (r: bool)
    ensures
        r == (a@.map_values(|v: Vec<LiftAttemptResult>| v@) == b@.map_values(
            |v: Vec<LiftAttemptResult>| v@,
        )),
{
    if a.len() != b.len() {
        proof {
            if a@.map_values(|v: Vec<LiftAttemptResult>| v@) == b@.map_values(
                |v: Vec<LiftAttemptResult>| v@,
            ) {
                assert(a@.map_values(|v: Vec<LiftAttemptResult>| v@).len() == b@.map_values(
                    |v: Vec<LiftAttemptResult>| v@,
                ).len());
            }
        }
        return false;
    }
    let mut i: usize = 0;
    while i < a.len()
        invariant
            0 <= i <= a.len() == b.len(),
            forall|j: int| 0 <= j < i ==> #[trigger] a@[j]@ == b@[j]@,
        decreases a.len() - i,
    {
        let x = &a[i];
        let y = &b[i];
        if x.len() != y.len() {
            proof {
                let ghost ii = i as int;
                if a@.map_values(|v: Vec<LiftAttemptResult>| v@) == b@.map_values(
                    |v: Vec<LiftAttemptResult>| v@,
                ) {
                    assert(a@.map_values(|v: Vec<LiftAttemptResult>| v@)[ii] == b@.map_values(
                        |v: Vec<LiftAttemptResult>| v@,
                    )[ii]);
                    assert(a@[ii]@ == b@[ii]@);
                }
            }
            return false;
        }
        let mut k: usize = 0;
        while k < x.len()
            invariant
                0 <= i < a@.len() == b@.len(),
                x@ == a@[i as int]@,
                y@ == b@[i as int]@,
                0 <= k <= x@.len() == y@.len(),
                forall|j: int| 0 <= j < k ==> x@[j] == y@[j],
            decreases x@.len() - k,
        {
            if !(x[k] == y[k]) {
                proof {
                    let ghost ii = i as int;
                    if a@.map_values(|v: Vec<LiftAttemptResult>| v@) == b@.map_values(
                        |v: Vec<LiftAttemptResult>| v@,
                    ) {
                        assert(a@.map_values(|v: Vec<LiftAttemptResult>| v@)[ii] == b@.map_values(
                            |v: Vec<LiftAttemptResult>| v@,
                        )[ii]);
                        assert(a@[ii]@ == b@[ii]@);
                        assert(x@[k as int] == y@[k as int]);
                    }
                }
                return false;
            }
            k = k + 1;
        }
        proof {
            assert(a@[i as int]@ =~= b@[i as int]@);
        }
        i = i + 1;
    }
    proof {
        assert(a@.map_values(|v: Vec<LiftAttemptResult>| v@) =~= b@.map_values(
            |v: Vec<LiftAttemptResult>| v@,
        ));
    }
    true
}

impl core::cmp::PartialEq for Program {
    /// Two programs are equal iff every field agrees.
    fn eq(&self, other: &Self) -> (r: bool) {
        let r = days_eq(&self.days, &other.days) && self.name == other.name
            && self.reference_weight == other.reference_weight && self.starting_reference_weight
            == other.starting_reference_weight && self.workouts_completed
            == other.workouts_completed && self.weights == other.weights && self.current_day
            == other.current_day && results_eq(
            &self.current_cycle_attempt_results,
            &other.current_cycle_attempt_results,
        );
        proof {
            if r {
                assert(self@ == other@);
            } else {
                assert(self@ != other@);
            }
        }
        r
    }
}

impl vstd::std_specs::cmp::PartialEqSpecImpl for Program {
    open spec fn obeys_eq_spec() -> bool {
        true
    }

    open spec fn eq_spec(&self, other: &Self) -> bool {
        self@ == other@
    }
}

} // verus!
