//! NoVa capacity study: which sinks to study, and the bisection that searches
//! the largest feasible fraction of a sink's nomination.
//!
//! The bisection is specified on exact dyadic fractions: with `steps` halvings
//! every probed scale is `k / 2^steps` for an integer `k`. The state keeps the
//! feasibility answers, so the number of halvings is not bounded; the hydraulic
//! solve that answers "is this scale feasible?" is done by the caller between
//! two calls.

use vstd::prelude::*;
use crate::network::{contains_string, string_views};

verus! {

/// The marginal sinks studied by default.
pub fn default_marginal_sink_ids() -> (r: Vec<&'static str>)
    ensures
        r@.map_values(|s: &str| s@) == seq![
            "sink_88"@,
            "sink_83"@,
            "sink_108"@,
            "sink_125"@,
            "sink_122"@,
        ],
{
    let r = vec!["sink_88", "sink_83", "sink_108", "sink_125", "sink_122"];
    proof {
        assert(r@.map_values(|s: &str| s@) =~= seq![
            "sink_88"@,
            "sink_83"@,
            "sink_108"@,
            "sink_125"@,
            "sink_122"@,
        ]);
    }
    r
}

/// Members of `ids` that occur in `keys`, in the order of `ids`.
pub open spec fn ids_in(ids: Seq<Seq<char>>, keys: Seq<Seq<char>>) -> Seq<Seq<char>>
    decreases ids.len(),
{
    if ids.len() == 0 {
        Seq::empty()
    } else {
        let rest = ids_in(ids.drop_last(), keys);
        if keys.contains(ids.last()) {
            rest.push(ids.last())
        } else {
            rest
        }
    }
}

/// Sinks of `sink_ids` that the scenario nominates (`demand_ids` are the node
/// identifiers with a scenario demand), in the order of `sink_ids`.
pub fn capacity_study_targets(sink_ids: &Vec<String>, demand_ids: &Vec<String>) -> (r: Vec<
    String,
>)
    ensures
        string_views(r@) == ids_in(string_views(sink_ids@), string_views(demand_ids@)),
{
    let mut out: Vec<String> = Vec::new();
    let mut i: usize = 0;
    while i < sink_ids.len()
        invariant
            0 <= i <= sink_ids.len(),
            string_views(out@) == ids_in(
                string_views(sink_ids@).take(i as int),
                string_views(demand_ids@),
            ),
        decreases sink_ids.len() - i,
    {
        proof {
            assert(string_views(sink_ids@).take(i + 1).drop_last() =~= string_views(
                sink_ids@,
            ).take(i as int));
        }
        if contains_string(demand_ids, &sink_ids[i]) {
            let ghost prev = string_views(out@);
            out.push(sink_ids[i].clone());
            proof {
                assert(string_views(out@) =~= prev.push(sink_ids@[i as int]@));
            }
        }
        i = i + 1;
    }
    proof {
        assert(string_views(sink_ids@).take(sink_ids.len() as int) =~= string_views(sink_ids@));
    }
    out
}

/// The default marginal sinks that the scenario nominates, in default order.
pub fn default_study_targets(demand_ids: &Vec<String>) -> (r: Vec<String>)
    ensures
        string_views(r@) == ids_in(
            seq!["sink_88"@, "sink_83"@, "sink_108"@, "sink_125"@, "sink_122"@],
            string_views(demand_ids@),
        ),
{
    let defaults = default_marginal_sink_ids();
    let ghost default_views = defaults@.map_values(|s: &str| s@);
    let mut out: Vec<String> = Vec::new();
    let mut i: usize = 0;
    while i < defaults.len()
        invariant
            0 <= i <= defaults.len(),
            default_views == defaults@.map_values(|s: &str| s@),
            string_views(out@) == ids_in(default_views.take(i as int), string_views(demand_ids@)),
        decreases defaults.len() - i,
    {
        proof {
            assert(default_views.take(i + 1).drop_last() =~= default_views.take(i as int));
        }
        let s = defaults[i].to_string();
        proof {
            vstd::string::to_string_from_display_ensures_for_str(defaults[i as int], s);
        }
        if contains_string(demand_ids, &s) {
            let ghost prev = string_views(out@);
            out.push(s);
            proof {
                assert(string_views(out@) =~= prev.push(default_views[i as int]));
            }
        }
        i = i + 1;
    }
    proof {
        assert(default_views.take(defaults.len() as int) =~= default_views);
    }
    out
}

/// `2^n`.
pub open spec fn two_pow(n: nat) -> nat
    decreases n,
{
    if n == 0 {
        1
    } else {
        2 * two_pow((n - 1) as nat)
    }
}

/// One halving step on the bracket `[lo, hi]`: the midpoint becomes the new lower
/// end when it is feasible, the new upper end otherwise.
pub open spec fn bisection_step(bracket: (int, int), feasible: bool) -> (int, int) {
    let mid = (bracket.0 + bracket.1) / 2;
    if feasible {
        (mid, bracket.1)
    } else {
        (bracket.0, mid)
    }
}

/// Bracket (numerators over `2^steps`) after the given answers, starting from `[0, 1]`.
pub open spec fn bisection_run(steps: nat, answers: Seq<bool>) -> (int, int)
    decreases answers.len(),
{
    if answers.len() == 0 {
        (0, two_pow(steps) as int)
    } else {
        bisection_step(bisection_run(steps, answers.drop_last()), answers.last())
    }
}

/// Search state of the largest feasible fraction of one sink's nomination.
///
/// The scales probed are dyadic: after the answers given so far the bracket is
/// `bisection_run(steps, answers)`, in numerators over `2^steps`, and each
/// probe is the midpoint of the current bracket. The state keeps the answers,
/// so any number of halvings can be made; the caller evaluates each midpoint in
/// its own arithmetic.
pub struct CapacityBisection {
    pub steps: usize,
    pub feasible_at_nominal: bool,
    pub answers: Vec<bool>,
}

impl CapacityBisection {
    /// Well-formed search state: no more answers than halvings, and none when
    /// the nominal solve was feasible.
    pub open spec fn wf(self) -> bool {
        &&& self.answers@.len() <= self.steps
        &&& self.feasible_at_nominal ==> self.answers@.len() == 0
    }

    /// The current bracket, in numerators over `2^steps`.
    pub open spec fn bracket(self) -> (int, int) {
        bisection_run(self.steps as nat, self.answers@)
    }

    /// The largest scale found feasible, in numerators over `2^steps`: the whole
    /// nomination when it was feasible, else the lower end of the bracket (`0`
    /// while no probe has been feasible).
    pub open spec fn best(self) -> int {
        if self.feasible_at_nominal {
            two_pow(self.steps as nat) as int
        } else {
            self.bracket().0
        }
    }

    /// Starts the search, with `steps` halvings, once the nominal solve has been
    /// judged.
    pub fn start(steps: usize, feasible_at_nominal: bool) -> (r: Self)
        ensures
            r.wf(),
            r.steps == steps,
            r.feasible_at_nominal == feasible_at_nominal,
            r.answers@ == Seq::<bool>::empty(),
    {
        CapacityBisection { steps, feasible_at_nominal, answers: Vec::new() }
    }

    /// Whether another midpoint is to be probed: the nominal solve was
    /// infeasible and halvings remain.
    pub fn probe_due(&self) -> (r: bool)
        ensures
            r == (!self.feasible_at_nominal && self.answers@.len() < self.steps),
    {
        !self.feasible_at_nominal && self.answers.len() < self.steps
    }

    /// Records whether the probed midpoint was feasible; returns whether it became
    /// the best scale.
    pub fn record(&mut self, feasible: bool) -> (improved: bool)
        requires
            old(self).wf(),
            !old(self).feasible_at_nominal,
            old(self).answers@.len() < old(self).steps,
        ensures
            final(self).wf(),
            final(self).steps == old(self).steps,
            final(self).feasible_at_nominal == old(self).feasible_at_nominal,
            final(self).answers@ == old(self).answers@.push(feasible),
            final(self).bracket() == bisection_step(old(self).bracket(), feasible),
            final(self).best() == (if feasible {
                (old(self).bracket().0 + old(self).bracket().1) / 2
            } else {
                old(self).best()
            }),
            improved == feasible,
    {
        self.answers.push(feasible);
        proof {
            assert(self.answers@.drop_last() =~= old(self).answers@);
        }
        feasible
    }

    /// Position of the last probe answered feasible, whose midpoint is the best
    /// scale (see `lemma_best_is_last_feasible_probe`); `None` when no probe was.
    pub fn last_feasible(&self) -> (r: Option<usize>)
        ensures
            match r {
                Some(i) => i < self.answers@.len() && self.answers@[i as int] && forall|j: int|
                    i < j < self.answers@.len() ==> !self.answers@[j],
                None => forall|j: int| 0 <= j < self.answers@.len() ==> !self.answers@[j],
            },
    {
        let mut i: usize = self.answers.len();
        while i > 0
            invariant
                0 <= i <= self.answers@.len(),
                forall|j: int| i <= j < self.answers@.len() ==> !self.answers@[j],
            decreases i,
        {
            i = i - 1;
            if self.answers[i] {
                return Some(i);
            }
        }
        None
    }
}

/// The lower end of the bracket is the midpoint of the last probe answered
/// feasible, or `0` when none was.
pub proof fn lemma_best_is_last_feasible_probe(steps: nat, answers: Seq<bool>, i: int)
    requires
        0 <= i < answers.len(),
        answers[i],
        forall|j: int| i < j < answers.len() ==> !answers[j],
    ensures
        bisection_run(steps, answers).0 == bisection_probe(steps, answers, i),
    decreases answers.len(),
{
    let last = answers.len() - 1;
    let prev = answers.drop_last();
    assert(answers.take(last) =~= prev);
    if i < last {
        lemma_best_is_last_feasible_probe(steps, prev, i);
        assert(answers.take(i) =~= prev.take(i));
    }
}

/// The bracket always halves: after `n ≤ steps` answers it spans `2^(steps-n)`
/// and stays inside `[0, 2^steps]`.
pub proof fn lemma_bisection_bracket(steps: nat, answers: Seq<bool>)
    requires
        answers.len() <= steps,
    ensures
        bisection_run(steps, answers).1 - bisection_run(steps, answers).0 == two_pow(
            (steps - answers.len()) as nat,
        ),
        0 <= bisection_run(steps, answers).0,
        bisection_run(steps, answers).1 <= two_pow(steps),
    decreases answers.len(),
{
    if answers.len() > 0 {
        let prev = answers.drop_last();
        lemma_bisection_bracket(steps, prev);
        let e = (steps - answers.len()) as nat;
        assert(two_pow((steps - prev.len()) as nat) == 2 * two_pow(e));
    }
}

/// When no probe is feasible the search ends at a zero fraction.
pub proof fn lemma_bisection_all_infeasible(steps: nat, answers: Seq<bool>)
    requires
        answers.len() <= steps,
        forall|i: int| 0 <= i < answers.len() ==> !answers[i],
    ensures
        bisection_run(steps, answers).0 == 0,
    decreases answers.len(),
{
    if answers.len() > 0 {
        lemma_bisection_all_infeasible(steps, answers.drop_last());
    }
}

/// The lower end of the bracket never decreases and the upper end never increases.
pub proof fn lemma_bisection_monotone(steps: nat, answers: Seq<bool>, n: int)
    requires
        answers.len() <= steps,
        0 <= n <= answers.len(),
    ensures
        bisection_run(steps, answers.take(n)).0 <= bisection_run(steps, answers).0,
        bisection_run(steps, answers).1 <= bisection_run(steps, answers.take(n)).1,
    decreases answers.len() - n,
{
    if n < answers.len() {
        let next = answers.take(n + 1);
        assert(next.drop_last() =~= answers.take(n));
        lemma_bisection_bracket(steps, answers.take(n));
        lemma_bisection_monotone(steps, answers, n + 1);
    } else {
        assert(answers.take(n) =~= answers);
    }
}

/// Midpoint probed after the first `i` answers.
pub open spec fn bisection_probe(steps: nat, answers: Seq<bool>, i: int) -> int {
    (bisection_run(steps, answers.take(i)).0 + bisection_run(steps, answers.take(i)).1) / 2
}

/// Over a whole run, the lower end is `0` or a probe found feasible, and the
/// upper end is the full nomination (`2^steps`) or a probe found infeasible;
/// once all `steps` halvings are done the two ends are adjacent numerators.
/// So the fraction found is feasible (or zero) and the next fraction up is not
/// (or is the nomination itself, which was judged infeasible before the search).
pub proof fn lemma_bisection_ends_on_answers(steps: nat, answers: Seq<bool>)
    requires
        answers.len() <= steps,
    ensures
        bisection_run(steps, answers).0 == 0 || exists|i: int|
            0 <= i < answers.len() && answers[i] && #[trigger] bisection_probe(steps, answers, i)
                == bisection_run(steps, answers).0,
        bisection_run(steps, answers).1 == two_pow(steps) || exists|i: int|
            0 <= i < answers.len() && !answers[i] && #[trigger] bisection_probe(steps, answers, i)
                == bisection_run(steps, answers).1,
        answers.len() == steps ==> bisection_run(steps, answers).1 == bisection_run(steps, answers).0
            + 1,
    decreases answers.len(),
{
    lemma_bisection_bracket(steps, answers);
    if answers.len() > 0 {
        let prev = answers.drop_last();
        let last = (answers.len() - 1) as int;
        lemma_bisection_ends_on_answers(steps, prev);
        assert(answers.take(last) =~= prev);
        assert forall|i: int| 0 <= i < prev.len() implies bisection_probe(steps, answers, i)
            == bisection_probe(steps, prev, i) by {
            assert(answers.take(i) =~= prev.take(i));
        }
        let run = bisection_run(steps, answers);
        let before = bisection_run(steps, prev);
        assert(bisection_probe(steps, answers, last) == (before.0 + before.1) / 2);
        if answers.last() {
            assert(run.1 == before.1);
            if before.1 != two_pow(steps) {
                let i = choose|i: int|
                    0 <= i < prev.len() && !prev[i] && #[trigger] bisection_probe(steps, prev, i)
                        == before.1;
                assert(bisection_probe(steps, answers, i) == run.1);
                assert(!answers[i]);
            }
            assert(answers[last] && bisection_probe(steps, answers, last) == run.0);
        } else {
            assert(run.0 == before.0);
            if before.0 != 0 {
                let i = choose|i: int|
                    0 <= i < prev.len() && prev[i] && #[trigger] bisection_probe(steps, prev, i)
                        == before.0;
                assert(bisection_probe(steps, answers, i) == run.0);
                assert(answers[i]);
            }
            assert(!answers[last] && bisection_probe(steps, answers, last) == run.1);
        }
    }
}

} // verus!
