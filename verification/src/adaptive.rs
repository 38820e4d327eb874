//! Parameters that adapt to the churn of the network.

use std::collections::VecDeque;
use vstd::prelude::*;

verus! {

/// How many outcomes of remote calls are remembered.
pub const QUERY_STATS_WINDOW: usize = 100;

/// The bucket size without any churn.
pub const MIN_K: usize = 10;

/// The bucket size when every call fails.
pub const MAX_K: usize = 30;

/// The number of candidates of a lookup round without any churn.
pub const MIN_ALPHA: usize = 2;

/// The number of candidates of a lookup round when every call fails.
pub const MAX_ALPHA: usize = 5;

/// The default bucket size and replication factor.
pub const K_DEFAULT: usize = 20;

/// The default number of candidates of a lookup round.
pub const ALPHA_DEFAULT: usize = 3;

/// The number of failed calls.
pub open spec fn failures(history: Seq<bool>) -> nat
    decreases history.len(),
{
    if history.len() == 0 {
        0
    } else {
        failures(history.drop_last()) + if history.last() {
            0nat
        } else {
            1nat
        }
    }
}

/// The bucket size for a churn of `failed` calls out of `calls`: 10 plus twenty times the
/// churn rate, rounded to the nearest whole number, halves up.
pub open spec fn k_for_churn(failed: nat, calls: nat) -> nat {
    10 + (40 * failed + calls) / (2 * calls)
}

/// The number of candidates of a lookup round for a churn of `failed` calls out of `calls`: 2 plus
/// three times the churn rate, rounded to the nearest whole number, halves up.
pub open spec fn alpha_for_churn(failed: nat, calls: nat) -> nat {
    2 + (6 * failed + calls) / (2 * calls)
}

/// The latest outcomes of a list, as many as are remembered.
pub open spec fn latest_outcomes(outcomes: Seq<bool>) -> Seq<bool> {
    if outcomes.len() > QUERY_STATS_WINDOW {
        outcomes.skip(outcomes.len() - QUERY_STATS_WINDOW)
    } else {
        outcomes
    }
}

/// What the adaptive parameters hold.
#[verifier::ext_equal]
pub struct ParamsView {
    /// The current bucket size.
    pub k: nat,
    /// The current number of candidates of a lookup round.
    pub alpha: nat,
    /// The outcomes of the latest calls, oldest first.
    pub history: Seq<bool>,
}

impl ParamsView {
    /// No more outcomes are remembered than the window holds.
    pub open spec fn wf(self) -> bool {
        self.history.len() <= QUERY_STATS_WINDOW
    }

    /// The parameters with the bucket size that the remembered churn calls for.
    pub open spec fn adapted(self) -> ParamsView {
        if self.history.len() == 0 {
            self
        } else {
            ParamsView { k: k_for_churn(failures(self.history), self.history.len()), ..self }
        }
    }

    /// The parameters with the lookup parallelism that the remembered churn calls for.
    pub open spec fn paced(self) -> ParamsView {
        if self.history.len() == 0 {
            self
        } else {
            ParamsView {
                alpha: alpha_for_churn(failures(self.history), self.history.len()),
                ..self
            }
        }
    }

    /// The parameters once the outcome of another call is known. The more of the remembered
    /// calls succeed, the smaller the buckets and the narrower the lookups.
    pub open spec fn churned(self, success: bool) -> ParamsView {
        let all = self.history.push(success);
        let kept = if all.len() > QUERY_STATS_WINDOW {
            all.drop_first()
        } else {
            all
        };
        (ParamsView { history: kept, ..self }).adapted().paced()
    }
}

impl ParamsView {
    /// The parameters once the outcomes of some more calls are known, one after the other.
    pub open spec fn recorded(self, outcomes: Seq<bool>) -> ParamsView
        decreases outcomes.len(),
    {
        if outcomes.len() == 0 {
            self
        } else {
            self.recorded(outcomes.drop_last()).churned(outcomes.last())
        }
    }
}

/// Bucket size and lookup parallelism, adjusted to the observed churn.
pub struct AdaptiveParams {
    k: usize,
    alpha: usize,
    churn_history: VecDeque<bool>,
}

impl View for AdaptiveParams {
    type V = ParamsView;

    closed spec fn view(&self) -> ParamsView {
        ParamsView { k: self.k as nat, alpha: self.alpha as nat, history: self.churn_history@ }
    }
}

impl AdaptiveParams {
    /// The invariant of the parameters.
    pub open spec fn wf(&self) -> bool {
        self@.wf()
    }

    /// Creates parameters with initial values and no churn observed.
    pub fn new(k: usize, alpha: usize) -> (params: Self)
        ensures
            params.wf(),
            params@ == (ParamsView { k: k as nat, alpha: alpha as nat, history: Seq::empty() }),
    {
        AdaptiveParams { k, alpha, churn_history: VecDeque::new() }
    }

    /// Records whether a call succeeded and adapts the bucket size and the lookup parallelism;
    /// tells whether the bucket size changed.
    pub fn record_churn(&mut self, success: bool) -> (changed: bool)
        requires
            old(self).wf(),
        ensures
            final(self).wf(),
            final(self)@ == old(self)@.churned(success),
            MIN_K <= final(self)@.k <= MAX_K,
            MIN_ALPHA <= final(self)@.alpha <= MAX_ALPHA,
            final(self)@.history == latest_outcomes(old(self)@.history.push(success)),
            changed == (final(self)@.k != old(self)@.k),
    {
        let ghost before = self@;
        self.churn_history.push_back(success);
        if self.churn_history.len() > QUERY_STATS_WINDOW {
            let _ = self.churn_history.pop_front();
            assert(self.churn_history@ =~= before.history.push(success).drop_first());
        }
        let old_k = self.k;
        self.update_k();
        self.update_alpha();
        proof {
            lemma_k_stays_in_range(before, success);
            lemma_churned_window(before, success);
        }
        old_k != self.k
    }

    /// Recomputes the bucket size from the remembered churn.
    pub fn update_k(&mut self)
        requires
            old(self).wf(),
        ensures
            final(self).wf(),
            final(self)@ == old(self)@.adapted(),
    {
        let calls = self.churn_history.len();
        if calls == 0 {
            return;
        }
        let failed = self.failed_calls();
        self.k = MIN_K + (40 * failed + calls) / (2 * calls);
    }

    /// Recomputes the number of candidates of a lookup round from the remembered churn.
    pub fn update_alpha(&mut self)
        requires
            old(self).wf(),
        ensures
            final(self).wf(),
            final(self)@ == old(self)@.paced(),
    {
        let calls = self.churn_history.len();
        if calls == 0 {
            return;
        }
        let failed = self.failed_calls();
        self.alpha = MIN_ALPHA + (6 * failed + calls) / (2 * calls);
    }

    fn failed_calls(&self) -> (failed: usize)
        requires
            self.wf(),
        ensures
            failed == failures(self@.history),
            failed <= self@.history.len(),
    {
        let calls = self.churn_history.len();
        let ghost history = self.churn_history@;
        let mut failed: usize = 0;
        assert(history.take(0) =~= Seq::empty());
        for i in 0..calls
            invariant
                history == self.churn_history@,
                calls == history.len(),
                failed == failures(history.take(i as int)),
                failed <= i,
        {
            assert(history.take(i + 1).drop_last() =~= history.take(i as int));
            if !self.churn_history[i] {
                failed = failed + 1;
            }
        }
        assert(history.take(calls as int) =~= history);
        failed
    }

    /// The current bucket size.
    pub fn current_k(&self) -> (k: usize)
        ensures
            k == self@.k,
    {
        self.k
    }

    /// The current number of candidates of a lookup round.
    pub fn current_alpha(&self) -> (alpha: usize)
        ensures
            alpha == self@.alpha,
    {
        self.alpha
    }
}

/// No more calls fail than are made.
pub proof fn lemma_failures_bounded(history: Seq<bool>)
    ensures
        failures(history) <= history.len(),
    decreases history.len(),
{
    if history.len() > 0 {
        lemma_failures_bounded(history.drop_last());
    }
}

/// Once a call was observed the bucket size lies between 10 and 30, and the number of candidates
/// of a lookup round between 2 and 5.
pub proof fn lemma_k_stays_in_range(params: ParamsView, success: bool)
    requires
        params.wf(),
    ensures
        MIN_K <= params.churned(success).k <= MAX_K,
        MIN_ALPHA <= params.churned(success).alpha <= MAX_ALPHA,
        params.churned(success).wf(),
{
    let history = params.churned(success).history;
    lemma_failures_bounded(history);
    lemma_k_for_churn(failures(history), failures(history), history.len());
    lemma_alpha_for_churn(failures(history), failures(history), history.len());
}

/// The bucket size grows with the churn rate, from 10 without failures to 30 when every
/// call fails.
pub proof fn lemma_k_for_churn(fewer: nat, more: nat, calls: nat)
    requires
        fewer <= more <= calls,
        calls > 0,
    ensures
        k_for_churn(0, calls) == MIN_K,
        k_for_churn(fewer, calls) <= k_for_churn(more, calls),
        k_for_churn(calls, calls) == MAX_K,
        MIN_K <= k_for_churn(fewer, calls) <= MAX_K,
{
    let c = calls as int;
    assert(c / (2 * c) == 0) by (nonlinear_arith)
        requires
            c > 0,
    ;
    assert((41 * c) / (2 * c) == 20) by (nonlinear_arith)
        requires
            c > 0,
    ;
    let a = 40 * fewer + c;
    let b = 40 * more + c;
    assert(a / (2 * c) <= b / (2 * c) <= (41 * c) / (2 * c)) by (nonlinear_arith)
        requires
            0 <= a <= b <= 41 * c,
            c > 0,
    ;
    assert(0 <= a / (2 * c)) by (nonlinear_arith)
        requires
            0 <= a,
            c > 0,
    ;
}

/// The number of candidates of a lookup round grows with the churn rate, from 2 without failures
/// to 5 when every call fails.
pub proof fn lemma_alpha_for_churn(fewer: nat, more: nat, calls: nat)
    requires
        fewer <= more <= calls,
        calls > 0,
    ensures
        alpha_for_churn(0, calls) == MIN_ALPHA,
        alpha_for_churn(fewer, calls) <= alpha_for_churn(more, calls),
        alpha_for_churn(calls, calls) == MAX_ALPHA,
        MIN_ALPHA <= alpha_for_churn(fewer, calls) <= MAX_ALPHA,
{
    let c = calls as int;
    assert(c / (2 * c) == 0) by (nonlinear_arith)
        requires
            c > 0,
    ;
    assert((7 * c) / (2 * c) == 3) by (nonlinear_arith)
        requires
            c > 0,
    ;
    let a = 6 * fewer + c;
    let b = 6 * more + c;
    assert(a / (2 * c) <= b / (2 * c) <= (7 * c) / (2 * c)) by (nonlinear_arith)
        requires
            0 <= a <= b <= 7 * c,
            c > 0,
    ;
    assert(0 <= a / (2 * c)) by (nonlinear_arith)
        requires
            0 <= a,
            c > 0,
    ;
}

/// The outcomes that are remembered are always the latest hundred of all that were recorded, in
/// their order, or all of them where there are fewer.
pub proof fn lemma_window_keeps_latest(params: ParamsView, outcomes: Seq<bool>)
    requires
        params.wf(),
    ensures
        params.recorded(outcomes).wf(),
        ({
            let all = params.history + outcomes;
            let kept = params.recorded(outcomes).history;
            &&& kept == latest_outcomes(all)
            &&& kept.len() == if all.len() < 100 {
                all.len()
            } else {
                100
            }
            &&& forall|i: int|
                0 <= i < kept.len() ==> #[trigger] kept[i] == all[i + all.len() - kept.len()]
        }),
    decreases outcomes.len(),
{
    let all = params.history + outcomes;
    if outcomes.len() == 0 {
        assert(all =~= params.history);
    } else {
        let front = outcomes.drop_last();
        lemma_window_keeps_latest(params, front);
        let before = params.history + front;
        assert(all =~= before.push(outcomes.last()));
        assert(params.recorded(outcomes).history =~= latest_outcomes(all));
    }
}

/// The number of failed calls is the number of outcomes that are failures.
pub proof fn lemma_failures_are_counted(history: Seq<bool>)
    ensures
        failures(history) == history.filter(|success: bool| !success).len(),
    decreases history.len(),
{
    reveal(Seq::filter);
    if history.len() > 0 {
        lemma_failures_are_counted(history.drop_last());
    }
}

/// The parameters follow from the latest hundred outcomes alone. The bucket size is 10 plus twenty
/// times the share of failures among them, and the parallelism 2 plus three times that share, each
/// rounded to the nearest whole number: `2n * (k - 10)` differs from `40f` by at most `n` for `f`
/// failures among `n` calls.
pub proof fn lemma_parameters_follow_recent_churn(params: ParamsView, outcomes: Seq<bool>)
    requires
        params.wf(),
        outcomes.len() > 0,
    ensures
        ({
            let after = params.recorded(outcomes);
            let all = params.history + outcomes;
            let recent = if all.len() > 100 {
                all.skip(all.len() - 100)
            } else {
                all
            };
            let failed = recent.filter(|success: bool| !success).len();
            let calls = recent.len();
            &&& after.k >= 10
            &&& 2 * calls * (after.k - 10) <= 40 * failed + calls < 2 * calls * (after.k - 10 + 1)
            &&& after.alpha >= 2
            &&& 2 * calls * (after.alpha - 2) <= 6 * failed + calls < 2 * calls * (after.alpha - 2
                + 1)
        }),
{
    lemma_window_keeps_latest(params, outcomes);
    let recent = params.recorded(outcomes).history;
    lemma_failures_are_counted(recent);
    let c = recent.len() as int;
    let f = failures(recent) as int;
    let x = 40 * f + c;
    let y = 6 * f + c;
    assert(2 * c * (x / (2 * c)) <= x < 2 * c * (x / (2 * c) + 1)) by (nonlinear_arith)
        requires
            c > 0,
            x >= 0,
    ;
    assert(2 * c * (y / (2 * c)) <= y < 2 * c * (y / (2 * c) + 1)) by (nonlinear_arith)
        requires
            c > 0,
            y >= 0,
    ;
    assert(0 <= x / (2 * c) && 0 <= y / (2 * c)) by (nonlinear_arith)
        requires
            c > 0,
            x >= 0,
            y >= 0,
    ;
}

/// Recording an outcome with a full window drops the oldest one and no other.
pub proof fn lemma_churned_window(params: ParamsView, success: bool)
    requires
        params.wf(),
    ensures
        params.churned(success).history == latest_outcomes(params.history.push(success)),
{
    lemma_window_keeps_latest(params, seq![success]);
    assert(seq![success].drop_last() =~= Seq::empty());
    assert(params.recorded(Seq::empty()) == params);
    assert(params.recorded(seq![success]) == params.churned(success));
    assert(params.history + seq![success] =~= params.history.push(success));
}

} // verus!
