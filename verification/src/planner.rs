use vstd::prelude::*;

use crate::net::{RoutingOptions, RoutingStrategy};
use crate::tour::TurnPlannerModel;
use crate::field::SwathType;

verus! {

/// Routing with a `TurnRadiusAware` request resolved to a concrete row skip of
/// `required_stride`; every other strategy passes through unchanged.
pub fn resolve_routing(routing: RoutingOptions, required_stride: usize) -> (r: RoutingOptions)
    ensures
        routing.strategy is TurnRadiusAware ==> r == (RoutingOptions {
            strategy: RoutingStrategy::SkipRows { stride: required_stride },
            local_improvement_passes: routing.local_improvement_passes,
        }),
        !(routing.strategy is TurnRadiusAware) ==> r == routing,
{
    match routing.strategy {
        RoutingStrategy::TurnRadiusAware => RoutingOptions {
            strategy: RoutingStrategy::SkipRows { stride: required_stride },
            local_improvement_passes: routing.local_improvement_passes,
        },
        _ => routing,
    }
}

/// First row-skip stride the escalation ladder tries: the requested stride
/// (at least 1), the turn model's required stride for `TurnRadiusAware`, and
/// 1 for every other strategy.
pub open spec fn ladder_base_stride(strategy: RoutingStrategy, required_stride: int) -> int {
    match strategy {
        RoutingStrategy::SkipRows { stride } => if stride >= 1 { stride as int } else { 1 },
        RoutingStrategy::TurnRadiusAware => required_stride,
        _ => 1,
    }
}

/// See `ladder_base_stride`.
pub fn base_stride(strategy: RoutingStrategy, required_stride: usize) -> (r: usize)
    ensures
        r == ladder_base_stride(strategy, required_stride as int),
{
    match strategy {
        RoutingStrategy::SkipRows { stride } => if stride >= 1 { stride } else { 1 },
        RoutingStrategy::TurnRadiusAware => required_stride,
        _ => 1,
    }
}

/// Turn models tried in order: the requested one, then Reeds-Shepp and
/// Sharper, each only if not already in the list.
pub open spec fn model_ladder(requested: TurnPlannerModel) -> Seq<TurnPlannerModel> {
    seq![requested] + (if requested != TurnPlannerModel::ReedsShepp {
        seq![TurnPlannerModel::ReedsShepp]
    } else {
        Seq::empty()
    }) + (if requested != TurnPlannerModel::Sharper {
        seq![TurnPlannerModel::Sharper]
    } else {
        Seq::empty()
    })
}

/// See `model_ladder`.
pub fn fallback_models(requested: TurnPlannerModel) -> (out: Vec<TurnPlannerModel>)
    ensures
        out@ == model_ladder(requested),
        out@[0] == requested,
        forall|a: int, b: int| 0 <= a < b < out.len() ==> out@[a] != out@[b],
        out@.contains(TurnPlannerModel::ReedsShepp),
        out@.contains(TurnPlannerModel::Sharper),
        out.len() == if requested == TurnPlannerModel::ReedsShepp || requested == TurnPlannerModel::Sharper { 2int } else { 3int },
{
    let mut out: Vec<TurnPlannerModel> = Vec::new();
    out.push(requested);
    if requested != TurnPlannerModel::ReedsShepp {
        out.push(TurnPlannerModel::ReedsShepp);
    }
    if requested != TurnPlannerModel::Sharper {
        out.push(TurnPlannerModel::Sharper);
    }
    assert(out@ =~= model_ladder(requested));
    proof {
        lemma_ladder_tries_both_fallbacks(requested);
    }
    out
}

/// Whatever model is requested, the ladder tries it first and then both
/// Reeds-Shepp and Sharper: three models, or two when the request is one of
/// those, none twice.
pub proof fn lemma_ladder_tries_both_fallbacks(requested: TurnPlannerModel)
    ensures
        model_ladder(requested)[0] == requested,
        model_ladder(requested).contains(TurnPlannerModel::ReedsShepp),
        model_ladder(requested).contains(TurnPlannerModel::Sharper),
        model_ladder(requested).len() == if requested == TurnPlannerModel::ReedsShepp || requested
            == TurnPlannerModel::Sharper { 2int } else { 3int },
        forall|a: int, b: int|
            0 <= a < b < model_ladder(requested).len() ==> model_ladder(requested)[a] != model_ladder(requested)[b],
{
    let l = model_ladder(requested);
    if requested == TurnPlannerModel::ReedsShepp {
        assert(l[0] == TurnPlannerModel::ReedsShepp);
        assert(l[1] == TurnPlannerModel::Sharper);
    } else if requested == TurnPlannerModel::Sharper {
        assert(l[1] == TurnPlannerModel::ReedsShepp);
        assert(l[0] == TurnPlannerModel::Sharper);
    } else {
        assert(l[1] == TurnPlannerModel::ReedsShepp);
        assert(l[2] == TurnPlannerModel::Sharper);
    }
}

/// Number of strides tried per turn model: the base stride and three wider.
pub const STRIDES_PER_MODEL: usize = 4;

/// One planning attempt of the escalation ladder.
#[derive(Debug, Clone, Copy, PartialEq, Eq, Structural)]
pub struct Attempt {
    pub model: TurnPlannerModel,
    pub stride: usize,
}

impl Attempt {
    /// Whether this attempt departs from the request (another model or a
    /// wider stride), which the plan reports as a warning.
    pub fn escalated_from(&self, requested: TurnPlannerModel, base: usize) -> (r: bool)
        ensures
            r == (self.model != requested || self.stride != base),
    {
        self.model != requested || self.stride != base
    }
}

/// Attempt `i` of the ladder: every model in turn, each with strides
/// `base ..= base + 3`.
pub open spec fn ladder_attempt(models: Seq<TurnPlannerModel>, base: int, i: int) -> Attempt {
    Attempt { model: models[i / 4], stride: (base + i % 4) as usize }
}

/// The attempts of the escalation ladder, in order.
pub fn escalation_attempts(requested: TurnPlannerModel, base: usize) -> (out: Vec<Attempt>)
    requires
        base <= usize::MAX - 3,
    ensures
        out.len() == 4 * model_ladder(requested).len(),
        forall|i: int| 0 <= i < out.len() ==> #[trigger] out@[i] == ladder_attempt(model_ladder(requested), base as int, i),
{
    let models = fallback_models(requested);
    let mut out: Vec<Attempt> = Vec::new();
    let mut m: usize = 0;
    while m < models.len()
        invariant
            base <= usize::MAX - 3,
            models@ == model_ladder(requested),
            m <= models.len(),
            out.len() == 4 * m,
            forall|i: int| 0 <= i < out.len() ==> #[trigger] out@[i] == ladder_attempt(models@, base as int, i),
        decreases models.len() - m,
    {
        let mut k: usize = 0;
        while k < STRIDES_PER_MODEL
            invariant
                base <= usize::MAX - 3,
                m < models.len(),
                k <= 4,
                out.len() == 4 * m + k,
                forall|i: int| 0 <= i < out.len() ==> #[trigger] out@[i] == ladder_attempt(models@, base as int, i),
            decreases 4 - k,
        {
            out.push(Attempt { model: models[m], stride: base + k });
            assert(((4 * m + k) as int) / 4 == m as int && ((4 * m + k) as int) % 4 == k as int);
            k = k + 1;
        }
        m = m + 1;
    }
    out
}

/// Only the first attempt of the ladder is the plan as requested; every later
/// one changes the model or widens the stride.
pub proof fn lemma_only_first_attempt_is_unescalated(requested: TurnPlannerModel, base: int, i: int)
    requires
        0 <= i < 4 * model_ladder(requested).len(),
        0 <= base <= usize::MAX - 3,
    ensures
        ({
            let a = ladder_attempt(model_ladder(requested), base, i);
            (a.model == requested && a.stride == base) <==> i == 0
        }),
{
    let models = model_ladder(requested);
    assert(models[0] == requested);
    assert(forall|a: int, b: int| 0 <= a < b < models.len() ==> models[a] != models[b]);
    if i / 4 > 0 {
        assert(models[i / 4] != models[0]);
    }
}

/// An attempt and its violation count.
#[derive(Debug, Clone, Copy, PartialEq, Eq, Structural)]
pub struct Judged {
    pub index: usize,
    pub violations: usize,
}

/// Progress of the escalation ladder: the next attempt to judge, and the best
/// attempt so far with its violation count.
#[derive(Debug, Clone, Copy, PartialEq, Eq, Structural)]
pub struct Escalation {
    pub next: usize,
    pub best: Option<Judged>,
}

/// What to do after judging an attempt.
#[derive(Debug, Clone, Copy, PartialEq, Eq, Structural)]
pub enum EscalationAction {
    /// Plan and validate attempt `i`.
    Try(usize),
    /// Attempt `i` has no violation: use it.
    Accept(usize),
    /// Every attempt has violations: use attempt `i`, which has `v`, the fewest.
    Settle(usize, usize),
}

/// Best attempt after one more judged attempt with `v` violations: the new
/// one only when strictly better, so ties keep the earlier attempt.
pub open spec fn better_best(best: Option<Judged>, i: usize, v: usize) -> Option<Judged> {
    match best {
        None => Some(Judged { index: i, violations: v }),
        Some(b) => if v < b.violations { Some(Judged { index: i, violations: v }) } else { Some(b) },
    }
}

/// State after judging the next attempt.
pub open spec fn ladder_state(s: Escalation, v: usize) -> Escalation {
    Escalation { next: (s.next + 1) as usize, best: better_best(s.best, s.next, v) }
}

/// Action after judging the next attempt of `count`.
pub open spec fn ladder_action(s: Escalation, count: int, v: usize) -> EscalationAction {
    if v == 0 {
        EscalationAction::Accept(s.next)
    } else if s.next + 1 < count {
        EscalationAction::Try((s.next + 1) as usize)
    } else {
        match better_best(s.best, s.next, v) {
            Some(b) => EscalationAction::Settle(b.index, b.violations),
            None => EscalationAction::Settle(s.next, v),
        }
    }
}

impl Escalation {
    /// Start the ladder over `attempt_count` attempts: try the first.
    pub fn start(attempt_count: usize) -> (r: (Escalation, EscalationAction))
        requires
            attempt_count > 0,
        ensures
            r.0 == (Escalation { next: 0, best: None }),
            r.1 == EscalationAction::Try(0),
    {
        (Escalation { next: 0, best: None }, EscalationAction::Try(0))
    }

    /// Judge the pending attempt, which left `violations` corridor violations.
    pub fn judge(&self, attempt_count: usize, violations: usize) -> (r: (Escalation, EscalationAction))
        requires
            self.next < attempt_count,
        ensures
            r.0 == ladder_state(*self, violations),
            r.1 == ladder_action(*self, attempt_count as int, violations),
    {
        let i = self.next;
        let best = match self.best {
            None => Some(Judged { index: i, violations }),
            Some(b) => if violations < b.violations { Some(Judged { index: i, violations }) } else { Some(b) },
        };
        let state = Escalation { next: i + 1, best };
        let action = if violations == 0 {
            EscalationAction::Accept(i)
        } else if i + 1 < attempt_count {
            EscalationAction::Try(i + 1)
        } else {
            match best {
                Some(b) => EscalationAction::Settle(b.index, b.violations),
                None => EscalationAction::Settle(i, violations),
            }
        };
        (state, action)
    }
}

/// Ladder state after judging attempts `0..k` with violations `vs`.
pub open spec fn ladder_after(vs: Seq<usize>, k: int) -> Escalation
    decreases k,
{
    if k <= 0 {
        Escalation { next: 0, best: None }
    } else {
        ladder_state(ladder_after(vs, k - 1), vs[k - 1])
    }
}

proof fn lemma_ladder_after_facts(vs: Seq<usize>, k: int)
    requires
        0 <= k <= vs.len(),
        vs.len() <= usize::MAX,
    ensures
        ladder_after(vs, k).next == k,
        k == 0 <==> ladder_after(vs, k).best is None,
        ladder_after(vs, k).best matches Some(b) ==> {
            &&& 0 <= b.index < k
            &&& b.violations == vs[b.index as int]
            &&& forall|j: int| 0 <= j < k ==> b.violations <= #[trigger] vs[j]
            &&& forall|j: int| 0 <= j < b.index ==> b.violations < #[trigger] vs[j]
        },
    decreases k,
{
    if k > 0 {
        lemma_ladder_after_facts(vs, k - 1);
    }
}

/// Judging the attempts in order stops at the first one without violations.
pub proof fn lemma_ladder_accepts_first_feasible(vs: Seq<usize>, k: int)
    requires
        0 <= k < vs.len(),
        vs.len() <= usize::MAX,
        vs[k] == 0,
        forall|j: int| 0 <= j < k ==> #[trigger] vs[j] != 0,
    ensures
        forall|j: int| 0 <= j < k ==> ladder_action(ladder_after(vs, j), vs.len() as int, vs[j]) == EscalationAction::Try((j + 1) as usize),
        ladder_action(ladder_after(vs, k), vs.len() as int, vs[k]) == EscalationAction::Accept(k as usize),
{
    assert forall|j: int| 0 <= j < k implies ladder_action(ladder_after(vs, j), vs.len() as int, vs[j]) == EscalationAction::Try((j + 1) as usize) by {
        lemma_ladder_after_facts(vs, j);
    }
    lemma_ladder_after_facts(vs, k);
}

/// When no attempt is free of violations, the ladder settles on the first
/// attempt with the fewest.
pub proof fn lemma_ladder_settles_on_first_minimum(vs: Seq<usize>)
    requires
        0 < vs.len() <= usize::MAX,
        forall|j: int| 0 <= j < vs.len() ==> #[trigger] vs[j] != 0,
    ensures
        ({
            let last = vs.len() - 1;
            let action = ladder_action(ladder_after(vs, last), vs.len() as int, vs[last]);
            action matches EscalationAction::Settle(i, m) && {
                &&& 0 <= i < vs.len()
                &&& m == vs[i as int]
                &&& forall|j: int| 0 <= j < vs.len() ==> m <= #[trigger] vs[j]
                &&& forall|j: int| 0 <= j < i ==> m < #[trigger] vs[j]
            }
        }),
{
    let last = vs.len() - 1;
    lemma_ladder_after_facts(vs, last);
    lemma_ladder_after_facts(vs, vs.len() as int);
}

/// Positions `i < upto` of routed segments that are not straight connectors,
/// in order.
pub open spec fn non_connection_positions(kinds: Seq<SwathType>, upto: int) -> Seq<usize>
    decreases upto,
{
    if upto <= 0 {
        Seq::empty()
    } else if kinds[upto - 1] != SwathType::Connection {
        non_connection_positions(kinds, upto - 1).push((upto - 1) as usize)
    } else {
        non_connection_positions(kinds, upto - 1)
    }
}

/// The routed order without its connectors: positions of the segments that
/// are not `Connection`s.
pub fn ordered_work_positions(kinds: &Vec<SwathType>) -> (out: Vec<usize>)
    ensures
        out@ == non_connection_positions(kinds@, kinds.len() as int),
{
    let mut out: Vec<usize> = Vec::new();
    let mut i: usize = 0;
    while i < kinds.len()
        invariant
            i <= kinds.len(),
            out@ == non_connection_positions(kinds@, i as int),
        decreases kinds.len() - i,
    {
        if kinds[i] != SwathType::Connection {
            out.push(i);
        }
        i = i + 1;
    }
    out
}

} // verus!
