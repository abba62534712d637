//! What a comparison says of its two scenarios.
use crate::arithmetic::{evaluates, given, zero, Arithmetic};
use crate::compare::{
    compared, completed, continued, lemma_reduction, lemma_sides, CompareRequest, CompareResponse,
    Comparison,
};
use crate::double::Double;
use crate::economics::{delivered_total, uk_tariff};
use crate::error::ApiError;
use crate::exact::{exact_difference_of, exact_in};
use crate::profiles::Profiles;
use crate::simulate::{simulated, EngineOutcome, EngineRun, Request, SimulateResponse};
use vstd::prelude::*;

verus! {

/// Differences of finite numbers are positive where the first is greater, and negative where it is
/// less.
pub open spec fn differences_keep_order<A: Arithmetic>() -> bool {
    forall|a: Double, b: Double, v: Double| #[trigger]
        call_ensures(A::difference, (a, b), v) && a.finite() && b.finite() ==> zero().lt(v) == b.lt(
            a,
        ) && v.lt(zero()) == a.lt(b)
}

/// `d` tells which of a baseline's figure and an upgrade's is greater.
pub open spec fn tells(baseline: Double, upgrade: Double, d: Double) -> bool {
    baseline.finite() && upgrade.finite() ==> {
        &&& zero().lt(d) <==> upgrade.lt(baseline)
        &&& d.lt(zero()) <==> baseline.lt(upgrade)
    }
}

/// Every reduction of a comparison is positive exactly when the figure of the baseline scenario is
/// greater than that of the upgrade scenario, and negative exactly when it is less: the heating
/// demand, the cooling demand, the delivered energy, the cost and the carbon. That of the delivered
/// energy is there exactly when both scenarios have a total.
pub proof fn reductions_tell_the_better_scenario<
    A: Arithmetic,
    N: Fn(&EngineRun) -> EngineOutcome,
>(profiles: Profiles, req: Comparison, engine: N, r: CompareResponse)
    requires
        differences_keep_order::<A>(),
        compared::<A, N>(profiles, req, engine, Ok(r)),
    ensures
        tells(
            r.baseline.summary.space_heat_demand_total,
            r.upgrade.summary.space_heat_demand_total,
            r.delta.space_heat_demand_reduction,
        ),
        tells(
            r.baseline.summary.space_cool_demand_total,
            r.upgrade.summary.space_cool_demand_total,
            r.delta.space_cool_demand_reduction,
        ),
        r.delta.delivered_energy_reduction is Some == (delivered_total(
            r.baseline.summary@,
        ) is Some && delivered_total(r.upgrade.summary@) is Some),
        r.delta.delivered_energy_reduction matches Some(d) ==> tells(
            delivered_total(r.baseline.summary@)->0,
            delivered_total(r.upgrade.summary@)->0,
            d,
        ),
        tells(
            r.baseline.cost_carbon.cost_gbp,
            r.upgrade.cost_carbon.cost_gbp,
            r.delta.cost_gbp_reduction,
        ),
        tells(
            r.baseline.cost_carbon.carbon_kg,
            r.upgrade.cost_carbon.carbon_kg,
            r.delta.carbon_kg_reduction,
        ),
{
    let (b, u): (SimulateResponse, SimulateResponse) = lemma_sides::<A, N>(
        profiles,
        req,
        engine,
        r,
    );
    let d = r.delta;
    lemma_reduction::<A>(
        b.summary.space_heat_demand_total,
        u.summary.space_heat_demand_total,
        d.space_heat_demand_reduction,
    );
    lemma_reduction::<A>(
        b.summary.space_cool_demand_total,
        u.summary.space_cool_demand_total,
        d.space_cool_demand_reduction,
    );
    if let (Some(x), Some(y)) = (delivered_total(b.summary@), delivered_total(u.summary@)) {
        lemma_reduction::<A>(x, y, d.delivered_energy_reduction->0);
    }
    lemma_reduction::<A>(b.cost_carbon.cost_gbp, u.cost_carbon.cost_gbp, d.cost_gbp_reduction);
    lemma_reduction::<A>(b.cost_carbon.carbon_kg, u.cost_carbon.carbon_kg, d.carbon_kg_reduction);
}

/// `d` is what a baseline's figure and an upgrade's differ by, where it is a number.
pub open spec fn is_difference(
    baseline: Double,
    upgrade: Double,
    d: Double,
    num: spec_fn(Double) -> real,
) -> bool {
    !d.nan() ==> num(d) == num(baseline) - num(upgrade)
}

/// But for rounding, every reduction is the baseline's figure less the upgrade's.
pub proof fn reductions_are_differences<A: Arithmetic, N: Fn(&EngineRun) -> EngineOutcome>(
    profiles: Profiles,
    req: Comparison,
    engine: N,
    r: CompareResponse,
    num: spec_fn(Double) -> real,
)
    requires
        exact_in::<A>(num),
        compared::<A, N>(profiles, req, engine, Ok(r)),
    ensures
        is_difference(
            r.baseline.summary.space_heat_demand_total,
            r.upgrade.summary.space_heat_demand_total,
            r.delta.space_heat_demand_reduction,
            num,
        ),
        is_difference(
            r.baseline.summary.space_cool_demand_total,
            r.upgrade.summary.space_cool_demand_total,
            r.delta.space_cool_demand_reduction,
            num,
        ),
        r.delta.delivered_energy_reduction matches Some(d) ==> is_difference(
            delivered_total(r.baseline.summary@)->0,
            delivered_total(r.upgrade.summary@)->0,
            d,
            num,
        ),
        is_difference(
            r.baseline.cost_carbon.cost_gbp,
            r.upgrade.cost_carbon.cost_gbp,
            r.delta.cost_gbp_reduction,
            num,
        ),
        is_difference(
            r.baseline.cost_carbon.carbon_kg,
            r.upgrade.cost_carbon.carbon_kg,
            r.delta.carbon_kg_reduction,
            num,
        ),
{
    let (b, u): (SimulateResponse, SimulateResponse) = lemma_sides::<A, N>(
        profiles,
        req,
        engine,
        r,
    );
    let d = r.delta;
    lemma_difference::<A>(
        b.summary.space_heat_demand_total,
        u.summary.space_heat_demand_total,
        d.space_heat_demand_reduction,
        num,
    );
    lemma_difference::<A>(
        b.summary.space_cool_demand_total,
        u.summary.space_cool_demand_total,
        d.space_cool_demand_reduction,
        num,
    );
    if let (Some(x), Some(y)) = (delivered_total(b.summary@), delivered_total(u.summary@)) {
        lemma_difference::<A>(x, y, d.delivered_energy_reduction->0, num);
    }
    lemma_difference::<A>(
        b.cost_carbon.cost_gbp,
        u.cost_carbon.cost_gbp,
        d.cost_gbp_reduction,
        num,
    );
    lemma_difference::<A>(
        b.cost_carbon.carbon_kg,
        u.cost_carbon.carbon_kg,
        d.carbon_kg_reduction,
        num,
    );
}

proof fn lemma_difference<A: Arithmetic>(
    a: Double,
    b: Double,
    d: Double,
    num: spec_fn(Double) -> real,
)
    requires
        exact_in::<A>(num),
        evaluates::<A>(given(a).minus(given(b)), d),
    ensures
        is_difference(a, b, d, num),
{
    if !d.nan() {
        let (x, y): (Double, Double) = exact_difference_of::<A>(given(a), given(b), d, num);
    }
}

/// `side` answers the request for one side of a comparison: the archetype, the options and the
/// weather of the comparison, its economics or else the defaults, and the overrides of that side.
pub open spec fn answers_side<A: Arithmetic, N: Fn(&EngineRun) -> EngineOutcome>(
    profiles: Profiles,
    req: Comparison,
    engine: N,
    upgrade: bool,
    side: Result<SimulateResponse, ApiError>,
) -> bool {
    simulated::<A, N>(
        profiles,
        Request {
            archetype: req.archetype,
            global: if upgrade {
                req.upgrade_global
            } else {
                req.baseline_global
            },
            rules: if upgrade {
                req.upgrade_rules
            } else {
                req.baseline_rules
            },
            options: req.options,
            economics: Some(
                match req.economics {
                    Some(t) => t,
                    None => uk_tariff(),
                },
            ),
            weather: req.weather,
        },
        engine,
        side,
    )
}

/// The baseline of a comparison is what a run with the baseline's overrides is answered with, and
/// the upgrade what a run with the upgrade's is; the response says which overrides were whose, and
/// counts the elements that the upgrade reached.
pub proof fn scenarios_are_those_of_their_own_overrides<
    A: Arithmetic,
    N: Fn(&EngineRun) -> EngineOutcome,
>(profiles: Profiles, req: Comparison, engine: N, r: CompareResponse) -> (sides: (
    SimulateResponse,
    SimulateResponse,
))
    requires
        compared::<A, N>(profiles, req, engine, Ok(r)),
    ensures
        answers_side::<A, N>(profiles, req, engine, false, Ok(sides.0)),
        answers_side::<A, N>(profiles, req, engine, true, Ok(sides.1)),
        r.baseline.summary == sides.0.summary,
        r.baseline.cost_carbon == sides.0.cost_carbon,
        r.baseline.overrides@ == req.baseline_global,
        r.upgrade.summary == sides.1.summary,
        r.upgrade.cost_carbon == sides.1.cost_carbon,
        r.upgrade.overrides@ == req.upgrade_global,
        r.archetype@ == req.archetype,
        r.api_version@ == "0.1.0"@,
        r.transparent_elements_modified == sides.1.transparent_elements_modified,
        r.windows == sides.1.windows,
        r.energy_supply_fuels == sides.1.energy_supply_fuels,
        r.weather == sides.1.weather,
        req.economics matches Some(t) ==> r.economics_used@ == t,
        req.economics is None ==> r.economics_used@ == uk_tariff(),
{
    lemma_sides::<A, N>(profiles, req, engine, r)
}

/// A comparison that fails fails as the run of its baseline does, or else as that of its upgrade.
pub proof fn failures_are_those_of_the_first_side_that_fails<
    A: Arithmetic,
    N: Fn(&EngineRun) -> EngineOutcome,
>(profiles: Profiles, req: Comparison, engine: N, e: ApiError)
    requires
        compared::<A, N>(profiles, req, engine, Err(e)),
    ensures
        answers_side::<A, N>(profiles, req, engine, false, Err(e)) || (exists|
            b: Result<SimulateResponse, ApiError>,
        |
            b is Ok && #[trigger] answers_side::<A, N>(profiles, req, engine, false, b))
            && answers_side::<A, N>(profiles, req, engine, true, Err(e)),
{
    let res: Result<CompareResponse, ApiError> = Err(e);
    let first = choose|first: Result<SimulateResponse, ApiError>| #[trigger]
        continued::<A, N>(profiles, req, engine, first, res);
    assert(answers_side::<A, N>(profiles, req, engine, false, first));
    if let Ok(baseline) = first {
        let second = choose|second: Result<SimulateResponse, ApiError>| #[trigger]
            completed::<A, N>(profiles, req, engine, baseline, second, res);
        assert(answers_side::<A, N>(profiles, req, engine, true, second));
    }
}

/// What a request to compare says is what its fields hold.
pub proof fn comparisons_say_what_their_fields_hold(req: CompareRequest)
    ensures
        req@.archetype == req.archetype@,
        req@.baseline_global == req.baseline_overrides@,
        req@.upgrade_global == req.upgrade_overrides@,
        req@.baseline_rules.len() == req.baseline_targeted@.len(),
        forall|i: int|
            0 <= i < req.baseline_targeted@.len() ==> #[trigger] req@.baseline_rules[i]
                == req.baseline_targeted@[i]@,
        req@.upgrade_rules.len() == req.upgrade_targeted@.len(),
        forall|i: int|
            0 <= i < req.upgrade_targeted@.len() ==> #[trigger] req@.upgrade_rules[i]
                == req.upgrade_targeted@[i]@,
        req@.options == req.options,
        req.economics is None ==> req@.economics is None,
        req.economics matches Some(e) ==> req@.economics == Some(e@),
        req.weather is None ==> req@.weather is None,
        req.weather matches Some(w) ==> req@.weather == Some(w@),
{
}

} // verus!
