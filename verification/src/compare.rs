//! A baseline glazing specification against an upgraded one, on the same archetype.
use crate::arithmetic::{deterministic, evaluates, given, zero, Arithmetic};
use crate::double::Double;
use crate::dwelling::{windows_view, WindowInfo};
use crate::economics::{
    copy_text, delivered_energy_total, delivered_total, text_opt, CostCarbon, Economics,
    OutputSummary, Tariff,
};
use crate::error::ApiError;
use crate::glazing::{copy_rules, rules_of, GlazingOverrides, Patch, Rule, TargetedOverride};
use crate::profiles::Profiles;
use crate::simulate::{
    pure_engine, requests_have_one_answer, resolve_economics, response_describes_the_archetype,
    simulate, simulated, tariff_opt, tariff_used, EngineOutcome, EngineRun, Request,
    SimulateOptions, SimulateRequest, SimulateResponse, API_VERSION,
};
use crate::text::text_pairs;
use vstd::prelude::*;

verus! {

/// A request to compare a baseline glazing specification with an upgraded one.
#[derive(Debug)]
pub struct CompareRequest {
    pub archetype: String,
    /// The starting glazing. Empty: the archetype's windows as built.
    pub baseline_overrides: GlazingOverrides,
    /// Per-window refinements of the baseline side.
    pub baseline_targeted: Vec<TargetedOverride>,
    /// The proposed glazing. May be empty where `upgrade_targeted` says it all.
    pub upgrade_overrides: GlazingOverrides,
    /// Per-window refinements of the upgrade side.
    pub upgrade_targeted: Vec<TargetedOverride>,
    pub options: SimulateOptions,
    /// Price and carbon factors of both sides. Without them, [`Economics::uk_defaults`].
    pub economics: Option<Economics>,
    /// Weather dataset of both sides. Without it, the first on offer.
    pub weather: Option<String>,
}

/// One side of a comparison.
#[derive(Debug)]
pub struct Scenario {
    pub overrides: GlazingOverrides,
    pub cost_carbon: CostCarbon,
    pub summary: OutputSummary,
}

/// Headline reductions, baseline minus upgrade. Positive: the upgrade is better.
#[derive(Clone, Copy, Debug, PartialEq, Eq, Structural)]
pub struct ComparisonDelta {
    pub space_heat_demand_reduction: Double,
    pub space_cool_demand_reduction: Double,
    /// Missing where either summary has no total of delivered energy.
    pub delivered_energy_reduction: Option<Double>,
    pub cost_gbp_reduction: Double,
    pub carbon_kg_reduction: Double,
}

/// The result of a comparison.
#[derive(Debug)]
pub struct CompareResponse {
    pub archetype: String,
    pub api_version: &'static str,
    /// Id of the weather dataset used.
    pub weather: &'static str,
    /// How many distinct transparent elements the upgrade reached.
    pub transparent_elements_modified: usize,
    /// Every transparent element of the dwelling, the same on both sides.
    pub windows: Vec<WindowInfo>,
    /// Fuel type of each energy supply, the same on both sides.
    pub energy_supply_fuels: Vec<(String, String)>,
    /// The factors behind both sides.
    pub economics_used: Economics,
    pub baseline: Scenario,
    pub upgrade: Scenario,
    pub delta: ComparisonDelta,
}

/// What a [`CompareRequest`] asks for.
pub struct Comparison {
    pub archetype: Seq<char>,
    pub baseline_global: Patch,
    pub baseline_rules: Seq<Rule>,
    pub upgrade_global: Patch,
    pub upgrade_rules: Seq<Rule>,
    pub options: SimulateOptions,
    pub economics: Option<Tariff>,
    pub weather: Option<Seq<char>>,
}

impl View for CompareRequest {
    type V = Comparison;

    open spec fn view(&self) -> Comparison {
        Comparison {
            archetype: self.archetype@,
            baseline_global: self.baseline_overrides@,
            baseline_rules: rules_of(self.baseline_targeted@),
            upgrade_global: self.upgrade_overrides@,
            upgrade_rules: rules_of(self.upgrade_targeted@),
            options: self.options,
            economics: tariff_opt(self.economics),
            weather: text_opt(self.weather),
        }
    }
}

impl Comparison {
    /// One side, which differs from the other in its overrides alone.
    pub open spec fn side(self, global: Patch, rules: Seq<Rule>) -> Request {
        Request {
            archetype: self.archetype,
            global,
            rules,
            options: self.options,
            economics: Some(tariff_used(self.economics)),
            weather: self.weather,
        }
    }

    pub open spec fn baseline(self) -> Request {
        self.side(self.baseline_global, self.baseline_rules)
    }

    pub open spec fn upgrade(self) -> Request {
        self.side(self.upgrade_global, self.upgrade_rules)
    }
}

/// `d` is `a - b`.
pub open spec fn reduction<A: Arithmetic>(a: Double, b: Double, d: Double) -> bool {
    evaluates::<A>(given(a).minus(given(b)), d)
}

/// `delta` is how much less the upgrade takes than the baseline.
pub open spec fn reductions<A: Arithmetic>(
    baseline: SimulateResponse,
    upgrade: SimulateResponse,
    delta: ComparisonDelta,
) -> bool {
    &&& reduction::<A>(
        baseline.summary.space_heat_demand_total,
        upgrade.summary.space_heat_demand_total,
        delta.space_heat_demand_reduction,
    )
    &&& reduction::<A>(
        baseline.summary.space_cool_demand_total,
        upgrade.summary.space_cool_demand_total,
        delta.space_cool_demand_reduction,
    )
    &&& match (delivered_total(baseline.summary@), delivered_total(upgrade.summary@)) {
        (Some(b), Some(u)) => delta.delivered_energy_reduction matches Some(d) && reduction::<A>(
            b,
            u,
            d,
        ),
        _ => delta.delivered_energy_reduction is None,
    }
    &&& reduction::<A>(
        baseline.cost_carbon.cost_gbp,
        upgrade.cost_carbon.cost_gbp,
        delta.cost_gbp_reduction,
    )
    &&& reduction::<A>(
        baseline.cost_carbon.carbon_kg,
        upgrade.cost_carbon.carbon_kg,
        delta.carbon_kg_reduction,
    )
}

/// `a - b`, rounded.
fn reduce<A: Arithmetic>(a: Double, b: Double) -> (res: Double)
    ensures
        reduction::<A>(a, b, res),
{
    proof {
        reveal_with_fuel(evaluates, 2);
    }
    A::difference(a, b)
}

/// How much less the upgrade takes than the baseline.
pub fn compare_delta<A: Arithmetic>(
    baseline: &SimulateResponse,
    upgrade: &SimulateResponse,
) -> (res: ComparisonDelta)
    ensures
        reductions::<A>(*baseline, *upgrade, res),
{
    ComparisonDelta {
        space_heat_demand_reduction: reduce::<A>(
            baseline.summary.space_heat_demand_total,
            upgrade.summary.space_heat_demand_total,
        ),
        space_cool_demand_reduction: reduce::<A>(
            baseline.summary.space_cool_demand_total,
            upgrade.summary.space_cool_demand_total,
        ),
        delivered_energy_reduction: match (
            delivered_energy_total(&baseline.summary),
            delivered_energy_total(&upgrade.summary),
        ) {
            (Some(b), Some(u)) => Some(reduce::<A>(b, u)),
            _ => None,
        },
        cost_gbp_reduction: reduce::<A>(
            baseline.cost_carbon.cost_gbp,
            upgrade.cost_carbon.cost_gbp,
        ),
        carbon_kg_reduction: reduce::<A>(
            baseline.cost_carbon.carbon_kg,
            upgrade.cost_carbon.carbon_kg,
        ),
    }
}

/// The requests of the two sides. The economics are resolved once, so that both sides, and with
/// them the reductions, go by the same factors.
pub fn compare_requests(req: &CompareRequest) -> (res: (SimulateRequest, SimulateRequest))
    ensures
        res.0@ == req@.baseline(),
        res.1@ == req@.upgrade(),
{
    let economics: Economics = resolve_economics(&req.economics);
    let baseline: SimulateRequest = SimulateRequest {
        archetype: req.archetype.clone(),
        glazing_overrides: req.baseline_overrides.clone(),
        targeted_overrides: copy_rules(&req.baseline_targeted),
        options: req.options,
        economics: Some(economics.clone()),
        weather: copy_text(&req.weather),
    };
    let upgrade: SimulateRequest = SimulateRequest {
        archetype: req.archetype.clone(),
        glazing_overrides: req.upgrade_overrides.clone(),
        targeted_overrides: copy_rules(&req.upgrade_targeted),
        options: req.options,
        economics: Some(economics),
        weather: copy_text(&req.weather),
    };
    (baseline, upgrade)
}

/// `res` puts the two sides of a comparison together.
pub open spec fn composed<A: Arithmetic>(
    req: Comparison,
    baseline: SimulateResponse,
    upgrade: SimulateResponse,
    res: CompareResponse,
) -> bool {
    &&& res.archetype@ == req.archetype
    &&& res.api_version@ == API_VERSION@
    &&& res.weather == upgrade.weather
    &&& res.transparent_elements_modified == upgrade.transparent_elements_modified
    &&& res.windows == upgrade.windows
    &&& res.energy_supply_fuels == upgrade.energy_supply_fuels
    &&& res.economics_used@ == tariff_used(req.economics)
    &&& res.baseline.overrides@ == req.baseline_global
    &&& res.baseline.cost_carbon == baseline.cost_carbon
    &&& res.baseline.summary == baseline.summary
    &&& res.upgrade.overrides@ == req.upgrade_global
    &&& res.upgrade.cost_carbon == upgrade.cost_carbon
    &&& res.upgrade.summary == upgrade.summary
    &&& reductions::<A>(baseline, upgrade, res.delta)
}

/// Puts the two sides of a comparison together.
pub fn compare_response<A: Arithmetic>(
    req: &CompareRequest,
    baseline: SimulateResponse,
    upgrade: SimulateResponse,
) -> (res: CompareResponse)
    ensures
        composed::<A>(req@, baseline, upgrade, res),
{
    let delta: ComparisonDelta = compare_delta::<A>(&baseline, &upgrade);
    CompareResponse {
        archetype: req.archetype.clone(),
        api_version: API_VERSION,
        weather: upgrade.weather,
        transparent_elements_modified: upgrade.transparent_elements_modified,
        windows: upgrade.windows,
        energy_supply_fuels: upgrade.energy_supply_fuels,
        economics_used: resolve_economics(&req.economics),
        baseline: Scenario {
            overrides: req.baseline_overrides.clone(),
            cost_carbon: baseline.cost_carbon,
            summary: baseline.summary,
        },
        upgrade: Scenario {
            overrides: req.upgrade_overrides.clone(),
            cost_carbon: upgrade.cost_carbon,
            summary: upgrade.summary,
        },
        delta,
    }
}

/// `res` is what a comparison is answered with whose upgrade comes to `second`.
pub open spec fn completed<A: Arithmetic, N: Fn(&EngineRun) -> EngineOutcome>(
    profiles: Profiles,
    req: Comparison,
    engine: N,
    baseline: SimulateResponse,
    second: Result<SimulateResponse, ApiError>,
    res: Result<CompareResponse, ApiError>,
) -> bool {
    &&& simulated::<A, N>(profiles, req.upgrade(), engine, second)
    &&& match second {
        Err(e) => res == Err::<CompareResponse, ApiError>(e),
        Ok(upgrade) => res matches Ok(r) && composed::<A>(req, baseline, upgrade, r),
    }
}

/// `res` is what a comparison is answered with whose baseline comes to `first`.
pub open spec fn continued<A: Arithmetic, N: Fn(&EngineRun) -> EngineOutcome>(
    profiles: Profiles,
    req: Comparison,
    engine: N,
    first: Result<SimulateResponse, ApiError>,
    res: Result<CompareResponse, ApiError>,
) -> bool {
    &&& simulated::<A, N>(profiles, req.baseline(), engine, first)
    &&& match first {
        Err(e) => res == Err::<CompareResponse, ApiError>(e),
        Ok(baseline) => exists|second: Result<SimulateResponse, ApiError>| #[trigger]
            completed::<A, N>(profiles, req, engine, baseline, second, res),
    }
}

/// `res` is what a comparison is answered with: the two sides put together, or the error of the
/// first side that fails.
pub open spec fn compared<A: Arithmetic, N: Fn(&EngineRun) -> EngineOutcome>(
    profiles: Profiles,
    req: Comparison,
    engine: N,
    res: Result<CompareResponse, ApiError>,
) -> bool {
    exists|first: Result<SimulateResponse, ApiError>| #[trigger]
        continued::<A, N>(profiles, req, engine, first, res)
}

/// Runs the archetype twice, once with the baseline glazing and once with the upgrade, and reports
/// both summaries and the headline reductions.
pub fn compare<A: Arithmetic, N: Fn(&EngineRun) -> EngineOutcome>(
    profiles: &Profiles,
    req: &CompareRequest,
    engine: &N,
) -> (res: Result<CompareResponse, ApiError>)
    requires
        forall|run: EngineRun| call_requires(*engine, (&run,)),
    ensures
        compared::<A, N>(*profiles, req@, *engine, res),
{
    let (first, second): (SimulateRequest, SimulateRequest) = compare_requests(req);
    let baseline: SimulateResponse = match simulate::<A, N>(profiles, &first, engine) {
        Ok(r) => r,
        Err(e) => {
            assert(continued::<A, N>(*profiles, req@, *engine, Err(e), Err(e)));
            return Err(e);
        },
    };
    let ghost first_side = Ok::<SimulateResponse, ApiError>(baseline);
    let upgrade: SimulateResponse = match simulate::<A, N>(profiles, &second, engine) {
        Ok(r) => r,
        Err(e) => {
            assert(completed::<A, N>(*profiles, req@, *engine, baseline, Err(e), Err(e)));
            assert(continued::<A, N>(*profiles, req@, *engine, first_side, Err(e)));
            return Err(e);
        },
    };
    let ghost (b, u) = (baseline, upgrade);
    let res: Result<CompareResponse, ApiError> = Ok(
        compare_response::<A>(req, baseline, upgrade),
    );
    assert(completed::<A, N>(*profiles, req@, *engine, b, Ok(u), res));
    assert(continued::<A, N>(*profiles, req@, *engine, first_side, res));
    res
}

/// The two sides of a comparison have the same windows, supplies, weather and factors, which are
/// those that the response shows.
pub proof fn sides_share_the_dwelling<A: Arithmetic, N: Fn(&EngineRun) -> EngineOutcome>(
    profiles: Profiles,
    req: Comparison,
    engine: N,
    baseline: SimulateResponse,
    upgrade: SimulateResponse,
    res: CompareResponse,
)
    requires
        simulated::<A, N>(profiles, req.baseline(), engine, Ok(baseline)),
        simulated::<A, N>(profiles, req.upgrade(), engine, Ok(upgrade)),
        composed::<A>(req, baseline, upgrade, res),
    ensures
        windows_view(baseline.windows@) == windows_view(res.windows@),
        text_pairs(baseline.energy_supply_fuels@) == text_pairs(res.energy_supply_fuels@),
        baseline.weather@ == res.weather@,
        baseline.economics_used@ == res.economics_used@,
        upgrade.economics_used@ == res.economics_used@,
{
    response_describes_the_archetype::<A, N>(profiles, req.baseline(), engine, baseline);
    response_describes_the_archetype::<A, N>(profiles, req.upgrade(), engine, upgrade);
}

/// A comparison is refused exactly as a run of its baseline is, or else as a run of its upgrade.
pub proof fn comparisons_are_refused_as_their_sides<
    A: Arithmetic,
    N: Fn(&EngineRun) -> EngineOutcome,
>(profiles: Profiles, req: Comparison, engine: N, res: Result<CompareResponse, ApiError>)
    requires
        compared::<A, N>(profiles, req, engine, res),
    ensures
        req.baseline().refused() is Some ==> (res matches Err(e) && e@
            == req.baseline().refused()->0),
        res is Ok ==> req.baseline().refused() is None && req.upgrade().refused() is None,
{
}

impl Comparison {
    /// The comparison with its two sides exchanged.
    pub open spec fn exchanged(self) -> Comparison {
        Comparison {
            baseline_global: self.upgrade_global,
            baseline_rules: self.upgrade_rules,
            upgrade_global: self.baseline_global,
            upgrade_rules: self.baseline_rules,
            ..self
        }
    }
}

/// `e` is `d`, negated; or neither is a number, which can only be where one of the figures whose
/// differences they are is not finite.
pub open spec fn flipped(a: Double, b: Double, d: Double, e: Double) -> bool {
    ||| e.same(d.opposite())
    ||| d.nan() && e.nan() && !(a.finite() && b.finite())
}

/// Exchanging the operands of a difference negates it.
pub open spec fn differences_negate<A: Arithmetic>() -> bool {
    forall|a: Double, b: Double, v: Double, w: Double| #[trigger]
        call_ensures(A::difference, (a, b), v) && #[trigger] call_ensures(
            A::difference,
            (b, a),
            w,
        ) ==> flipped(a, b, v, w)
}

/// A finite number minus itself is nothing.
pub open spec fn differences_cancel<A: Arithmetic>() -> bool {
    forall|a: Double, v: Double| #[trigger]
        call_ensures(A::difference, (a, a), v) && a.finite() ==> v.same(zero())
}

/// Each reduction of `e` is that of `d`, negated, where `d` are the reductions from `b` to `u`.
pub open spec fn negated_delta(
    b: Scenario,
    u: Scenario,
    d: ComparisonDelta,
    e: ComparisonDelta,
) -> bool {
    &&& flipped(
        b.summary.space_heat_demand_total,
        u.summary.space_heat_demand_total,
        d.space_heat_demand_reduction,
        e.space_heat_demand_reduction,
    )
    &&& flipped(
        b.summary.space_cool_demand_total,
        u.summary.space_cool_demand_total,
        d.space_cool_demand_reduction,
        e.space_cool_demand_reduction,
    )
    &&& match (delivered_total(b.summary@), delivered_total(u.summary@)) {
        (Some(x), Some(y)) => {
            &&& d.delivered_energy_reduction is Some
            &&& e.delivered_energy_reduction is Some
            &&& flipped(x, y, d.delivered_energy_reduction->0, e.delivered_energy_reduction->0)
        },
        _ => d.delivered_energy_reduction is None && e.delivered_energy_reduction is None,
    }
    &&& flipped(
        b.cost_carbon.cost_gbp,
        u.cost_carbon.cost_gbp,
        d.cost_gbp_reduction,
        e.cost_gbp_reduction,
    )
    &&& flipped(
        b.cost_carbon.carbon_kg,
        u.cost_carbon.carbon_kg,
        d.carbon_kg_reduction,
        e.carbon_kg_reduction,
    )
}

/// Two sides that say the same.
pub open spec fn same_scenario(a: Scenario, b: Scenario) -> bool {
    &&& a.overrides@ == b.overrides@
    &&& a.cost_carbon == b.cost_carbon
    &&& a.summary == b.summary
}

/// The two sides of a comparison that succeeded.
pub(crate) proof fn lemma_sides<A: Arithmetic, N: Fn(&EngineRun) -> EngineOutcome>(
    profiles: Profiles,
    req: Comparison,
    engine: N,
    r: CompareResponse,
) -> (sides: (SimulateResponse, SimulateResponse))
    requires
        compared::<A, N>(profiles, req, engine, Ok(r)),
    ensures
        simulated::<A, N>(profiles, req.baseline(), engine, Ok(sides.0)),
        simulated::<A, N>(profiles, req.upgrade(), engine, Ok(sides.1)),
        composed::<A>(req, sides.0, sides.1, r),
{
    let res: Result<CompareResponse, ApiError> = Ok(r);
    let first = choose|first: Result<SimulateResponse, ApiError>| #[trigger]
        continued::<A, N>(profiles, req, engine, first, res);
    let baseline = first->Ok_0;
    let second = choose|second: Result<SimulateResponse, ApiError>| #[trigger]
        completed::<A, N>(profiles, req, engine, baseline, second, res);
    (baseline, second->Ok_0)
}

/// A reduction is the difference that was taken.
pub(crate) proof fn lemma_reduction<A: Arithmetic>(a: Double, b: Double, d: Double)
    requires
        reduction::<A>(a, b, d),
    ensures
        call_ensures(A::difference, (a, b), d),
{
    reveal_with_fuel(evaluates, 2);
}

/// Taken the other way round, a reduction is negated.
proof fn lemma_other_way<A: Arithmetic>(a: Double, b: Double, d: Double, e: Double)
    requires
        differences_negate::<A>(),
        reduction::<A>(a, b, d),
        reduction::<A>(b, a, e),
    ensures
        flipped(a, b, d, e),
{
    lemma_reduction::<A>(a, b, d);
    lemma_reduction::<A>(b, a, e);
}

/// Exchanging the two sides of a comparison exchanges the two scenarios and negates every
/// reduction, where the engine and the arithmetic give the same result every time. A reduction that
/// is no number, as that between two infinite costs, is none after the exchange either.
pub proof fn exchanged_sides_negate<A: Arithmetic, N: Fn(&EngineRun) -> EngineOutcome>(
    profiles: Profiles,
    req: Comparison,
    engine: N,
    r: CompareResponse,
    res: Result<CompareResponse, ApiError>,
)
    requires
        deterministic::<A>(),
        differences_negate::<A>(),
        pure_engine(engine),
        compared::<A, N>(profiles, req, engine, Ok(r)),
        compared::<A, N>(profiles, req.exchanged(), engine, res),
    ensures
        res matches Ok(s) && same_scenario(s.baseline, r.upgrade) && same_scenario(
            s.upgrade,
            r.baseline,
        ) && negated_delta(r.baseline, r.upgrade, r.delta, s.delta),
{
    let (b, u): (SimulateResponse, SimulateResponse) = lemma_sides::<A, N>(
        profiles,
        req,
        engine,
        r,
    );
    let back = req.exchanged();
    assert(back.baseline() == req.upgrade());
    assert(back.upgrade() == req.baseline());
    let first = choose|first: Result<SimulateResponse, ApiError>| #[trigger]
        continued::<A, N>(profiles, back, engine, first, res);
    requests_have_one_answer::<A, N>(profiles, req.upgrade(), engine, Ok(u), first);
    let c = first->Ok_0;
    let second = choose|second: Result<SimulateResponse, ApiError>| #[trigger]
        completed::<A, N>(profiles, back, engine, c, second, res);
    requests_have_one_answer::<A, N>(profiles, req.baseline(), engine, Ok(b), second);
    let s = res->Ok_0;
    let d = r.delta;
    let e = s.delta;
    lemma_other_way::<A>(
        b.summary.space_heat_demand_total,
        u.summary.space_heat_demand_total,
        d.space_heat_demand_reduction,
        e.space_heat_demand_reduction,
    );
    lemma_other_way::<A>(
        b.summary.space_cool_demand_total,
        u.summary.space_cool_demand_total,
        d.space_cool_demand_reduction,
        e.space_cool_demand_reduction,
    );
    if let (Some(x), Some(y)) = (delivered_total(b.summary@), delivered_total(u.summary@)) {
        lemma_other_way::<A>(
            x,
            y,
            d.delivered_energy_reduction->0,
            e.delivered_energy_reduction->0,
        );
    }
    lemma_other_way::<A>(
        b.cost_carbon.cost_gbp,
        u.cost_carbon.cost_gbp,
        d.cost_gbp_reduction,
        e.cost_gbp_reduction,
    );
    lemma_other_way::<A>(
        b.cost_carbon.carbon_kg,
        u.cost_carbon.carbon_kg,
        d.carbon_kg_reduction,
        e.carbon_kg_reduction,
    );
}

/// Between two sides that are the same there is nothing to save, in any figure that is finite.
pub proof fn equal_sides_save_nothing<A: Arithmetic, N: Fn(&EngineRun) -> EngineOutcome>(
    profiles: Profiles,
    req: Comparison,
    engine: N,
    r: CompareResponse,
)
    requires
        deterministic::<A>(),
        differences_cancel::<A>(),
        pure_engine(engine),
        req.baseline_global == req.upgrade_global,
        req.baseline_rules == req.upgrade_rules,
        compared::<A, N>(profiles, req, engine, Ok(r)),
    ensures
        r.baseline.summary.space_heat_demand_total.finite()
            ==> r.delta.space_heat_demand_reduction.same(zero()),
        r.baseline.summary.space_cool_demand_total.finite()
            ==> r.delta.space_cool_demand_reduction.same(zero()),
        delivered_total(r.baseline.summary@) is Some == r.delta.delivered_energy_reduction is Some,
        delivered_total(r.baseline.summary@) matches Some(x) && x.finite()
            ==> r.delta.delivered_energy_reduction->0.same(zero()),
        r.baseline.cost_carbon.cost_gbp.finite() ==> r.delta.cost_gbp_reduction.same(zero()),
        r.baseline.cost_carbon.carbon_kg.finite() ==> r.delta.carbon_kg_reduction.same(zero()),
{
    let (b, u): (SimulateResponse, SimulateResponse) = lemma_sides::<A, N>(
        profiles,
        req,
        engine,
        r,
    );
    requests_have_one_answer::<A, N>(profiles, req.baseline(), engine, Ok(b), Ok(u));
    let d = r.delta;
    let heat = b.summary.space_heat_demand_total;
    let cool = b.summary.space_cool_demand_total;
    lemma_reduction::<A>(heat, heat, d.space_heat_demand_reduction);
    lemma_reduction::<A>(cool, cool, d.space_cool_demand_reduction);
    if let Some(x) = delivered_total(b.summary@) {
        lemma_reduction::<A>(x, x, d.delivered_energy_reduction->0);
    }
    lemma_reduction::<A>(b.cost_carbon.cost_gbp, b.cost_carbon.cost_gbp, d.cost_gbp_reduction);
    lemma_reduction::<A>(b.cost_carbon.carbon_kg, b.cost_carbon.carbon_kg, d.carbon_kg_reduction);
}

} // verus!
