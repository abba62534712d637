//! One scenario: from a request to an engine run, and from the engine's summary to a response.
//!
//! The engine runs outside. [`begin_simulate`] says what to run, and [`finish_simulate`] answers the
//! request from what came of it.
use crate::arithmetic::{deterministic, formulas_have_one_result, Arithmetic};
use crate::dwelling::{
    energy_supply_fuels, supplies_of, window_inventory, windows_of, windows_view, WindowInfo,
};
use crate::economics::{
    carbon_of, charges_for, cost_carbon, cost_of, costed, text_opt, uk_tariff, CostCarbon,
    Economics, OutputSummary, Tariff,
};
use crate::error::{ApiError, EngineError, Failure};
use crate::glazing::{
    apply_all_overrides, contradiction, patched_input, rules_of, touched_elements,
    GlazingOverrides, Patch, Rule, TargetedOverride,
};
use crate::glazing_laws::{empty_overrides_change_nothing, supplies_are_kept, windows_are_kept};
use crate::json::{json, parsed, well_formed, Json};
use crate::profiles::{baseline, offered, Profiles};
use crate::text::{names_differ, text_pairs};
use crate::weather::{resolve_weather, weather_choice, weather_offered};
use serde_json::Value;
use vstd::prelude::*;
use vstd::std_specs::convert::FromSpec;

verus! {

/// The version that every response carries.
pub const API_VERSION: &'static str = "0.1.0";

/// Switches for the detail of the engine's output.
#[derive(Clone, Copy, Debug, PartialEq, Eq, Structural)]
pub struct SimulateOptions {
    pub heat_balance: bool,
    pub detailed_output_heating_cooling: bool,
}

impl Default for SimulateOptions {
    fn default() -> (res: Self)
        ensures
            !res.heat_balance,
            !res.detailed_output_heating_cooling,
    {
        SimulateOptions { heat_balance: false, detailed_output_heating_cooling: false }
    }
}

/// A request to run one scenario.
#[derive(Debug)]
pub struct SimulateRequest {
    /// Archetype id.
    pub archetype: String,
    /// Applied to every transparent element.
    pub glazing_overrides: GlazingOverrides,
    /// Per-window overrides, applied after `glazing_overrides`; later rules win per field.
    pub targeted_overrides: Vec<TargetedOverride>,
    pub options: SimulateOptions,
    /// Price and carbon factors. Without them, [`Economics::uk_defaults`].
    pub economics: Option<Economics>,
    /// Weather dataset id. Without it, the first on offer.
    pub weather: Option<String>,
}

/// A structured simulation result.
#[derive(Debug)]
pub struct SimulateResponse {
    pub archetype: String,
    pub api_version: &'static str,
    /// Id of the weather dataset used.
    pub weather: &'static str,
    /// How many distinct transparent elements received at least one override.
    pub transparent_elements_modified: usize,
    /// Every transparent element of the dwelling.
    pub windows: Vec<WindowInfo>,
    /// Fuel type of each energy supply of the dwelling.
    pub energy_supply_fuels: Vec<(String, String)>,
    /// The factors behind `cost_carbon`.
    pub economics_used: Economics,
    /// Running cost and carbon over the simulated period.
    pub cost_carbon: CostCarbon,
    pub summary: OutputSummary,
}

/// What a [`SimulateRequest`] asks for.
pub struct Request {
    pub archetype: Seq<char>,
    pub global: Patch,
    pub rules: Seq<Rule>,
    pub options: SimulateOptions,
    pub economics: Option<Tariff>,
    pub weather: Option<Seq<char>>,
}

/// What optional economics say.
pub open spec fn tariff_opt(e: Option<Economics>) -> Option<Tariff> {
    match e {
        Some(x) => Some(x@),
        None => None,
    }
}

impl View for SimulateRequest {
    type V = Request;

    open spec fn view(&self) -> Request {
        Request {
            archetype: self.archetype@,
            global: self.glazing_overrides@,
            rules: rules_of(self.targeted_overrides@),
            options: self.options,
            economics: tariff_opt(self.economics),
            weather: text_opt(self.weather),
        }
    }
}

/// The economics that apply: those given, else the UK defaults.
pub open spec fn tariff_used(economics: Option<Tariff>) -> Tariff {
    match economics {
        Some(t) => t,
        None => uk_tariff(),
    }
}

impl Request {
    /// Some overrides set both forms of the thermal performance.
    pub open spec fn contradictory(self) -> bool {
        self.global.contradictory() || exists|i: int|
            0 <= i < self.rules.len() && (#[trigger] self.rules[i]).overrides.contradictory()
    }

    /// Why no input can be assembled, if none can.
    pub open spec fn unassembled(self) -> Option<Failure> {
        if self.contradictory() {
            Some(Failure::InvalidInput(contradiction()))
        } else if !offered(self.archetype) {
            Some(Failure::UnknownArchetype(self.archetype))
        } else {
            None
        }
    }

    /// Why nothing can be run, if nothing can.
    pub open spec fn refused(self) -> Option<Failure> {
        if self.unassembled() is Some {
            self.unassembled()
        } else if !weather_offered(weather_choice(self.weather)) {
            Some(Failure::UnknownWeather(weather_choice(self.weather)))
        } else {
            None
        }
    }

    /// The input of the archetype as it is on offer.
    pub open spec fn as_built(self, profiles: Profiles) -> Json {
        parsed(profiles.source(self.archetype)->0)->0
    }

    /// The input to run.
    pub open spec fn input(self, profiles: Profiles) -> Json {
        patched_input(self.as_built(profiles), self.global, self.rules)
    }
}

/// The economics that apply to a request.
pub fn resolve_economics(economics: &Option<Economics>) -> (res: Economics)
    ensures
        res@ == tariff_used(tariff_opt(*economics)),
{
    match economics {
        Some(e) => e.clone(),
        None => Economics::uk_defaults(),
    }
}

/// Assembles the input for a request: loads the archetype and patches it, global overrides first,
/// then the targeted ones. Returns the input and how many transparent elements it reached.
pub fn assemble_input(profiles: &Profiles, req: &SimulateRequest) -> (res: Result<
    (Value, usize),
    ApiError,
>)
    ensures
        match res {
            Ok(done) => {
                &&& req@.unassembled() is None
                &&& profiles.source(req@.archetype) is Some
                &&& parsed(profiles.source(req@.archetype)->0) is Some
                &&& well_formed(req@.as_built(*profiles))
                &&& json(done.0) == req@.input(*profiles)
                &&& done.1 == touched_elements(
                    req@.as_built(*profiles),
                    req@.global,
                    req@.rules,
                ).len()
            },
            Err(e) => req@.unassembled() == Some(e@),
        },
{
    if let Err(e) = req.glazing_overrides.validate() {
        return Err(e);
    }
    let ghost rules = req@.rules;
    let mut i: usize = 0;
    while i < req.targeted_overrides.len()
        invariant
            i <= req.targeted_overrides.len(),
            rules == req@.rules,
            !req@.global.contradictory(),
            forall|j: int| 0 <= j < i ==> !(#[trigger] rules[j]).overrides.contradictory(),
        decreases req.targeted_overrides.len() - i,
    {
        assert(rules[i as int] == req.targeted_overrides@[i as int]@);
        if let Err(e) = req.targeted_overrides[i].overrides.validate() {
            assert(rules[i as int].overrides.contradictory());
            return Err(e);
        }
        i = i + 1;
    }
    assert(!req@.contradictory());
    let mut input: Value = match baseline(profiles, req.archetype.as_str()) {
        Some(input) => input,
        None => {
            return Err(ApiError::UnknownArchetype(req.archetype.clone()));
        },
    };
    let modified: usize = apply_all_overrides(
        &mut input,
        &req.glazing_overrides,
        req.targeted_overrides.as_slice(),
    );
    Ok((input, modified))
}

/// What the engine is to run.
#[derive(Debug)]
pub struct EngineRun {
    pub input: Value,
    /// Id of the weather dataset.
    pub weather: &'static str,
    pub options: SimulateOptions,
}

/// What is kept of a request while the engine runs.
#[derive(Debug)]
pub struct Pending {
    pub archetype: String,
    pub weather: &'static str,
    pub modified: usize,
    pub windows: Vec<WindowInfo>,
    pub energy_supply_fuels: Vec<(String, String)>,
    pub economics: Economics,
}

/// What came of an engine run.
#[derive(Debug)]
pub enum EngineOutcome {
    /// The weather data could not be loaded.
    NoWeather(String),
    Failed(EngineError),
    Finished(OutputSummary),
}

/// Prepares a scenario: the run that the engine is to make, and what the response needs besides.
///
/// The windows and the supplies are those of the archetype: overrides change neither.
pub fn begin_simulate(profiles: &Profiles, req: &SimulateRequest) -> (res: Result<
    (EngineRun, Pending),
    ApiError,
>)
    ensures
        match res {
            Ok((run, pending)) => req@.refused() is None && prepared(
                *profiles,
                req@,
                run,
                pending,
            ),
            Err(e) => req@.refused() == Some(e@),
        },
{
    let (input, modified): (Value, usize) = match assemble_input(profiles, req) {
        Ok(done) => done,
        Err(e) => {
            return Err(e);
        },
    };
    let weather: &'static str = match resolve_weather(&req.weather) {
        Ok(id) => id,
        Err(e) => {
            return Err(e);
        },
    };
    let energy_supply_fuels: Vec<(String, String)> = energy_supply_fuels(&input);
    let windows: Vec<WindowInfo> = window_inventory(&input);
    proof {
        windows_are_kept(req@.as_built(*profiles), req@.global, req@.rules);
        supplies_are_kept(req@.as_built(*profiles), req@.global, req@.rules);
    }
    let economics: Economics = resolve_economics(&req.economics);
    Ok(
        (
            EngineRun { input, weather, options: req.options },
            Pending {
                archetype: req.archetype.clone(),
                weather,
                modified,
                windows,
                energy_supply_fuels,
                economics,
            },
        ),
    )
}

/// What a scenario is answered with, once the engine has run.
pub open spec fn settled<A: Arithmetic>(
    pending: Pending,
    outcome: EngineOutcome,
    res: Result<SimulateResponse, ApiError>,
) -> bool {
    match outcome {
        EngineOutcome::NoWeather(reason) => res matches Err(e) && e@ == Failure::Weather(reason@),
        EngineOutcome::Failed(err) => res matches Err(e) && e == <ApiError as FromSpec<
            EngineError,
        >>::from_spec(err),
        EngineOutcome::Finished(summary) => match charges_for(
            summary@.delivered_energy,
            text_pairs(pending.energy_supply_fuels@),
            pending.economics@.fuels,
        ) {
            Ok(c) => {
                &&& res matches Ok(response)
                &&& response.archetype == pending.archetype
                &&& response.api_version@ == API_VERSION@
                &&& response.weather == pending.weather
                &&& response.transparent_elements_modified == pending.modified
                &&& response.windows == pending.windows
                &&& response.energy_supply_fuels == pending.energy_supply_fuels
                &&& response.economics_used == pending.economics
                &&& costed::<A>(c, response.cost_carbon)
                &&& response.summary == summary
            },
            Err(message) => res matches Err(e) && e@ == Failure::InvalidInput(message),
        },
    }
}

/// Answers a scenario from what came of the engine run: the summary with its running cost and
/// carbon, or the error.
pub fn finish_simulate<A: Arithmetic>(pending: Pending, outcome: EngineOutcome) -> (res: Result<
    SimulateResponse,
    ApiError,
>)
    ensures
        settled::<A>(pending, outcome, res),
{
    let summary: OutputSummary = match outcome {
        EngineOutcome::NoWeather(reason) => {
            return Err(ApiError::Weather(reason));
        },
        EngineOutcome::Failed(err) => {
            return Err(ApiError::from(err));
        },
        EngineOutcome::Finished(summary) => summary,
    };
    let total: CostCarbon = match cost_carbon::<A>(
        &summary,
        &pending.energy_supply_fuels,
        &pending.economics,
    ) {
        Ok(total) => total,
        Err(e) => {
            return Err(e);
        },
    };
    Ok(
        SimulateResponse {
            archetype: pending.archetype,
            api_version: API_VERSION,
            weather: pending.weather,
            transparent_elements_modified: pending.modified,
            windows: pending.windows,
            energy_supply_fuels: pending.energy_supply_fuels,
            economics_used: pending.economics,
            cost_carbon: total,
            summary,
        },
    )
}

/// `run` and `pending` are what a request that is not refused comes to before the engine runs.
pub open spec fn prepared(
    profiles: Profiles,
    req: Request,
    run: EngineRun,
    pending: Pending,
) -> bool {
    &&& json(run.input) == req.input(profiles)
    &&& run.weather@ == weather_choice(req.weather)
    &&& run.options == req.options
    &&& pending.archetype@ == req.archetype
    &&& pending.weather == run.weather
    &&& pending.modified == touched_elements(
        req.as_built(profiles),
        req.global,
        req.rules,
    ).len()
    &&& windows_view(pending.windows@) == windows_of(req.as_built(profiles))
    &&& text_pairs(pending.energy_supply_fuels@) == supplies_of(req.as_built(profiles))
    &&& names_differ(text_pairs(pending.energy_supply_fuels@))
    &&& pending.economics@ == tariff_used(req.economics)
}

/// `res` is what a request is answered with after this run of the engine, with this outcome.
pub open spec fn simulated_by<A: Arithmetic, N: Fn(&EngineRun) -> EngineOutcome>(
    profiles: Profiles,
    req: Request,
    engine: N,
    run: EngineRun,
    pending: Pending,
    outcome: EngineOutcome,
    res: Result<SimulateResponse, ApiError>,
) -> bool {
    &&& prepared(profiles, req, run, pending)
    &&& call_ensures(engine, (&run,), outcome)
    &&& settled::<A>(pending, outcome, res)
}

/// `res` is what a request is answered with: the error for which it is refused; else what comes of
/// the run that it asks the engine for.
pub open spec fn simulated<A: Arithmetic, N: Fn(&EngineRun) -> EngineOutcome>(
    profiles: Profiles,
    req: Request,
    engine: N,
    res: Result<SimulateResponse, ApiError>,
) -> bool {
    match req.refused() {
        Some(failure) => res matches Err(e) && e@ == failure,
        None => exists|run: EngineRun, pending: Pending, outcome: EngineOutcome| #[trigger]
            simulated_by::<A, N>(profiles, req, engine, run, pending, outcome, res),
    }
}

/// Runs one scenario end to end, with the engine at hand.
pub fn simulate<A: Arithmetic, N: Fn(&EngineRun) -> EngineOutcome>(
    profiles: &Profiles,
    req: &SimulateRequest,
    engine: &N,
) -> (res: Result<SimulateResponse, ApiError>)
    requires
        forall|run: EngineRun| call_requires(*engine, (&run,)),
    ensures
        simulated::<A, N>(*profiles, req@, *engine, res),
{
    let (run, pending): (EngineRun, Pending) = match begin_simulate(profiles, req) {
        Ok(started) => started,
        Err(e) => {
            return Err(e);
        },
    };
    let outcome: EngineOutcome = engine(&run);
    let ghost asked = pending;
    let ghost came = outcome;
    let res: Result<SimulateResponse, ApiError> = finish_simulate::<A>(pending, outcome);
    assert(simulated_by::<A, N>(*profiles, req@, *engine, run, asked, came, res));
    res
}

/// The windows, the supplies and the economics of a response depend on the archetype and the
/// economics asked for alone, not on the overrides nor on the engine.
pub proof fn response_describes_the_archetype<A: Arithmetic, N: Fn(&EngineRun) -> EngineOutcome>(
    profiles: Profiles,
    req: Request,
    engine: N,
    response: SimulateResponse,
)
    requires
        simulated::<A, N>(profiles, req, engine, Ok(response)),
    ensures
        response.archetype@ == req.archetype,
        response.api_version@ == API_VERSION@,
        response.weather@ == weather_choice(req.weather),
        windows_view(response.windows@) == windows_of(req.as_built(profiles)),
        text_pairs(response.energy_supply_fuels@) == supplies_of(req.as_built(profiles)),
        names_differ(text_pairs(response.energy_supply_fuels@)),
        response.economics_used@ == tariff_used(req.economics),
        response.transparent_elements_modified == touched_elements(
            req.as_built(profiles),
            req.global,
            req.rules,
        ).len(),
{
}

/// A refused request is answered with an error of the caller's, and the engine has no say in it.
pub proof fn refusals_are_client_errors<A: Arithmetic, N: Fn(&EngineRun) -> EngineOutcome>(
    profiles: Profiles,
    req: Request,
    engine: N,
    res: Result<SimulateResponse, ApiError>,
)
    requires
        simulated::<A, N>(profiles, req, engine, res),
        req.refused() is Some,
    ensures
        res matches Err(e) && e@ == req.refused()->0 && e@.client_error(),
{
}

/// A request without overrides runs the archetype as it was built.
pub proof fn plain_requests_run_the_archetype(profiles: Profiles, req: Request)
    requires
        req.global.empty(),
        req.rules.len() == 0,
    ensures
        req.input(profiles) == req.as_built(profiles),
        touched_elements(req.as_built(profiles), req.global, req.rules).len() == 0,
        !req.contradictory(),
{
    empty_overrides_change_nothing(req.as_built(profiles), req.global, req.rules);
}

/// What comes of a run depends on the run alone.
pub open spec fn pure_engine<N: Fn(&EngineRun) -> EngineOutcome>(engine: N) -> bool {
    forall|run: EngineRun, other: EngineRun, o: EngineOutcome, p: EngineOutcome| #[trigger]
        call_ensures(engine, (&run,), o) && #[trigger] call_ensures(engine, (&other,), p) && json(
            run.input,
        ) == json(other.input) && run.weather@ == other.weather@ && run.options == other.options
            ==> o == p
}

/// Two responses that say the same.
pub open spec fn same_response(a: SimulateResponse, b: SimulateResponse) -> bool {
    &&& a.archetype@ == b.archetype@
    &&& a.api_version@ == b.api_version@
    &&& a.weather@ == b.weather@
    &&& a.transparent_elements_modified == b.transparent_elements_modified
    &&& windows_view(a.windows@) == windows_view(b.windows@)
    &&& text_pairs(a.energy_supply_fuels@) == text_pairs(b.energy_supply_fuels@)
    &&& a.economics_used@ == b.economics_used@
    &&& a.cost_carbon == b.cost_carbon
    &&& a.summary == b.summary
}

/// The same request is answered in the same way every time, where the engine and the arithmetic
/// give the same result every time.
pub proof fn requests_have_one_answer<A: Arithmetic, N: Fn(&EngineRun) -> EngineOutcome>(
    profiles: Profiles,
    req: Request,
    engine: N,
    first: Result<SimulateResponse, ApiError>,
    second: Result<SimulateResponse, ApiError>,
)
    requires
        deterministic::<A>(),
        pure_engine(engine),
        simulated::<A, N>(profiles, req, engine, first),
        simulated::<A, N>(profiles, req, engine, second),
    ensures
        match (first, second) {
            (Ok(a), Ok(b)) => same_response(a, b),
            (Err(a), Err(b)) => a@ == b@,
            _ => false,
        },
{
    if req.refused() is None {
        let (r, p, o): (EngineRun, Pending, EngineOutcome) = choose|
            run: EngineRun,
            pending: Pending,
            outcome: EngineOutcome,
        | #[trigger]
            simulated_by::<A, N>(profiles, req, engine, run, pending, outcome, first);
        let (s, q, u): (EngineRun, Pending, EngineOutcome) = choose|
            run: EngineRun,
            pending: Pending,
            outcome: EngineOutcome,
        | #[trigger]
            simulated_by::<A, N>(profiles, req, engine, run, pending, outcome, second);
        assert(o == u);
        if let EngineOutcome::Finished(summary) = o {
            if let Ok(c) = charges_for(
                summary@.delivered_energy,
                text_pairs(p.energy_supply_fuels@),
                p.economics@.fuels,
            ) {
                let a = first->Ok_0;
                let b = second->Ok_0;
                formulas_have_one_result::<A>(
                    cost_of(c),
                    a.cost_carbon.cost_gbp,
                    b.cost_carbon.cost_gbp,
                );
                formulas_have_one_result::<A>(
                    carbon_of(c),
                    a.cost_carbon.carbon_kg,
                    b.cost_carbon.carbon_kg,
                );
            }
        }
    }
}

} // verus!
