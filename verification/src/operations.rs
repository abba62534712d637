//! What the operations promise, in the terms in which the laws speak of them.
use crate::arithmetic::{evaluates, Arithmetic};
use crate::compare::{
    compare, compare_delta, compared, lemma_reduction, CompareRequest, CompareResponse,
    ComparisonDelta,
};
use crate::compare_laws::{differences_keep_order, tells};
use crate::double::Double;
use crate::dwelling::{
    energy_supply_fuels, supplies_of, window_inventory, windows_of, windows_view, WindowInfo,
};
use crate::economics::{
    charges, charges_for, cost_carbon, costed, delivered_energy_total, delivered_total, Charge,
    CostCarbon, Economics, OutputSummary,
};
use crate::error::{ApiError, Failure};
use crate::form::{field, parse_opt, read_upgrade, said, Upgrade};
use crate::glazing::{GlazingOverrides, WindowSelector};
use crate::json::json;
use crate::override_laws::selectors_list_alternatives;
use crate::profiles::Profiles;
use crate::service_laws::forms_give_their_fields;
use crate::simulate::{
    simulate, simulated, EngineOutcome, EngineRun, SimulateRequest, SimulateResponse,
};
use crate::solvers::bisect::{bisect, bisected, BisectError, RootResults};
use crate::solvers::brent::{brentq, found, values_of};
use crate::solvers::ivp::{
    settled, solve_ivp, solved, IvpError, OdeResult, Settings, TerminatingEvents,
};
use crate::solvers::rk45::{
    dense, dense_coefficients, dense_output, error_norm, estimated, first_step, interpolated,
    mean_norm, rk_step, rms_norm, select_initial_step, stepped,
};
use crate::text::text_pairs;
use serde_json::Value;
use vstd::prelude::*;

verus! {

/// One step: the stages and the state at its end are those of a step of the length asked for, from
/// the time and the state given.
pub proof fn a_step_is_of_the_length_asked_for<
    A: Arithmetic,
    F: Fn(Double, &Vec<Double>) -> Vec<Double>,
>(
    func: F,
    t: Double,
    y: Vec<Double>,
    f: Vec<Double>,
    h: Double,
    res: (Vec<Double>, Vec<Vec<Double>>),
)
    requires
        call_ensures(rk_step::<A, F>, (&func, t, &y, &f, h), res),
    ensures
        stepped::<A, F>(func, t, y@, f@, h, res.0, res.1@),
{
}

/// The estimate of a step's error, the dense output and its coefficients, the norm and the first
/// step are those of what is given.
pub proof fn the_method_works_on_what_is_given<
    A: Arithmetic,
    F: Fn(Double, &Vec<Double>) -> Vec<Double>,
>(
    func: F,
    t: Double,
    y: Vec<Double>,
    y_new: Vec<Double>,
    k: Vec<Vec<Double>>,
    h: Double,
    rtol: Double,
    atol: Double,
    at: Double,
    q: Vec<[Double; 4]>,
    n: usize,
    t_bound: Double,
    f: Vec<Double>,
    direction: Double,
    norm: Double,
    coefficients: Vec<[Double; 4]>,
    output: Vec<Double>,
    mean: Double,
    first: Double,
)
    requires
        call_ensures(error_norm::<A>, (&y, &y_new, &k, h, rtol, atol), norm),
        call_ensures(dense_coefficients::<A>, (&k, n), coefficients),
        call_ensures(dense_output::<A>, (at, t, h, &y, &q), output),
        call_ensures(rms_norm::<A>, (&y,), mean),
        call_ensures(
            select_initial_step::<A, F>,
            (&func, t, &y, t_bound, &f, direction, rtol, atol),
            first,
        ),
    ensures
        estimated::<A>(y@, y_new@, k@, h, rtol, atol, norm),
        dense::<A>(k@, n as nat, coefficients@),
        interpolated::<A>(at, t, h, y@, q@, output@),
        evaluates::<A>(mean_norm(y@), mean),
        first_step::<A, F>(func, t, y@, t_bound, f@, direction, rtol, atol, first),
{
}

/// An integration is over the span asked for, from the state given, with the events given.
pub proof fn integrations_are_over_the_span_asked_for<
    A: Arithmetic,
    F: Fn(Double, &Vec<Double>) -> Vec<Double>,
    E: Fn(usize, Double, &Vec<Double>) -> Double,
>(
    func: F,
    t_span: (Double, Double),
    y0: Vec<Double>,
    terminating: TerminatingEvents<E>,
    rtol: Option<Double>,
    atol: Option<Double>,
    limit: u64,
    res: Result<OdeResult, IvpError>,
) -> (s: Settings)
    requires
        call_ensures(
            solve_ivp::<A, F, E>,
            (&func, t_span, &y0, &terminating, rtol, atol, limit),
            res,
        ),
    ensures
        settled::<A>(t_span, terminating.direction, rtol, atol, s),
        solved::<A, F, E>(
            func,
            terminating.event,
            terminating.count as nat,
            t_span.0,
            y0@,
            s,
            limit as nat,
            res,
        ),
{
    choose|s: Settings| #[trigger]
        settled::<A>(t_span, terminating.direction, rtol, atol, s) && solved::<A, F, E>(
            func,
            terminating.event,
            terminating.count as nat,
            t_span.0,
            y0@,
            s,
            limit as nat,
            res,
        )
}

/// Roots are sought of the function given, between the ends given.
pub proof fn roots_are_of_the_function_given<
    A: Arithmetic,
    E,
    F: Fn(Double) -> Result<Double, E>,
    G: Fn(Double) -> Double,
>(
    func: F,
    g: G,
    a: Double,
    b: Double,
    xtol: Double,
    rtol: Double,
    max_iter: usize,
    res: Result<(Double, RootResults), BisectError<E>>,
    root: Double,
)
    requires
        call_ensures(bisect::<A, E, F>, (func, a, b, xtol), res),
        call_ensures(brentq::<A, G>, (g, a, b, xtol, rtol, max_iter), root),
    ensures
        bisected::<A, E, F>(func, a, b, xtol, res),
        found::<A>(
            a,
            b,
            xtol,
            rtol,
            max_iter as nat,
            |x: Double, v: Double| call_ensures(g, (x,), v),
            root,
        ),
{
    assert(values_of(g) =~= (|x: Double, v: Double| call_ensures(g, (x,), v)));
}

/// A selector without orientations matches every window whose name is one of its names, at
/// whatever place; one with names matches no window whose name is at no place; and one without names
/// and orientations matches every window.
pub proof fn a_window_matches_by_any_name(
    s: WindowSelector,
    name: &str,
    orientation: Option<Double>,
    res: bool,
)
    requires
        call_ensures(WindowSelector::matches, (&s, name, orientation), res),
    ensures
        res == s@.selects(name@, orientation),
        s.orientations@.len() == 0 && (exists|i: int|
            0 <= i < s.names@.len() && (#[trigger] s.names@[i])@ == name@) ==> res,
        s.names@.len() > 0 && (forall|i: int|
            0 <= i < s.names@.len() ==> (#[trigger] s.names@[i])@ != name@) ==> !res,
        s.names@.len() == 0 && s.orientations@.len() == 0 ==> res,
{
    selectors_list_alternatives(s@, name@, orientation);
    assert forall|i: int| 0 <= i < s.names@.len() implies #[trigger] s@.names[i] == s.names@[i]@ by {}
    if exists|i: int| 0 <= i < s.names@.len() && (#[trigger] s.names@[i])@ == name@ {
        let i = choose|i: int| 0 <= i < s.names@.len() && (#[trigger] s.names@[i])@ == name@;
        assert(s@.names[i] == name@);
    }
}

/// Overrides are empty where no field is set, and are turned down where both forms of the thermal
/// performance are.
pub proof fn overrides_are_judged_by_their_fields(
    o: GlazingOverrides,
    nothing: bool,
    verdict: Result<(), ApiError>,
)
    requires
        call_ensures(GlazingOverrides::is_empty, (&o,), nothing),
        call_ensures(GlazingOverrides::validate, (&o,), verdict),
    ensures
        nothing == !(o.u_value is Some || o.thermal_resistance_construction is Some
            || o.g_value is Some || o.frame_area_fraction is Some || o.shading is Some
            || o.treatment is Some),
        verdict is Err == (o.u_value is Some && o.thermal_resistance_construction is Some),
        verdict matches Err(e) ==> e@ == Failure::InvalidInput(
            "u_value and thermal_resistance_construction are mutually exclusive; set only one"@,
        ),
{
}

/// The reductions between two responses tell which of the two is better, figure by figure.
pub proof fn reductions_compare_figure_by_figure<A: Arithmetic>(
    baseline: SimulateResponse,
    upgrade: SimulateResponse,
    d: ComparisonDelta,
)
    requires
        differences_keep_order::<A>(),
        call_ensures(compare_delta::<A>, (&baseline, &upgrade), d),
    ensures
        tells(
            baseline.summary.space_heat_demand_total,
            upgrade.summary.space_heat_demand_total,
            d.space_heat_demand_reduction,
        ),
        tells(
            baseline.summary.space_cool_demand_total,
            upgrade.summary.space_cool_demand_total,
            d.space_cool_demand_reduction,
        ),
        tells(
            baseline.cost_carbon.cost_gbp,
            upgrade.cost_carbon.cost_gbp,
            d.cost_gbp_reduction,
        ),
        tells(
            baseline.cost_carbon.carbon_kg,
            upgrade.cost_carbon.carbon_kg,
            d.carbon_kg_reduction,
        ),
{
    lemma_reduction::<A>(
        baseline.summary.space_heat_demand_total,
        upgrade.summary.space_heat_demand_total,
        d.space_heat_demand_reduction,
    );
    lemma_reduction::<A>(
        baseline.summary.space_cool_demand_total,
        upgrade.summary.space_cool_demand_total,
        d.space_cool_demand_reduction,
    );
    lemma_reduction::<A>(
        baseline.cost_carbon.cost_gbp,
        upgrade.cost_carbon.cost_gbp,
        d.cost_gbp_reduction,
    );
    lemma_reduction::<A>(
        baseline.cost_carbon.carbon_kg,
        upgrade.cost_carbon.carbon_kg,
        d.carbon_kg_reduction,
    );
}

/// A request is answered by the engine at hand, on the archetypes on offer; so is a comparison.
pub proof fn requests_are_answered_as_asked<A: Arithmetic, N: Fn(&EngineRun) -> EngineOutcome>(
    profiles: Profiles,
    req: SimulateRequest,
    both: CompareRequest,
    engine: N,
    one: Result<SimulateResponse, ApiError>,
    two: Result<CompareResponse, ApiError>,
)
    requires
        call_ensures(simulate::<A, N>, (&profiles, &req, &engine), one),
        call_ensures(compare::<A, N>, (&profiles, &both, &engine), two),
    ensures
        simulated::<A, N>(profiles, req@, engine, one),
        compared::<A, N>(profiles, both@, engine, two),
{
}

/// Charges, costs and totals are those of the summary, the supplies and the economics given.
pub proof fn charges_are_those_of_the_summary<A: Arithmetic>(
    summary: OutputSummary,
    supplies: Vec<(String, String)>,
    econ: Economics,
    list: Result<Vec<Charge>, ApiError>,
    cost: Result<CostCarbon, ApiError>,
    total: Option<Double>,
)
    requires
        call_ensures(charges, (&summary, &supplies, &econ), list),
        call_ensures(cost_carbon::<A>, (&summary, &supplies, &econ), cost),
        call_ensures(delivered_energy_total, (&summary,), total),
    ensures
        ({
            let due = charges_for(
                summary@.delivered_energy,
                text_pairs(supplies@),
                econ@.fuels,
            );
            &&& due matches Ok(c) ==> (list matches Ok(l) && l@ == c) && (cost matches Ok(x)
                && costed::<A>(c, x))
            &&& due matches Err(message) ==> (list matches Err(e) && e@ == Failure::InvalidInput(
                message,
            )) && (cost matches Err(e) && e@ == Failure::InvalidInput(message))
        }),
        total == delivered_total(summary@),
{
}

/// The windows and the supplies that are listed are those of the input given.
pub proof fn lists_are_those_of_the_input(
    input: Value,
    windows: Vec<WindowInfo>,
    supplies: Vec<(String, String)>,
)
    requires
        call_ensures(window_inventory, (&input,), windows),
        call_ensures(energy_supply_fuels, (&input,), supplies),
    ensures
        windows_view(windows@) == windows_of(json(input)),
        text_pairs(supplies@) == supplies_of(json(input)),
{
}

/// The fields of the screen mean what is typed into them.
pub proof fn fields_mean_what_is_typed(
    trimmed: &str,
    number: Option<Double>,
    label: &str,
    one: Result<Option<Double>, String>,
    u: Result<Option<Double>, String>,
    g: Result<Option<Double>, String>,
    f: Result<Option<Double>, String>,
    form: Result<Upgrade, String>,
)
    requires
        call_ensures(parse_opt, (trimmed, number, label), one),
        call_ensures(read_upgrade, (u, g, f), form),
    ensures
        one matches Ok(v) ==> field(trimmed@, number, label@) == Ok::<Option<Double>, Seq<char>>(v),
        one matches Err(m) ==> field(trimmed@, number, label@) == Err::<Option<Double>, Seq<char>>(
            m@,
        ),
        form matches Ok(upgrade) ==> u is Ok && g is Ok && f is Ok && upgrade.u_value == u->Ok_0
            && upgrade.g_value == g->Ok_0 && upgrade.frame_area_fraction == f->Ok_0,
        u is Err || g is Err || f is Err ==> form is Err,
{
    forms_give_their_fields(said(u), said(g), said(f));
}

} // verus!
