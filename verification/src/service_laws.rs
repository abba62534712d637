//! What requests, errors and the fields of the screen come to.
use crate::arithmetic::{zero, Arithmetic};
use crate::double::Double;
use crate::dwelling::{supplies_of, windows_of, windows_view};
use crate::economics::{charges_for, costed, uk_tariff, Charge};
use crate::error::{ApiError, EngineError, EngineFault, Failure};
use crate::form::{
    complaints, default_choice, described, field, listed, signed_class, upgrade_asked,
    weather_field, NamedItem, Upgrade,
};
use crate::glazing::{patched_input, touched_elements};
use crate::json::{json, parsed, Json};
use crate::profiles::{archetypes, offered, source_of, usable, Profiles};
use crate::simulate::{
    simulated, simulated_by, EngineOutcome, EngineRun, Pending, Request, SimulateRequest,
    SimulateResponse,
};
use crate::solvers::interp::{Interp1dFillValue, Interp1dMode};
use crate::text::text_pairs;
use crate::weather::{datasets, weather_choice, weather_offered};
use vstd::prelude::*;
use vstd::std_specs::convert::FromSpec;

verus! {

/// Each error is answered with its own status and with a text that names what it is about.
pub proof fn errors_have_their_own_answers(e: ApiError)
    ensures
        e matches ApiError::UnknownArchetype(s) ==> e@.status() == 404 && e@.message()
            == "unknown archetype: '"@ + s@ + "'"@,
        e matches ApiError::UnknownWeather(s) ==> e@.status() == 404 && e@.message()
            == "unknown weather: '"@ + s@ + "'"@,
        e matches ApiError::InvalidInput(s) ==> e@.status() == 422 && e@.message()
            == "invalid input: "@ + s@,
        e matches ApiError::Weather(s) ==> e@.status() == 500 && e@.message()
            == "failed to load weather data: "@ + s@,
        e matches ApiError::Calculation(s) ==> e@.status() == 500 && e@.message()
            == "calculation failed: "@ + s@,
        e@.client_error() == !(e is Weather || e is Calculation),
{
}

/// An engine failure keeps its message: as a rejection of the input where the engine rejected it or
/// does not do what it asks for, as a failed calculation otherwise.
pub proof fn engine_failures_keep_their_message(err: EngineError)
    ensures
        err.fault == EngineFault::Other ==> <ApiError as FromSpec<EngineError>>::from_spec(err)
            == ApiError::Calculation(err.message),
        err.fault != EngineFault::Other ==> <ApiError as FromSpec<EngineError>>::from_spec(err)
            == ApiError::InvalidInput(err.message),
{
}

/// The weather of London is on offer, and no other; it is the one where none is named.
pub proof fn the_weather_on_offer(id: Seq<char>)
    ensures
        weather_offered(id) <==> id == "london_cibse"@,
        weather_choice(None) == "london_cibse"@,
        weather_choice(Some(id)) == id,
{
    assert(datasets()[0].id == "london_cibse"@);
}

/// Three archetypes are on offer, and no other.
pub proof fn the_archetypes_on_offer(id: Seq<char>)
    ensures
        offered(id) <==> id == "flat_nat_vent"@ || id == "flat_new_build_uk"@ || id
            == "detached_demo"@,
        archetypes().len() == 3,
{
    let a = archetypes();
    assert(a[0].id == "flat_nat_vent"@);
    assert(a[1].id == "flat_new_build_uk"@);
    assert(a[2].id == "detached_demo"@);
}

/// Each archetype has a text of its own.
pub proof fn archetypes_have_their_own_texts(
    id: Seq<char>,
    nat_vent: Seq<char>,
    new_build: Seq<char>,
    demo: Seq<char>,
)
    ensures
        source_of("flat_nat_vent"@, nat_vent, new_build, demo) == Some(nat_vent),
        source_of("flat_new_build_uk"@, nat_vent, new_build, demo) == Some(new_build),
        source_of("detached_demo"@, nat_vent, new_build, demo) == Some(demo),
        !offered(id) ==> source_of(id, nat_vent, new_build, demo) is None,
{
    reveal_strlit("flat_nat_vent");
    reveal_strlit("flat_new_build_uk");
    reveal_strlit("detached_demo");
    assert("flat_nat_vent"@[5] == 'n' && "flat_nat_vent"@[6] == 'a');
    assert("flat_new_build_uk"@[6] == 'e');
    assert("detached_demo"@[0] == 'd');
    assert("flat_nat_vent"@[0] == 'f');
    assert("flat_new_build_uk"@[0] == 'f');
    the_archetypes_on_offer(id);
}

/// A text is the input of a dwelling exactly when it is a JSON object with a member `Zone`.
pub proof fn inputs_have_zones(text: Seq<char>)
    ensures
        usable(text) <==> (parsed(text) matches Some(Json::Object(e)) && exists|i: int|
            0 <= i < e.len() && (#[trigger] e[i]).0 == "Zone"@),
{
}

/// Why a request is refused, from the first reason on: overrides that set both forms of the thermal
/// performance, an archetype that is not on offer, a weather that is not on offer.
pub proof fn requests_are_refused_for_cause(req: Request)
    ensures
        ({
            let both = (req.global.u_value is Some
                && req.global.thermal_resistance_construction is Some) || exists|i: int|
                0 <= i < req.rules.len() && (#[trigger] req.rules[i]).overrides.u_value is Some
                    && req.rules[i].overrides.thermal_resistance_construction is Some;
            let known = req.archetype == "flat_nat_vent"@ || req.archetype == "flat_new_build_uk"@
                || req.archetype == "detached_demo"@;
            let fair = req.weather is None || req.weather == Some("london_cibse"@);
            req.refused() == (if both {
                Some(
                    Failure::InvalidInput(
                        "u_value and thermal_resistance_construction are mutually exclusive; set only one"@,
                    ),
                )
            } else if !known {
                Some(Failure::UnknownArchetype(req.archetype))
            } else if !fair {
                Some(Failure::UnknownWeather(req.weather->0))
            } else {
                None
            })
        }),
{
    the_archetypes_on_offer(req.archetype);
    the_weather_on_offer(weather_choice(req.weather));
    if exists|i: int|
        0 <= i < req.rules.len() && (#[trigger] req.rules[i]).overrides.u_value is Some
            && req.rules[i].overrides.thermal_resistance_construction is Some {
        let i = choose|i: int|
            0 <= i < req.rules.len() && (#[trigger] req.rules[i]).overrides.u_value is Some
                && req.rules[i].overrides.thermal_resistance_construction is Some;
        assert(req.rules[i].overrides.contradictory());
    }
}

/// `run` is what a request asks the engine for: the archetype's input with the overrides of the
/// request, its weather, and its options.
pub open spec fn asks_for(profiles: Profiles, req: Request, run: EngineRun) -> bool {
    &&& json(run.input) == patched_input(
        parsed(profiles.source(req.archetype)->0)->0,
        req.global,
        req.rules,
    )
    &&& run.options == req.options
    &&& req.weather matches Some(id) ==> run.weather@ == id
    &&& req.weather is None ==> run.weather@ == "london_cibse"@
}

/// A response tells of the run that the request asks for: its summary is what the engine made of
/// the run, its cost and carbon are those of the charges on that summary, by the supplies of the
/// archetype and the economics of the request, and its count is that of the windows reached.
pub proof fn responses_tell_of_the_run_asked_for<A: Arithmetic, N: Fn(&EngineRun) -> EngineOutcome>(
    profiles: Profiles,
    req: Request,
    engine: N,
    r: SimulateResponse,
) -> (found: (EngineRun, Seq<Charge>))
    requires
        simulated::<A, N>(profiles, req, engine, Ok(r)),
    ensures
        asks_for(profiles, req, found.0),
        call_ensures(engine, (&found.0,), EngineOutcome::Finished(r.summary)),
        charges_for(
            r.summary@.delivered_energy,
            text_pairs(r.energy_supply_fuels@),
            r.economics_used@.fuels,
        ) == Ok::<Seq<Charge>, Seq<char>>(found.1),
        costed::<A>(found.1, r.cost_carbon),
        r.archetype@ == req.archetype,
        r.api_version@ == "0.1.0"@,
        r.weather@ == found.0.weather@,
        req.economics matches Some(t) ==> r.economics_used@ == t,
        req.economics is None ==> r.economics_used@ == uk_tariff(),
        ({
            let built = parsed(profiles.source(req.archetype)->0)->0;
            &&& r.transparent_elements_modified == touched_elements(
                built,
                req.global,
                req.rules,
            ).len()
            &&& windows_view(r.windows@) == windows_of(built)
            &&& text_pairs(r.energy_supply_fuels@) == supplies_of(built)
        }),
{
    let res: Result<SimulateResponse, ApiError> = Ok(r);
    let (run, pending, outcome): (EngineRun, Pending, EngineOutcome) = choose|
        run: EngineRun,
        pending: Pending,
        outcome: EngineOutcome,
    | #[trigger]
        simulated_by::<A, N>(profiles, req, engine, run, pending, outcome, res);
    the_weather_on_offer(seq![]);
    let c = charges_for(
        r.summary@.delivered_energy,
        text_pairs(r.energy_supply_fuels@),
        r.economics_used@.fuels,
    )->Ok_0;
    (run, c)
}

/// A request that is not refused and yet fails does so for what came of its run: for want of
/// weather data, for a failure of the engine, or for a fuel without factors.
pub proof fn failures_come_of_the_run_asked_for<A: Arithmetic, N: Fn(&EngineRun) -> EngineOutcome>(
    profiles: Profiles,
    req: Request,
    engine: N,
    e: ApiError,
) -> (found: (EngineRun, EngineOutcome))
    requires
        simulated::<A, N>(profiles, req, engine, Err(e)),
        req.refused() is None,
    ensures
        asks_for(profiles, req, found.0),
        call_ensures(engine, (&found.0,), found.1),
        found.1 matches EngineOutcome::NoWeather(reason) ==> e@ == Failure::Weather(reason@),
        found.1 matches EngineOutcome::Failed(err) ==> e == (if err.fault == EngineFault::Other {
            ApiError::Calculation(err.message)
        } else {
            ApiError::InvalidInput(err.message)
        }),
        found.1 matches EngineOutcome::Finished(summary) ==> (charges_for(
            summary@.delivered_energy,
            supplies_of(parsed(profiles.source(req.archetype)->0)->0),
            (match req.economics {
                Some(t) => t,
                None => uk_tariff(),
            }).fuels,
        ) matches Err(message) && e@ == Failure::InvalidInput(message)),
{
    let res: Result<SimulateResponse, ApiError> = Err(e);
    let (run, pending, outcome): (EngineRun, Pending, EngineOutcome) = choose|
        run: EngineRun,
        pending: Pending,
        outcome: EngineOutcome,
    | #[trigger]
        simulated_by::<A, N>(profiles, req, engine, run, pending, outcome, res);
    the_weather_on_offer(seq![]);
    (run, outcome)
}

/// What a request says is what its fields hold.
pub proof fn requests_say_what_their_fields_hold(req: SimulateRequest)
    ensures
        req@.archetype == req.archetype@,
        req@.global == req.glazing_overrides@,
        req@.rules.len() == req.targeted_overrides@.len(),
        forall|i: int|
            0 <= i < req.targeted_overrides@.len() ==> #[trigger] req@.rules[i]
                == req.targeted_overrides@[i]@,
        req@.options == req.options,
        req.economics is None ==> req@.economics is None,
        req.economics matches Some(e) ==> req@.economics == Some(e@),
        req.weather is None ==> req@.weather is None,
        req.weather matches Some(w) ==> req@.weather == Some(w@),
{
}

/// A field that is blank means nothing, whatever else; one that is a number means that number; any
/// other is complained of by its label.
pub proof fn fields_mean_their_number(text: Seq<char>, number: Option<Double>, label: Seq<char>)
    ensures
        text.len() == 0 ==> field(text, number, label) == Ok::<Option<Double>, Seq<char>>(None),
        text.len() > 0 && number is Some ==> field(text, number, label) == Ok::<
            Option<Double>,
            Seq<char>,
        >(number),
        text.len() > 0 && number is None ==> field(text, number, label) == Err::<
            Option<Double>,
            Seq<char>,
        >(label + " must be a number"@),
{
}

/// A form gives the values of its three fields, each in its place; where fields are malformed, it
/// gives all their messages, in order, with "; " between them; where none is set, it asks for one.
pub proof fn forms_give_their_fields(
    u: Result<Option<Double>, Seq<char>>,
    g: Result<Option<Double>, Seq<char>>,
    f: Result<Option<Double>, Seq<char>>,
)
    ensures
        upgrade_asked(u, g, f) == (match (u, g, f) {
            (Ok(None), Ok(None), Ok(None)) => Err::<Upgrade, Seq<char>>(
                "Enter at least one upgraded glazing value to compare against the as-built windows."@,
            ),
            (Ok(a), Ok(b), Ok(c)) => Ok(
                Upgrade { u_value: a, g_value: b, frame_area_fraction: c },
            ),
            (Err(l), Ok(_), Ok(_)) => Err(l),
            (Ok(_), Err(m), Ok(_)) => Err(m),
            (Ok(_), Ok(_), Err(n)) => Err(n),
            (Err(l), Err(m), Ok(_)) => Err(l + "; "@ + m),
            (Err(l), Ok(_), Err(n)) => Err(l + "; "@ + n),
            (Ok(_), Err(m), Err(n)) => Err(m + "; "@ + n),
            (Err(l), Err(m), Err(n)) => Err(l + "; "@ + m + "; "@ + n),
        }),
{
    reveal_with_fuel(complaints, 4);
    reveal_with_fuel(listed, 4);
    let s = seq![u, g, f];
    assert(s.drop_last() =~= seq![u, g]);
    assert(seq![u, g].drop_last() =~= seq![u]);
    assert(seq![u].drop_last() =~= seq![]);
    assert(s.last() == f);
    assert(seq![u, g].last() == g);
    assert(seq![u].last() == u);
    let wrong = complaints(s);
    assert(wrong.len() > 1 ==> wrong.drop_last() =~= complaints(s).take(wrong.len() - 1));
}

/// The description that is shown is that of the first item with the id, and nothing where there is
/// none.
pub proof fn the_chosen_item_is_described(list: Seq<NamedItem>, id: Seq<char>, i: int)
    requires
        0 <= i <= list.len(),
        forall|j: int| 0 <= j < i ==> (#[trigger] list[j]).id@ != id,
        i < list.len() ==> list[i].id@ == id,
    ensures
        i < list.len() ==> described(list, id) == list[i].description@,
        i == list.len() ==> described(list, id).len() == 0,
    decreases list.len(),
{
    if list.len() > 0 && i > 0 {
        assert(list[0].id@ != id);
        let rest = list.drop_first();
        assert forall|j: int| 0 <= j < i - 1 implies (#[trigger] rest[j]).id@ != id by {
            assert(rest[j] == list[j + 1]);
        }
        the_chosen_item_is_described(rest, id, i - 1);
    }
}

/// A saving is shown as good where it is positive, as bad where it is negative, and as neither
/// otherwise.
pub proof fn savings_are_shown_by_their_sign(x: Double, class: &'static str)
    requires
        call_ensures(signed_class, (x,), class),
    ensures
        class@ == "pos"@ <==> zero().lt(x),
        class@ == "neg"@ <==> x.lt(zero()),
        !zero().lt(x) && !x.lt(zero()) ==> class@.len() == 0,
{
    reveal_strlit("pos");
    reveal_strlit("neg");
    reveal_strlit("");
    assert("pos"@[0] == 'p');
    assert("neg"@[0] == 'n');
    assert("pos"@.len() == 3 && "neg"@.len() == 3 && ""@.len() == 0);
    assert("pos"@ != "neg"@);
}

/// A list that comes in chooses its first item where nothing is chosen, and nothing otherwise; and
/// a weather is asked for exactly when one is chosen.
pub proof fn choices_are_kept(
    current: &str,
    list: &Vec<NamedItem>,
    choice: Option<String>,
    weather: Option<String>,
)
    requires
        call_ensures(default_choice, (current, list), choice),
        call_ensures(weather_field, (current,), weather),
    ensures
        current@.len() > 0 ==> choice is None && weather is Some && weather->0@ == current@,
        current@.len() == 0 ==> weather is None,
        current@.len() == 0 && list@.len() > 0 ==> choice is Some && choice->0@ == list@[0].id@,
        list@.len() == 0 ==> choice is None,
{
}

/// An interpolation with fill values goes on with the first of them; one without goes on by itself.
pub proof fn fill_values_go_on_with_the_first(fill: Interp1dFillValue, mode: Interp1dMode)
    requires
        call_ensures(Interp1dFillValue::mode, (fill,), mode),
    ensures
        fill matches Interp1dFillValue::FillValues(v) ==> mode == Interp1dMode::Constant(v.0),
        fill is Extrapolate <==> mode is Extrapolate,
{
}

} // verus!
