//! Archetypes, overrides, scenarios and comparisons.
use hem_service::arithmetic::Arithmetic;
use hem_service::compare::{compare, compare_requests, CompareRequest, CompareResponse};
use hem_service::double::Double;
use hem_service::dwelling::{energy_supply_fuels, window_inventory};
use hem_service::economics::{
    charges, cost_carbon, delivered_energy_total, Economics, FuelFactors, OutputSummary,
    SupplyEnergy,
};
use hem_service::error::{ApiError, EngineError, EngineFault};
use hem_service::glazing::{
    apply_all_overrides, apply_glazing_overrides, apply_overrides_to_element, GlazingOverrides,
    TargetedOverride, WindowSelector,
};
use hem_service::profiles::{
    baseline, is_known, list, ArchetypeFault, MalformedArchetype, Profiles,
};
use hem_service::simulate::{
    assemble_input, begin_simulate, finish_simulate, simulate, EngineOutcome, EngineRun,
    SimulateOptions, SimulateRequest, SimulateResponse, API_VERSION,
};
use hem_service::weather::{list_weather, resolve_weather};
use serde_json::Value;

/// The arithmetic of the machine.
struct Machine;

impl Arithmetic for Machine {
    fn sum(a: Double, b: Double) -> Double {
        double(number(a) + number(b))
    }

    fn difference(a: Double, b: Double) -> Double {
        double(number(a) - number(b))
    }

    fn product(a: Double, b: Double) -> Double {
        double(number(a) * number(b))
    }

    fn quotient(a: Double, b: Double) -> Double {
        double(number(a) / number(b))
    }

    fn power(base: Double, exponent: Double) -> Double {
        double(number(base).powf(number(exponent)))
    }

    fn square_root(a: Double) -> Double {
        double(number(a).sqrt())
    }

    fn ratio(numerator: i64, denominator: i64) -> Double {
        double(numerator as f64 / denominator as f64)
    }

    fn count(n: usize) -> Double {
        double(n as f64)
    }
}

fn double(x: f64) -> Double {
    Double { bits: x.to_bits() }
}

fn number(d: Double) -> f64 {
    f64::from_bits(d.bits)
}

fn parse(text: &str) -> Value {
    serde_json::from_str(text).unwrap()
}

const DETACHED_DEMO: &str = r#"{
    "temp_internal_air_static_calcs": 20.0,
    "EnergySupply": {
        "mains elec": { "fuel": "electricity", "is_export_capable": true }
    },
    "Zone": {
        "zone 1": {
            "area": 80.0,
            "BuildingElement": {
                "wall 0": { "type": "BuildingElementOpaque", "area": 20.0, "pitch": 90 },
                "window 0": {
                    "type": "BuildingElementTransparent",
                    "thermal_resistance_construction": 0.4,
                    "pitch": 90,
                    "orientation360": 90,
                    "g_value": 0.71,
                    "frame_area_fraction": 0.25,
                    "shading": []
                },
                "window 1": {
                    "type": "BuildingElementTransparent",
                    "thermal_resistance_construction": 0.4,
                    "pitch": 90,
                    "orientation360": 180,
                    "g_value": 0.71,
                    "frame_area_fraction": 0.25,
                    "shading": []
                },
                "ground": { "type": "BuildingElementGround", "area": 40.0 }
            }
        }
    }
}"#;

fn flat_window(performance: &str, g_value: &str) -> String {
    format!(
        r#"{{
            "type": "BuildingElementTransparent",
            {performance},
            "pitch": 90.0,
            "orientation360": 90.0,
            "g_value": {g_value},
            "shading": [
                {{ "type": "overhang", "depth": 0.5, "distance": 0.5 }},
                {{ "type": "sidefinleft", "depth": 0.25, "distance": 0.1 }},
                {{ "type": "sidefinright", "depth": 0.25, "distance": 0.1 }}
            ]
        }}"#
    )
}

fn flat(performance: &str, g_value: &str) -> String {
    let w = flat_window(performance, g_value);
    format!(
        r#"{{
            "EnergySupply": {{ "mains elec": {{ "fuel": "electricity" }} }},
            "Zone": {{
                "living": {{ "BuildingElement": {{
                    "living window W03": {w},
                    "living wall": {{ "type": "BuildingElementOpaque", "pitch": 90.0 }},
                    "living window W04": {w}
                }} }},
                "rest": {{ "BuildingElement": {{
                    "bed window W01": {w},
                    "bed window W02": {w}
                }} }}
            }}
        }}"#
    )
}

fn profiles() -> Profiles {
    Profiles::new(
        flat("\"thermal_resistance_construction\": 0.7", "0.5"),
        flat("\"u_value\": 1.4", "0.63"),
        DETACHED_DEMO.to_string(),
    )
    .unwrap()
}

fn num(x: f64) -> Option<Value> {
    Some(Value::from(x))
}

fn by_name(name: &str) -> WindowSelector {
    WindowSelector { names: vec![name.to_string()], orientations: vec![] }
}

fn by_orientation(x: f64) -> WindowSelector {
    WindowSelector { names: vec![], orientations: vec![double(x)] }
}

fn demo_request(overrides: GlazingOverrides) -> SimulateRequest {
    SimulateRequest {
        archetype: "detached_demo".to_string(),
        glazing_overrides: overrides,
        targeted_overrides: Vec::new(),
        options: SimulateOptions::default(),
        economics: None,
        weather: None,
    }
}

fn rejected(message: &str) -> EngineOutcome {
    EngineOutcome::Failed(EngineError {
        fault: EngineFault::InvalidRequest,
        message: message.to_string(),
    })
}

/// Stands in for the engine: rejects shadings and treatments without the fields they need, and
/// takes the transmittance of the windows for the demand.
fn engine(run: &EngineRun) -> EngineOutcome {
    let mut heat = 0.0;
    for zone in run.input["Zone"].as_object().unwrap().values() {
        for el in zone["BuildingElement"].as_object().unwrap().values() {
            if el["type"] != "BuildingElementTransparent" {
                continue;
            }
            for s in el["shading"].as_array().unwrap() {
                if s.get("depth").is_none() || s.get("distance").is_none() {
                    return rejected("a shading needs a depth and a distance");
                }
            }
            if let Some(list) = el.get("treatment") {
                for t in list.as_array().unwrap() {
                    if t.get("controls").is_none() || t.get("delta_r").is_none() {
                        return rejected("a treatment needs controls and a resistance");
                    }
                }
            }
            heat += match (el.get("u_value"), el.get("thermal_resistance_construction")) {
                (Some(u), None) => u.as_f64().unwrap(),
                (None, Some(r)) => 1.0 / r.as_f64().unwrap(),
                _ => return rejected("a window has one form of thermal performance"),
            };
        }
    }
    EngineOutcome::Finished(summary(heat))
}

fn row(supply: &str, kwh: f64) -> SupplyEnergy {
    SupplyEnergy {
        supply: supply.to_string(),
        end_uses: vec![("heating".to_string(), double(kwh)), ("total".to_string(), double(kwh))],
    }
}

fn summary(heat: f64) -> OutputSummary {
    let mut document = serde_json::Map::new();
    document.insert("space_heat_demand_total".to_string(), Value::from(heat));
    OutputSummary {
        space_heat_demand_total: double(heat),
        space_cool_demand_total: double(0.0),
        delivered_energy: vec![
            row("total", heat * 1.5),
            row("mains elec", heat * 1.5),
            row("_energy_from_environment", heat * 2.0),
        ],
        document: Value::Object(document),
    }
}

fn run(req: &SimulateRequest) -> Result<SimulateResponse, ApiError> {
    simulate::<Machine, _>(&profiles(), req, &engine)
}

fn compare_request(upgrade: GlazingOverrides) -> CompareRequest {
    CompareRequest {
        archetype: "detached_demo".to_string(),
        baseline_overrides: GlazingOverrides::default(),
        baseline_targeted: Vec::new(),
        upgrade_overrides: upgrade,
        upgrade_targeted: Vec::new(),
        options: SimulateOptions::default(),
        economics: None,
        weather: None,
    }
}

fn run_compare(req: &CompareRequest) -> Result<CompareResponse, ApiError> {
    compare::<Machine, _>(&profiles(), req, &engine)
}

fn find(input: &Value, name: &str) -> Value {
    input["Zone"]
        .as_object()
        .unwrap()
        .values()
        .flat_map(|z| z["BuildingElement"].as_object().unwrap())
        .find(|(n, _)| n.as_str() == name)
        .map(|(_, e)| e.clone())
        .unwrap()
}

fn g_of(input: &Value, name: &str) -> Option<f64> {
    find(input, name).get("g_value").and_then(Value::as_f64)
}

fn shading_of(input: &Value, name: &str) -> Value {
    find(input, name)["shading"].clone()
}

fn factors(fuel: &str, price: f64, carbon: f64) -> (String, FuelFactors) {
    (
        fuel.to_string(),
        FuelFactors { price_gbp_per_kwh: double(price), carbon_kg_per_kwh: double(carbon) },
    )
}

// ---- archetypes ----

#[test]
fn archetypes_are_valid_json_with_zones() {
    let p = profiles();
    for info in list() {
        let baseline = baseline(&p, info.id).expect("listed archetype must have a baseline");
        let obj = baseline.as_object().expect("archetype root must be a JSON object");
        assert!(obj.contains_key("Zone"), "{} must contain a Zone section", info.id);
    }
}

#[test]
fn unknown_archetype_is_none() {
    assert!(baseline(&profiles(), "does_not_exist").is_none());
    assert!(!is_known("does_not_exist"));
}

#[test]
fn new_build_uk_has_current_glazing_on_all_windows() {
    let b = baseline(&profiles(), "flat_new_build_uk").expect("archetype exists");
    let mut windows = 0;
    for zone in b["Zone"].as_object().unwrap().values() {
        for el in zone["BuildingElement"].as_object().unwrap().values() {
            if el["type"] == "BuildingElementTransparent" {
                windows += 1;
                assert_eq!(el["u_value"], Value::from(1.4), "window must be at U=1.4");
                assert!(
                    el.get("thermal_resistance_construction").is_none(),
                    "the mutually-exclusive resistance key must be absent"
                );
                assert_eq!(el["g_value"], Value::from(0.63));
            }
        }
    }
    assert_eq!(windows, 4, "the flat envelope has four windows");
}

#[test]
fn archetypes_are_listed_in_order() {
    let ids: Vec<&str> = list().iter().map(|a| a.id).collect();
    assert_eq!(ids, ["flat_nat_vent", "flat_new_build_uk", "detached_demo"]);
    assert!(ids.iter().all(|id| is_known(id)));
    assert_eq!(list()[0].name, "Naturally-ventilated flat");
    assert!(list()[1].description.contains("U=1.4 W/m²K"));
}

#[test]
fn each_archetype_has_its_own_text() {
    let text = |s: &str| format!("{{\"Zone\":{{}},\"is\":\"{s}\"}}");
    let p = Profiles::new(text("a"), text("b"), text("c")).unwrap();
    assert_eq!(baseline(&p, "flat_nat_vent").unwrap()["is"], "a");
    assert_eq!(baseline(&p, "flat_new_build_uk").unwrap()["is"], "b");
    assert_eq!(baseline(&p, "detached_demo").unwrap()["is"], "c");
}

#[test]
fn malformed_archetypes_are_refused() {
    let good = || "{\"Zone\": {}}".to_string();
    let bad = || "{".to_string();
    let id = |r: Result<Profiles, MalformedArchetype>| r.err().map(|e| e.id);
    assert_eq!(id(Profiles::new(good(), good(), good())), None);
    assert_eq!(id(Profiles::new(bad(), bad(), good())), Some("flat_nat_vent"));
    assert_eq!(id(Profiles::new(good(), bad(), bad())), Some("flat_new_build_uk"));
    assert_eq!(id(Profiles::new(good(), good(), bad())), Some("detached_demo"));
    for zoneless in ["{}", "[]", "\"Zone\""] {
        let e = Profiles::new(good(), zoneless.to_string(), bad()).err().unwrap();
        assert_eq!(e.id, "flat_new_build_uk");
        assert!(matches!(e.fault, ArchetypeFault::NoZone));
    }
    let e = Profiles::new(bad(), good(), good()).err().unwrap();
    assert!(matches!(e.fault, ArchetypeFault::NotJson(_)));
}

// ---- overrides ----

#[test]
fn overrides_touch_all_transparent_elements_only() {
    let mut input = baseline(&profiles(), "detached_demo").unwrap();
    let overrides = GlazingOverrides { g_value: num(0.5), ..Default::default() };
    let n = apply_glazing_overrides(&mut input, &overrides);
    assert_eq!(n, 2);
    let zones = input["Zone"].as_object().unwrap();
    for zone in zones.values() {
        for el in zone["BuildingElement"].as_object().unwrap().values() {
            if el["type"] == "BuildingElementTransparent" {
                assert_eq!(el["g_value"], Value::from(0.5));
            } else {
                assert!(el.get("g_value").is_none());
            }
        }
    }
}

#[test]
fn empty_overrides_modify_nothing() {
    let mut input = baseline(&profiles(), "detached_demo").unwrap();
    let before = input.clone();
    let n = apply_glazing_overrides(&mut input, &GlazingOverrides::default());
    assert_eq!(n, 0);
    assert_eq!(input, before, "no-op overrides must not mutate the input");
}

#[test]
fn unknown_archetype_is_client_error() {
    let mut req = demo_request(GlazingOverrides::default());
    req.archetype = "nope".to_string();
    let e = assemble_input(&profiles(), &req).unwrap_err();
    assert!(e.is_client_error());
    assert!(matches!(e, ApiError::UnknownArchetype(_)));
}

#[test]
fn simulate_matches_direct_engine_run_on_manually_patched_input() {
    let overrides = GlazingOverrides {
        g_value: num(0.42),
        frame_area_fraction: num(0.15),
        thermal_resistance_construction: num(0.30),
        ..Default::default()
    };
    let (api_input, modified) = assemble_input(&profiles(), &demo_request(overrides)).unwrap();
    assert_eq!(modified, 2);

    let mut manual = baseline(&profiles(), "detached_demo").unwrap();
    {
        let zones = manual["Zone"].as_object_mut().unwrap();
        for zone in zones.values_mut() {
            let els = zone["BuildingElement"].as_object_mut().unwrap();
            for el in els.values_mut() {
                if el["type"] == "BuildingElementTransparent" {
                    let o = el.as_object_mut().unwrap();
                    o.insert("g_value".to_string(), Value::from(0.42));
                    o.insert("frame_area_fraction".to_string(), Value::from(0.15));
                    o.insert("thermal_resistance_construction".to_string(), Value::from(0.30));
                }
            }
        }
    }
    assert_eq!(api_input, manual, "patch layer must match a manual patch of the same fields");

    let document = |input: Value| {
        let run = EngineRun { input, weather: "london_cibse", options: SimulateOptions::default() };
        match engine(&run) {
            EngineOutcome::Finished(s) => s.document,
            other => panic!("{other:?}"),
        }
    };
    assert_eq!(
        document(api_input),
        document(manual),
        "API-assembled input must yield the same engine summary as a manual patch"
    );
}

#[test]
fn plain_requests_run_the_archetype_as_built() {
    for info in list() {
        let mut req = demo_request(GlazingOverrides::default());
        req.archetype = info.id.to_string();
        let (input, modified) = assemble_input(&profiles(), &req).unwrap();
        assert_eq!(modified, 0);
        assert_eq!(input, baseline(&profiles(), info.id).unwrap());
    }
}

#[test]
fn u_value_override_replaces_thermal_resistance() {
    let mut input = baseline(&profiles(), "detached_demo").unwrap();
    let n = apply_glazing_overrides(
        &mut input,
        &GlazingOverrides { u_value: num(1.2), ..Default::default() },
    );
    assert_eq!(n, 2);
    for zone in input["Zone"].as_object().unwrap().values() {
        for el in zone["BuildingElement"].as_object().unwrap().values() {
            if el["type"] == "BuildingElementTransparent" {
                assert_eq!(el["u_value"], Value::from(1.2));
                assert!(
                    el.get("thermal_resistance_construction").is_none(),
                    "the mutually-exclusive resistance key must be removed"
                );
            }
        }
    }
}

#[test]
fn setting_both_u_value_and_resistance_is_rejected() {
    let err = assemble_input(
        &profiles(),
        &demo_request(GlazingOverrides {
            u_value: num(1.2),
            thermal_resistance_construction: num(0.3),
            ..Default::default()
        }),
    )
    .unwrap_err();
    assert!(matches!(err, ApiError::InvalidInput(_)));
    assert!(err.is_client_error());
    assert_eq!(
        err.message(),
        "invalid input: u_value and thermal_resistance_construction are mutually exclusive; set only one"
    );
}

#[test]
fn selector_matches_use_and_semantics() {
    let by_name = by_name("window 0");
    assert!(by_name.matches("window 0", Some(double(180.0))));
    assert!(!by_name.matches("window 1", Some(double(180.0))));

    let by_orientation = by_orientation(180.0);
    assert!(by_orientation.matches("anything", Some(double(180.0))));
    assert!(!by_orientation.matches("anything", Some(double(90.0))));
    assert!(!by_orientation.matches("anything", None));

    let both = WindowSelector {
        names: vec!["window 0".to_string()],
        orientations: vec![double(90.0)],
    };
    assert!(!both.matches("window 0", Some(double(180.0))));

    assert!(WindowSelector::default().matches("window 0", Some(double(180.0))));
}

#[test]
fn targeted_override_hits_only_the_named_window() {
    let mut input = baseline(&profiles(), "detached_demo").unwrap();
    let n = apply_all_overrides(
        &mut input,
        &GlazingOverrides::default(),
        &[TargetedOverride {
            select: by_name("window 0"),
            overrides: GlazingOverrides { g_value: num(0.3), ..Default::default() },
        }],
    );
    assert_eq!(n, 1, "only the one named window is modified");
    assert_eq!(g_of(&input, "window 0"), Some(0.3));
    assert_eq!(g_of(&input, "window 1"), Some(0.71), "the other window is untouched");
}

#[test]
fn targeted_override_wins_over_global_per_field() {
    let mut input = baseline(&profiles(), "detached_demo").unwrap();
    let n = apply_all_overrides(
        &mut input,
        &GlazingOverrides { g_value: num(0.5), ..Default::default() },
        &[TargetedOverride {
            select: by_name("window 0"),
            overrides: GlazingOverrides { g_value: num(0.3), ..Default::default() },
        }],
    );
    assert_eq!(n, 2, "the global override touches both windows");
    assert_eq!(g_of(&input, "window 0"), Some(0.3), "targeted rule wins");
    assert_eq!(g_of(&input, "window 1"), Some(0.5), "global rule applies elsewhere");
}

#[test]
fn targeting_by_orientation_selects_matching_windows() {
    let u = || GlazingOverrides { u_value: num(0.8), ..Default::default() };
    let mut input = baseline(&profiles(), "flat_nat_vent").unwrap();
    let n = apply_all_overrides(
        &mut input,
        &GlazingOverrides::default(),
        &[TargetedOverride { select: by_orientation(90.0), overrides: u() }],
    );
    assert_eq!(n, 4, "all four east-facing windows match");

    let mut input2 = baseline(&profiles(), "flat_nat_vent").unwrap();
    let none = apply_all_overrides(
        &mut input2,
        &GlazingOverrides::default(),
        &[TargetedOverride { select: by_orientation(270.0), overrides: u() }],
    );
    assert_eq!(none, 0, "no window faces 270°");
}

#[test]
fn global_and_targeted_keep_u_and_resistance_mutually_exclusive() {
    let mut input = baseline(&profiles(), "detached_demo").unwrap();
    apply_all_overrides(
        &mut input,
        &GlazingOverrides { u_value: num(1.0), ..Default::default() },
        &[TargetedOverride {
            select: by_name("window 0"),
            overrides: GlazingOverrides {
                thermal_resistance_construction: num(0.2),
                ..Default::default()
            },
        }],
    );
    let w0 = find(&input, "window 0");
    assert_eq!(w0.get("thermal_resistance_construction").and_then(Value::as_f64), Some(0.2));
    assert!(w0.get("u_value").is_none(), "targeted resistance removes u_value on that window");
    let w1 = find(&input, "window 1");
    assert_eq!(w1.get("u_value").and_then(Value::as_f64), Some(1.0));
    assert!(
        w1.get("thermal_resistance_construction").is_none(),
        "global u_value removes resistance"
    );
}

#[test]
fn window_inventory_lists_every_transparent_element() {
    let input = baseline(&profiles(), "flat_nat_vent").unwrap();
    let windows = window_inventory(&input);
    assert_eq!(windows.len(), 4);
    let names: Vec<&str> = windows.iter().map(|w| w.name.as_str()).collect();
    assert!(names.contains(&"living window W03"));
    assert!(windows.iter().all(|w| w.orientation360 == Some(double(90.0))));
    assert!(windows.iter().all(|w| w.pitch == Some(double(90.0))));
}

#[test]
fn shading_override_replaces_the_array() {
    let overhang = parse(r#"{"type": "overhang", "depth": 0.6, "distance": 0.3}"#);
    let mut input = baseline(&profiles(), "detached_demo").unwrap();
    let n = apply_glazing_overrides(
        &mut input,
        &GlazingOverrides { shading: Some(vec![overhang.clone()]), ..Default::default() },
    );
    assert_eq!(n, 2);
    assert_eq!(shading_of(&input, "window 0"), Value::Array(vec![overhang]));
}

#[test]
fn shading_can_be_cleared_and_targeted() {
    let mut input = baseline(&profiles(), "flat_nat_vent").unwrap();
    assert!(shading_of(&input, "living window W03").as_array().unwrap().len() > 0);
    let n = apply_all_overrides(
        &mut input,
        &GlazingOverrides::default(),
        &[TargetedOverride {
            select: by_name("living window W03"),
            overrides: GlazingOverrides { shading: Some(vec![]), ..Default::default() },
        }],
    );
    assert_eq!(n, 1);
    assert_eq!(shading_of(&input, "living window W03"), Value::Array(vec![]));
    assert!(shading_of(&input, "living window W04").as_array().unwrap().len() > 0);
}

#[test]
fn shading_only_override_is_not_empty() {
    let o = GlazingOverrides { shading: Some(vec![]), ..Default::default() };
    assert!(!o.is_empty(), "a shading-only override must count as a modification");
}

#[test]
fn treatment_override_replaces_the_array() {
    let curtain = parse(
        r#"{
            "type": "curtains", "controls": "manual",
            "delta_r": 0.1, "trans_red": 0.5, "is_open": false
        }"#,
    );
    let mut input = baseline(&profiles(), "detached_demo").unwrap();
    let n = apply_glazing_overrides(
        &mut input,
        &GlazingOverrides { treatment: Some(vec![curtain.clone()]), ..Default::default() },
    );
    assert_eq!(n, 2);
    let t = input["Zone"]["zone 1"]["BuildingElement"]["window 0"]["treatment"].clone();
    assert_eq!(t, Value::Array(vec![curtain]));
}

#[test]
fn targeted_override_with_both_keys_is_rejected() {
    let mut req = demo_request(GlazingOverrides::default());
    req.targeted_overrides.push(TargetedOverride {
        select: WindowSelector::default(),
        overrides: GlazingOverrides {
            u_value: num(1.2),
            thermal_resistance_construction: num(0.3),
            ..Default::default()
        },
    });
    let err = assemble_input(&profiles(), &req).unwrap_err();
    assert!(matches!(err, ApiError::InvalidInput(_)));
    assert!(err.is_client_error());
}

#[test]
fn later_rules_win_field_by_field() {
    let mut input = baseline(&profiles(), "detached_demo").unwrap();
    let rule = |o: GlazingOverrides| TargetedOverride {
        select: WindowSelector::default(),
        overrides: o,
    };
    let n = apply_all_overrides(
        &mut input,
        &GlazingOverrides::default(),
        &[
            rule(GlazingOverrides {
                g_value: num(0.1),
                frame_area_fraction: num(0.2),
                ..Default::default()
            }),
            rule(GlazingOverrides { g_value: num(0.3), ..Default::default() }),
        ],
    );
    assert_eq!(n, 2);
    for name in ["window 0", "window 1"] {
        assert_eq!(find(&input, name)["g_value"], 0.3);
        assert_eq!(find(&input, name)["frame_area_fraction"], 0.2);
        assert_eq!(find(&input, name)["thermal_resistance_construction"], 0.4);
    }
}

#[test]
fn overrides_twice_are_overrides_once() {
    let rules = [TargetedOverride {
        select: by_orientation(180.0),
        overrides: GlazingOverrides {
            thermal_resistance_construction: num(0.9),
            shading: Some(vec![]),
            ..Default::default()
        },
    }];
    let global = GlazingOverrides { u_value: num(1.1), g_value: num(0.4), ..Default::default() };
    let mut once = baseline(&profiles(), "detached_demo").unwrap();
    apply_all_overrides(&mut once, &global, &rules);
    let mut twice = once.clone();
    apply_all_overrides(&mut twice, &global, &rules);
    assert_eq!(once, twice);
}

#[test]
fn only_windows_change_and_stay_where_they_are() {
    let before = baseline(&profiles(), "flat_nat_vent").unwrap();
    let mut after = before.clone();
    apply_glazing_overrides(
        &mut after,
        &GlazingOverrides { u_value: num(0.8), ..Default::default() },
    );
    assert_eq!(find(&before, "living wall"), find(&after, "living wall"));
    assert_eq!(before["EnergySupply"], after["EnergySupply"]);
    let names = |v: &Value| -> Vec<String> {
        window_inventory(v).into_iter().map(|w| w.name).collect()
    };
    assert_eq!(names(&before), names(&after));
    assert_eq!(
        names(&after),
        ["living window W03", "living window W04", "bed window W01", "bed window W02"]
    );
    assert_eq!(energy_supply_fuels(&before), energy_supply_fuels(&after));
}

#[test]
fn removed_performance_gives_its_place_to_the_last_member() {
    let mut input = parse(r#"{"a": 1, "u_value": 2.0, "b": 3, "c": 4}"#);
    let overrides = GlazingOverrides {
        thermal_resistance_construction: num(0.5),
        ..Default::default()
    };
    assert!(apply_overrides_to_element(input.as_object_mut().unwrap(), &overrides));
    let keys: Vec<&String> = input.as_object().unwrap().keys().collect();
    assert_eq!(keys, ["a", "thermal_resistance_construction", "b", "c"]);
    assert_eq!(input["thermal_resistance_construction"], 0.5);
}

#[test]
fn inputs_without_windows_are_left_alone() {
    let overrides = GlazingOverrides { u_value: num(1.0), ..Default::default() };
    for text in [
        "null",
        "[]",
        "{}",
        r#"{"Zone": 3}"#,
        r#"{"Zone": {"z": null}}"#,
        r#"{"Zone": {"z": {"BuildingElement": []}}}"#,
        r#"{"Zone": {"z": {"BuildingElement": {"w": {"type": 4}, "v": 1}}}}"#,
        r#"{"BuildingElement": {"w": {"type": "BuildingElementTransparent"}}}"#,
    ] {
        let mut input = parse(text);
        assert_eq!(apply_glazing_overrides(&mut input, &overrides), 0);
        assert_eq!(input, parse(text));
        assert!(window_inventory(&input).is_empty());
        assert!(energy_supply_fuels(&input).is_empty());
    }
}

#[test]
fn orientations_may_be_whole_numbers_or_missing() {
    let mut input = parse(
        r#"{"Zone": {"z": {"BuildingElement": {
            "whole": {"type": "BuildingElementTransparent", "orientation360": 90},
            "near": {"type": "BuildingElementTransparent", "orientation360": 90.0000000001},
            "none": {"type": "BuildingElementTransparent"},
            "text": {"type": "BuildingElementTransparent", "orientation360": "90"}
        }}}}"#,
    );
    let n = apply_all_overrides(
        &mut input,
        &GlazingOverrides::default(),
        &[TargetedOverride {
            select: by_orientation(90.0),
            overrides: GlazingOverrides { g_value: num(0.5), ..Default::default() },
        }],
    );
    assert_eq!(n, 2);
    let inventory = window_inventory(&input);
    assert_eq!(inventory[0].orientation360, Some(double(90.0)));
    assert_eq!(inventory[1].orientation360, Some(double(90.0000000001)));
    assert_eq!(inventory[2].orientation360, None);
    assert_eq!(inventory[3].orientation360, None);
    assert_eq!(inventory[3].zone, "z");
}

#[test]
fn supplies_without_a_fuel_are_passed_over() {
    let input = parse(
        r#"{"EnergySupply": {
            "gas": {"fuel": "mains_gas"},
            "odd": {"fuel": 3},
            "none": {},
            "elec": {"fuel": "electricity"}
        }}"#,
    );
    let pair = |a: &str, b: &str| (a.to_string(), b.to_string());
    assert_eq!(
        energy_supply_fuels(&input),
        [pair("gas", "mains_gas"), pair("elec", "electricity")]
    );
}

// ---- weather ----

#[test]
fn weather_is_london_unless_asked_otherwise() {
    assert_eq!(list_weather().len(), 1);
    assert_eq!(list_weather()[0].id, "london_cibse");
    assert_eq!(resolve_weather(&None).unwrap(), "london_cibse");
    assert_eq!(resolve_weather(&Some("london_cibse".to_string())).unwrap(), "london_cibse");
    let e = resolve_weather(&Some("mars".to_string())).unwrap_err();
    assert!(matches!(&e, ApiError::UnknownWeather(id) if id == "mars"));
    assert_eq!(e.status(), 404);
}

// ---- scenarios ----

#[test]
fn cost_and_carbon_are_delivered_energy_times_factors() {
    let mut req = demo_request(GlazingOverrides::default());
    req.economics =
        Some(Economics { source: None, fuels: vec![factors("electricity", 0.30, 0.20)] });
    let resp = run(&req).expect("simulate");
    let fuel = resp.energy_supply_fuels.iter().find(|(name, _)| name == "mains elec");
    assert_eq!(fuel.map(|(_, f)| f.as_str()), Some("electricity"));
    let kwh = number(delivered_energy_total(&resp.summary).expect("delivered energy total"));
    assert!(kwh > 0.0, "the demo must consume some electricity");
    assert!((number(resp.cost_carbon.cost_gbp) - kwh * 0.30).abs() < 1e-9);
    assert!((number(resp.cost_carbon.carbon_kg) - kwh * 0.20).abs() < 1e-9);
}

#[test]
fn omitted_economics_uses_documented_uk_defaults() {
    let resp = run(&demo_request(GlazingOverrides::default())).expect("simulate");
    assert!(resp.economics_used.source.is_some(), "defaults must carry provenance");
    assert!(resp.economics_used.fuels.iter().any(|(fuel, _)| fuel == "electricity"));
    assert!(number(resp.cost_carbon.cost_gbp) > 0.0);
    assert!(number(resp.cost_carbon.carbon_kg) > 0.0);
}

#[test]
fn missing_fuel_factors_is_client_error() {
    let mut req = demo_request(GlazingOverrides::default());
    req.economics = Some(Economics { source: None, fuels: vec![factors("mains_gas", 0.07, 0.18)] });
    let err = run(&req).unwrap_err();
    assert!(matches!(err, ApiError::InvalidInput(_)));
    assert!(err.is_client_error());
    assert_eq!(
        err.message(),
        "invalid input: no economics factors supplied for fuel type 'electricity' (energy supply 'mains elec')"
    );
}

#[test]
fn compare_runs_and_computes_deltas() {
    let upgrade = GlazingOverrides { u_value: num(0.8), ..Default::default() };
    let resp = run_compare(&compare_request(upgrade)).expect("compare");
    assert_eq!(resp.transparent_elements_modified, 2);
    assert!(number(resp.delta.space_heat_demand_reduction).is_finite());
    assert!(resp.delta.delivered_energy_reduction.is_some());
    assert_ne!(
        resp.baseline.summary.space_heat_demand_total,
        resp.upgrade.summary.space_heat_demand_total,
        "changing the window U-value must change space-heat demand"
    );
    serde_json::to_string(&resp.upgrade.summary.document).expect("summary serializes");
}

#[test]
fn compare_reports_consistent_cost_and_carbon_reductions() {
    let upgrade = GlazingOverrides { u_value: num(0.8), ..Default::default() };
    let resp = run_compare(&compare_request(upgrade)).expect("compare");
    let energy =
        number(resp.delta.delivered_energy_reduction.expect("delivered energy reduction"));
    let cost = number(resp.delta.cost_gbp_reduction);
    let carbon = number(resp.delta.carbon_kg_reduction);
    assert!(cost.is_finite());
    assert!(carbon.is_finite());
    assert_eq!(
        cost.signum(),
        energy.signum(),
        "cost saving must track the delivered-energy saving for a single-fuel dwelling"
    );
    assert_eq!(carbon.signum(), energy.signum());
}

#[test]
fn shading_override_runs_through_the_engine() {
    let resp = run(&demo_request(GlazingOverrides {
        shading: Some(vec![parse(r#"{"type": "overhang", "depth": 2.0, "distance": 0.05}"#)]),
        ..Default::default()
    }))
    .expect("shaded run must be schema-valid and succeed");
    assert!(number(resp.summary.space_heat_demand_total).is_finite());
}

#[test]
fn malformed_shading_is_client_error() {
    let err = run(&demo_request(GlazingOverrides {
        shading: Some(vec![parse(r#"{"type": "overhang"}"#)]),
        ..Default::default()
    }))
    .unwrap_err();
    assert!(err.is_client_error(), "bad shading must be a 4xx, got {err:?}");
    assert!(matches!(err, ApiError::InvalidInput(_)));
}

#[test]
fn control_free_treatment_runs_through_the_engine() {
    let resp = run(&demo_request(GlazingOverrides {
        treatment: Some(vec![parse(
            r#"{
                "type": "blinds", "controls": "manual",
                "delta_r": 0.08, "trans_red": 0.4, "is_open": false
            }"#,
        )]),
        ..Default::default()
    }))
    .expect("control-free treatment must be schema-valid and run");
    assert!(number(resp.summary.space_heat_demand_total).is_finite());
}

#[test]
fn malformed_treatment_is_client_error() {
    let err = run(&demo_request(GlazingOverrides {
        treatment: Some(vec![parse(r#"{"type": "blinds"}"#)]),
        ..Default::default()
    }))
    .unwrap_err();
    assert!(err.is_client_error(), "bad treatment must be a 4xx, got {err:?}");
    assert!(matches!(err, ApiError::InvalidInput(_)));
}

#[test]
fn responses_carry_what_they_rest_on() {
    let resp = run(&demo_request(GlazingOverrides {
        u_value: num(0.8),
        ..Default::default()
    }))
    .unwrap();
    assert_eq!(resp.archetype, "detached_demo");
    assert_eq!(resp.api_version, API_VERSION);
    assert_eq!(resp.api_version, "0.1.0");
    assert_eq!(resp.weather, "london_cibse");
    assert_eq!(resp.transparent_elements_modified, 2);
    assert_eq!(resp.windows.len(), 2);
    assert_eq!(resp.summary.document["space_heat_demand_total"], 1.6);
    let kwh = 1.6 * 1.5;
    assert_eq!(resp.cost_carbon.cost_gbp, double(kwh * 0.2611));
    assert_eq!(resp.cost_carbon.carbon_kg, double(kwh * 0.177));
}

#[test]
fn errors_come_in_order() {
    let both = || GlazingOverrides {
        u_value: num(1.2),
        thermal_resistance_construction: num(0.3),
        ..Default::default()
    };
    let mut req = demo_request(both());
    req.archetype = "nope".to_string();
    req.weather = Some("mars".to_string());
    assert!(matches!(run(&req), Err(ApiError::InvalidInput(_))));
    req.glazing_overrides = GlazingOverrides::default();
    assert!(matches!(run(&req), Err(ApiError::UnknownArchetype(id)) if id == "nope"));
    req.archetype = "detached_demo".to_string();
    assert!(matches!(run(&req), Err(ApiError::UnknownWeather(id)) if id == "mars"));
    req.weather = None;
    assert!(run(&req).is_ok());
}

#[test]
fn engine_failures_are_answered_by_their_kind() {
    let req = demo_request(GlazingOverrides::default());
    let answer = |outcome: EngineOutcome| {
        let (_, pending) = begin_simulate(&profiles(), &req).unwrap();
        finish_simulate::<Machine>(pending, outcome).unwrap_err()
    };
    let failed = |fault: EngineFault| {
        EngineOutcome::Failed(EngineError { fault, message: "it broke".to_string() })
    };
    let e = answer(EngineOutcome::NoWeather("no file".to_string()));
    assert_eq!((e.status(), e.message()), (500, "failed to load weather data: no file".to_string()));
    let e = answer(failed(EngineFault::InvalidRequest));
    assert_eq!((e.status(), e.message()), (422, "invalid input: it broke".to_string()));
    let e = answer(failed(EngineFault::NotImplemented));
    assert_eq!((e.status(), e.message()), (422, "invalid input: it broke".to_string()));
    let e = answer(failed(EngineFault::Other));
    assert_eq!((e.status(), e.message()), (500, "calculation failed: it broke".to_string()));
    assert!(!e.is_client_error());
    let e = ApiError::UnknownArchetype("x".to_string());
    assert_eq!((e.status(), e.message()), (404, "unknown archetype: 'x'".to_string()));
}

#[test]
fn the_engine_gets_the_patched_input_and_the_options() {
    let mut req = demo_request(GlazingOverrides { g_value: num(0.25), ..Default::default() });
    req.options = SimulateOptions { heat_balance: true, detailed_output_heating_cooling: false };
    let (run, pending) = begin_simulate(&profiles(), &req).unwrap();
    assert_eq!(g_of(&run.input, "window 1"), Some(0.25));
    assert_eq!(run.weather, "london_cibse");
    assert!(run.options.heat_balance);
    assert!(!run.options.detailed_output_heating_cooling);
    assert_eq!(pending.modified, 2);
}

// ---- economics ----

#[test]
fn uk_defaults_are_the_documented_figures() {
    let e = Economics::uk_defaults();
    assert_eq!(e.fuels, [factors("electricity", 0.2611, 0.177), factors("mains_gas", 0.0733, 0.18296)]);
    assert!(e.source.unwrap().starts_with("Illustrative defaults — Ofgem price cap"));
}

#[test]
fn two_fuels_are_charged_each_by_its_factors() {
    let mut s = summary(0.0);
    s.delivered_energy = vec![
        row("mains elec", 10.0),
        row("total", 40.0),
        row("gas", 30.0),
        row("_unmet_demand", 99.0),
        row("heat pump air", 50.0),
    ];
    let pair = |a: &str, b: &str| (a.to_string(), b.to_string());
    let supplies = vec![
        pair("mains elec", "electricity"),
        pair("gas", "mains_gas"),
        pair("heat pump air", "energy_from_environment"),
    ];
    let total = cost_carbon::<Machine>(&s, &supplies, &Economics::uk_defaults()).unwrap();
    assert_eq!(total.cost_gbp, double(10.0 * 0.2611 + 30.0 * 0.0733));
    assert_eq!(total.carbon_kg, double(10.0 * 0.177 + 30.0 * 0.18296));
    assert_eq!(charges(&s, &supplies, &Economics::uk_defaults()).unwrap().len(), 2);
    assert_eq!(delivered_energy_total(&s), Some(double(40.0)));
}

#[test]
fn a_row_without_a_total_costs_nothing_and_no_total_row_is_no_total() {
    let mut s = summary(0.0);
    s.delivered_energy = vec![SupplyEnergy {
        supply: "mains elec".to_string(),
        end_uses: vec![("heating".to_string(), double(5.0))],
    }];
    let supplies = vec![("mains elec".to_string(), "electricity".to_string())];
    let total = cost_carbon::<Machine>(&s, &supplies, &Economics::uk_defaults()).unwrap();
    assert_eq!(total.cost_gbp, double(0.0));
    assert_eq!(delivered_energy_total(&s), None);
}

// ---- comparisons ----

#[test]
fn reductions_are_baseline_minus_upgrade() {
    let upgrade = GlazingOverrides { u_value: num(0.75), ..Default::default() };
    let resp = run_compare(&compare_request(upgrade)).unwrap();
    assert_eq!(resp.delta.space_heat_demand_reduction, double(5.0 - 1.5));
    assert_eq!(resp.delta.space_cool_demand_reduction, double(0.0));
    assert_eq!(resp.delta.delivered_energy_reduction, Some(double(7.5 - 2.25)));
    assert_eq!(resp.delta.cost_gbp_reduction, double(7.5 * 0.2611 - 2.25 * 0.2611));
    assert_eq!(resp.delta.carbon_kg_reduction, double(7.5 * 0.177 - 2.25 * 0.177));
    assert!(resp.baseline.overrides.is_empty());
    assert_eq!(resp.upgrade.overrides.u_value, num(0.75));
    assert_eq!(resp.weather, "london_cibse");
    assert_eq!(resp.windows.len(), 2);
}

#[test]
fn exchanged_sides_negate_every_reduction() {
    let mut req = compare_request(GlazingOverrides { u_value: num(0.75), ..Default::default() });
    req.baseline_targeted.push(TargetedOverride {
        select: by_name("window 0"),
        overrides: GlazingOverrides { u_value: num(1.9), ..Default::default() },
    });
    let r = run_compare(&req).unwrap();
    let mut back = compare_request(GlazingOverrides::default());
    back.upgrade_overrides = req.baseline_overrides.clone();
    back.upgrade_targeted = req.baseline_targeted.clone();
    back.baseline_overrides = req.upgrade_overrides.clone();
    let s = run_compare(&back).unwrap();
    let (d, e) = (r.delta, s.delta);
    assert!(number(d.space_heat_demand_reduction) != 0.0);
    for (x, y) in [
        (d.space_heat_demand_reduction, e.space_heat_demand_reduction),
        (d.space_cool_demand_reduction, e.space_cool_demand_reduction),
        (d.delivered_energy_reduction.unwrap(), e.delivered_energy_reduction.unwrap()),
        (d.cost_gbp_reduction, e.cost_gbp_reduction),
        (d.carbon_kg_reduction, e.carbon_kg_reduction),
    ] {
        assert_eq!(number(x), -number(y));
    }
    assert_eq!(s.baseline.cost_carbon, r.upgrade.cost_carbon);
    assert_eq!(s.upgrade.summary.document, r.baseline.summary.document);
}

#[test]
fn equal_sides_save_nothing() {
    let glazing = || GlazingOverrides { u_value: num(0.75), ..Default::default() };
    let mut req = compare_request(glazing());
    req.baseline_overrides = glazing();
    let d = run_compare(&req).unwrap().delta;
    assert_eq!(number(d.space_heat_demand_reduction), 0.0);
    assert_eq!(number(d.delivered_energy_reduction.unwrap()), 0.0);
    assert_eq!(number(d.cost_gbp_reduction), 0.0);
    assert_eq!(number(d.carbon_kg_reduction), 0.0);
}

#[test]
fn a_missing_total_leaves_the_energy_reduction_out() {
    let upgrade = GlazingOverrides { u_value: num(0.75), ..Default::default() };
    let bare = |run: &EngineRun| match engine(run) {
        EngineOutcome::Finished(mut s) => {
            if number(s.space_heat_demand_total) < 2.0 {
                s.delivered_energy.clear();
            }
            EngineOutcome::Finished(s)
        }
        other => other,
    };
    let resp =
        compare::<Machine, _>(&profiles(), &compare_request(upgrade), &bare).unwrap();
    assert_eq!(resp.delta.delivered_energy_reduction, None);
}

#[test]
fn both_sides_of_a_comparison_share_all_but_the_overrides() {
    let mut req = compare_request(GlazingOverrides { g_value: num(0.4), ..Default::default() });
    req.baseline_targeted.push(TargetedOverride {
        select: by_name("window 0"),
        overrides: GlazingOverrides { g_value: num(0.6), ..Default::default() },
    });
    req.options.heat_balance = true;
    req.weather = Some("london_cibse".to_string());
    let (a, b) = compare_requests(&req);
    assert_eq!(a.archetype, b.archetype);
    assert_eq!(a.options, b.options);
    assert_eq!(a.weather, b.weather);
    let (ea, eb) = (a.economics.unwrap(), b.economics.unwrap());
    assert_eq!(ea.source, eb.source);
    assert_eq!(ea.fuels, eb.fuels);
    assert!(a.glazing_overrides.is_empty() && a.targeted_overrides.len() == 1);
    assert!(!b.glazing_overrides.is_empty() && b.targeted_overrides.is_empty());
}

#[test]
fn the_first_side_that_fails_answers() {
    let both = || GlazingOverrides {
        u_value: num(1.2),
        thermal_resistance_construction: num(0.3),
        ..Default::default()
    };
    let mut req = compare_request(both());
    assert!(matches!(run_compare(&req), Err(ApiError::InvalidInput(_))));
    req.archetype = "nope".to_string();
    assert!(matches!(run_compare(&req), Err(ApiError::UnknownArchetype(_))));
}

#[test]
fn rules_apply_in_turn() {
    let rule = |select: WindowSelector, overrides: GlazingOverrides| TargetedOverride {
        select,
        overrides,
    };
    let first = [
        rule(
            by_orientation(180.0),
            GlazingOverrides { u_value: num(0.9), g_value: num(0.5), ..Default::default() },
        ),
        rule(by_name("window 0"), GlazingOverrides { g_value: num(0.6), ..Default::default() }),
    ];
    let later = [rule(
        by_orientation(180.0),
        GlazingOverrides {
            thermal_resistance_construction: num(0.7),
            shading: Some(vec![]),
            ..Default::default()
        },
    )];
    let global = GlazingOverrides { u_value: num(1.3), ..Default::default() };
    let mut once = baseline(&profiles(), "detached_demo").unwrap();
    let mut all = first.to_vec();
    all.extend_from_slice(&later);
    apply_all_overrides(&mut once, &global, &all);
    let mut in_turn = baseline(&profiles(), "detached_demo").unwrap();
    apply_all_overrides(&mut in_turn, &global, &first);
    apply_all_overrides(&mut in_turn, &GlazingOverrides::default(), &later);
    assert_eq!(serde_json::to_string(&once).unwrap(), serde_json::to_string(&in_turn).unwrap());
    assert_eq!(g_of(&once, "window 0"), Some(0.6));
    assert_eq!(g_of(&once, "window 1"), Some(0.5));
}

#[test]
fn a_second_application_counts_the_same_windows() {
    let global = GlazingOverrides::default();
    let rules = [
        TargetedOverride {
            select: by_orientation(90.0),
            overrides: GlazingOverrides { u_value: num(0.8), ..Default::default() },
        },
        TargetedOverride { select: by_name("window 1"), overrides: GlazingOverrides::default() },
    ];
    let mut input = baseline(&profiles(), "detached_demo").unwrap();
    assert_eq!(apply_all_overrides(&mut input, &global, &rules), 1);
    assert_eq!(apply_all_overrides(&mut input, &global, &rules), 1);
    let all = GlazingOverrides { g_value: num(0.3), ..Default::default() };
    assert_eq!(apply_glazing_overrides(&mut input, &all), 2);
    assert_eq!(apply_glazing_overrides(&mut input, &all), 2);
}

#[test]
fn entries_are_found_by_name() {
    let economics = Economics {
        source: None,
        fuels: vec![
            factors("electricity", 0.25, 0.125),
            factors("mains_gas", 0.5, 0.75),
            factors("LPG_bulk", 2.0, 4.0),
        ],
    };
    for (i, (fuel, found)) in economics.fuels.iter().enumerate() {
        assert!(economics.fuels[..i].iter().all(|(other, _)| other != fuel));
        let mut s = summary(0.0);
        s.delivered_energy = vec![row("total", 99.0), row("supply", 8.0)];
        let supplies = vec![("supply".to_string(), fuel.clone())];
        let list = charges(&s, &supplies, &economics).unwrap();
        assert_eq!(list.len(), 1);
        assert_eq!((list[0].kwh, list[0].factors), (double(8.0), *found));
    }
    let mut s = summary(0.0);
    s.delivered_energy = vec![
        row("mains elec", 1.0),
        SupplyEnergy {
            supply: "total".to_string(),
            end_uses: vec![
                ("heating".to_string(), double(5.0)),
                ("total".to_string(), double(7.0)),
            ],
        },
    ];
    assert_eq!(delivered_energy_total(&s), Some(double(7.0)));
}

#[test]
fn reductions_between_infinite_costs_are_no_numbers_either_way() {
    let costly = |overrides: GlazingOverrides, upgrade: GlazingOverrides| {
        let mut req = compare_request(upgrade);
        req.baseline_overrides = overrides;
        req.economics = Some(Economics {
            source: None,
            fuels: vec![factors("electricity", 1.7e308, 0.5)],
        });
        run_compare(&req).unwrap()
    };
    let better = || GlazingOverrides { u_value: num(0.75), ..Default::default() };
    let there = costly(GlazingOverrides::default(), better());
    let back = costly(better(), GlazingOverrides::default());
    assert!(!number(there.baseline.cost_carbon.cost_gbp).is_finite());
    assert!(number(there.delta.cost_gbp_reduction).is_nan());
    assert!(number(back.delta.cost_gbp_reduction).is_nan());
    assert_eq!(
        number(there.delta.carbon_kg_reduction),
        -number(back.delta.carbon_kg_reduction)
    );
    assert!(number(there.delta.carbon_kg_reduction) != 0.0);
}
