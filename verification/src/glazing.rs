//! Glazing overrides: which windows they reach and what they write into a model input.
use crate::double::{copy_doubles, Double};
use crate::error::{ApiError, Failure};
use crate::json::{
    array_value, distinct, double_bits, double_bits_of, entry_mut, json, key_list, lemma_key_at,
    lemma_put_same, member, member_mut, member_of, members, put, remove_member, text_of, without,
    Json, Members,
};
use crate::text::{copy_texts, listed_text, same_text, text_pairs, texts};
use serde_json::{Map as ObjectMap, Value};
use vstd::prelude::*;

verus! {

/// Glazing parameters. Every field is optional; only those set are applied.
///
/// Each field holds the JSON that is written into a transparent element under the field's name.
/// The engine takes a window's thermal performance as either a `u_value` or a
/// `thermal_resistance_construction`, not both: setting one takes the other out, and it is an
/// error to set both (see [`GlazingOverrides::validate`]).
#[derive(Debug)]
pub struct GlazingOverrides {
    /// Whole-window thermal transmittance U (W/m²·K).
    pub u_value: Option<Value>,
    /// Thermal resistance of the glazing construction (m²·K/W). Mutually exclusive with `u_value`.
    pub thermal_resistance_construction: Option<Value>,
    /// Solar factor (g-value), 0..1.
    pub g_value: Option<Value>,
    /// Fraction of the opening occupied by frame, 0..1.
    pub frame_area_fraction: Option<Value>,
    /// Replaces the window's external shading list; an empty list clears it.
    pub shading: Option<Vec<Value>>,
    /// Replaces the window's internal treatment list; an empty list clears it.
    pub treatment: Option<Vec<Value>>,
}

/// Selects transparent elements. An element matches when it satisfies every non-empty criterion;
/// an all-empty selector matches every window.
#[derive(Debug)]
pub struct WindowSelector {
    /// Element names to match, exactly. Empty: not filtered by name.
    pub names: Vec<String>,
    /// `orientation360` values to match (degrees). Empty: not filtered by orientation.
    pub orientations: Vec<Double>,
}

/// Overrides for the windows that `select` picks.
#[derive(Debug)]
pub struct TargetedOverride {
    pub select: WindowSelector,
    pub overrides: GlazingOverrides,
}

/// What a [`GlazingOverrides`] writes.
pub struct Patch {
    pub u_value: Option<Json>,
    pub thermal_resistance_construction: Option<Json>,
    pub g_value: Option<Json>,
    pub frame_area_fraction: Option<Json>,
    pub shading: Option<Seq<Json>>,
    pub treatment: Option<Seq<Json>>,
}

/// What a [`WindowSelector`] selects by.
pub struct Criteria {
    pub names: Seq<Seq<char>>,
    pub orientations: Seq<Double>,
}

/// What a [`TargetedOverride`] writes, and where.
pub struct Rule {
    pub select: Criteria,
    pub overrides: Patch,
}

/// What JSON values hold.
pub open spec fn json_seq(s: Seq<Value>) -> Seq<Json> {
    s.map_values(|v: Value| json(v))
}

/// What an optional JSON value holds.
pub open spec fn json_opt(v: Option<Value>) -> Option<Json> {
    match v {
        Some(x) => Some(json(x)),
        None => None,
    }
}

/// What an optional list of JSON values holds.
pub open spec fn json_list(v: Option<Vec<Value>>) -> Option<Seq<Json>> {
    match v {
        Some(x) => Some(json_seq(x@)),
        None => None,
    }
}

impl View for GlazingOverrides {
    type V = Patch;

    open spec fn view(&self) -> Patch {
        Patch {
            u_value: json_opt(self.u_value),
            thermal_resistance_construction: json_opt(self.thermal_resistance_construction),
            g_value: json_opt(self.g_value),
            frame_area_fraction: json_opt(self.frame_area_fraction),
            shading: json_list(self.shading),
            treatment: json_list(self.treatment),
        }
    }
}

impl View for WindowSelector {
    type V = Criteria;

    open spec fn view(&self) -> Criteria {
        Criteria { names: texts(self.names@), orientations: self.orientations@ }
    }
}

impl View for TargetedOverride {
    type V = Rule;

    open spec fn view(&self) -> Rule {
        Rule { select: self.select@, overrides: self.overrides@ }
    }
}

/// What targeted overrides write, and where.
pub open spec fn rules_of(s: Seq<TargetedOverride>) -> Seq<Rule> {
    s.map_values(|t: TargetedOverride| t@)
}

impl Patch {
    /// Sets nothing.
    pub open spec fn empty(self) -> bool {
        &&& self.u_value is None
        &&& self.thermal_resistance_construction is None
        &&& self.g_value is None
        &&& self.frame_area_fraction is None
        &&& self.shading is None
        &&& self.treatment is None
    }

    /// Sets both of the fields of which an element has one.
    pub open spec fn contradictory(self) -> bool {
        self.u_value is Some && self.thermal_resistance_construction is Some
    }
}

impl Criteria {
    /// A window of this name and orientation satisfies every non-empty criterion.
    pub open spec fn selects(self, name: Seq<char>, orientation: Option<Double>) -> bool {
        &&& self.names.len() == 0 || self.names.contains(name)
        &&& self.orientations.len() == 0 || (orientation matches Some(o) && exists|i: int|
            0 <= i < self.orientations.len() && (#[trigger] self.orientations[i]).near(o))
    }
}

/// Members with one of them set, if there is something to set.
pub open spec fn set_member(e: Members, k: Seq<char>, v: Option<Json>) -> Members {
    match v {
        Some(x) => put(e, k, x),
        None => e,
    }
}

/// A list as JSON.
pub open spec fn array_of(v: Option<Seq<Json>>) -> Option<Json> {
    match v {
        Some(s) => Some(Json::Array(s)),
        None => None,
    }
}

/// Members with the thermal performance set: the one form comes in, the other goes out.
pub open spec fn with_performance(e: Members, o: Patch) -> Members {
    match (o.u_value, o.thermal_resistance_construction) {
        (Some(u), _) => without(put(e, "u_value"@, u), "thermal_resistance_construction"@),
        (None, Some(r)) => without(
            put(e, "thermal_resistance_construction"@, r),
            "u_value"@,
        ),
        (None, None) => e,
    }
}

/// The members of an element after one set of overrides.
pub open spec fn overridden(e: Members, o: Patch) -> Members {
    set_member(
        set_member(
            set_member(
                set_member(with_performance(e, o), "g_value"@, o.g_value),
                "frame_area_fraction"@,
                o.frame_area_fraction,
            ),
            "shading"@,
            array_of(o.shading),
        ),
        "treatment"@,
        array_of(o.treatment),
    )
}

/// The members of an element after the rules that select it, in order.
pub open spec fn refined(
    e: Members,
    name: Seq<char>,
    orientation: Option<Double>,
    rules: Seq<Rule>,
) -> Members
    decreases rules.len(),
{
    if rules.len() == 0 {
        e
    } else {
        let before = refined(e, name, orientation, rules.drop_last());
        if rules.last().select.selects(name, orientation) {
            overridden(before, rules.last().overrides)
        } else {
            before
        }
    }
}

/// A window: an element whose type says so.
pub open spec fn transparent(element: Json) -> bool {
    text_of(member_of(element, "type"@)) == Some("BuildingElementTransparent"@)
}

/// The double that an optional number reads as.
pub open spec fn as_double(j: Option<Json>) -> Option<Double> {
    match double_bits_of(j) {
        Some(bits) => Some(Double { bits }),
        None => None,
    }
}

/// The orientation of an element.
pub open spec fn orientation_of(element: Json) -> Option<Double> {
    as_double(member_of(element, "orientation360"@))
}

/// An element after the global overrides and the rules.
pub open spec fn patched_element(
    name: Seq<char>,
    element: Json,
    global: Patch,
    rules: Seq<Rule>,
) -> Json {
    if transparent(element) {
        Json::Object(
            refined(
                overridden(element->Object_0, global),
                name,
                orientation_of(element),
                rules,
            ),
        )
    } else {
        element
    }
}

impl Rule {
    /// The rule selects the window, and sets something.
    pub open spec fn applies(self, name: Seq<char>, orientation: Option<Double>) -> bool {
        self.select.selects(name, orientation) && !self.overrides.empty()
    }
}

/// A rule that selects the window sets something.
pub open spec fn some_rule_applies(
    name: Seq<char>,
    orientation: Option<Double>,
    rules: Seq<Rule>,
) -> bool {
    exists|i: int| 0 <= i < rules.len() && (#[trigger] rules[i]).applies(name, orientation)
}

/// An element that at least one override reaches.
pub open spec fn touched(
    name: Seq<char>,
    element: Json,
    global: Patch,
    rules: Seq<Rule>,
) -> bool {
    transparent(element) && (!global.empty() || some_rule_applies(
        name,
        orientation_of(element),
        rules,
    ))
}

/// The elements of a zone, patched.
pub open spec fn patched_elements(e: Members, global: Patch, rules: Seq<Rule>) -> Members {
    Seq::new(e.len(), |i: int| (e[i].0, patched_element(e[i].0, e[i].1, global, rules)))
}

/// The members of the object `k` in `j`, if there is one.
pub open spec fn object_in(j: Json, k: Seq<char>) -> Option<Members> {
    match member_of(j, k) {
        Some(Json::Object(e)) => Some(e),
        _ => None,
    }
}

/// A zone with its elements patched; nothing else of it changes.
pub open spec fn patched_zone(zone: Json, global: Patch, rules: Seq<Rule>) -> Json {
    match object_in(zone, "BuildingElement"@) {
        Some(e) => Json::Object(
            put(
                zone->Object_0,
                "BuildingElement"@,
                Json::Object(patched_elements(e, global, rules)),
            ),
        ),
        None => zone,
    }
}

/// The zones of an input, patched.
pub open spec fn patched_zones(e: Members, global: Patch, rules: Seq<Rule>) -> Members {
    Seq::new(e.len(), |i: int| (e[i].0, patched_zone(e[i].1, global, rules)))
}

/// An input with the elements of its zones patched; nothing else of it changes.
pub open spec fn patched_input(input: Json, global: Patch, rules: Seq<Rule>) -> Json {
    match object_in(input, "Zone"@) {
        Some(e) => Json::Object(
            put(input->Object_0, "Zone"@, Json::Object(patched_zones(e, global, rules))),
        ),
        None => input,
    }
}

/// The touched elements of a zone, as pairs of the zone's name and the element's.
pub open spec fn touched_in_zone(
    zone: Seq<char>,
    e: Members,
    global: Patch,
    rules: Seq<Rule>,
) -> Seq<(Seq<char>, Seq<char>)>
    decreases e.len(),
{
    if e.len() == 0 {
        seq![]
    } else {
        let before = touched_in_zone(zone, e.drop_last(), global, rules);
        if touched(e.last().0, e.last().1, global, rules) {
            before.push((zone, e.last().0))
        } else {
            before
        }
    }
}

/// The touched elements of some zones, as pairs of the zone's name and the element's.
pub open spec fn touched_in_zones(
    e: Members,
    global: Patch,
    rules: Seq<Rule>,
) -> Seq<(Seq<char>, Seq<char>)>
    decreases e.len(),
{
    if e.len() == 0 {
        seq![]
    } else {
        let before = touched_in_zones(e.drop_last(), global, rules);
        match object_in(e.last().1, "BuildingElement"@) {
            Some(elements) => before + touched_in_zone(e.last().0, elements, global, rules),
            None => before,
        }
    }
}

/// The touched elements of an input, as pairs of the zone's name and the element's.
pub open spec fn touched_elements(
    input: Json,
    global: Patch,
    rules: Seq<Rule>,
) -> Seq<(Seq<char>, Seq<char>)> {
    match object_in(input, "Zone"@) {
        Some(e) => touched_in_zones(e, global, rules),
        None => seq![],
    }
}

/// A copy of JSON values.
pub(crate) fn copy_values(v: &Vec<Value>) -> (res: Vec<Value>)
    ensures
        json_seq(res@) == json_seq(v@),
{
    let mut res: Vec<Value> = Vec::new();
    let mut i: usize = 0;
    while i < v.len()
        invariant
            i <= v.len(),
            res@.len() == i,
            forall|j: int| 0 <= j < i ==> json(#[trigger] res@[j]) == json(v@[j]),
        decreases v.len() - i,
    {
        res.push(v[i].clone());
        i = i + 1;
    }
    assert(json_seq(res@) =~= json_seq(v@));
    res
}

/// A copy of an optional JSON value.
fn copy_value(v: &Option<Value>) -> (res: Option<Value>)
    ensures
        json_opt(res) == json_opt(*v),
{
    match v {
        Some(x) => Some(x.clone()),
        None => None,
    }
}

/// A copy of an optional list of JSON values.
fn copy_list(v: &Option<Vec<Value>>) -> (res: Option<Vec<Value>>)
    ensures
        json_list(res) == json_list(*v),
{
    match v {
        Some(x) => Some(copy_values(x)),
        None => None,
    }
}

impl Clone for GlazingOverrides {
    fn clone(&self) -> (res: Self)
        ensures
            res@ == self@,
    {
        GlazingOverrides {
            u_value: copy_value(&self.u_value),
            thermal_resistance_construction: copy_value(&self.thermal_resistance_construction),
            g_value: copy_value(&self.g_value),
            frame_area_fraction: copy_value(&self.frame_area_fraction),
            shading: copy_list(&self.shading),
            treatment: copy_list(&self.treatment),
        }
    }
}

impl Default for GlazingOverrides {
    fn default() -> (res: Self)
        ensures
            res@.empty(),
    {
        GlazingOverrides {
            u_value: None,
            thermal_resistance_construction: None,
            g_value: None,
            frame_area_fraction: None,
            shading: None,
            treatment: None,
        }
    }
}

impl Clone for WindowSelector {
    fn clone(&self) -> (res: Self)
        ensures
            res@ == self@,
    {
        WindowSelector {
            names: copy_texts(&self.names),
            orientations: copy_doubles(&self.orientations),
        }
    }
}

impl Default for WindowSelector {
    fn default() -> (res: Self)
        ensures
            res@.names.len() == 0,
            res@.orientations.len() == 0,
    {
        WindowSelector { names: Vec::new(), orientations: Vec::new() }
    }
}

impl Clone for TargetedOverride {
    fn clone(&self) -> (res: Self)
        ensures
            res@ == self@,
    {
        TargetedOverride { select: self.select.clone(), overrides: self.overrides.clone() }
    }
}

/// A copy of targeted overrides.
pub fn copy_rules(v: &Vec<TargetedOverride>) -> (res: Vec<TargetedOverride>)
    ensures
        rules_of(res@) == rules_of(v@),
{
    let mut res: Vec<TargetedOverride> = Vec::new();
    let mut i: usize = 0;
    while i < v.len()
        invariant
            i <= v.len(),
            res@.len() == i,
            forall|j: int| 0 <= j < i ==> (#[trigger] res@[j])@ == v@[j]@,
        decreases v.len() - i,
    {
        res.push(v[i].clone());
        i = i + 1;
    }
    assert(rules_of(res@) =~= rules_of(v@));
    res
}

/// The message for overrides that set both forms of the thermal performance.
pub open spec fn contradiction() -> Seq<char> {
    "u_value and thermal_resistance_construction are mutually exclusive; set only one"@
}

impl GlazingOverrides {
    /// Whether nothing is set.
    pub fn is_empty(&self) -> (res: bool)
        ensures
            res == self@.empty(),
    {
        self.u_value.is_none() && self.thermal_resistance_construction.is_none()
            && self.g_value.is_none() && self.frame_area_fraction.is_none()
            && self.shading.is_none() && self.treatment.is_none()
    }

    /// Rejects combinations that the engine cannot represent: `u_value` and
    /// `thermal_resistance_construction` are mutually exclusive on a transparent element.
    pub fn validate(&self) -> (res: Result<(), ApiError>)
        ensures
            match res {
                Ok(_) => !self@.contradictory(),
                Err(e) => self@.contradictory() && e@ == Failure::InvalidInput(contradiction()),
            },
    {
        if self.u_value.is_some() && self.thermal_resistance_construction.is_some() {
            return Err(
                ApiError::InvalidInput(
                    "u_value and thermal_resistance_construction are mutually exclusive; set only one".to_owned(),
                ),
            );
        }
        Ok(())
    }
}

impl WindowSelector {
    /// Whether a window of this name and orientation satisfies every non-empty criterion.
    pub fn matches(&self, name: &str, orientation: Option<Double>) -> (res: bool)
        ensures
            res == self@.selects(name@, orientation),
    {
        let name_ok: bool = self.names.len() == 0 || listed_text(&self.names, name);
        if self.orientations.len() == 0 {
            return name_ok;
        }
        let facing: Double = match orientation {
            Some(o) => o,
            None => {
                return false;
            },
        };
        let mut i: usize = 0;
        while i < self.orientations.len()
            invariant
                i <= self.orientations.len(),
                name_ok == (self@.names.len() == 0 || self@.names.contains(name@)),
                orientation == Some(facing),
                forall|j: int| 0 <= j < i ==> !(#[trigger] self.orientations@[j]).near(facing),
            decreases self.orientations.len() - i,
        {
            if self.orientations[i].is_near(facing) {
                assert(self@.orientations[i as int].near(facing));
                return name_ok;
            }
            i = i + 1;
        }
        false
    }
}

/// Sets one member, if there is something to set.
fn write_member(obj: &mut ObjectMap<String, Value>, key: &str, value: &Option<Value>)
    ensures
        members(*final(obj)) == set_member(members(*old(obj)), key@, json_opt(*value)),
{
    if let Some(v) = value {
        obj.insert(key.to_owned(), v.clone());
    }
}

/// Sets one member to a list, if there is one to set.
fn write_list(obj: &mut ObjectMap<String, Value>, key: &str, value: &Option<Vec<Value>>)
    ensures
        members(*final(obj)) == set_member(members(*old(obj)), key@, array_of(json_list(*value))),
{
    if let Some(v) = value {
        obj.insert(key.to_owned(), array_value(copy_values(v)));
    }
}

/// Sets the fields of one set of overrides on one transparent element; returns whether there was
/// any. Setting one form of the thermal performance takes the other out.
pub fn apply_overrides_to_element(
    obj: &mut ObjectMap<String, Value>,
    overrides: &GlazingOverrides,
) -> (res: bool)
    ensures
        members(*final(obj)) == overridden(members(*old(obj)), overrides@),
        res == !overrides@.empty(),
{
    if overrides.is_empty() {
        return false;
    }
    if let Some(u) = &overrides.u_value {
        obj.insert("u_value".to_owned(), u.clone());
        remove_member(obj, "thermal_resistance_construction");
    } else if let Some(r) = &overrides.thermal_resistance_construction {
        obj.insert("thermal_resistance_construction".to_owned(), r.clone());
        remove_member(obj, "u_value");
    }
    assert(members(*obj) == with_performance(members(*old(obj)), overrides@));
    write_member(obj, "g_value", &overrides.g_value);
    write_member(obj, "frame_area_fraction", &overrides.frame_area_fraction);
    write_list(obj, "shading", &overrides.shading);
    write_list(obj, "treatment", &overrides.treatment);
    true
}

/// Whether an element is a window.
pub(crate) fn is_transparent(element: &Value) -> (res: bool)
    ensures
        res == transparent(json(*element)),
        res ==> json(*element) is Object,
{
    match member(element, "type") {
        Some(kind) => match kind.as_str() {
            Some(text) => same_text(text, "BuildingElementTransparent"),
            None => false,
        },
        None => false,
    }
}

/// The double that a member reads as, if it is a number.
pub(crate) fn double_member(element: &Value, key: &str) -> (res: Option<Double>)
    ensures
        res == as_double(member_of(json(*element), key@)),
{
    match member(element, key) {
        Some(v) => match double_bits(v) {
            Some(bits) => Some(Double { bits }),
            None => None,
        },
        None => None,
    }
}

/// Patches one element; returns whether an override reached it.
fn patch_element(
    name: &str,
    element: &mut Value,
    global: &GlazingOverrides,
    targeted: &[TargetedOverride],
) -> (res: bool)
    ensures
        json(*final(element)) == patched_element(
            name@,
            json(*old(element)),
            global@,
            rules_of(targeted@),
        ),
        res == touched(name@, json(*old(element)), global@, rules_of(targeted@)),
{
    if !is_transparent(element) {
        return false;
    }
    let orientation: Option<Double> = double_member(element, "orientation360");
    let ghost rules = rules_of(targeted@);
    if let Some(obj) = element.as_object_mut() {
        let mut reached: bool = apply_overrides_to_element(obj, global);
        let ghost base = members(*obj);
        let mut i: usize = 0;
        while i < targeted.len()
            invariant
                i <= targeted.len(),
                rules == rules_of(targeted@),
                members(*obj) == refined(base, name@, orientation, rules.take(i as int)),
                reached == (!global@.empty() || some_rule_applies(
                    name@,
                    orientation,
                    rules.take(i as int),
                )),
            decreases targeted.len() - i,
        {
            let rule: &TargetedOverride = &targeted[i];
            proof {
                let next = rules.take(i + 1);
                assert(next.drop_last() =~= rules.take(i as int));
                assert(next.last() == rule@);
                lemma_rules_step(name@, orientation, next);
            }
            if rule.select.matches(name, orientation) {
                let hit: bool = apply_overrides_to_element(obj, &rule.overrides);
                reached = reached || hit;
            }
            i = i + 1;
        }
        assert(rules.take(targeted@.len() as int) =~= rules);
        return reached;
    }
    false
}

/// The last rule counts on top of those before it.
proof fn lemma_rules_step(name: Seq<char>, orientation: Option<Double>, rules: Seq<Rule>)
    requires
        rules.len() > 0,
    ensures
        some_rule_applies(name, orientation, rules) == (some_rule_applies(
            name,
            orientation,
            rules.drop_last(),
        ) || (rules.last().select.selects(name, orientation) && !rules.last().overrides.empty())),
{
    let before = rules.drop_last();
    if some_rule_applies(name, orientation, before) {
        let i = choose|i: int|
            0 <= i < before.len() && (#[trigger] before[i]).applies(name, orientation);
        assert(rules[i] == before[i]);
    }
    if some_rule_applies(name, orientation, rules) {
        let i = choose|i: int|
            0 <= i < rules.len() && (#[trigger] rules[i]).applies(name, orientation);
        if i < before.len() {
            assert(before[i] == rules[i]);
        }
    }
    if rules.last().select.selects(name, orientation) && !rules.last().overrides.empty() {
        assert(rules[rules.len() - 1] == rules.last());
    }
}

/// Patches the elements of a zone, and notes those that an override reached.
fn patch_elements(
    zone_name: &String,
    elements: &mut ObjectMap<String, Value>,
    global: &GlazingOverrides,
    targeted: &[TargetedOverride],
    modified: &mut Vec<(String, String)>,
)
    requires
        distinct(members(*old(elements))),
    ensures
        members(*final(elements)) == patched_elements(
            members(*old(elements)),
            global@,
            rules_of(targeted@),
        ),
        text_pairs(final(modified)@) == text_pairs(old(modified)@) + touched_in_zone(
            zone_name@,
            members(*old(elements)),
            global@,
            rules_of(targeted@),
        ),
{
    let names: Vec<String> = key_list(elements);
    let ghost start = members(*elements);
    let ghost noted = text_pairs(modified@);
    let ghost rules = rules_of(targeted@);
    let ghost goal = patched_elements(start, global@, rules);
    let mut i: usize = 0;
    assert(start.take(0) =~= seq![]);
    while i < names.len()
        invariant
            i <= names.len(),
            names@.len() == start.len(),
            forall|j: int| 0 <= j < names@.len() ==> (#[trigger] names@[j])@ == start[j].0,
            distinct(start),
            rules == rules_of(targeted@),
            goal == patched_elements(start, global@, rules),
            members(*elements).len() == start.len(),
            forall|j: int| 0 <= j < i ==> #[trigger] members(*elements)[j] == goal[j],
            forall|j: int| i <= j < start.len() ==> #[trigger] members(*elements)[j] == start[j],
            text_pairs(modified@) == noted + touched_in_zone(
                zone_name@,
                start.take(i as int),
                global@,
                rules,
            ),
        decreases names.len() - i,
    {
        let ghost now = members(*elements);
        proof {
            assert forall|j: int| 0 <= j < now.len() implies #[trigger] now[j].0 == start[j].0 by {
                if j < i {
                    assert(now[j] == goal[j]);
                }
            }
            assert(distinct(now));
            lemma_key_at(now, i as int);
            assert(now[i as int] == start[i as int]);
            assert(start.take(i + 1).drop_last() =~= start.take(i as int));
            assert(start.take(i + 1).last() == start[i as int]);
        }
        if let Some(element) = entry_mut(elements, names[i].as_str()) {
            let hit: bool = patch_element(names[i].as_str(), element, global, targeted);
            if hit {
                let ghost before = modified@;
                modified.push((zone_name.clone(), names[i].clone()));
                assert(text_pairs(modified@) =~= text_pairs(before).push(
                    (zone_name@, start[i as int].0),
                ));
            }
        }
        i = i + 1;
    }
    proof {
        assert(start.take(start.len() as int) =~= start);
        assert(members(*elements) =~= goal);
    }
}

/// Patches one zone, and notes the elements that an override reached.
fn patch_zone(
    zone_name: &String,
    zone: &mut Value,
    global: &GlazingOverrides,
    targeted: &[TargetedOverride],
    modified: &mut Vec<(String, String)>,
)
    ensures
        json(*final(zone)) == patched_zone(json(*old(zone)), global@, rules_of(targeted@)),
        text_pairs(final(modified)@) == text_pairs(old(modified)@) + (match object_in(
            json(*old(zone)),
            "BuildingElement"@,
        ) {
            Some(e) => touched_in_zone(zone_name@, e, global@, rules_of(targeted@)),
            None => seq![],
        }),
{
    proof {
        if member_of(json(*zone), "BuildingElement"@) is Some {
            lemma_put_same(json(*zone)->Object_0, "BuildingElement"@);
        }
    }
    if let Some(part) = member_mut(zone, "BuildingElement") {
        if let Some(elements) = part.as_object_mut() {
            patch_elements(zone_name, elements, global, targeted, modified);
        }
    }
}

/// Patches the zones of an input, and notes the elements that an override reached.
fn patch_zones(
    zones: &mut ObjectMap<String, Value>,
    global: &GlazingOverrides,
    targeted: &[TargetedOverride],
) -> (res: Vec<(String, String)>)
    requires
        distinct(members(*old(zones))),
    ensures
        members(*final(zones)) == patched_zones(
            members(*old(zones)),
            global@,
            rules_of(targeted@),
        ),
        text_pairs(res@) == touched_in_zones(members(*old(zones)), global@, rules_of(targeted@)),
{
    let names: Vec<String> = key_list(zones);
    let mut modified: Vec<(String, String)> = Vec::new();
    let ghost start = members(*zones);
    let ghost rules = rules_of(targeted@);
    let ghost goal = patched_zones(start, global@, rules);
    let mut i: usize = 0;
    assert(start.take(0) =~= seq![]);
    assert(text_pairs(modified@) =~= seq![]);
    while i < names.len()
        invariant
            i <= names.len(),
            names@.len() == start.len(),
            forall|j: int| 0 <= j < names@.len() ==> (#[trigger] names@[j])@ == start[j].0,
            distinct(start),
            rules == rules_of(targeted@),
            goal == patched_zones(start, global@, rules),
            members(*zones).len() == start.len(),
            forall|j: int| 0 <= j < i ==> #[trigger] members(*zones)[j] == goal[j],
            forall|j: int| i <= j < start.len() ==> #[trigger] members(*zones)[j] == start[j],
            text_pairs(modified@) == touched_in_zones(start.take(i as int), global@, rules),
        decreases names.len() - i,
    {
        let ghost now = members(*zones);
        proof {
            assert forall|j: int| 0 <= j < now.len() implies #[trigger] now[j].0 == start[j].0 by {
                if j < i {
                    assert(now[j] == goal[j]);
                }
            }
            assert(distinct(now));
            lemma_key_at(now, i as int);
            assert(now[i as int] == start[i as int]);
            assert(start.take(i + 1).drop_last() =~= start.take(i as int));
            assert(start.take(i + 1).last() == start[i as int]);
        }
        if let Some(zone) = entry_mut(zones, names[i].as_str()) {
            patch_zone(&names[i], zone, global, targeted, &mut modified);
        }
        i = i + 1;
    }
    proof {
        assert(start.take(start.len() as int) =~= start);
        assert(members(*zones) =~= goal);
    }
    modified
}

/// Applies the global overrides to every transparent element, then each targeted rule in order:
/// later rules win per field. Returns how many transparent elements received an override.
pub fn apply_all_overrides(
    input: &mut Value,
    global: &GlazingOverrides,
    targeted: &[TargetedOverride],
) -> (res: usize)
    ensures
        json(*final(input)) == patched_input(json(*old(input)), global@, rules_of(targeted@)),
        res == touched_elements(json(*old(input)), global@, rules_of(targeted@)).len(),
{
    proof {
        if member_of(json(*input), "Zone"@) is Some {
            lemma_put_same(json(*input)->Object_0, "Zone"@);
        }
    }
    if let Some(part) = member_mut(input, "Zone") {
        if let Some(zones) = part.as_object_mut() {
            let modified: Vec<(String, String)> = patch_zones(zones, global, targeted);
            assert(text_pairs(modified@).len() == modified@.len());
            return modified.len();
        }
    }
    0
}

/// Applies one set of overrides to every transparent element.
pub fn apply_glazing_overrides(input: &mut Value, overrides: &GlazingOverrides) -> (res: usize)
    ensures
        json(*final(input)) == patched_input(json(*old(input)), overrides@, seq![]),
        res == touched_elements(json(*old(input)), overrides@, seq![]).len(),
{
    let none: Vec<TargetedOverride> = Vec::new();
    assert(rules_of(none@) =~= seq![]);
    apply_all_overrides(input, overrides, none.as_slice())
}

} // verus!
