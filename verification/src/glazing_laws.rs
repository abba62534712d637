//! Laws of the glazing overrides: what they write, what they leave alone, and which of two wins.
use crate::double::{nearest_double, whole_doubles_are_exact, Double, TOLERANCE_HALVES};
use crate::dwelling::{
    supplies_of, window_of, windows_in_zone, windows_in_zones, windows_of, Window,
};
use crate::glazing::{
    array_of, object_in, orientation_of, overridden, patched_element, patched_elements,
    patched_input, patched_zone, patched_zones, refined, set_member, some_rule_applies, touched,
    touched_elements, touched_in_zone, touched_in_zones, transparent, with_performance, Criteria,
    Patch, Rule,
};
use crate::json::{
    distinct, has_key, key_at, lemma_put, lemma_put_same, lemma_put_twice, lemma_without, lookup,
    member_of, put, well_formed, without, Json, Members, Numeral,
};
use vstd::arithmetic::power2::{lemma_pow2_pos, pow2};
use vstd::prelude::*;

verus! {

/// What overrides do to the member `k` of a window: nothing, or set it, or take it out.
pub enum Change {
    Keep,
    Write(Json),
    Remove,
}

/// What an optional value does to the member of its name.
pub open spec fn change_to(v: Option<Json>) -> Change {
    match v {
        Some(x) => Change::Write(x),
        None => Change::Keep,
    }
}

/// What one set of overrides does to the member `k`. Of the two forms of the thermal performance
/// it sets one and takes the other out.
pub open spec fn change(o: Patch, k: Seq<char>) -> Change {
    if k == "u_value"@ {
        if o.u_value is None && o.thermal_resistance_construction is Some {
            Change::Remove
        } else {
            change_to(o.u_value)
        }
    } else if k == "thermal_resistance_construction"@ {
        if o.u_value is Some {
            Change::Remove
        } else {
            change_to(o.thermal_resistance_construction)
        }
    } else if k == "g_value"@ {
        change_to(o.g_value)
    } else if k == "frame_area_fraction"@ {
        change_to(o.frame_area_fraction)
    } else if k == "shading"@ {
        change_to(array_of(o.shading))
    } else if k == "treatment"@ {
        change_to(array_of(o.treatment))
    } else {
        Change::Keep
    }
}

/// A member after a change.
pub open spec fn changed(before: Option<Json>, c: Change) -> Option<Json> {
    match c {
        Change::Keep => before,
        Change::Write(v) => Some(v),
        Change::Remove => None,
    }
}

/// The names that overrides write under differ from one another.
proof fn lemma_names()
    ensures
        "u_value"@ != "thermal_resistance_construction"@,
        "u_value"@ != "g_value"@,
        "u_value"@ != "frame_area_fraction"@,
        "u_value"@ != "shading"@,
        "u_value"@ != "treatment"@,
        "thermal_resistance_construction"@ != "g_value"@,
        "thermal_resistance_construction"@ != "frame_area_fraction"@,
        "thermal_resistance_construction"@ != "shading"@,
        "thermal_resistance_construction"@ != "treatment"@,
        "g_value"@ != "frame_area_fraction"@,
        "g_value"@ != "shading"@,
        "g_value"@ != "treatment"@,
        "frame_area_fraction"@ != "shading"@,
        "frame_area_fraction"@ != "treatment"@,
        "shading"@ != "treatment"@,
{
    reveal_strlit("u_value");
    reveal_strlit("thermal_resistance_construction");
    reveal_strlit("g_value");
    reveal_strlit("frame_area_fraction");
    reveal_strlit("shading");
    reveal_strlit("treatment");
    assert("u_value"@[0] == 'u');
    assert("g_value"@[0] == 'g');
    assert("shading"@[0] == 's');
    assert("treatment"@[1] == 'r');
    assert("frame_area_fraction"@[0] == 'f');
}

/// A name that says what a window is and where it faces.
pub open spec fn descriptive(k: Seq<char>) -> bool {
    k == "type"@ || k == "orientation360"@ || k == "pitch"@
}

/// Overrides never write what says which element is a window or where it faces.
pub proof fn description_is_kept(o: Patch, k: Seq<char>)
    requires
        descriptive(k),
    ensures
        change(o, k) is Keep,
{
    reveal_strlit("u_value");
    reveal_strlit("thermal_resistance_construction");
    reveal_strlit("g_value");
    reveal_strlit("frame_area_fraction");
    reveal_strlit("shading");
    reveal_strlit("treatment");
    reveal_strlit("type");
    reveal_strlit("orientation360");
    reveal_strlit("pitch");
    assert("type"@.len() == 4);
    assert("orientation360"@.len() == 14);
    assert("pitch"@.len() == 5);
}

/// What one set of overrides does to a window: each member is set, taken out or kept as
/// [`change`] says, and the names stay apart.
pub proof fn overrides_change_what_they_set(e: Members, o: Patch, k: Seq<char>)
    requires
        distinct(e),
    ensures
        distinct(overridden(e, o)),
        lookup(overridden(e, o), k) == changed(lookup(e, k), change(o, k)),
{
    lemma_names();
    let p = with_performance(e, o);
    lemma_performance(e, o, k);
    let g = set_member(p, "g_value"@, o.g_value);
    lemma_set(p, "g_value"@, o.g_value, k);
    let f = set_member(g, "frame_area_fraction"@, o.frame_area_fraction);
    lemma_set(g, "frame_area_fraction"@, o.frame_area_fraction, k);
    let s = set_member(f, "shading"@, array_of(o.shading));
    lemma_set(f, "shading"@, array_of(o.shading), k);
    lemma_set(s, "treatment"@, array_of(o.treatment), k);
}

/// What setting the thermal performance does to a member.
proof fn lemma_performance(e: Members, o: Patch, k: Seq<char>)
    requires
        distinct(e),
    ensures
        distinct(with_performance(e, o)),
        lookup(with_performance(e, o), k) == (if k == "u_value"@ || k
            == "thermal_resistance_construction"@ {
            changed(lookup(e, k), change(o, k))
        } else {
            lookup(e, k)
        }),
{
    lemma_names();
    match (o.u_value, o.thermal_resistance_construction) {
        (Some(u), _) => {
            lemma_put(e, "u_value"@, u);
            lemma_without(put(e, "u_value"@, u), "thermal_resistance_construction"@);
        },
        (None, Some(r)) => {
            lemma_put(e, "thermal_resistance_construction"@, r);
            lemma_without(put(e, "thermal_resistance_construction"@, r), "u_value"@);
        },
        (None, None) => {},
    }
}

/// What setting one member, if there is something to set, does to a member.
proof fn lemma_set(e: Members, k: Seq<char>, v: Option<Json>, q: Seq<char>)
    requires
        distinct(e),
    ensures
        distinct(set_member(e, k, v)),
        lookup(set_member(e, k, v), q) == (if q == k {
            changed(lookup(e, q), change_to(v))
        } else {
            lookup(e, q)
        }),
{
    if let Some(x) = v {
        lemma_put(e, k, x);
    }
}

/// What the rules that select a window do to its member `k`, after the change `first`: the last
/// rule that does not keep the member decides.
pub open spec fn last_change(
    first: Change,
    name: Seq<char>,
    orientation: Option<Double>,
    rules: Seq<Rule>,
    k: Seq<char>,
) -> Change
    decreases rules.len(),
{
    if rules.len() == 0 {
        first
    } else {
        let r = rules.last();
        if r.select.selects(name, orientation) && !(change(r.overrides, k) is Keep) {
            change(r.overrides, k)
        } else {
            last_change(first, name, orientation, rules.drop_last(), k)
        }
    }
}

/// Rules applied on top of a change: the last one that does not keep a member decides over it.
proof fn lemma_refined(
    e: Members,
    base: Members,
    first: Change,
    name: Seq<char>,
    orientation: Option<Double>,
    rules: Seq<Rule>,
    k: Seq<char>,
)
    requires
        distinct(base),
        lookup(base, k) == changed(lookup(e, k), first),
    ensures
        distinct(refined(base, name, orientation, rules)),
        lookup(refined(base, name, orientation, rules), k) == changed(
            lookup(e, k),
            last_change(first, name, orientation, rules, k),
        ),
    decreases rules.len(),
{
    if rules.len() > 0 {
        lemma_refined(e, base, first, name, orientation, rules.drop_last(), k);
        overrides_change_what_they_set(
            refined(base, name, orientation, rules.drop_last()),
            rules.last().overrides,
            k,
        );
    }
}

/// What becomes of a window's member: the last selecting rule that sets it or takes it out
/// decides; where there is none the global overrides decide; where they keep it, it stays.
pub proof fn windows_follow_the_last_rule(
    name: Seq<char>,
    element: Json,
    global: Patch,
    rules: Seq<Rule>,
    k: Seq<char>,
)
    requires
        transparent(element),
        distinct(element->Object_0),
    ensures
        member_of(patched_element(name, element, global, rules), k) == changed(
            member_of(element, k),
            last_change(change(global, k), name, orientation_of(element), rules, k),
        ),
        distinct(patched_element(name, element, global, rules)->Object_0),
{
    let e = element->Object_0;
    overrides_change_what_they_set(e, global, k);
    lemma_refined(
        e,
        overridden(e, global),
        change(global, k),
        name,
        orientation_of(element),
        rules,
        k,
    );
}

/// Later rules win per field: where a rule selects a window and writes a member, and no later rule
/// that selects the window writes that member, the window ends up with what the rule wrote.
pub proof fn later_rules_win(
    name: Seq<char>,
    element: Json,
    global: Patch,
    rules: Seq<Rule>,
    k: Seq<char>,
    i: int,
)
    requires
        transparent(element),
        distinct(element->Object_0),
        0 <= i < rules.len(),
        rules[i].select.selects(name, orientation_of(element)),
        !(change(rules[i].overrides, k) is Keep),
        forall|j: int|
            i < j < rules.len() && (#[trigger] rules[j]).select.selects(
                name,
                orientation_of(element),
            ) ==> change(rules[j].overrides, k) is Keep,
    ensures
        member_of(patched_element(name, element, global, rules), k) == changed(
            member_of(element, k),
            change(rules[i].overrides, k),
        ),
{
    windows_follow_the_last_rule(name, element, global, rules, k);
    lemma_last_change(change(global, k), name, orientation_of(element), rules, k, i);
}

/// The last rule that writes a member is the one that decides over it.
proof fn lemma_last_change(
    first: Change,
    name: Seq<char>,
    orientation: Option<Double>,
    rules: Seq<Rule>,
    k: Seq<char>,
    i: int,
)
    requires
        0 <= i < rules.len(),
        rules[i].select.selects(name, orientation),
        !(change(rules[i].overrides, k) is Keep),
        forall|j: int|
            i < j < rules.len() && (#[trigger] rules[j]).select.selects(name, orientation)
                ==> change(rules[j].overrides, k) is Keep,
    ensures
        last_change(first, name, orientation, rules, k) == change(rules[i].overrides, k),
    decreases rules.len(),
{
    if i < rules.len() - 1 {
        let before = rules.drop_last();
        assert(rules.last() == rules[rules.len() - 1]);
        assert(before[i] == rules[i]);
        assert forall|j: int|
            i < j < before.len() && (#[trigger] before[j]).select.selects(
                name,
                orientation,
            ) implies change(before[j].overrides, k) is Keep by {
            assert(before[j] == rules[j]);
        }
        lemma_last_change(first, name, orientation, before, k, i);
    }
}

/// Rules that do not select a window, or do not write a member, leave that member to the global
/// overrides.
pub proof fn global_overrides_apply_elsewhere(
    name: Seq<char>,
    element: Json,
    global: Patch,
    rules: Seq<Rule>,
    k: Seq<char>,
)
    requires
        transparent(element),
        distinct(element->Object_0),
        forall|j: int|
            0 <= j < rules.len() && (#[trigger] rules[j]).select.selects(
                name,
                orientation_of(element),
            ) ==> change(rules[j].overrides, k) is Keep,
    ensures
        member_of(patched_element(name, element, global, rules), k) == changed(
            member_of(element, k),
            change(global, k),
        ),
{
    windows_follow_the_last_rule(name, element, global, rules, k);
    lemma_no_change(change(global, k), name, orientation_of(element), rules, k);
}

/// Where no rule writes a member, the first change decides over it.
proof fn lemma_no_change(
    first: Change,
    name: Seq<char>,
    orientation: Option<Double>,
    rules: Seq<Rule>,
    k: Seq<char>,
)
    requires
        forall|j: int|
            0 <= j < rules.len() && (#[trigger] rules[j]).select.selects(name, orientation)
                ==> change(rules[j].overrides, k) is Keep,
    ensures
        last_change(first, name, orientation, rules, k) == first,
    decreases rules.len(),
{
    if rules.len() > 0 {
        let before = rules.drop_last();
        assert(rules.last() == rules[rules.len() - 1]);
        assert forall|j: int|
            0 <= j < before.len() && (#[trigger] before[j]).select.selects(
                name,
                orientation,
            ) implies change(before[j].overrides, k) is Keep by {
            assert(before[j] == rules[j]);
        }
        lemma_no_change(first, name, orientation, before, k);
    }
}

/// Not both of the two forms of the thermal performance are there.
pub open spec fn one_performance(element: Json) -> bool {
    member_of(element, "u_value"@) is None || member_of(
        element,
        "thermal_resistance_construction"@,
    ) is None
}

/// A window never ends up with both a U-value and a thermal resistance, unless it began with both
/// and nothing was set. Where the global overrides or a selecting rule set one of them, it ends up
/// with exactly one.
pub proof fn performance_stays_exclusive(
    name: Seq<char>,
    element: Json,
    global: Patch,
    rules: Seq<Rule>,
)
    requires
        transparent(element),
        distinct(element->Object_0),
    ensures
        one_performance(element) ==> one_performance(
            patched_element(name, element, global, rules),
        ),
        sets_performance(global) || some_rule_performs(name, orientation_of(element), rules) ==> {
            let after = patched_element(name, element, global, rules);
            member_of(after, "u_value"@) is None != member_of(
                after,
                "thermal_resistance_construction"@,
            ) is None
        },
{
    lemma_names();
    let u = "u_value"@;
    let r = "thermal_resistance_construction"@;
    let o = orientation_of(element);
    windows_follow_the_last_rule(name, element, global, rules, u);
    windows_follow_the_last_rule(name, element, global, rules, r);
    lemma_paired(change(global, u), change(global, r), name, o, rules);
}

/// Sets the thermal performance, in one form or the other.
pub open spec fn sets_performance(o: Patch) -> bool {
    o.u_value is Some || o.thermal_resistance_construction is Some
}

impl Rule {
    /// The rule selects the window, and sets its thermal performance.
    pub open spec fn performs(self, name: Seq<char>, orientation: Option<Double>) -> bool {
        self.select.selects(name, orientation) && sets_performance(self.overrides)
    }
}

/// A rule that selects the window sets its thermal performance.
pub open spec fn some_rule_performs(
    name: Seq<char>,
    orientation: Option<Double>,
    rules: Seq<Rule>,
) -> bool {
    exists|i: int| 0 <= i < rules.len() && (#[trigger] rules[i]).performs(name, orientation)
}

/// Both forms are kept, or one is set and the other taken out.
spec fn paired(u: Change, r: Change) -> bool {
    ||| u is Keep && r is Keep
    ||| u is Write && r is Remove
    ||| u is Remove && r is Write
}

/// Changes to the two forms come in pairs, and a rule that sets one of them leaves neither kept.
proof fn lemma_paired(
    u: Change,
    r: Change,
    name: Seq<char>,
    orientation: Option<Double>,
    rules: Seq<Rule>,
)
    requires
        paired(u, r),
    ensures
        ({
            let lu = last_change(u, name, orientation, rules, "u_value"@);
            let lr = last_change(
                r,
                name,
                orientation,
                rules,
                "thermal_resistance_construction"@,
            );
            &&& paired(lu, lr)
            &&& !(u is Keep) || some_rule_performs(name, orientation, rules) ==> !(lu is Keep)
        }),
    decreases rules.len(),
{
    lemma_names();
    if rules.len() > 0 {
        let before = rules.drop_last();
        lemma_paired(u, r, name, orientation, before);
        if some_rule_performs(name, orientation, rules) {
            let i = choose|i: int|
                0 <= i < rules.len() && (#[trigger] rules[i]).performs(name, orientation);
            if i < before.len() {
                assert(before[i] == rules[i]);
            } else {
                assert(rules[i] == rules.last());
            }
        }
    }
}

/// Overrides that set nothing change nothing.
proof fn lemma_empty(e: Members, o: Patch)
    requires
        o.empty(),
    ensures
        overridden(e, o) == e,
{
}

/// An element that no override reaches stays as it was.
pub proof fn unreached_elements_stay(
    name: Seq<char>,
    element: Json,
    global: Patch,
    rules: Seq<Rule>,
)
    requires
        !touched(name, element, global, rules),
    ensures
        patched_element(name, element, global, rules) == element,
{
    if transparent(element) {
        let e = element->Object_0;
        lemma_empty(e, global);
        lemma_unreached(e, name, orientation_of(element), rules);
    }
}

/// Rules that set nothing on a window change nothing.
proof fn lemma_unreached(
    e: Members,
    name: Seq<char>,
    orientation: Option<Double>,
    rules: Seq<Rule>,
)
    requires
        !some_rule_applies(name, orientation, rules),
    ensures
        refined(e, name, orientation, rules) == e,
    decreases rules.len(),
{
    if rules.len() > 0 {
        let before = rules.drop_last();
        assert(rules.last() == rules[rules.len() - 1]);
        assert(!some_rule_applies(name, orientation, before)) by {
            if some_rule_applies(name, orientation, before) {
                let i = choose|i: int|
                    0 <= i < before.len() && (#[trigger] before[i]).applies(name, orientation);
                assert(rules[i] == before[i]);
            }
        }
        lemma_unreached(e, name, orientation, before);
        if rules.last().select.selects(name, orientation) {
            lemma_empty(e, rules.last().overrides);
        }
    }
}

/// An input in which no element is reached stays as it was.
pub proof fn unreached_inputs_stay(input: Json, global: Patch, rules: Seq<Rule>)
    requires
        touched_elements(input, global, rules).len() == 0,
    ensures
        patched_input(input, global, rules) == input,
{
    if let Some(e) = object_in(input, "Zone"@) {
        lemma_zones_stay(e, global, rules);
        lemma_put_same(input->Object_0, "Zone"@);
    }
}

/// Zones in which no element is reached stay as they were.
proof fn lemma_zones_stay(e: Members, global: Patch, rules: Seq<Rule>)
    requires
        touched_in_zones(e, global, rules).len() == 0,
    ensures
        patched_zones(e, global, rules) == e,
    decreases e.len(),
{
    if e.len() > 0 {
        lemma_zones_stay(e.drop_last(), global, rules);
        let zone = e.last().1;
        if let Some(elements) = object_in(zone, "BuildingElement"@) {
            lemma_elements_stay(e.last().0, elements, global, rules);
            lemma_put_same(zone->Object_0, "BuildingElement"@);
        }
        assert(patched_zone(zone, global, rules) == zone);
        let p = patched_zones(e, global, rules);
        assert forall|i: int| 0 <= i < e.len() implies p[i] == e[i] by {
            if i < e.len() - 1 {
                assert(patched_zones(e.drop_last(), global, rules)[i] == e.drop_last()[i]);
            }
        }
        assert(p =~= e);
    } else {
        assert(patched_zones(e, global, rules) =~= e);
    }
}

/// Elements of which none is reached stay as they were.
proof fn lemma_elements_stay(zone: Seq<char>, e: Members, global: Patch, rules: Seq<Rule>)
    requires
        touched_in_zone(zone, e, global, rules).len() == 0,
    ensures
        patched_elements(e, global, rules) == e,
    decreases e.len(),
{
    if e.len() > 0 {
        lemma_elements_stay(zone, e.drop_last(), global, rules);
        unreached_elements_stay(e.last().0, e.last().1, global, rules);
        let p = patched_elements(e, global, rules);
        assert forall|i: int| 0 <= i < e.len() implies p[i] == e[i] by {
            if i < e.len() - 1 {
                assert(patched_elements(e.drop_last(), global, rules)[i] == e.drop_last()[i]);
            }
        }
        assert(p =~= e);
    } else {
        assert(patched_elements(e, global, rules) =~= e);
    }
}

/// Overrides that set nothing, globally and in every rule, change nothing and reach nothing.
pub proof fn empty_overrides_change_nothing(input: Json, global: Patch, rules: Seq<Rule>)
    requires
        global.empty(),
        forall|i: int| 0 <= i < rules.len() ==> (#[trigger] rules[i]).overrides.empty(),
    ensures
        patched_input(input, global, rules) == input,
        touched_elements(input, global, rules).len() == 0,
{
    if let Some(e) = object_in(input, "Zone"@) {
        lemma_none_touched(e, global, rules);
    }
    unreached_inputs_stay(input, global, rules);
}

/// Overrides that set nothing reach no element of any zone.
proof fn lemma_none_touched(e: Members, global: Patch, rules: Seq<Rule>)
    requires
        global.empty(),
        forall|i: int| 0 <= i < rules.len() ==> (#[trigger] rules[i]).overrides.empty(),
    ensures
        touched_in_zones(e, global, rules).len() == 0,
    decreases e.len(),
{
    if e.len() > 0 {
        lemma_none_touched(e.drop_last(), global, rules);
        if let Some(elements) = object_in(e.last().1, "BuildingElement"@) {
            lemma_none_touched_in(e.last().0, elements, global, rules);
        }
    }
}

/// Overrides that set nothing reach no element of a zone.
proof fn lemma_none_touched_in(zone: Seq<char>, e: Members, global: Patch, rules: Seq<Rule>)
    requires
        global.empty(),
        forall|i: int| 0 <= i < rules.len() ==> (#[trigger] rules[i]).overrides.empty(),
    ensures
        touched_in_zone(zone, e, global, rules).len() == 0,
    decreases e.len(),
{
    if e.len() > 0 {
        lemma_none_touched_in(zone, e.drop_last(), global, rules);
    }
}

/// The members of an object inside a document have names of their own.
pub(crate) proof fn lemma_inside(j: Json, k: Seq<char>)
    requires
        well_formed(j),
    ensures
        object_in(j, k) matches Some(e) ==> distinct(e) && forall|i: int|
            0 <= i < e.len() ==> well_formed((#[trigger] e[i]).1),
{
    if let Some(e) = object_in(j, k) {
        let all = j->Object_0;
        let n = key_at(all, k);
        assert(all[n].0 == k);
        assert(well_formed(all[n].1));
    }
}

/// A patched input differs from the input only under `Zone`.
pub proof fn only_zones_change(input: Json, global: Patch, rules: Seq<Rule>, k: Seq<char>)
    requires
        well_formed(input),
        k != "Zone"@,
    ensures
        member_of(patched_input(input, global, rules), k) == member_of(input, k),
{
    if let Some(e) = object_in(input, "Zone"@) {
        lemma_put(input->Object_0, "Zone"@, Json::Object(patched_zones(e, global, rules)));
    }
}

/// The zones of a patched input are those of the input, in their places, each patched.
pub proof fn zones_stay_in_place(input: Json, global: Patch, rules: Seq<Rule>)
    requires
        well_formed(input),
    ensures
        object_in(patched_input(input, global, rules), "Zone"@) == (match object_in(
            input,
            "Zone"@,
        ) {
            Some(e) => Some(patched_zones(e, global, rules)),
            None => None,
        }),
{
    if let Some(e) = object_in(input, "Zone"@) {
        lemma_put(input->Object_0, "Zone"@, Json::Object(patched_zones(e, global, rules)));
    }
}

/// A patched zone differs from the zone only under `BuildingElement`, where its elements stand in
/// their places, each patched.
pub proof fn only_elements_change(zone: Json, global: Patch, rules: Seq<Rule>)
    requires
        well_formed(zone),
    ensures
        object_in(patched_zone(zone, global, rules), "BuildingElement"@) == (match object_in(
            zone,
            "BuildingElement"@,
        ) {
            Some(e) => Some(patched_elements(e, global, rules)),
            None => None,
        }),
        forall|k: Seq<char>|
            k != "BuildingElement"@ ==> #[trigger] member_of(patched_zone(zone, global, rules), k)
                == member_of(zone, k),
{
    if let Some(e) = object_in(zone, "BuildingElement"@) {
        let p = Json::Object(patched_elements(e, global, rules));
        lemma_put(zone->Object_0, "BuildingElement"@, p);
        assert forall|k: Seq<char>| k != "BuildingElement"@ implies #[trigger] member_of(
            patched_zone(zone, global, rules),
            k,
        ) == member_of(zone, k) by {
            assert(lookup(put(zone->Object_0, "BuildingElement"@, p), k) == lookup(
                zone->Object_0,
                k,
            ));
        }
    }
}

/// A patched element differs from the element only where it is a window, and there only in the
/// members that overrides write.
pub proof fn only_windows_change(
    name: Seq<char>,
    element: Json,
    global: Patch,
    rules: Seq<Rule>,
    k: Seq<char>,
)
    requires
        well_formed(element),
    ensures
        !transparent(element) ==> patched_element(name, element, global, rules) == element,
        change(global, k) is Keep && (forall|j: int|
            0 <= j < rules.len() ==> change((#[trigger] rules[j]).overrides, k) is Keep)
            ==> member_of(patched_element(name, element, global, rules), k) == member_of(
            element,
            k,
        ),
{
    if transparent(element) {
        if change(global, k) is Keep && (forall|j: int|
            0 <= j < rules.len() ==> change((#[trigger] rules[j]).overrides, k) is Keep) {
            global_overrides_apply_elsewhere(name, element, global, rules, k);
        }
    }
}

/// A patched element says of itself what the element said: whether it is a window, and where it
/// faces.
proof fn lemma_described(
    zone: Seq<char>,
    name: Seq<char>,
    element: Json,
    global: Patch,
    rules: Seq<Rule>,
)
    requires
        well_formed(element),
    ensures
        ({
            let p = patched_element(name, element, global, rules);
            &&& transparent(p) == transparent(element)
            &&& orientation_of(p) == orientation_of(element)
            &&& window_of(zone, name, p) == window_of(zone, name, element)
        }),
{
    if transparent(element) {
        lemma_kept(name, element, global, rules, "type"@);
        lemma_kept(name, element, global, rules, "orientation360"@);
        lemma_kept(name, element, global, rules, "pitch"@);
        windows_follow_the_last_rule(name, element, global, rules, "type"@);
    }
}

/// A patched window keeps a member that describes it.
proof fn lemma_kept(
    name: Seq<char>,
    element: Json,
    global: Patch,
    rules: Seq<Rule>,
    k: Seq<char>,
)
    requires
        transparent(element),
        distinct(element->Object_0),
        descriptive(k),
    ensures
        member_of(patched_element(name, element, global, rules), k) == member_of(element, k),
{
    description_is_kept(global, k);
    assert forall|j: int|
        0 <= j < rules.len() && (#[trigger] rules[j]).select.selects(
            name,
            orientation_of(element),
        ) implies change(rules[j].overrides, k) is Keep by {
        description_is_kept(rules[j].overrides, k);
    }
    global_overrides_apply_elsewhere(name, element, global, rules, k);
}

/// Overrides do not change which windows there are, nor their order, names and orientations: a
/// dwelling has the same inventory before and after.
pub proof fn windows_are_kept(input: Json, global: Patch, rules: Seq<Rule>)
    requires
        well_formed(input),
    ensures
        windows_of(patched_input(input, global, rules)) == windows_of(input),
{
    zones_stay_in_place(input, global, rules);
    lemma_inside(input, "Zone"@);
    if let Some(e) = object_in(input, "Zone"@) {
        lemma_windows_kept(e, global, rules);
    }
}

/// Overrides keep the windows of zones.
proof fn lemma_windows_kept(e: Members, global: Patch, rules: Seq<Rule>)
    requires
        forall|i: int| 0 <= i < e.len() ==> well_formed((#[trigger] e[i]).1),
    ensures
        windows_in_zones(patched_zones(e, global, rules)) == windows_in_zones(e),
    decreases e.len(),
{
    let p = patched_zones(e, global, rules);
    if e.len() > 0 {
        let before = e.drop_last();
        assert(p.drop_last() =~= patched_zones(before, global, rules));
        assert forall|i: int| 0 <= i < before.len() implies well_formed(
            (#[trigger] before[i]).1,
        ) by {
            assert(before[i] == e[i]);
        }
        lemma_windows_kept(before, global, rules);
        assert(e.last() == e[e.len() - 1]);
        only_elements_change(e.last().1, global, rules);
        lemma_inside(e.last().1, "BuildingElement"@);
        if let Some(elements) = object_in(e.last().1, "BuildingElement"@) {
            lemma_windows_kept_in(e.last().0, elements, global, rules);
        }
    }
}

/// Overrides keep the windows of a zone.
proof fn lemma_windows_kept_in(zone: Seq<char>, e: Members, global: Patch, rules: Seq<Rule>)
    requires
        forall|i: int| 0 <= i < e.len() ==> well_formed((#[trigger] e[i]).1),
    ensures
        windows_in_zone(zone, patched_elements(e, global, rules)) == windows_in_zone(zone, e),
    decreases e.len(),
{
    let p = patched_elements(e, global, rules);
    if e.len() > 0 {
        let before = e.drop_last();
        assert(p.drop_last() =~= patched_elements(before, global, rules));
        assert forall|i: int| 0 <= i < before.len() implies well_formed(
            (#[trigger] before[i]).1,
        ) by {
            assert(before[i] == e[i]);
        }
        lemma_windows_kept_in(zone, before, global, rules);
        assert(e.last() == e[e.len() - 1]);
        lemma_described(zone, e.last().0, e.last().1, global, rules);
    }
}

/// Overrides do not change the energy supplies of a dwelling or their fuels.
pub proof fn supplies_are_kept(input: Json, global: Patch, rules: Seq<Rule>)
    requires
        well_formed(input),
    ensures
        supplies_of(patched_input(input, global, rules)) == supplies_of(input),
{
    reveal_strlit("Zone");
    reveal_strlit("EnergySupply");
    assert("Zone"@.len() == 4);
    only_zones_change(input, global, rules, "EnergySupply"@);
}

/// The zone's name and the window's name.
pub open spec fn pair_of(w: Window) -> (Seq<char>, Seq<char>) {
    (w.zone, w.name)
}

/// Global overrides that set something reach every window and nothing else.
pub proof fn global_overrides_reach_every_window(input: Json, global: Patch, rules: Seq<Rule>)
    requires
        !global.empty(),
    ensures
        touched_elements(input, global, rules) == windows_of(input).map_values(
            |w: Window| pair_of(w),
        ),
        touched_elements(input, global, rules).len() == windows_of(input).len(),
{
    if let Some(e) = object_in(input, "Zone"@) {
        lemma_all_touched(e, global, rules);
    } else {
        assert(windows_of(input).map_values(|w: Window| pair_of(w)) =~= seq![]);
    }
}

/// Global overrides that set something reach every window of zones.
proof fn lemma_all_touched(e: Members, global: Patch, rules: Seq<Rule>)
    requires
        !global.empty(),
    ensures
        touched_in_zones(e, global, rules) == windows_in_zones(e).map_values(
            |w: Window| pair_of(w),
        ),
    decreases e.len(),
{
    if e.len() > 0 {
        lemma_all_touched(e.drop_last(), global, rules);
        if let Some(elements) = object_in(e.last().1, "BuildingElement"@) {
            lemma_all_touched_in(e.last().0, elements, global, rules);
            assert(windows_in_zones(e).map_values(|w: Window| pair_of(w)) =~= windows_in_zones(
                e.drop_last(),
            ).map_values(|w: Window| pair_of(w)) + windows_in_zone(
                e.last().0,
                elements,
            ).map_values(|w: Window| pair_of(w)));
        }
    } else {
        assert(windows_in_zones(e).map_values(|w: Window| pair_of(w)) =~= seq![]);
    }
}

/// Global overrides that set something reach every window of a zone.
proof fn lemma_all_touched_in(zone: Seq<char>, e: Members, global: Patch, rules: Seq<Rule>)
    requires
        !global.empty(),
    ensures
        touched_in_zone(zone, e, global, rules) == windows_in_zone(zone, e).map_values(
            |w: Window| pair_of(w),
        ),
    decreases e.len(),
{
    if e.len() > 0 {
        lemma_all_touched_in(zone, e.drop_last(), global, rules);
        if transparent(e.last().1) {
            assert(windows_in_zone(zone, e).map_values(|w: Window| pair_of(w))
                =~= windows_in_zone(zone, e.drop_last()).map_values(
                |w: Window| pair_of(w),
            ).push((zone, e.last().0)));
        }
    } else {
        assert(windows_in_zone(zone, e).map_values(|w: Window| pair_of(w)) =~= seq![]);
    }
}

/// No element is counted twice: the touched elements are distinct pairs of zone and name.
pub proof fn touched_elements_are_distinct(input: Json, global: Patch, rules: Seq<Rule>)
    requires
        well_formed(input),
    ensures
        touched_elements(input, global, rules).no_duplicates(),
{
    lemma_inside(input, "Zone"@);
    if let Some(e) = object_in(input, "Zone"@) {
        lemma_distinct_pairs(e, global, rules);
    }
}

/// The touched elements of zones are distinct, and are elements of those zones.
proof fn lemma_distinct_pairs(e: Members, global: Patch, rules: Seq<Rule>)
    requires
        distinct(e),
        forall|i: int| 0 <= i < e.len() ==> well_formed((#[trigger] e[i]).1),
    ensures
        touched_in_zones(e, global, rules).no_duplicates(),
        forall|n: int|
            0 <= n < touched_in_zones(e, global, rules).len() ==> has_key(
                e,
                (#[trigger] touched_in_zones(e, global, rules)[n]).0,
            ),
    decreases e.len(),
{
    let t = touched_in_zones(e, global, rules);
    if e.len() > 0 {
        let before = e.drop_last();
        let tb = touched_in_zones(before, global, rules);
        assert forall|i: int| 0 <= i < before.len() implies well_formed(
            (#[trigger] before[i]).1,
        ) by {
            assert(before[i] == e[i]);
        }
        assert(distinct(before)) by {
            assert forall|i: int, j: int| 0 <= i < j < before.len() implies #[trigger] before[i].0
                != #[trigger] before[j].0 by {
                assert(before[i] == e[i] && before[j] == e[j]);
            }
        }
        lemma_distinct_pairs(before, global, rules);
        assert(e.last() == e[e.len() - 1]);
        assert forall|n: int| 0 <= n < tb.len() implies has_key(e, (#[trigger] tb[n]).0)
            && tb[n].0 != e.last().0 by {
            let i = key_at(before, tb[n].0);
            assert(before[i].0 == tb[n].0 && e[i] == before[i]);
        }
        lemma_inside(e.last().1, "BuildingElement"@);
        if let Some(elements) = object_in(e.last().1, "BuildingElement"@) {
            let tz = touched_in_zone(e.last().0, elements, global, rules);
            lemma_distinct_pairs_in(e.last().0, elements, global, rules);
            assert(t == tb + tz);
            assert forall|n: int| 0 <= n < t.len() implies has_key(e, (#[trigger] t[n]).0) by {
                if n < tb.len() {
                    assert(t[n] == tb[n]);
                } else {
                    assert(t[n] == tz[n - tb.len()]);
                    assert(e[e.len() - 1].0 == t[n].0);
                }
            }
            assert forall|m: int, n: int| 0 <= m < n < t.len() implies t[m] != t[n] by {
                if n < tb.len() {
                    assert(t[m] == tb[m] && t[n] == tb[n]);
                } else if m >= tb.len() {
                    assert(t[m] == tz[m - tb.len()] && t[n] == tz[n - tb.len()]);
                } else {
                    assert(t[m] == tb[m] && t[n] == tz[n - tb.len()]);
                }
            }
        }
    }
}

/// The touched elements of a zone are distinct, and are elements of that zone.
proof fn lemma_distinct_pairs_in(zone: Seq<char>, e: Members, global: Patch, rules: Seq<Rule>)
    requires
        distinct(e),
    ensures
        touched_in_zone(zone, e, global, rules).no_duplicates(),
        forall|n: int|
            0 <= n < touched_in_zone(zone, e, global, rules).len() ==> {
                let p = #[trigger] touched_in_zone(zone, e, global, rules)[n];
                p.0 == zone && has_key(e, p.1)
            },
    decreases e.len(),
{
    let t = touched_in_zone(zone, e, global, rules);
    if e.len() > 0 {
        let before = e.drop_last();
        let tb = touched_in_zone(zone, before, global, rules);
        assert(distinct(before)) by {
            assert forall|i: int, j: int| 0 <= i < j < before.len() implies #[trigger] before[i].0
                != #[trigger] before[j].0 by {
                assert(before[i] == e[i] && before[j] == e[j]);
            }
        }
        lemma_distinct_pairs_in(zone, before, global, rules);
        assert(e.last() == e[e.len() - 1]);
        assert forall|n: int| 0 <= n < tb.len() implies (#[trigger] tb[n]).0 == zone && has_key(
            e,
            tb[n].1,
        ) && tb[n].1 != e.last().0 by {
            let i = key_at(before, tb[n].1);
            assert(before[i].0 == tb[n].1 && e[i] == before[i]);
        }
        assert(has_key(e, e.last().0)) by {
            assert(e[e.len() - 1].0 == e.last().0);
        }
    }
}

/// Applying the same overrides to a window twice is the same as applying them once.
pub proof fn overrides_are_idempotent(e: Members, o: Patch)
    requires
        distinct(e),
    ensures
        overridden(overridden(e, o), o) == overridden(e, o),
{
    lemma_names();
    let a = overridden(e, o);
    overrides_change_what_they_set(e, o, "u_value"@);
    overrides_change_what_they_set(e, o, "thermal_resistance_construction"@);
    overrides_change_what_they_set(e, o, "g_value"@);
    overrides_change_what_they_set(e, o, "frame_area_fraction"@);
    overrides_change_what_they_set(e, o, "shading"@);
    overrides_change_what_they_set(e, o, "treatment"@);
    match (o.u_value, o.thermal_resistance_construction) {
        (Some(u), _) => {
            lemma_put_again(a, "u_value"@, u);
        },
        (None, Some(r)) => {
            lemma_put_again(a, "thermal_resistance_construction"@, r);
        },
        (None, None) => {},
    }
    assert(with_performance(a, o) == a);
    if let Some(g) = o.g_value {
        lemma_put_again(a, "g_value"@, g);
    }
    if let Some(f) = o.frame_area_fraction {
        lemma_put_again(a, "frame_area_fraction"@, f);
    }
    if let Some(s) = array_of(o.shading) {
        lemma_put_again(a, "shading"@, s);
    }
    if let Some(t) = array_of(o.treatment) {
        lemma_put_again(a, "treatment"@, t);
    }
}

/// Setting a member to the value that it has changes nothing.
proof fn lemma_put_again(e: Members, k: Seq<char>, v: Json)
    requires
        lookup(e, k) == Some(v),
    ensures
        put(e, k, v) == e,
{
    lemma_put_same(e, k);
}

/// Applying one set of overrides to an input twice is the same as applying it once.
pub proof fn glazing_overrides_are_idempotent(input: Json, o: Patch)
    requires
        well_formed(input),
    ensures
        patched_input(patched_input(input, o, seq![]), o, seq![]) == patched_input(
            input,
            o,
            seq![],
        ),
{
    let none = Seq::<Rule>::empty();
    let once = patched_input(input, o, none);
    zones_stay_in_place(input, o, none);
    lemma_inside(input, "Zone"@);
    if let Some(e) = object_in(input, "Zone"@) {
        let z = patched_zones(e, o, none);
        assert forall|i: int| 0 <= i < e.len() implies patched_zone((#[trigger] z[i]).1, o, none)
            == z[i].1 by {
            assert(well_formed(e[i].1));
            lemma_zone_idempotent(e[i].1, o);
        }
        assert(patched_zones(z, o, none) =~= z);
        lemma_put_again(once->Object_0, "Zone"@, Json::Object(z));
    }
}

/// Applying one set of overrides to a zone twice is the same as applying it once.
proof fn lemma_zone_idempotent(zone: Json, o: Patch)
    requires
        well_formed(zone),
    ensures
        patched_zone(patched_zone(zone, o, seq![]), o, seq![]) == patched_zone(zone, o, seq![]),
{
    let none = Seq::<Rule>::empty();
    let once = patched_zone(zone, o, none);
    only_elements_change(zone, o, none);
    lemma_inside(zone, "BuildingElement"@);
    if let Some(e) = object_in(zone, "BuildingElement"@) {
        let p = patched_elements(e, o, none);
        assert forall|i: int| 0 <= i < e.len() implies patched_element(
            (#[trigger] p[i]).0,
            p[i].1,
            o,
            none,
        ) == p[i].1 by {
            assert(well_formed(e[i].1));
            lemma_described(seq![], e[i].0, e[i].1, o, none);
            if transparent(e[i].1) {
                overrides_are_idempotent(e[i].1->Object_0, o);
            }
        }
        assert(patched_elements(p, o, none) =~= p);
        lemma_put_again(once->Object_0, "BuildingElement"@, Json::Object(p));
    }
}

/// Two elements with the same members, in whichever order.
pub open spec fn same_element(a: Json, b: Json) -> bool {
    a == b || (a is Object && b is Object && forall|k: Seq<char>| #[trigger]
        member_of(a, k) == member_of(b, k))
}

/// Two zones that differ at most in the order of their elements' members.
pub open spec fn same_zone(a: Json, b: Json) -> bool {
    match (object_in(a, "BuildingElement"@), object_in(b, "BuildingElement"@)) {
        (Some(e), Some(f)) => {
            &&& e.len() == f.len()
            &&& forall|i: int|
                0 <= i < e.len() ==> (#[trigger] e[i]).0 == f[i].0 && same_element(e[i].1, f[i].1)
            &&& forall|k: Seq<char>|
                k != "BuildingElement"@ ==> #[trigger] member_of(a, k) == member_of(b, k)
        },
        _ => a == b,
    }
}

/// Two inputs that differ at most in the order of their elements' members.
pub open spec fn same_input(a: Json, b: Json) -> bool {
    match (object_in(a, "Zone"@), object_in(b, "Zone"@)) {
        (Some(e), Some(f)) => {
            &&& e.len() == f.len()
            &&& forall|i: int|
                0 <= i < e.len() ==> (#[trigger] e[i]).0 == f[i].0 && same_zone(e[i].1, f[i].1)
            &&& forall|k: Seq<char>| k != "Zone"@ ==> #[trigger] member_of(a, k) == member_of(b, k)
        },
        _ => a == b,
    }
}

/// Applying overrides and rules to an input twice is the same as applying them once, but for the
/// order of the members of the windows.
pub proof fn overriding_twice_is_overriding_once(input: Json, global: Patch, rules: Seq<Rule>)
    requires
        well_formed(input),
    ensures
        same_input(
            patched_input(patched_input(input, global, rules), global, rules),
            patched_input(input, global, rules),
        ),
{
    let once = patched_input(input, global, rules);
    zones_stay_in_place(input, global, rules);
    lemma_inside(input, "Zone"@);
    if let Some(e) = object_in(input, "Zone"@) {
        let z = patched_zones(e, global, rules);
        let y = patched_zones(z, global, rules);
        lemma_put(input->Object_0, "Zone"@, Json::Object(z));
        lemma_put(once->Object_0, "Zone"@, Json::Object(y));
        let twice = patched_input(once, global, rules);
        assert(object_in(twice, "Zone"@) == Some(y));
        assert forall|i: int| 0 <= i < y.len() implies (#[trigger] y[i]).0 == z[i].0 && same_zone(
            y[i].1,
            z[i].1,
        ) by {
            assert(well_formed(e[i].1));
            lemma_zone_twice(e[i].1, global, rules);
        }
        assert forall|k: Seq<char>| k != "Zone"@ implies #[trigger] member_of(twice, k)
            == member_of(once, k) by {
            assert(lookup(put(once->Object_0, "Zone"@, Json::Object(y)), k) == lookup(
                once->Object_0,
                k,
            ));
        }
    }
}

/// Applying overrides and rules to a zone twice is the same as applying them once, but for the
/// order of the members of the windows.
proof fn lemma_zone_twice(zone: Json, global: Patch, rules: Seq<Rule>)
    requires
        well_formed(zone),
    ensures
        same_zone(
            patched_zone(patched_zone(zone, global, rules), global, rules),
            patched_zone(zone, global, rules),
        ),
{
    let once = patched_zone(zone, global, rules);
    only_elements_change(zone, global, rules);
    lemma_inside(zone, "BuildingElement"@);
    if let Some(e) = object_in(zone, "BuildingElement"@) {
        let p = patched_elements(e, global, rules);
        let q = patched_elements(p, global, rules);
        lemma_put(zone->Object_0, "BuildingElement"@, Json::Object(p));
        lemma_put(once->Object_0, "BuildingElement"@, Json::Object(q));
        let twice = patched_zone(once, global, rules);
        assert(object_in(twice, "BuildingElement"@) == Some(q));
        assert forall|i: int| 0 <= i < q.len() implies (#[trigger] q[i]).0 == p[i].0
            && same_element(q[i].1, p[i].1) by {
            assert(well_formed(e[i].1));
            rules_are_idempotent(e[i].0, e[i].1, global, rules);
        }
        assert forall|k: Seq<char>| k != "BuildingElement"@ implies #[trigger] member_of(twice, k)
            == member_of(once, k) by {
            assert(lookup(put(once->Object_0, "BuildingElement"@, Json::Object(q)), k) == lookup(
                once->Object_0,
                k,
            ));
        }
    }
}

/// Applying overrides and rules to an element twice gives it the members that applying them once
/// gives it.
pub proof fn rules_are_idempotent(
    name: Seq<char>,
    element: Json,
    global: Patch,
    rules: Seq<Rule>,
)
    requires
        well_formed(element),
    ensures
        ({
            let once = patched_element(name, element, global, rules);
            same_element(patched_element(name, once, global, rules), once)
        }),
{
    let once = patched_element(name, element, global, rules);
    if transparent(element) {
        lemma_described(seq![], name, element, global, rules);
        let twice = patched_element(name, once, global, rules);
        assert forall|k: Seq<char>| #[trigger] member_of(twice, k) == member_of(once, k) by {
            windows_follow_the_last_rule(name, element, global, rules, k);
            windows_follow_the_last_rule(name, once, global, rules, k);
        }
    }
}

/// Rules that come after others are applied to what those came to.
proof fn lemma_refined_in_turn(
    e: Members,
    name: Seq<char>,
    orientation: Option<Double>,
    first: Seq<Rule>,
    later: Seq<Rule>,
)
    ensures
        refined(e, name, orientation, first + later) == refined(
            refined(e, name, orientation, first),
            name,
            orientation,
            later,
        ),
    decreases later.len(),
{
    let all = first + later;
    if later.len() > 0 {
        let before = later.drop_last();
        lemma_refined_in_turn(e, name, orientation, first, before);
        assert(all.drop_last() =~= first + before);
        assert(all.last() == later.last());
    } else {
        assert(all =~= first);
    }
}

/// Rules apply to a zone in turn.
proof fn lemma_zone_in_turn(
    zone: Json,
    global: Patch,
    none: Patch,
    first: Seq<Rule>,
    later: Seq<Rule>,
)
    requires
        well_formed(zone),
        none.empty(),
    ensures
        patched_zone(zone, global, first + later) == patched_zone(
            patched_zone(zone, global, first),
            none,
            later,
        ),
{
    let once = patched_zone(zone, global, first);
    only_elements_change(zone, global, first);
    lemma_inside(zone, "BuildingElement"@);
    if let Some(e) = object_in(zone, "BuildingElement"@) {
        let p = patched_elements(e, global, first);
        let q = patched_elements(p, none, later);
        let all = patched_elements(e, global, first + later);
        assert forall|i: int| 0 <= i < e.len() implies #[trigger] all[i] == q[i] by {
            assert(well_formed(e[i].1));
            lemma_described(seq![], e[i].0, e[i].1, global, first);
            if transparent(e[i].1) {
                let o = overridden(e[i].1->Object_0, global);
                let facing = orientation_of(e[i].1);
                lemma_refined_in_turn(o, e[i].0, facing, first, later);
                lemma_empty(p[i].1->Object_0, none);
            }
        }
        assert(all =~= q);
        lemma_put_twice(
            zone->Object_0,
            "BuildingElement"@,
            Json::Object(p),
            Json::Object(q),
        );
    }
}

/// Rules apply in turn: one pass with two lists of rules is the same as a pass with the first list
/// and then a pass with the second, which sets nothing besides.
pub proof fn rules_apply_in_turn(
    input: Json,
    global: Patch,
    none: Patch,
    first: Seq<Rule>,
    later: Seq<Rule>,
)
    requires
        well_formed(input),
        none.empty(),
    ensures
        patched_input(input, global, first + later) == patched_input(
            patched_input(input, global, first),
            none,
            later,
        ),
{
    zones_stay_in_place(input, global, first);
    lemma_inside(input, "Zone"@);
    if let Some(e) = object_in(input, "Zone"@) {
        let z = patched_zones(e, global, first);
        let y = patched_zones(z, none, later);
        let all = patched_zones(e, global, first + later);
        assert forall|i: int| 0 <= i < e.len() implies #[trigger] all[i] == y[i] by {
            assert(well_formed(e[i].1));
            lemma_zone_in_turn(e[i].1, global, none, first, later);
        }
        assert(all =~= y);
        lemma_put_twice(input->Object_0, "Zone"@, Json::Object(z), Json::Object(y));
    }
}

/// What overrides reach does not depend on the overrides that came before: they reach the windows
/// that they would have reached without. So a second application counts the same windows as the
/// first.
pub proof fn earlier_overrides_leave_the_reach_alone(
    input: Json,
    earlier: Patch,
    earlier_rules: Seq<Rule>,
    global: Patch,
    rules: Seq<Rule>,
)
    requires
        well_formed(input),
    ensures
        touched_elements(patched_input(input, earlier, earlier_rules), global, rules)
            == touched_elements(input, global, rules),
{
    zones_stay_in_place(input, earlier, earlier_rules);
    lemma_inside(input, "Zone"@);
    if let Some(e) = object_in(input, "Zone"@) {
        lemma_reach_kept(e, earlier, earlier_rules, global, rules);
    }
}

/// Overrides keep what others reach in some zones.
proof fn lemma_reach_kept(
    e: Members,
    earlier: Patch,
    earlier_rules: Seq<Rule>,
    global: Patch,
    rules: Seq<Rule>,
)
    requires
        forall|i: int| 0 <= i < e.len() ==> well_formed((#[trigger] e[i]).1),
    ensures
        touched_in_zones(patched_zones(e, earlier, earlier_rules), global, rules)
            == touched_in_zones(e, global, rules),
    decreases e.len(),
{
    let p = patched_zones(e, earlier, earlier_rules);
    if e.len() > 0 {
        let before = e.drop_last();
        assert(p.drop_last() =~= patched_zones(before, earlier, earlier_rules));
        assert forall|i: int| 0 <= i < before.len() implies well_formed(
            (#[trigger] before[i]).1,
        ) by {
            assert(before[i] == e[i]);
        }
        lemma_reach_kept(before, earlier, earlier_rules, global, rules);
        assert(e.last() == e[e.len() - 1]);
        only_elements_change(e.last().1, earlier, earlier_rules);
        lemma_inside(e.last().1, "BuildingElement"@);
        if let Some(elements) = object_in(e.last().1, "BuildingElement"@) {
            lemma_reach_kept_in(e.last().0, elements, earlier, earlier_rules, global, rules);
        }
    }
}

/// Overrides keep what others reach in a zone.
proof fn lemma_reach_kept_in(
    zone: Seq<char>,
    e: Members,
    earlier: Patch,
    earlier_rules: Seq<Rule>,
    global: Patch,
    rules: Seq<Rule>,
)
    requires
        forall|i: int| 0 <= i < e.len() ==> well_formed((#[trigger] e[i]).1),
    ensures
        touched_in_zone(zone, patched_elements(e, earlier, earlier_rules), global, rules)
            == touched_in_zone(zone, e, global, rules),
    decreases e.len(),
{
    let p = patched_elements(e, earlier, earlier_rules);
    if e.len() > 0 {
        let before = e.drop_last();
        assert(p.drop_last() =~= patched_elements(before, earlier, earlier_rules));
        assert forall|i: int| 0 <= i < before.len() implies well_formed(
            (#[trigger] before[i]).1,
        ) by {
            assert(before[i] == e[i]);
        }
        lemma_reach_kept_in(zone, before, earlier, earlier_rules, global, rules);
        assert(e.last() == e[e.len() - 1]);
        lemma_described(zone, e.last().0, e.last().1, earlier, earlier_rules);
    }
}

/// A selector without criteria selects every window.
pub proof fn empty_selectors_select_everything(
    c: Criteria,
    name: Seq<char>,
    orientation: Option<Double>,
)
    requires
        c.names.len() == 0,
        c.orientations.len() == 0,
    ensures
        c.selects(name, orientation),
{
}

/// A selector with both criteria selects exactly what each of them selects on its own.
pub proof fn criteria_combine(c: Criteria, name: Seq<char>, orientation: Option<Double>)
    ensures
        c.selects(name, orientation) == (Criteria { names: c.names, orientations: seq![] }.selects(
            name,
            orientation,
        ) && Criteria { names: seq![], orientations: c.orientations }.selects(name, orientation)),
{
}

/// A window whose orientation is a whole number is selected by the same number written as a double.
pub proof fn whole_orientations_match(select: Criteria, name: Seq<char>, element: Json, n: int,
    i: int)
    requires
        select.names.len() == 0,
        0 <= i < select.orientations.len(),
        select.orientations[i].finite(),
        select.orientations[i].value() == n * pow2(1074),
        member_of(element, "orientation360"@) == Some(Json::Number(Numeral::Whole(n))),
    ensures
        select.selects(name, orientation_of(element)),
{
    let d = select.orientations[i];
    whole_doubles_are_exact(n, d);
    lemma_pow2_pos(991);
    assert(TOLERANCE_HALVES * pow2(991) >= 0) by (nonlinear_arith)
        requires
            pow2(991) > 0,
    ;
    assert(d.near(nearest_double(n)));
}

} // verus!
