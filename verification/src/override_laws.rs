//! What overrides do to the members of a window, and which windows they reach.
use crate::double::{nearest_double, Double, TOLERANCE_HALVES};
use crate::glazing::{
    object_in, orientation_of, overridden, patched_elements, patched_input, patched_zone,
    patched_zones, refined, rules_of, touched, touched_elements, touched_in_zone, touched_in_zones,
    Criteria, GlazingOverrides, Patch, Rule, TargetedOverride, WindowSelector,
};
use crate::glazing_laws::{
    lemma_inside, only_elements_change, overrides_change_what_they_set, zones_stay_in_place,
};
use crate::json::{
    distinct, has_key, json, key_at, lemma_key_at, lookup, member_of, well_formed, Json, Members,
    Numeral,
};
use vstd::arithmetic::power2::{
    lemma2_to64, lemma2_to64_rest, lemma_pow2_adds, lemma_pow2_pos, pow2,
};
use vstd::prelude::*;

verus! {

/// A member is a JSON array that holds just the listed values, in their places.
pub open spec fn holds_list(member: Option<Json>, list: Seq<Json>) -> bool {
    &&& member matches Some(Json::Array(a))
    &&& a.len() == list.len()
    &&& forall|i: int| 0 <= i < list.len() ==> #[trigger] a[i] == list[i]
}

/// After overrides, each field that they set is a member of that name and value, each list entry by
/// entry; each field that they do not set is as it was, but that setting one form of the thermal
/// performance takes the other out; and nothing else changes.
pub proof fn overrides_write_each_field(e: Members, o: Patch, k: Seq<char>)
    requires
        distinct(e),
    ensures
        o.u_value matches Some(u) ==> lookup(overridden(e, o), "u_value"@) == Some(u) && lookup(
            overridden(e, o),
            "thermal_resistance_construction"@,
        ) is None,
        o.u_value is None ==> (o.thermal_resistance_construction matches Some(r) ==> lookup(
            overridden(e, o),
            "thermal_resistance_construction"@,
        ) == Some(r) && lookup(overridden(e, o), "u_value"@) is None),
        o.u_value is None && o.thermal_resistance_construction is None ==> lookup(
            overridden(e, o),
            "u_value"@,
        ) == lookup(e, "u_value"@) && lookup(overridden(e, o), "thermal_resistance_construction"@)
            == lookup(e, "thermal_resistance_construction"@),
        o.g_value matches Some(g) ==> lookup(overridden(e, o), "g_value"@) == Some(g),
        o.g_value is None ==> lookup(overridden(e, o), "g_value"@) == lookup(e, "g_value"@),
        o.frame_area_fraction matches Some(f) ==> lookup(overridden(e, o), "frame_area_fraction"@)
            == Some(f),
        o.frame_area_fraction is None ==> lookup(overridden(e, o), "frame_area_fraction"@)
            == lookup(e, "frame_area_fraction"@),
        o.shading matches Some(list) ==> holds_list(lookup(overridden(e, o), "shading"@), list),
        o.shading is None ==> lookup(overridden(e, o), "shading"@) == lookup(e, "shading"@),
        o.treatment matches Some(list) ==> holds_list(
            lookup(overridden(e, o), "treatment"@),
            list,
        ),
        o.treatment is None ==> lookup(overridden(e, o), "treatment"@) == lookup(e, "treatment"@),
        k != "u_value"@ && k != "thermal_resistance_construction"@ && k != "g_value"@ && k
            != "frame_area_fraction"@ && k != "shading"@ && k != "treatment"@ ==> lookup(
            overridden(e, o),
            k,
        ) == lookup(e, k),
{
    reveal_strlit("u_value");
    reveal_strlit("thermal_resistance_construction");
    reveal_strlit("g_value");
    reveal_strlit("frame_area_fraction");
    reveal_strlit("shading");
    reveal_strlit("treatment");
    assert("u_value"@[0] == 'u');
    assert("g_value"@[0] == 'g');
    assert("shading"@[0] == 's');
    assert("treatment"@[1] == 'r');
    assert("frame_area_fraction"@[0] == 'f');
    assert("thermal_resistance_construction"@.len() == 31);
    overrides_change_what_they_set(e, o, "u_value"@);
    overrides_change_what_they_set(e, o, "thermal_resistance_construction"@);
    overrides_change_what_they_set(e, o, "g_value"@);
    overrides_change_what_they_set(e, o, "frame_area_fraction"@);
    overrides_change_what_they_set(e, o, "shading"@);
    overrides_change_what_they_set(e, o, "treatment"@);
    overrides_change_what_they_set(e, o, k);
}

/// Rules are applied one after another: none leaves a window as it is, and one more after some
/// overrides what those have made of it, where it selects the window.
pub proof fn rules_override_one_after_another(
    e: Members,
    name: Seq<char>,
    orientation: Option<Double>,
    rules: Seq<Rule>,
    next: Rule,
)
    ensures
        refined(e, name, orientation, seq![]) == e,
        next.select.selects(name, orientation) ==> refined(e, name, orientation, rules.push(next))
            == overridden(refined(e, name, orientation, rules), next.overrides),
        !next.select.selects(name, orientation) ==> refined(e, name, orientation, rules.push(next))
            == refined(e, name, orientation, rules),
{
    assert(rules.push(next).drop_last() =~= rules);
}

/// A selector selects a window whose name is any one of its names and whose orientation is near
/// any one of its orientations; a list that is empty is no restriction; and a window that no entry
/// of a list that is not empty fits is not selected.
pub proof fn selectors_list_alternatives(c: Criteria, name: Seq<char>, orientation: Option<Double>)
    ensures
        c.orientations.len() == 0 ==> forall|i: int|
            0 <= i < c.names.len() ==> c.selects(#[trigger] c.names[i], orientation),
        c.names.len() > 0 && (forall|i: int|
            0 <= i < c.names.len() ==> #[trigger] c.names[i] != name) ==> !c.selects(
            name,
            orientation,
        ),
        c.names.len() == 0 ==> forall|i: int, o: Double|
            0 <= i < c.orientations.len() && (#[trigger] c.orientations[i]).near(o)
                ==> #[trigger] c.selects(name, Some(o)),
        forall|i: int, j: int, o: Double|
            #![trigger c.names[i], c.orientations[j].near(o)]
            0 <= i < c.names.len() && 0 <= j < c.orientations.len() && c.orientations[j].near(o)
                ==> c.selects(c.names[i], Some(o)),
        c.orientations.len() > 0 && orientation is None ==> !c.selects(name, orientation),
        c.orientations.len() > 0 && (orientation matches Some(o) && forall|i: int|
            0 <= i < c.orientations.len() ==> !(#[trigger] c.orientations[i]).near(o))
            ==> !c.selects(name, orientation),
        c.names.len() == 0 && c.orientations.len() == 0 ==> c.selects(name, orientation),
{
    assert forall|i: int| 0 <= i < c.names.len() implies c.names.contains(#[trigger] c.names[i]) by {}
}

/// Two finite orientations are near where they differ by less than a billionth, give or take a
/// billionth of that; an orientation that is not finite is near none.
pub proof fn nearness_is_a_billionth(a: Double, b: Double)
    ensures
        !a.finite() || !b.finite() ==> !a.near(b),
        a.finite() && b.finite() ==> {
            let apart = if a.value() >= b.value() {
                a.value() - b.value()
            } else {
                b.value() - a.value()
            };
            &&& 1_000_000_001 * apart <= pow2(1074) ==> a.near(b)
            &&& 999_999_999 * apart >= pow2(1074) ==> !a.near(b)
        },
        a.near(b) == b.near(a),
{
    if a.finite() && b.finite() {
        let d = a.distance(b);
        let u = pow2(991) as int;
        lemma_pow2_pos(991);
        lemma_pow2_adds(83, 991);
        lemma2_to64();
        lemma2_to64_rest();
        lemma_pow2_adds(19, 64);
        assert(pow2(83) == 0x8_0000int * 0x1_0000_0000_0000_0000int);
        let t = TOLERANCE_HALVES as int;
        assert(1_000_000_001 * d <= 0x8_0000_0000_0000_0000_0000 * u ==> d <= t * u)
            by (nonlinear_arith)
            requires
                u > 0,
                t == 9671406556917033,
        ;
        assert(999_999_999 * d >= 0x8_0000_0000_0000_0000_0000 * u ==> d > t * u)
            by (nonlinear_arith)
            requires
                u > 0,
                t == 9671406556917033,
        ;
    }
}

/// The orientation of an element is the number that its member `orientation360` holds: a
/// floating-point number as it is, a whole number as the double nearest to it; and nothing else.
pub proof fn orientations_are_read_from_their_member(element: Json)
    ensures
        match member_of(element, "orientation360"@) {
            Some(Json::Number(Numeral::Real(bits))) => orientation_of(element) == Some(
                Double { bits },
            ),
            Some(Json::Number(Numeral::Whole(n))) => orientation_of(element) == Some(
                nearest_double(n),
            ),
            _ => orientation_of(element) is None,
        },
{
}

/// The element of a name in a zone of an input.
pub open spec fn element_in(input: Json, zone: Seq<char>, name: Seq<char>) -> Option<Json> {
    match member_of(input, "Zone"@) {
        Some(zones) => match member_of(zones, zone) {
            Some(z) => match member_of(z, "BuildingElement"@) {
                Some(elements) => member_of(elements, name),
                None => None,
            },
            None => None,
        },
        None => None,
    }
}

/// The type of an element is that of a window.
pub open spec fn typed_as_window(element: Json) -> bool {
    member_of(element, "type"@) == Some(Json::Str("BuildingElementTransparent"@))
}

/// At least one field is set.
pub open spec fn sets_something(o: Patch) -> bool {
    ||| o.u_value is Some
    ||| o.thermal_resistance_construction is Some
    ||| o.g_value is Some
    ||| o.frame_area_fraction is Some
    ||| o.shading is Some
    ||| o.treatment is Some
}

/// A patched input has the elements of the input: each window with the global overrides, then with
/// the rules that select it; every other element as it was.
pub proof fn patched_inputs_hold_patched_windows(
    input: Json,
    global: Patch,
    rules: Seq<Rule>,
    zone: Seq<char>,
    name: Seq<char>,
)
    requires
        well_formed(input),
    ensures
        element_in(patched_input(input, global, rules), zone, name) == (match element_in(
            input,
            zone,
            name,
        ) {
            None => None,
            Some(element) => if typed_as_window(element) {
                Some(
                    Json::Object(
                        refined(
                            overridden(element->Object_0, global),
                            name,
                            orientation_of(element),
                            rules,
                        ),
                    ),
                )
            } else {
                Some(element)
            },
        }),
{
    zones_stay_in_place(input, global, rules);
    lemma_inside(input, "Zone"@);
    if let Some(e) = object_in(input, "Zone"@) {
        let p = patched_zones(e, global, rules);
        lemma_same_names(e, p, zone);
        if has_key(e, zone) {
            let i = key_at(e, zone);
            let z = e[i].1;
            only_elements_change(z, global, rules);
            lemma_inside(z, "BuildingElement"@);
            if let Some(f) = object_in(z, "BuildingElement"@) {
                let q = patched_elements(f, global, rules);
                lemma_same_names(f, q, name);
            } else {
                assert(patched_zone(z, global, rules) == z);
            }
        }
    } else {
        assert(patched_input(input, global, rules) == input);
    }
}

/// Members with the same names in the same places are found in the same places.
proof fn lemma_same_names(e: Members, p: Members, k: Seq<char>)
    requires
        distinct(e),
        p.len() == e.len(),
        forall|i: int| 0 <= i < e.len() ==> (#[trigger] p[i]).0 == e[i].0,
    ensures
        has_key(e, k) == has_key(p, k),
        has_key(e, k) ==> {
            let i = key_at(e, k);
            &&& 0 <= i < e.len()
            &&& e[i].0 == k
            &&& lookup(e, k) == Some(e[i].1)
            &&& lookup(p, k) == Some(p[i].1)
        },
        !has_key(e, k) ==> lookup(p, k) is None,
{
    assert(distinct(p));
    if has_key(e, k) {
        let i = key_at(e, k);
        assert(p[i].0 == k);
        lemma_key_at(p, i);
        lemma_key_at(e, i);
    } else if has_key(p, k) {
        let i = key_at(p, k);
        assert(e[i].0 == k);
    }
}

/// The elements that are counted are the windows on which the global overrides or a rule that
/// selects them set something.
pub proof fn reached_elements_are_the_windows_that_overrides_set(
    input: Json,
    global: Patch,
    rules: Seq<Rule>,
    zone: Seq<char>,
    name: Seq<char>,
)
    requires
        well_formed(input),
    ensures
        touched_elements(input, global, rules).contains((zone, name)) <==> (element_in(
            input,
            zone,
            name,
        ) matches Some(element) && typed_as_window(element) && (sets_something(global) || exists|
            i: int,
        |
            0 <= i < rules.len() && (#[trigger] rules[i]).select.selects(
                name,
                orientation_of(element),
            ) && sets_something(rules[i].overrides))),
{
    lemma_inside(input, "Zone"@);
    if let Some(e) = object_in(input, "Zone"@) {
        lemma_reached_in_zones(e, global, rules, zone, name);
        if let Some(element) = element_in(input, zone, name) {
            lemma_touched(name, element, global, rules);
        }
    }
}

/// What it takes for an element to be reached.
proof fn lemma_touched(name: Seq<char>, element: Json, global: Patch, rules: Seq<Rule>)
    ensures
        touched(name, element, global, rules) <==> (typed_as_window(element) && (sets_something(
            global,
        ) || exists|i: int|
            0 <= i < rules.len() && (#[trigger] rules[i]).select.selects(
                name,
                orientation_of(element),
            ) && sets_something(rules[i].overrides))),
{
    let orientation = orientation_of(element);
    assert forall|i: int| 0 <= i < rules.len() implies (#[trigger] rules[i]).applies(
        name,
        orientation,
    ) == (rules[i].select.selects(name, orientation) && sets_something(rules[i].overrides)) by {}
    if exists|i: int|
        0 <= i < rules.len() && (#[trigger] rules[i]).select.selects(name, orientation)
            && sets_something(rules[i].overrides) {
        let i = choose|i: int|
            0 <= i < rules.len() && (#[trigger] rules[i]).select.selects(name, orientation)
                && sets_something(rules[i].overrides);
        assert(rules[i].applies(name, orientation));
    }
}

/// The last member is found by its name; any other name is found among the members before.
pub(crate) proof fn lemma_lookup_last(e: Members, k: Seq<char>)
    requires
        distinct(e),
        e.len() > 0,
    ensures
        distinct(e.drop_last()),
        e.last().0 == k ==> lookup(e, k) == Some(e.last().1) && lookup(e.drop_last(), k) is None,
        e.last().0 != k ==> lookup(e, k) == lookup(e.drop_last(), k),
{
    let before = e.drop_last();
    let last = e.len() - 1;
    assert(distinct(before)) by {
        assert forall|i: int, j: int| 0 <= i < j < before.len() implies #[trigger] before[i].0
            != #[trigger] before[j].0 by {
            assert(e[i].0 != e[j].0);
        }
    }
    if e.last().0 == k {
        lemma_key_at(e, last);
        if has_key(before, k) {
            let i = key_at(before, k);
            assert(before[i] == e[i]);
            assert(e[i].0 != e[last].0);
        }
    } else {
        if has_key(e, k) {
            let i = key_at(e, k);
            assert(e[i].0 == k);
            assert(before[i] == e[i]);
            lemma_key_at(before, i);
            lemma_key_at(e, i);
        } else if has_key(before, k) {
            let i = key_at(before, k);
            assert(e[i] == before[i]);
            assert(e[i].0 == k);
        }
    }
}

/// What is in a list with one more at its end.
pub(crate) proof fn lemma_push_contains<T>(s: Seq<T>, x: T, y: T)
    ensures
        s.push(x).contains(y) <==> s.contains(y) || x == y,
{
    if s.contains(y) {
        let i = s.index_of(y);
        assert(s.push(x)[i] == y);
    }
    assert(s.push(x)[s.len() as int] == x);
    if s.push(x).contains(y) && x != y {
        let i = s.push(x).index_of(y);
        assert(s[i] == y);
    }
}

/// What is in two lists, one after the other.
pub(crate) proof fn lemma_add_contains<T>(s: Seq<T>, t: Seq<T>, y: T)
    ensures
        (s + t).contains(y) <==> s.contains(y) || t.contains(y),
{
    if s.contains(y) {
        let i = s.index_of(y);
        assert((s + t)[i] == y);
    }
    if t.contains(y) {
        let i = t.index_of(y);
        assert((s + t)[s.len() + i] == y);
    }
    if (s + t).contains(y) && !s.contains(y) {
        let i = (s + t).index_of(y);
        if i < s.len() {
            assert(s[i] == y);
        } else {
            assert(t[i - s.len()] == y);
        }
    }
}

/// The elements of a zone that are counted.
proof fn lemma_reached_in_zone(
    of: Seq<char>,
    e: Members,
    global: Patch,
    rules: Seq<Rule>,
    zone: Seq<char>,
    name: Seq<char>,
)
    requires
        distinct(e),
    ensures
        touched_in_zone(of, e, global, rules).contains((zone, name)) <==> (of == zone && lookup(
            e,
            name,
        ) is Some && touched(name, lookup(e, name)->0, global, rules)),
    decreases e.len(),
{
    if e.len() > 0 {
        lemma_lookup_last(e, name);
        lemma_reached_in_zone(of, e.drop_last(), global, rules, zone, name);
        lemma_push_contains(
            touched_in_zone(of, e.drop_last(), global, rules),
            (of, e.last().0),
            (zone, name),
        );
    }
}

/// The elements of some zones that are counted.
proof fn lemma_reached_in_zones(
    e: Members,
    global: Patch,
    rules: Seq<Rule>,
    zone: Seq<char>,
    name: Seq<char>,
)
    requires
        distinct(e),
        forall|i: int| 0 <= i < e.len() ==> well_formed((#[trigger] e[i]).1),
    ensures
        touched_in_zones(e, global, rules).contains((zone, name)) <==> (lookup(e, zone) is Some
            && object_in(lookup(e, zone)->0, "BuildingElement"@) is Some && lookup(
            object_in(lookup(e, zone)->0, "BuildingElement"@)->0,
            name,
        ) is Some && touched(
            name,
            lookup(object_in(lookup(e, zone)->0, "BuildingElement"@)->0, name)->0,
            global,
            rules,
        )),
    decreases e.len(),
{
    if e.len() > 0 {
        let before = e.drop_last();
        lemma_lookup_last(e, zone);
        assert forall|i: int| 0 <= i < before.len() implies well_formed((#[trigger] before[i]).1) by {
            assert(before[i] == e[i]);
        }
        lemma_reached_in_zones(before, global, rules, zone, name);
        assert(e.last() == e[e.len() - 1]);
        lemma_inside(e.last().1, "BuildingElement"@);
        if let Some(f) = object_in(e.last().1, "BuildingElement"@) {
            lemma_reached_in_zone(e.last().0, f, global, rules, zone, name);
            lemma_add_contains(
                touched_in_zones(before, global, rules),
                touched_in_zone(e.last().0, f, global, rules),
                (zone, name),
            );
        }
    }
}

/// What overrides, selectors and rules say is what their fields hold, entry by entry.
pub proof fn overrides_say_what_their_fields_hold(
    o: GlazingOverrides,
    s: WindowSelector,
    t: TargetedOverride,
    rules: Seq<TargetedOverride>,
)
    ensures
        o.u_value is None ==> o@.u_value is None,
        o.u_value matches Some(v) ==> o@.u_value == Some(json(v)),
        o.thermal_resistance_construction is None ==> o@.thermal_resistance_construction is None,
        o.thermal_resistance_construction matches Some(v) ==> o@.thermal_resistance_construction
            == Some(json(v)),
        o.g_value is None ==> o@.g_value is None,
        o.g_value matches Some(v) ==> o@.g_value == Some(json(v)),
        o.frame_area_fraction is None ==> o@.frame_area_fraction is None,
        o.frame_area_fraction matches Some(v) ==> o@.frame_area_fraction == Some(json(v)),
        o.shading is None ==> o@.shading is None,
        o.shading matches Some(l) ==> {
            &&& o@.shading is Some
            &&& o@.shading->0.len() == l@.len()
            &&& forall|i: int| 0 <= i < l@.len() ==> #[trigger] o@.shading->0[i] == json(l@[i])
        },
        o.treatment is None ==> o@.treatment is None,
        o.treatment matches Some(l) ==> {
            &&& o@.treatment is Some
            &&& o@.treatment->0.len() == l@.len()
            &&& forall|i: int| 0 <= i < l@.len() ==> #[trigger] o@.treatment->0[i] == json(l@[i])
        },
        s@.names.len() == s.names@.len(),
        forall|i: int| 0 <= i < s.names@.len() ==> #[trigger] s@.names[i] == s.names@[i]@,
        s@.orientations == s.orientations@,
        t@.select == t.select@,
        t@.overrides == t.overrides@,
        rules_of(rules).len() == rules.len(),
        forall|i: int| 0 <= i < rules.len() ==> #[trigger] rules_of(rules)[i] == rules[i]@,
{
}

} // verus!
