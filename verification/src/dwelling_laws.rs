//! Which windows and which energy supplies of an input are listed.
use crate::double::{nearest_double, Double};
use crate::dwelling::{
    supplies_in, supplies_of, window_of, windows_in_zone, windows_in_zones, windows_of,
    windows_view, Window, WindowInfo,
};
use crate::glazing::object_in;
use crate::glazing_laws::lemma_inside;
use crate::json::{distinct, lookup, member_of, well_formed, Json, Members, Numeral};
use crate::override_laws::{
    element_in, lemma_add_contains, lemma_lookup_last, lemma_push_contains, typed_as_window,
};
use crate::text::text_pairs;
use vstd::prelude::*;

verus! {

/// The double that a member reads as: a floating-point number as it is, a whole number as the
/// double nearest to it, and nothing else.
pub open spec fn number_in(member: Option<Json>) -> Option<Double> {
    match member {
        Some(Json::Number(Numeral::Real(bits))) => Some(Double { bits }),
        Some(Json::Number(Numeral::Whole(n))) => Some(nearest_double(n)),
        _ => None,
    }
}

/// `w` says of itself what the element says.
pub open spec fn tells_of(w: Window, element: Json) -> bool {
    &&& typed_as_window(element)
    &&& w.orientation360 == number_in(member_of(element, "orientation360"@))
    &&& w.pitch == number_in(member_of(element, "pitch"@))
}

/// The windows that are listed are those elements of the zones whose type is that of a window, each
/// with its zone, its name, its orientation and its pitch.
pub proof fn the_windows_are_listed(input: Json, w: Window)
    requires
        well_formed(input),
    ensures
        windows_of(input).contains(w) <==> (element_in(input, w.zone, w.name) matches Some(element)
            && tells_of(w, element)),
{
    lemma_inside(input, "Zone"@);
    if let Some(e) = object_in(input, "Zone"@) {
        lemma_listed_in_zones(e, w);
    }
}

proof fn lemma_listed_in_zone(of: Seq<char>, e: Members, w: Window)
    requires
        distinct(e),
    ensures
        windows_in_zone(of, e).contains(w) <==> (of == w.zone && lookup(e, w.name) is Some
            && tells_of(w, lookup(e, w.name)->0)),
    decreases e.len(),
{
    if e.len() > 0 {
        lemma_lookup_last(e, w.name);
        lemma_listed_in_zone(of, e.drop_last(), w);
        lemma_push_contains(
            windows_in_zone(of, e.drop_last()),
            window_of(of, e.last().0, e.last().1),
            w,
        );
    }
}

proof fn lemma_listed_in_zones(e: Members, w: Window)
    requires
        distinct(e),
        forall|i: int| 0 <= i < e.len() ==> well_formed((#[trigger] e[i]).1),
    ensures
        windows_in_zones(e).contains(w) <==> (lookup(e, w.zone) is Some && object_in(
            lookup(e, w.zone)->0,
            "BuildingElement"@,
        ) is Some && lookup(object_in(lookup(e, w.zone)->0, "BuildingElement"@)->0, w.name) is Some
            && tells_of(
            w,
            lookup(object_in(lookup(e, w.zone)->0, "BuildingElement"@)->0, w.name)->0,
        )),
    decreases e.len(),
{
    if e.len() > 0 {
        let before = e.drop_last();
        lemma_lookup_last(e, w.zone);
        assert forall|i: int| 0 <= i < before.len() implies well_formed((#[trigger] before[i]).1) by {
            assert(before[i] == e[i]);
        }
        lemma_listed_in_zones(before, w);
        assert(e.last() == e[e.len() - 1]);
        lemma_inside(e.last().1, "BuildingElement"@);
        if let Some(f) = object_in(e.last().1, "BuildingElement"@) {
            lemma_listed_in_zone(e.last().0, f, w);
            lemma_add_contains(windows_in_zones(before), windows_in_zone(e.last().0, f), w);
        }
    }
}

/// Windows are listed in document order: those of some elements, then those of the elements after
/// them; those of some zones, then those of the zones after them.
pub proof fn windows_are_listed_in_order(zone: Seq<char>, a: Members, b: Members)
    ensures
        windows_in_zone(zone, a + b) == windows_in_zone(zone, a) + windows_in_zone(zone, b),
        windows_in_zones(a + b) == windows_in_zones(a) + windows_in_zones(b),
    decreases b.len(),
{
    if b.len() == 0 {
        assert(a + b =~= a);
        assert(windows_in_zone(zone, a) + seq![] =~= windows_in_zone(zone, a));
        assert(windows_in_zones(a) + seq![] =~= windows_in_zones(a));
    } else {
        windows_are_listed_in_order(zone, a, b.drop_last());
        assert((a + b).drop_last() =~= a + b.drop_last());
        assert((a + b).last() == b.last());
        assert(windows_in_zone(zone, a + b) =~= windows_in_zone(zone, a) + windows_in_zone(zone,
            b));
        assert(windows_in_zones(a + b) =~= windows_in_zones(a) + windows_in_zones(b));
    }
}

/// The energy supplies that are listed are those whose member `fuel` is a text, each with that fuel.
pub proof fn the_supplies_are_listed(input: Json, supply: Seq<char>, fuel: Seq<char>)
    requires
        well_formed(input),
    ensures
        supplies_of(input).contains((supply, fuel)) <==> (member_of(
            input,
            "EnergySupply"@,
        ) matches Some(supplies) && member_of(supplies, supply) matches Some(details) && member_of(
            details,
            "fuel"@,
        ) == Some(Json::Str(fuel))),
{
    lemma_inside(input, "EnergySupply"@);
    if let Some(e) = object_in(input, "EnergySupply"@) {
        lemma_supplies_listed(e, supply, fuel);
    }
}

proof fn lemma_supplies_listed(e: Members, supply: Seq<char>, fuel: Seq<char>)
    requires
        distinct(e),
    ensures
        supplies_in(e).contains((supply, fuel)) <==> (lookup(e, supply) is Some && member_of(
            lookup(e, supply)->0,
            "fuel"@,
        ) == Some(Json::Str(fuel))),
    decreases e.len(),
{
    if e.len() > 0 {
        lemma_lookup_last(e, supply);
        lemma_supplies_listed(e.drop_last(), supply, fuel);
        if let Some(Json::Str(f)) = member_of(e.last().1, "fuel"@) {
            lemma_push_contains(supplies_in(e.drop_last()), (e.last().0, f), (supply, fuel));
        }
    }
}

/// Supplies are listed in document order: those of some members, then those of the members after
/// them.
pub proof fn supplies_are_listed_in_order(a: Members, b: Members)
    ensures
        supplies_in(a + b) == supplies_in(a) + supplies_in(b),
    decreases b.len(),
{
    if b.len() == 0 {
        assert(a + b =~= a);
        assert(supplies_in(a) + seq![] =~= supplies_in(a));
    } else {
        supplies_are_listed_in_order(a, b.drop_last());
        assert((a + b).drop_last() =~= a + b.drop_last());
        assert((a + b).last() == b.last());
        assert(supplies_in(a + b) =~= supplies_in(a) + supplies_in(b));
    }
}

/// What listed windows and pairs of texts say is what their fields hold, entry by entry.
pub proof fn lists_say_what_their_entries_hold(
    windows: Seq<WindowInfo>,
    pairs: Seq<(String, String)>,
)
    ensures
        windows_view(windows).len() == windows.len(),
        forall|i: int|
            #![trigger windows_view(windows)[i]]
            0 <= i < windows.len() ==> {
                let w = windows_view(windows)[i];
                &&& w.zone == windows[i].zone@
                &&& w.name == windows[i].name@
                &&& w.orientation360 == windows[i].orientation360
                &&& w.pitch == windows[i].pitch
            },
        text_pairs(pairs).len() == pairs.len(),
        forall|i: int|
            0 <= i < pairs.len() ==> #[trigger] text_pairs(pairs)[i] == (
                pairs[i].0@,
                pairs[i].1@,
            ),
{
}

} // verus!
