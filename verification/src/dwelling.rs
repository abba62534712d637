//! What a model input says of the dwelling: its windows and its energy supplies.
use crate::double::Double;
use crate::glazing::{as_double, double_member, is_transparent, object_in, transparent};
use crate::json::{
    distinct, entry, has_key, json, key_at, key_list, lemma_key_at, member, member_of, members,
    text_of, well_formed, Json, Members,
};
use crate::text::{names_differ, text_pairs};
use serde_json::{Map as ObjectMap, Value};
use vstd::prelude::*;

verus! {

/// One transparent element of the dwelling, so that a caller knows which names and orientations
/// there are to target.
#[derive(Debug)]
pub struct WindowInfo {
    pub zone: String,
    pub name: String,
    pub orientation360: Option<Double>,
    pub pitch: Option<Double>,
}

/// What a [`WindowInfo`] says.
pub struct Window {
    pub zone: Seq<char>,
    pub name: Seq<char>,
    pub orientation360: Option<Double>,
    pub pitch: Option<Double>,
}

impl View for WindowInfo {
    type V = Window;

    open spec fn view(&self) -> Window {
        Window {
            zone: self.zone@,
            name: self.name@,
            orientation360: self.orientation360,
            pitch: self.pitch,
        }
    }
}

impl Clone for WindowInfo {
    fn clone(&self) -> (res: Self)
        ensures
            res == *self,
    {
        WindowInfo {
            zone: self.zone.clone(),
            name: self.name.clone(),
            orientation360: self.orientation360,
            pitch: self.pitch,
        }
    }
}

/// What a list of windows says.
pub open spec fn windows_view(s: Seq<WindowInfo>) -> Seq<Window> {
    s.map_values(|w: WindowInfo| w@)
}

/// What an element says of itself as a window.
pub open spec fn window_of(zone: Seq<char>, name: Seq<char>, element: Json) -> Window {
    Window {
        zone,
        name,
        orientation360: as_double(member_of(element, "orientation360"@)),
        pitch: as_double(member_of(element, "pitch"@)),
    }
}

/// The windows among the elements of a zone, in document order.
pub open spec fn windows_in_zone(zone: Seq<char>, e: Members) -> Seq<Window>
    decreases e.len(),
{
    if e.len() == 0 {
        seq![]
    } else {
        let before = windows_in_zone(zone, e.drop_last());
        if transparent(e.last().1) {
            before.push(window_of(zone, e.last().0, e.last().1))
        } else {
            before
        }
    }
}

/// The windows of some zones, in document order.
pub open spec fn windows_in_zones(e: Members) -> Seq<Window>
    decreases e.len(),
{
    if e.len() == 0 {
        seq![]
    } else {
        let before = windows_in_zones(e.drop_last());
        match object_in(e.last().1, "BuildingElement"@) {
            Some(elements) => before + windows_in_zone(e.last().0, elements),
            None => before,
        }
    }
}

/// The windows of an input, in document order.
pub open spec fn windows_of(input: Json) -> Seq<Window> {
    match object_in(input, "Zone"@) {
        Some(e) => windows_in_zones(e),
        None => seq![],
    }
}

/// Lists the windows of a zone.
fn list_zone(
    zone_name: &String,
    elements: &ObjectMap<String, Value>,
    windows: &mut Vec<WindowInfo>,
)
    requires
        distinct(members(*elements)),
    ensures
        windows_view(final(windows)@) == windows_view(old(windows)@) + windows_in_zone(
            zone_name@,
            members(*elements),
        ),
{
    let names: Vec<String> = key_list(elements);
    let ghost all = members(*elements);
    let ghost listed = windows_view(windows@);
    let mut i: usize = 0;
    assert(all.take(0) =~= seq![]);
    while i < names.len()
        invariant
            i <= names.len(),
            all == members(*elements),
            distinct(all),
            names@.len() == all.len(),
            forall|j: int| 0 <= j < names@.len() ==> (#[trigger] names@[j])@ == all[j].0,
            windows_view(windows@) == listed + windows_in_zone(zone_name@, all.take(i as int)),
        decreases names.len() - i,
    {
        proof {
            lemma_key_at(all, i as int);
            assert(all.take(i + 1).drop_last() =~= all.take(i as int));
            assert(all.take(i + 1).last() == all[i as int]);
        }
        if let Some(element) = entry(elements, names[i].as_str()) {
            if is_transparent(element) {
                let ghost before = windows@;
                windows.push(
                    WindowInfo {
                        zone: zone_name.clone(),
                        name: names[i].clone(),
                        orientation360: double_member(element, "orientation360"),
                        pitch: double_member(element, "pitch"),
                    },
                );
                assert(windows_view(windows@) =~= windows_view(before).push(
                    window_of(zone_name@, all[i as int].0, all[i as int].1),
                ));
            }
        }
        i = i + 1;
    }
    assert(all.take(all.len() as int) =~= all);
}

/// Lists every transparent element of an input, in document order.
pub fn window_inventory(input: &Value) -> (res: Vec<WindowInfo>)
    ensures
        windows_view(res@) == windows_of(json(*input)),
{
    let mut windows: Vec<WindowInfo> = Vec::new();
    assert(windows_view(windows@) =~= seq![]);
    let part: &Value = match member(input, "Zone") {
        Some(part) => part,
        None => {
            return windows;
        },
    };
    if let Some(zones) = part.as_object() {
        let names: Vec<String> = key_list(zones);
        let ghost all = members(*zones);
        let mut i: usize = 0;
        assert(all.take(0) =~= seq![]);
        while i < names.len()
            invariant
                i <= names.len(),
                all == members(*zones),
                distinct(all),
                names@.len() == all.len(),
                forall|j: int| 0 <= j < names@.len() ==> (#[trigger] names@[j])@ == all[j].0,
                windows_view(windows@) == windows_in_zones(all.take(i as int)),
            decreases names.len() - i,
        {
            proof {
                lemma_key_at(all, i as int);
                assert(all.take(i + 1).drop_last() =~= all.take(i as int));
                assert(all.take(i + 1).last() == all[i as int]);
            }
            if let Some(zone) = entry(zones, names[i].as_str()) {
                if let Some(group) = member(zone, "BuildingElement") {
                    if let Some(elements) = group.as_object() {
                        list_zone(&names[i], elements, &mut windows);
                    }
                }
            }
            i = i + 1;
        }
        assert(all.take(all.len() as int) =~= all);
    }
    windows
}

/// The supplies among some members, with their fuels, in document order.
pub open spec fn supplies_in(e: Members) -> Seq<(Seq<char>, Seq<char>)>
    decreases e.len(),
{
    if e.len() == 0 {
        seq![]
    } else {
        let before = supplies_in(e.drop_last());
        match text_of(member_of(e.last().1, "fuel"@)) {
            Some(fuel) => before.push((e.last().0, fuel)),
            None => before,
        }
    }
}

/// The energy supplies of an input that name a fuel, with that fuel, in document order.
pub open spec fn supplies_of(input: Json) -> Seq<(Seq<char>, Seq<char>)> {
    match object_in(input, "EnergySupply"@) {
        Some(e) => supplies_in(e),
        None => seq![],
    }
}

/// Gives each energy supply of an input its fuel type. The delivered energy is keyed by supply, so
/// this is needed to apply per-fuel economics.
pub fn energy_supply_fuels(input: &Value) -> (res: Vec<(String, String)>)
    ensures
        text_pairs(res@) == supplies_of(json(*input)),
        names_differ(text_pairs(res@)),
{
    let mut fuels: Vec<(String, String)> = Vec::new();
    assert(text_pairs(fuels@) =~= seq![]);
    let part: &Value = match member(input, "EnergySupply") {
        Some(part) => part,
        None => {
            return fuels;
        },
    };
    if let Some(supplies) = part.as_object() {
        let names: Vec<String> = key_list(supplies);
        let ghost all = members(*supplies);
        let mut i: usize = 0;
        assert(all.take(0) =~= seq![]);
        while i < names.len()
            invariant
                i <= names.len(),
                all == members(*supplies),
                distinct(all),
                names@.len() == all.len(),
                forall|j: int| 0 <= j < names@.len() ==> (#[trigger] names@[j])@ == all[j].0,
                text_pairs(fuels@) == supplies_in(all.take(i as int)),
            decreases names.len() - i,
        {
            proof {
                lemma_key_at(all, i as int);
                assert(all.take(i + 1).drop_last() =~= all.take(i as int));
                assert(all.take(i + 1).last() == all[i as int]);
            }
            if let Some(details) = entry(supplies, names[i].as_str()) {
                if let Some(fuel) = member(details, "fuel") {
                    if let Some(text) = fuel.as_str() {
                        let ghost before = fuels@;
                        fuels.push((names[i].clone(), text.to_owned()));
                        assert(text_pairs(fuels@) =~= text_pairs(before).push(
                            (all[i as int].0, text@),
                        ));
                    }
                }
            }
            i = i + 1;
        }
        assert(all.take(all.len() as int) =~= all);
        proof {
            lemma_supplies_differ(all);
        }
    }
    fuels
}

/// No two supplies that are picked from members with different names share a name, and each name
/// is that of a member.
proof fn lemma_supplies_differ(e: Members)
    requires
        distinct(e),
    ensures
        names_differ(supplies_in(e)),
        forall|i: int| 0 <= i < supplies_in(e).len() ==> has_key(e, (#[trigger] supplies_in(e)[i]).0),
    decreases e.len(),
{
    if e.len() > 0 {
        let before = e.drop_last();
        assert(distinct(before)) by {
            assert forall|i: int, j: int| 0 <= i < j < before.len() implies #[trigger] before[i].0
                != #[trigger] before[j].0 by {
                assert(e[i].0 != e[j].0);
            }
        }
        lemma_supplies_differ(before);
        let s = supplies_in(before);
        let t = supplies_in(e);
        let last = e.len() - 1;
        assert forall|i: int| 0 <= i < s.len() implies has_key(e, (#[trigger] s[i]).0) && s[i].0
            != e[last].0 by {
            let n = key_at(before, s[i].0);
            assert(has_key(before, s[i].0));
            assert(before[n] == e[n]);
            assert(e[n].0 == s[i].0);
            assert(e[n].0 != e[last].0);
        }
        assert(has_key(e, e[last].0));
        assert forall|i: int| 0 <= i < t.len() implies has_key(e, (#[trigger] t[i]).0) by {
            if i < s.len() {
                assert(t[i] == s[i]);
            }
        }
    }
}

/// The supplies of a document in which no object has two members of one name have different names.
pub proof fn supplies_have_different_names(input: Json)
    requires
        well_formed(input),
    ensures
        names_differ(supplies_of(input)),
{
    if let Some(e) = object_in(input, "EnergySupply"@) {
        let all = input->Object_0;
        let n = key_at(all, "EnergySupply"@);
        assert(all[n].0 == "EnergySupply"@);
        assert(well_formed(all[n].1));
        lemma_supplies_differ(e);
    }
}

} // verus!
