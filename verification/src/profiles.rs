//! Curated dwelling archetypes.
//!
//! An archetype is a known-good full model input that a request starts from. A caller applies a
//! small override patch to it rather than writing the whole input by hand.
use crate::json::{json, member, member_of, parse_document, parsed, well_formed};
use crate::text::same_text;
use serde_json::Value;
use vstd::prelude::*;

verus! {

/// What a listing shows of an archetype.
#[derive(Clone, Copy, Debug)]
pub struct ArchetypeInfo {
    pub id: &'static str,
    pub name: &'static str,
    pub description: &'static str,
}

/// What a listing shows, as texts.
pub struct Entry {
    pub id: Seq<char>,
    pub name: Seq<char>,
    pub description: Seq<char>,
}

impl View for ArchetypeInfo {
    type V = Entry;

    open spec fn view(&self) -> Entry {
        Entry { id: self.id@, name: self.name@, description: self.description@ }
    }
}

/// The archetypes on offer, in the order in which they are listed.
pub open spec fn archetypes() -> Seq<Entry> {
    seq![
        Entry {
            id: "flat_nat_vent"@,
            name: "Naturally-ventilated flat"@,
            description: "Deck-access flat, natural ventilation with window opening for cooling; 2 zones, 4 windows, full-period. Realistic archetype for glazing studies."@,
        },
        Entry {
            id: "flat_new_build_uk"@,
            name: "Flat, current UK new-build glazing (illustrative)"@,
            description: "The nat-vent flat envelope with glazing at the current UK new-build standard (U=1.4 W/m²K, Approved Document L 2021; g=0.63 modern low-e double glazing). Opaque fabric already meets current Part L. Illustrative preset — not a surveyed dwelling, not a compliance calculation."@,
        },
        Entry {
            id: "detached_demo"@,
            name: "Detached demo dwelling"@,
            description: "Minimal single-zone demo, two windows, 8 timesteps only. Fast fixture — figures are NOT physically meaningful."@,
        },
    ]
}

/// `id` names an archetype on offer.
pub open spec fn offered(id: Seq<char>) -> bool {
    exists|i: int| 0 <= i < archetypes().len() && #[trigger] archetypes()[i].id == id
}

/// All available archetypes.
pub fn list() -> (res: Vec<ArchetypeInfo>)
    ensures
        res@.map_values(|a: ArchetypeInfo| a@) == archetypes(),
{
    let mut res: Vec<ArchetypeInfo> = Vec::new();
    res.push(
        ArchetypeInfo {
            id: "flat_nat_vent",
            name: "Naturally-ventilated flat",
            description: "Deck-access flat, natural ventilation with window opening for cooling; 2 zones, 4 windows, full-period. Realistic archetype for glazing studies.",
        },
    );
    res.push(
        ArchetypeInfo {
            id: "flat_new_build_uk",
            name: "Flat, current UK new-build glazing (illustrative)",
            description: "The nat-vent flat envelope with glazing at the current UK new-build standard (U=1.4 W/m²K, Approved Document L 2021; g=0.63 modern low-e double glazing). Opaque fabric already meets current Part L. Illustrative preset — not a surveyed dwelling, not a compliance calculation.",
        },
    );
    res.push(
        ArchetypeInfo {
            id: "detached_demo",
            name: "Detached demo dwelling",
            description: "Minimal single-zone demo, two windows, 8 timesteps only. Fast fixture — figures are NOT physically meaningful.",
        },
    );
    res
}

/// Whether an archetype id is known.
pub fn is_known(id: &str) -> (res: bool)
    ensures
        res == offered(id@),
{
    let known: Vec<ArchetypeInfo> = list();
    let mut i: usize = 0;
    while i < known.len()
        invariant
            i <= known.len(),
            known@.map_values(|a: ArchetypeInfo| a@) == archetypes(),
            forall|j: int| 0 <= j < i ==> (#[trigger] archetypes()[j]).id != id@,
        decreases known.len() - i,
    {
        assert(known@.map_values(|a: ArchetypeInfo| a@)[i as int] == known@[i as int]@);
        if same_text(known[i].id, id) {
            assert(archetypes()[i as int].id == id@);
            return true;
        }
        i = i + 1;
    }
    assert(known@.map_values(|a: ArchetypeInfo| a@).len() == known@.len());
    false
}

/// The texts of the archetypes: the one named `id`, where there is one.
pub open spec fn source_of(
    id: Seq<char>,
    flat_nat_vent: Seq<char>,
    flat_new_build_uk: Seq<char>,
    detached_demo: Seq<char>,
) -> Option<Seq<char>> {
    if id == "flat_nat_vent"@ {
        Some(flat_nat_vent)
    } else if id == "flat_new_build_uk"@ {
        Some(flat_new_build_uk)
    } else if id == "detached_demo"@ {
        Some(detached_demo)
    } else {
        None
    }
}

/// A text is the input of a dwelling: a JSON object with a `Zone` section.
pub open spec fn usable(text: Seq<char>) -> bool {
    parsed(text) matches Some(j) && member_of(j, "Zone"@) is Some
}

/// The input texts of the archetypes on offer, each of them the input of a dwelling.
pub struct Profiles {
    flat_nat_vent: String,
    flat_new_build_uk: String,
    detached_demo: String,
}

/// What is wrong with an archetype's text.
#[derive(Debug)]
pub enum ArchetypeFault {
    NotJson(serde_json::Error),
    /// It is JSON, but no object with a `Zone` section.
    NoZone,
}

/// An archetype whose text is not the input of a dwelling, and what is wrong with the text.
#[derive(Debug)]
pub struct MalformedArchetype {
    pub id: &'static str,
    pub fault: ArchetypeFault,
}

/// `fault` is what is wrong with a text.
pub open spec fn faulty(text: Seq<char>, fault: ArchetypeFault) -> bool {
    !usable(text) && (fault is NotJson <==> parsed(text) is None)
}

/// Looks for what is wrong with an archetype's text.
fn inspect(id: &'static str, text: &String) -> (res: Result<(), MalformedArchetype>)
    ensures
        match res {
            Ok(_) => usable(text@),
            Err(e) => e.id == id && faulty(text@, e.fault),
        },
{
    match parse_document(text.as_str()) {
        Ok(v) => match member(&v, "Zone") {
            Some(_) => Ok(()),
            None => Err(MalformedArchetype { id, fault: ArchetypeFault::NoZone }),
        },
        Err(e) => Err(MalformedArchetype { id, fault: ArchetypeFault::NotJson(e) }),
    }
}

impl Profiles {
    #[verifier::type_invariant]
    spec fn well_formed(self) -> bool {
        &&& usable(self.flat_nat_vent@)
        &&& usable(self.flat_new_build_uk@)
        &&& usable(self.detached_demo@)
    }

    /// The text of the archetype named `id`.
    pub closed spec fn source(self, id: Seq<char>) -> Option<Seq<char>> {
        source_of(id, self.flat_nat_vent@, self.flat_new_build_uk@, self.detached_demo@)
    }

    /// Takes the texts of the archetypes; refuses the first that is not the input of a dwelling.
    pub fn new(flat_nat_vent: String, flat_new_build_uk: String, detached_demo: String) -> (res:
        Result<Profiles, MalformedArchetype>)
        ensures
            match res {
                Ok(p) => {
                    &&& usable(flat_nat_vent@)
                    &&& usable(flat_new_build_uk@)
                    &&& usable(detached_demo@)
                    &&& forall|id: Seq<char>| #[trigger]
                        p.source(id) == source_of(
                            id,
                            flat_nat_vent@,
                            flat_new_build_uk@,
                            detached_demo@,
                        )
                },
                Err(e) => {
                    if !usable(flat_nat_vent@) {
                        e.id@ == "flat_nat_vent"@ && faulty(flat_nat_vent@, e.fault)
                    } else if !usable(flat_new_build_uk@) {
                        e.id@ == "flat_new_build_uk"@ && faulty(flat_new_build_uk@, e.fault)
                    } else {
                        e.id@ == "detached_demo"@ && faulty(detached_demo@, e.fault)
                    }
                },
            },
    {
        if let Err(e) = inspect("flat_nat_vent", &flat_nat_vent) {
            return Err(e);
        }
        if let Err(e) = inspect("flat_new_build_uk", &flat_new_build_uk) {
            return Err(e);
        }
        if let Err(e) = inspect("detached_demo", &detached_demo) {
            return Err(e);
        }
        Ok(Profiles { flat_nat_vent, flat_new_build_uk, detached_demo })
    }
}

/// The input of an archetype, ready to patch; `None` for an unknown id.
pub fn baseline(profiles: &Profiles, id: &str) -> (res: Option<Value>)
    ensures
        match res {
            Some(v) => profiles.source(id@) matches Some(text) && parsed(text) == Some(json(v))
                && well_formed(json(v)) && member_of(json(v), "Zone"@) is Some,
            None => profiles.source(id@) is None,
        },
        res is Some == offered(id@),
{
    proof {
        use_type_invariant(profiles);
        profiles_match_the_list(*profiles, id@);
    }
    let raw: &String = if same_text(id, "flat_nat_vent") {
        &profiles.flat_nat_vent
    } else if same_text(id, "flat_new_build_uk") {
        &profiles.flat_new_build_uk
    } else if same_text(id, "detached_demo") {
        &profiles.detached_demo
    } else {
        return None;
    };
    match parse_document(raw.as_str()) {
        Ok(v) => Some(v),
        Err(_) => None,
    }
}

/// An archetype has an input exactly when it is listed.
pub proof fn profiles_match_the_list(profiles: Profiles, id: Seq<char>)
    ensures
        profiles.source(id) is Some == offered(id),
{
    let a = archetypes();
    assert(a[0].id == "flat_nat_vent"@);
    assert(a[1].id == "flat_new_build_uk"@);
    assert(a[2].id == "detached_demo"@);
}

} // verus!
