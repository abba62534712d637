//! The weather datasets on offer.
use crate::error::{ApiError, Failure};
use crate::profiles::Entry;
use crate::text::same_text;
use vstd::prelude::*;

verus! {

/// What a listing shows of a weather dataset.
#[derive(Clone, Copy, Debug)]
pub struct WeatherInfo {
    pub id: &'static str,
    pub name: &'static str,
    pub description: &'static str,
}

impl View for WeatherInfo {
    type V = Entry;

    open spec fn view(&self) -> Entry {
        Entry { id: self.id@, name: self.name@, description: self.description@ }
    }
}

/// The weather datasets on offer, in the order in which they are listed. The first is the default.
pub open spec fn datasets() -> Seq<Entry> {
    seq![
        Entry {
            id: "london_cibse"@,
            name: "London (CIBSE)"@,
            description: "The CIBSE London weather year."@,
        },
    ]
}

/// `id` names a dataset on offer.
pub open spec fn weather_offered(id: Seq<char>) -> bool {
    exists|i: int| 0 <= i < datasets().len() && #[trigger] datasets()[i].id == id
}

/// All available weather datasets.
pub fn list_weather() -> (res: Vec<WeatherInfo>)
    ensures
        res@.map_values(|w: WeatherInfo| w@) == datasets(),
{
    let mut res: Vec<WeatherInfo> = Vec::new();
    res.push(
        WeatherInfo {
            id: "london_cibse",
            name: "London (CIBSE)",
            description: "The CIBSE London weather year.",
        },
    );
    res
}

/// The id of the dataset that a request asks for: the default where it names none.
pub open spec fn weather_choice(choice: Option<Seq<char>>) -> Seq<char> {
    match choice {
        Some(id) => id,
        None => datasets()[0].id,
    }
}

/// Resolves the weather that a request asks for.
pub fn resolve_weather(choice: &Option<String>) -> (res: Result<&'static str, ApiError>)
    ensures
        ({
            let id = weather_choice(
                match choice {
                    Some(s) => Some(s@),
                    None => None,
                },
            );
            match res {
                Ok(found) => weather_offered(id) && found@ == id,
                Err(e) => !weather_offered(id) && e@ == Failure::UnknownWeather(id),
            }
        }),
{
    let known: Vec<WeatherInfo> = list_weather();
    assert(known@.map_values(|w: WeatherInfo| w@).len() == known@.len());
    assert(known@.map_values(|w: WeatherInfo| w@)[0] == known@[0]@);
    match choice {
        None => {
            assert(datasets()[0].id == known@[0].id@);
            Ok(known[0].id)
        },
        Some(id) => {
            let mut i: usize = 0;
            while i < known.len()
                invariant
                    i <= known.len(),
                    known@.map_values(|w: WeatherInfo| w@) == datasets(),
                    *choice == Some(*id),
                    forall|j: int| 0 <= j < i ==> (#[trigger] datasets()[j]).id != id@,
                decreases known.len() - i,
            {
                assert(known@.map_values(|w: WeatherInfo| w@)[i as int] == known@[i as int]@);
                if same_text(known[i].id, id.as_str()) {
                    assert(datasets()[i as int].id == id@);
                    return Ok(known[i].id);
                }
                i = i + 1;
            }
            assert(known@.map_values(|w: WeatherInfo| w@).len() == known@.len());
            Err(ApiError::UnknownWeather(id.clone()))
        },
    }
}

} // verus!
