//! The decisions of the comparison screen: what its fields mean, and what it shows.
use crate::arithmetic::zero;
use crate::double::Double;
use crate::economics::text_opt;
use crate::text::{joined, same_text};
use vstd::prelude::*;

verus! {

/// An item of a list to choose from.
#[derive(Debug)]
pub struct NamedItem {
    pub id: String,
    pub name: String,
    pub description: String,
}

/// The glazing values that the screen asks for. Each that is set is applied to all windows.
#[derive(Clone, Copy, Debug, PartialEq, Eq, Structural)]
pub struct Upgrade {
    pub u_value: Option<Double>,
    pub g_value: Option<Double>,
    pub frame_area_fraction: Option<Double>,
}

/// What an optional numeric field means: nothing where it is blank; a number; or else a message
/// that says which field is malformed.
pub open spec fn field(
    trimmed: Seq<char>,
    number: Option<Double>,
    label: Seq<char>,
) -> Result<Option<Double>, Seq<char>> {
    if trimmed.len() == 0 {
        Ok(None)
    } else {
        match number {
            Some(x) => Ok(Some(x)),
            None => Err(label + " must be a number"@),
        }
    }
}

/// What a field's result says.
pub open spec fn said(res: Result<Option<Double>, String>) -> Result<Option<Double>, Seq<char>> {
    match res {
        Ok(v) => Ok(v),
        Err(message) => Err(message@),
    }
}

/// Reads an optional numeric field: its text without the blanks round it, and the number that this
/// text is, if it is one.
pub fn parse_opt(trimmed: &str, number: Option<Double>, label: &str) -> (res: Result<
    Option<Double>,
    String,
>)
    ensures
        said(res) == field(trimmed@, number, label@),
{
    proof {
        reveal_strlit("");
    }
    if same_text(trimmed, "") {
        return Ok(None);
    }
    assert(trimmed@.len() != 0) by {
        if trimmed@.len() == 0 {
            assert(trimmed@ =~= ""@);
        }
    }
    match number {
        Some(x) => Ok(Some(x)),
        None => {
            let message: String = joined(label, " must be a number", "");
            assert(message@ =~= label@ + " must be a number"@);
            Err(message)
        },
    }
}

/// Messages, one after the other, with "; " between them.
pub open spec fn listed(messages: Seq<Seq<char>>) -> Seq<char>
    decreases messages.len(),
{
    if messages.len() == 0 {
        seq![]
    } else if messages.len() == 1 {
        messages[0]
    } else {
        listed(messages.drop_last()) + "; "@ + messages.last()
    }
}

/// The messages of the fields that have one, in order.
pub open spec fn complaints(fields: Seq<Result<Option<Double>, Seq<char>>>) -> Seq<Seq<char>>
    decreases fields.len(),
{
    if fields.len() == 0 {
        seq![]
    } else {
        match fields.last() {
            Ok(_) => complaints(fields.drop_last()),
            Err(message) => complaints(fields.drop_last()).push(message),
        }
    }
}

/// The message for a form without any value.
pub open spec fn nothing_entered() -> Seq<char> {
    "Enter at least one upgraded glazing value to compare against the as-built windows."@
}

/// What the form asks for: an upgrade, if no field is malformed and one of them is set.
pub open spec fn upgrade_asked(
    u: Result<Option<Double>, Seq<char>>,
    g: Result<Option<Double>, Seq<char>>,
    f: Result<Option<Double>, Seq<char>>,
) -> Result<Upgrade, Seq<char>> {
    let wrong = complaints(seq![u, g, f]);
    if wrong.len() > 0 {
        Err(listed(wrong))
    } else if u == Ok::<Option<Double>, Seq<char>>(None) && g == Ok::<Option<Double>, Seq<char>>(
        None,
    ) && f == Ok::<Option<Double>, Seq<char>>(None) {
        Err(nothing_entered())
    } else {
        Ok(Upgrade { u_value: u->Ok_0, g_value: g->Ok_0, frame_area_fraction: f->Ok_0 })
    }
}

/// One message more, where a field has one.
fn complain(so_far: String, any: bool, field: &Result<Option<Double>, String>) -> (res: (
    String,
    bool,
))
    ensures
        forall|messages: Seq<Seq<char>>|
            #![trigger listed(messages)]
            so_far@ == listed(messages) && any == (messages.len() > 0) ==> match said(*field) {
                Ok(_) => res.0@ == listed(messages) && res.1 == any,
                Err(message) => res.0@ == listed(messages.push(message)) && res.1,
            },
{
    match field {
        Ok(_) => (so_far, any),
        Err(message) => {
            let ghost before = so_far@;
            let mut text: String = so_far;
            if any {
                text.append("; ");
            }
            text.append(message.as_str());
            proof {
                assert forall|messages: Seq<Seq<char>>|
                    #![trigger listed(messages)]
                    before == listed(messages) && any == (messages.len() > 0) implies text@
                    == listed(messages.push(message@)) by {
                    let more = messages.push(message@);
                    assert(more.drop_last() =~= messages);
                    assert(more.last() == message@);
                    if !any {
                        assert(text@ =~= message@);
                    }
                }
            }
            (text, true)
        },
    }
}

/// Puts the three fields together: an upgrade to compare with; or what is wrong with them.
pub fn read_upgrade(
    u: Result<Option<Double>, String>,
    g: Result<Option<Double>, String>,
    f: Result<Option<Double>, String>,
) -> (res: Result<Upgrade, String>)
    ensures
        match res {
            Ok(upgrade) => upgrade_asked(said(u), said(g), said(f)) == Ok::<Upgrade, Seq<char>>(
                upgrade,
            ),
            Err(message) => upgrade_asked(said(u), said(g), said(f)) == Err::<Upgrade, Seq<char>>(
                message@,
            ),
        },
{
    let ghost fields = seq![said(u), said(g), said(f)];
    proof {
        reveal_with_fuel(complaints, 4);
        reveal_strlit("");
        assert(fields.drop_last() =~= seq![said(u), said(g)]);
        assert(fields.drop_last().drop_last() =~= seq![said(u)]);
        assert(fields.drop_last().drop_last().drop_last() =~= seq![]);
    }
    let ghost none: Seq<Seq<char>> = complaints(seq![]);
    let empty: String = "".to_owned();
    assert(empty@ =~= listed(none));
    let (text, any): (String, bool) = complain(empty, false, &u);
    let ghost one = complaints(seq![said(u)]);
    assert(text@ == listed(one) && any == (one.len() > 0));
    let (text, any): (String, bool) = complain(text, any, &g);
    let ghost two = complaints(seq![said(u), said(g)]);
    assert(text@ == listed(two) && any == (two.len() > 0));
    let (text, any): (String, bool) = complain(text, any, &f);
    assert(text@ == listed(complaints(fields)) && any == (complaints(fields).len() > 0));
    match (u, g, f) {
        (Ok(u), Ok(g), Ok(f)) => {
            if u.is_none() && g.is_none() && f.is_none() {
                Err(
                    "Enter at least one upgraded glazing value to compare against the as-built windows.".to_owned(),
                )
            } else {
                Ok(Upgrade { u_value: u, g_value: g, frame_area_fraction: f })
            }
        },
        _ => Err(text),
    }
}

/// The choice to make when a list has come in: its first item, where nothing is chosen yet.
pub fn default_choice(current: &str, list: &Vec<NamedItem>) -> (res: Option<String>)
    ensures
        text_opt(res) == (if current@.len() == 0 && list@.len() > 0 {
            Some(list@[0].id@)
        } else {
            None
        }),
{
    proof {
        reveal_strlit("");
        if current@.len() == 0 {
            assert(current@ =~= ""@);
        }
    }
    if same_text(current, "") && list.len() > 0 {
        Some(list[0].id.clone())
    } else {
        None
    }
}

/// The weather to ask for: none, where none is chosen.
pub fn weather_field(id: &str) -> (res: Option<String>)
    ensures
        text_opt(res) == (if id@.len() == 0 {
            None
        } else {
            Some(id@)
        }),
{
    proof {
        reveal_strlit("");
        if id@.len() == 0 {
            assert(id@ =~= ""@);
        }
    }
    if same_text(id, "") {
        None
    } else {
        Some(id.to_owned())
    }
}

/// The description of an item: of the first with its id, or nothing where there is none.
pub open spec fn described(list: Seq<NamedItem>, id: Seq<char>) -> Seq<char>
    decreases list.len(),
{
    if list.len() == 0 {
        seq![]
    } else if list[0].id@ == id {
        list[0].description@
    } else {
        described(list.drop_first(), id)
    }
}

/// The description of the chosen item.
pub fn description_of(list: &Vec<NamedItem>, id: &str) -> (res: String)
    ensures
        res@ == described(list@, id@),
{
    let mut i: usize = 0;
    assert(list@.skip(0) =~= list@);
    while i < list.len()
        invariant
            i <= list.len(),
            described(list@, id@) == described(list@.skip(i as int), id@),
        decreases list.len() - i,
    {
        assert(list@.skip(i as int).drop_first() =~= list@.skip(i + 1));
        if same_text(list[i].id.as_str(), id) {
            return list[i].description.clone();
        }
        i = i + 1;
    }
    proof {
        reveal_strlit("");
        assert(""@ =~= seq![]);
    }
    "".to_owned()
}

/// The class in which a saving is shown: good, bad, or neither.
pub fn signed_class(x: Double) -> (res: &'static str)
    ensures
        res@ == (if zero().lt(x) {
            "pos"@
        } else if x.lt(zero()) {
            "neg"@
        } else {
            ""@
        }),
{
    if zero().is_less(x) {
        "pos"
    } else if x.is_less(zero()) {
        "neg"
    } else {
        ""
    }
}

/// A form whose fields are all blank is turned down with the request for a value.
pub proof fn blank_forms_are_turned_down(labels: (Seq<char>, Seq<char>, Seq<char>))
    ensures
        upgrade_asked(
            field(seq![], None, labels.0),
            field(seq![], None, labels.1),
            field(seq![], None, labels.2),
        ) == Err::<Upgrade, Seq<char>>(nothing_entered()),
{
    let blank: Result<Option<Double>, Seq<char>> = Ok(None);
    reveal_with_fuel(complaints, 4);
    let s = seq![blank, blank, blank];
    assert(s.drop_last() =~= seq![blank, blank]);
    assert(s.drop_last().drop_last() =~= seq![blank]);
    assert(s.drop_last().drop_last().drop_last() =~= seq![]);
}

/// An upgrade that the form gives has at least one value, so a comparison has something to compare.
pub proof fn upgrades_set_something(
    u: Result<Option<Double>, Seq<char>>,
    g: Result<Option<Double>, Seq<char>>,
    f: Result<Option<Double>, Seq<char>>,
)
    ensures
        upgrade_asked(u, g, f) matches Ok(upgrade) ==> {
            ||| upgrade.u_value is Some
            ||| upgrade.g_value is Some
            ||| upgrade.frame_area_fraction is Some
        },
{
    reveal_with_fuel(complaints, 4);
    let s = seq![u, g, f];
    assert(s.drop_last() =~= seq![u, g]);
    assert(s.drop_last().drop_last() =~= seq![u]);
}

} // verus!
