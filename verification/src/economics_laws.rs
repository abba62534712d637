//! What the charges, the costs and the totals of a scenario come to.
use crate::arithmetic::{evaluates, given, Arithmetic};
use crate::double::Double;
use crate::economics::{
    carbon_of, charges_for, cost_of, costed, delivered_total, find, lemma_find, lemma_find_row,
    reading, uk_tariff, Charge, CostCarbon, Economics, FuelFactors, OutputSummary, Reading, Row,
    Summary, SupplyEnergy,
};
use crate::exact::{exact_in, exact_product_of, exact_sum_of};
use vstd::prelude::*;

verus! {

/// The entry at `i` is the first of its name.
pub open spec fn first_named<T>(t: Seq<(Seq<char>, T)>, name: Seq<char>, i: int) -> bool {
    &&& 0 <= i < t.len()
    &&& t[i].0 == name
    &&& forall|j: int| 0 <= j < i ==> (#[trigger] t[j]).0 != name
}

/// No entry has the name.
pub open spec fn unnamed<T>(t: Seq<(Seq<char>, T)>, name: Seq<char>) -> bool {
    forall|j: int| 0 <= j < t.len() ==> (#[trigger] t[j]).0 != name
}

/// A supply other than the aggregate, declared with a fuel that has factors and is neither the
/// environment nor unmet demand, is charged by those factors: on the energy of the entry named
/// "total", or on nothing where there is none.
pub proof fn metered_rows_are_charged_on_their_total(
    row: Row,
    supply_fuels: Seq<(Seq<char>, Seq<char>)>,
    fuels: Seq<(Seq<char>, FuelFactors)>,
    s: int,
    f: int,
)
    requires
        row.supply != "total"@,
        first_named(supply_fuels, row.supply, s),
        supply_fuels[s].1 != "energy_from_environment"@,
        supply_fuels[s].1 != "unmet_demand"@,
        first_named(fuels, supply_fuels[s].1, f),
    ensures
        charges_for(seq![row], supply_fuels, fuels) matches Ok(c) && c.len() == 1 && c[0].factors
            == fuels[f].1 && (forall|i: int|
            #![trigger row.end_uses[i]]
            first_named(row.end_uses, "total"@, i) ==> c[0].kwh == row.end_uses[i].1) && (unnamed(
            row.end_uses,
            "total"@,
        ) ==> c[0].kwh.bits == 0),
{
    lemma_find(supply_fuels, row.supply, s);
    lemma_find(fuels, supply_fuels[s].1, f);
    lemma_single(row, supply_fuels, fuels);
    assert forall|i: int|
        #![trigger row.end_uses[i]]
        first_named(row.end_uses, "total"@, i) implies find(row.end_uses, "total"@) == Some(
        row.end_uses[i].1,
    ) by {
        lemma_find(row.end_uses, "total"@, i);
    }
    if unnamed(row.end_uses, "total"@) {
        lemma_find(row.end_uses, "total"@, row.end_uses.len() as int);
    }
}

/// In a row in which no end use occurs twice, the energy that is charged is that of the entry named
/// "total", wherever it stands.
pub proof fn the_total_is_charged_wherever_it_stands(
    row: Row,
    supply_fuels: Seq<(Seq<char>, Seq<char>)>,
    fuels: Seq<(Seq<char>, FuelFactors)>,
    c: Seq<Charge>,
    i: int,
)
    requires
        charges_for(seq![row], supply_fuels, fuels) == Ok::<Seq<Charge>, Seq<char>>(c),
        c.len() == 1,
        forall|a: int, b: int|
            0 <= a < b < row.end_uses.len() ==> (#[trigger] row.end_uses[a]).0
                != (#[trigger] row.end_uses[b]).0,
        0 <= i < row.end_uses.len(),
        row.end_uses[i].0 == "total"@,
    ensures
        c[0].kwh == row.end_uses[i].1,
{
    lemma_single(row, supply_fuels, fuels);
    lemma_find(row.end_uses, "total"@, i);
}

/// The charges for one row.
proof fn lemma_single(
    row: Row,
    supply_fuels: Seq<(Seq<char>, Seq<char>)>,
    fuels: Seq<(Seq<char>, FuelFactors)>,
)
    ensures
        charges_for(seq![row], supply_fuels, fuels) == (match reading(
            row,
            supply_fuels,
            fuels,
        ) {
            Reading::Unmetered => Ok::<Seq<Charge>, Seq<char>>(seq![]),
            Reading::Charged(c) => Ok(seq![c]),
            Reading::Unpriced(message) => Err(message),
        }),
{
    reveal_with_fuel(charges_for, 2);
    assert(seq![row].drop_last() =~= seq![]);
    assert(seq![row].last() == row);
    assert forall|c: Charge| #[trigger] Seq::<Charge>::empty().push(c) == seq![c] by {}
}

/// The aggregate row, a supply that the dwelling does not declare, and one whose fuel is the
/// environment or unmet demand cost nothing.
pub proof fn unmetered_rows_cost_nothing(
    row: Row,
    supply_fuels: Seq<(Seq<char>, Seq<char>)>,
    fuels: Seq<(Seq<char>, FuelFactors)>,
    s: int,
)
    requires
        row.supply == "total"@ || unnamed(supply_fuels, row.supply) || first_named(
            supply_fuels,
            row.supply,
            s,
        ) && (supply_fuels[s].1 == "energy_from_environment"@ || supply_fuels[s].1
            == "unmet_demand"@),
    ensures
        charges_for(seq![row], supply_fuels, fuels) == Ok::<Seq<Charge>, Seq<char>>(seq![]),
{
    lemma_single(row, supply_fuels, fuels);
    if row.supply != "total"@ {
        if unnamed(supply_fuels, row.supply) {
            lemma_find(supply_fuels, row.supply, supply_fuels.len() as int);
        } else {
            lemma_find(supply_fuels, row.supply, s);
        }
    }
}

/// A metered supply whose fuel has no factors is rejected, with a message that names both.
pub proof fn fuels_without_factors_are_rejected(
    row: Row,
    supply_fuels: Seq<(Seq<char>, Seq<char>)>,
    fuels: Seq<(Seq<char>, FuelFactors)>,
    s: int,
)
    requires
        row.supply != "total"@,
        first_named(supply_fuels, row.supply, s),
        supply_fuels[s].1 != "energy_from_environment"@,
        supply_fuels[s].1 != "unmet_demand"@,
        unnamed(fuels, supply_fuels[s].1),
    ensures
        charges_for(seq![row], supply_fuels, fuels) == Err::<Seq<Charge>, Seq<char>>(
            "no economics factors supplied for fuel type '"@ + supply_fuels[s].1
                + "' (energy supply '"@ + row.supply + "')"@,
        ),
{
    lemma_single(row, supply_fuels, fuels);
    lemma_find(supply_fuels, row.supply, s);
    lemma_find(fuels, supply_fuels[s].1, fuels.len() as int);
}

/// The charges of some rows and of more rows after them are those of the ones, then those of the
/// others; and the first rejection stands.
pub proof fn charges_add_up(
    a: Seq<Row>,
    b: Seq<Row>,
    supply_fuels: Seq<(Seq<char>, Seq<char>)>,
    fuels: Seq<(Seq<char>, FuelFactors)>,
)
    ensures
        charges_for(a + b, supply_fuels, fuels) == (match charges_for(a, supply_fuels, fuels) {
            Err(message) => Err::<Seq<Charge>, Seq<char>>(message),
            Ok(before) => match charges_for(b, supply_fuels, fuels) {
                Err(message) => Err(message),
                Ok(after) => Ok(before + after),
            },
        }),
        charges_for(seq![], supply_fuels, fuels) == Ok::<Seq<Charge>, Seq<char>>(seq![]),
    decreases b.len(),
{
    if b.len() == 0 {
        assert(a + b =~= a);
        if let Ok(before) = charges_for(a, supply_fuels, fuels) {
            assert(before + seq![] =~= before);
        }
    } else {
        charges_add_up(a, b.drop_last(), supply_fuels, fuels);
        assert((a + b).drop_last() =~= a + b.drop_last());
        assert((a + b).last() == b.last());
        if let Ok(before) = charges_for(a, supply_fuels, fuels) {
            if let Ok(after) = charges_for(b.drop_last(), supply_fuels, fuels) {
                assert forall|c: Charge| #[trigger]
                    (before + after).push(c) == before + after.push(c) by {
                    assert((before + after).push(c) =~= before + after.push(c));
                }
            }
        }
    }
}

/// The total of delivered energy is that of the entry named "total" in the row named "total"; there
/// is none where that row or that entry is missing.
pub proof fn the_total_is_in_the_total_row(summary: Summary, r: int, i: int)
    ensures
        0 <= r < summary.delivered_energy.len() && summary.delivered_energy[r].supply == "total"@
            && (forall|j: int|
            0 <= j < r ==> (#[trigger] summary.delivered_energy[j]).supply != "total"@) ==> {
            let uses = summary.delivered_energy[r].end_uses;
            &&& first_named(uses, "total"@, i) ==> delivered_total(summary) == Some(uses[i].1)
            &&& unnamed(uses, "total"@) ==> delivered_total(summary) is None
        },
        (forall|j: int|
            0 <= j < summary.delivered_energy.len() ==> (
            #[trigger] summary.delivered_energy[j]).supply != "total"@) ==> delivered_total(
            summary,
        ) is None,
{
    let rows = summary.delivered_energy;
    if forall|j: int| 0 <= j < rows.len() ==> (#[trigger] rows[j]).supply != "total"@ {
        lemma_find_row(rows, "total"@, rows.len() as int);
    }
    if 0 <= r < rows.len() && rows[r].supply == "total"@ && (forall|j: int|
        0 <= j < r ==> (#[trigger] rows[j]).supply != "total"@) {
        lemma_find_row(rows, "total"@, r);
        let uses = rows[r].end_uses;
        if first_named(uses, "total"@, i) {
            lemma_find(uses, "total"@, i);
        }
        if unnamed(uses, "total"@) {
            lemma_find(uses, "total"@, uses.len() as int);
        }
    }
}

/// The sum, over some charges, of their energy times a rate.
pub open spec fn at_rate(
    charges: Seq<Charge>,
    rate: spec_fn(FuelFactors) -> Double,
    num: spec_fn(Double) -> real,
) -> real
    decreases charges.len(),
{
    if charges.len() == 0 {
        0real
    } else {
        num(charges[0].kwh) * num(rate(charges[0].factors)) + at_rate(
            charges.drop_first(),
            rate,
            num,
        )
    }
}

proof fn lemma_at_rate_last(
    charges: Seq<Charge>,
    rate: spec_fn(FuelFactors) -> Double,
    num: spec_fn(Double) -> real,
)
    requires
        charges.len() > 0,
    ensures
        at_rate(charges, rate, num) == at_rate(charges.drop_last(), rate, num) + num(
            charges.last().kwh,
        ) * num(rate(charges.last().factors)),
    decreases charges.len(),
{
    if charges.len() == 1 {
        assert(charges.drop_last() =~= seq![]);
        assert(charges.drop_first() =~= seq![]);
    } else {
        lemma_at_rate_last(charges.drop_first(), rate, num);
        assert(charges.drop_first().drop_last() =~= charges.drop_last().drop_first());
    }
}

proof fn lemma_cost<A: Arithmetic>(charges: Seq<Charge>, v: Double, num: spec_fn(Double) -> real)
    requires
        exact_in::<A>(num),
        evaluates::<A>(cost_of(charges), v),
        !v.nan(),
    ensures
        num(v) == at_rate(charges, |f: FuelFactors| f.price_gbp_per_kwh, num),
    decreases charges.len(),
{
    if charges.len() == 0 {
        reveal(exact_in);
    } else {
        let last = charges.last();
        let term = given(last.kwh).times(given(last.factors.price_gbp_per_kwh));
        let (a, b): (Double, Double) = exact_sum_of::<A>(
            cost_of(charges.drop_last()),
            term,
            v,
            num,
        );
        lemma_cost::<A>(charges.drop_last(), a, num);
        let (c, d): (Double, Double) = exact_product_of::<A>(
            given(last.kwh),
            given(last.factors.price_gbp_per_kwh),
            b,
            num,
        );
        lemma_at_rate_last(charges, |f: FuelFactors| f.price_gbp_per_kwh, num);
    }
}

proof fn lemma_carbon<A: Arithmetic>(charges: Seq<Charge>, v: Double, num: spec_fn(Double) -> real)
    requires
        exact_in::<A>(num),
        evaluates::<A>(carbon_of(charges), v),
        !v.nan(),
    ensures
        num(v) == at_rate(charges, |f: FuelFactors| f.carbon_kg_per_kwh, num),
    decreases charges.len(),
{
    if charges.len() == 0 {
        reveal(exact_in);
    } else {
        let last = charges.last();
        let term = given(last.kwh).times(given(last.factors.carbon_kg_per_kwh));
        let (a, b): (Double, Double) = exact_sum_of::<A>(
            carbon_of(charges.drop_last()),
            term,
            v,
            num,
        );
        lemma_carbon::<A>(charges.drop_last(), a, num);
        let (c, d): (Double, Double) = exact_product_of::<A>(
            given(last.kwh),
            given(last.factors.carbon_kg_per_kwh),
            b,
            num,
        );
        lemma_at_rate_last(charges, |f: FuelFactors| f.carbon_kg_per_kwh, num);
    }
}

/// But for rounding, the running cost is the sum of the charged energy times its price, and the
/// carbon the sum of the charged energy times its carbon intensity.
pub proof fn costs_are_energy_times_rates<A: Arithmetic>(
    charges: Seq<Charge>,
    total: CostCarbon,
    num: spec_fn(Double) -> real,
)
    requires
        exact_in::<A>(num),
        costed::<A>(charges, total),
    ensures
        !total.cost_gbp.nan() ==> num(total.cost_gbp) == at_rate(
            charges,
            |f: FuelFactors| f.price_gbp_per_kwh,
            num,
        ),
        !total.carbon_kg.nan() ==> num(total.carbon_kg) == at_rate(
            charges,
            |f: FuelFactors| f.carbon_kg_per_kwh,
            num,
        ),
{
    if !total.cost_gbp.nan() {
        lemma_cost::<A>(charges, total.cost_gbp, num);
    }
    if !total.carbon_kg.nan() {
        lemma_carbon::<A>(charges, total.carbon_kg, num);
    }
}

/// The defaults have factors for electricity and for mains gas, and for nothing else.
pub proof fn defaults_price_two_fuels(fuel: Seq<char>)
    ensures
        find(uk_tariff().fuels, fuel) is Some == (fuel == "electricity"@ || fuel == "mains_gas"@),
        uk_tariff().fuels.len() == 2,
{
    let t = uk_tariff().fuels;
    reveal_with_fuel(find, 3);
    assert(t.drop_first().drop_first() =~= seq![]);
    assert(t.drop_first()[0] == t[1]);
}

/// What a summary, its rows and some economics say is what their fields hold, entry by entry.
pub proof fn views_hold_what_the_fields_hold(
    summary: OutputSummary,
    row: SupplyEnergy,
    econ: Economics,
)
    ensures
        summary@.space_heat_demand_total == summary.space_heat_demand_total,
        summary@.space_cool_demand_total == summary.space_cool_demand_total,
        summary@.delivered_energy.len() == summary.delivered_energy@.len(),
        forall|i: int|
            0 <= i < summary.delivered_energy@.len() ==> #[trigger] summary@.delivered_energy[i]
                == summary.delivered_energy@[i]@,
        row@.supply == row.supply@,
        row@.end_uses.len() == row.end_uses@.len(),
        forall|i: int|
            0 <= i < row.end_uses@.len() ==> (#[trigger] row@.end_uses[i]).0
                == row.end_uses@[i].0@ && row@.end_uses[i].1 == row.end_uses@[i].1,
        econ.source is None ==> econ@.source is None,
        econ.source matches Some(s) ==> econ@.source == Some(s@),
        econ@.fuels.len() == econ.fuels@.len(),
        forall|i: int|
            0 <= i < econ.fuels@.len() ==> (#[trigger] econ@.fuels[i]).0 == econ.fuels@[i].0@
                && econ@.fuels[i].1 == econ.fuels@[i].1,
{
}

} // verus!
