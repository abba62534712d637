//! Prices and carbon factors, and which delivered energy they are applied to.
use crate::arithmetic::{evaluates, given, plus_product, zero, Arithmetic, Formula};
use crate::double::Double;
use crate::error::{ApiError, Failure};
use crate::text::{names_differ, same_text, text_pairs};
use serde_json::Value;
use vstd::arithmetic::power2::{lemma_pow2_adds, lemma_pow2_pos, pow2};
use vstd::prelude::*;

verus! {

/// Price and carbon intensity of one fuel type, applied to delivered energy.
#[derive(Clone, Copy, Debug, PartialEq, Eq, Structural)]
pub struct FuelFactors {
    /// Unit price of delivered energy, GBP per kWh. Excludes standing charges.
    pub price_gbp_per_kwh: Double,
    /// Carbon intensity of delivered energy, kgCO₂e per kWh.
    pub carbon_kg_per_kwh: Double,
}

/// Price and carbon factors per fuel type. Names are the engine's fuel-type names, each at most
/// once (see [`Tariff::well_formed`]).
#[derive(Debug)]
pub struct Economics {
    /// Where the factors come from, so that a result documents itself.
    pub source: Option<String>,
    /// Factors by fuel-type name.
    pub fuels: Vec<(String, FuelFactors)>,
}

/// Running cost and carbon of one scenario, over the simulated period.
#[derive(Clone, Copy, Debug, PartialEq, Eq, Structural)]
pub struct CostCarbon {
    /// Running (unit-rate) cost of delivered energy, GBP. Excludes standing charges.
    pub cost_gbp: Double,
    /// Carbon of delivered energy, kgCO₂e.
    pub carbon_kg: Double,
}

/// The energy delivered by one supply, by end use.
#[derive(Debug)]
pub struct SupplyEnergy {
    pub supply: String,
    /// Energy (kWh) by end use, each use at most once (see [`Row::well_formed`]).
    pub end_uses: Vec<(String, Double)>,
}

/// An engine summary: what the service reads of it, and the whole of it.
#[derive(Debug)]
pub struct OutputSummary {
    pub space_heat_demand_total: Double,
    pub space_cool_demand_total: Double,
    /// Delivered energy by supply, each supply at most once (see [`Summary::well_formed`]).
    pub delivered_energy: Vec<SupplyEnergy>,
    /// The summary as the engine wrote it, all of it, for the response.
    pub document: Value,
}

/// Delivered energy that costs, with the factors that apply to it.
#[derive(Clone, Copy, Debug, PartialEq, Eq, Structural)]
pub struct Charge {
    pub kwh: Double,
    pub factors: FuelFactors,
}

/// What [`Economics`] say.
pub struct Tariff {
    pub source: Option<Seq<char>>,
    pub fuels: Seq<(Seq<char>, FuelFactors)>,
}

/// What a [`SupplyEnergy`] says.
pub struct Row {
    pub supply: Seq<char>,
    pub end_uses: Seq<(Seq<char>, Double)>,
}

/// What an [`OutputSummary`] says.
pub struct Summary {
    pub space_heat_demand_total: Double,
    pub space_cool_demand_total: Double,
    pub delivered_energy: Seq<Row>,
}

/// The entries of a table, by the texts of their names.
pub open spec fn table<T>(s: Seq<(String, T)>) -> Seq<(Seq<char>, T)> {
    s.map_values(|p: (String, T)| (p.0@, p.1))
}

/// The text of an optional string.
pub open spec fn text_opt(s: Option<String>) -> Option<Seq<char>> {
    match s {
        Some(t) => Some(t@),
        None => None,
    }
}

impl View for Economics {
    type V = Tariff;

    open spec fn view(&self) -> Tariff {
        Tariff { source: text_opt(self.source), fuels: table(self.fuels@) }
    }
}

impl View for SupplyEnergy {
    type V = Row;

    open spec fn view(&self) -> Row {
        Row { supply: self.supply@, end_uses: table(self.end_uses@) }
    }
}

impl View for OutputSummary {
    type V = Summary;

    open spec fn view(&self) -> Summary {
        Summary {
            space_heat_demand_total: self.space_heat_demand_total,
            space_cool_demand_total: self.space_cool_demand_total,
            delivered_energy: self.delivered_energy@.map_values(|r: SupplyEnergy| r@),
        }
    }
}

/// The entry named `k`: the first, where there are more.
pub open spec fn find<T>(t: Seq<(Seq<char>, T)>, k: Seq<char>) -> Option<T>
    decreases t.len(),
{
    if t.len() == 0 {
        None
    } else if t[0].0 == k {
        Some(t[0].1)
    } else {
        find(t.drop_first(), k)
    }
}

/// What an entry says at its place is what is found, if no earlier entry has its name.
pub proof fn lemma_find<T>(t: Seq<(Seq<char>, T)>, k: Seq<char>, i: int)
    requires
        0 <= i <= t.len(),
        forall|j: int| 0 <= j < i ==> (#[trigger] t[j]).0 != k,
        i < t.len() ==> t[i].0 == k,
    ensures
        find(t, k) == (if i < t.len() {
            Some(t[i].1)
        } else {
            None
        }),
    decreases t.len(),
{
    if t.len() > 0 && i > 0 {
        assert(t[0].0 != k);
        let rest = t.drop_first();
        assert forall|j: int| 0 <= j < i - 1 implies (#[trigger] rest[j]).0 != k by {
            assert(rest[j] == t[j + 1]);
        }
        lemma_find(rest, k, i - 1);
    }
}

/// The entry named `key`, if there is one.
fn find_entry<T: Copy>(t: &Vec<(String, T)>, key: &str) -> (res: Option<T>)
    ensures
        res == find(table(t@), key@),
{
    let mut i: usize = 0;
    while i < t.len()
        invariant
            i <= t.len(),
            forall|j: int| 0 <= j < i ==> (#[trigger] table(t@)[j]).0 != key@,
        decreases t.len() - i,
    {
        assert(table(t@)[i as int] == (t@[i as int].0@, t@[i as int].1));
        if same_text(t[i].0.as_str(), key) {
            proof {
                lemma_find(table(t@), key@, i as int);
            }
            return Some(t[i].1);
        }
        i = i + 1;
    }
    proof {
        lemma_find(table(t@), key@, i as int);
    }
    None
}

/// The text under `key`, if there is one.
fn find_text<'a>(t: &'a Vec<(String, String)>, key: &str) -> (res: Option<&'a String>)
    ensures
        match res {
            Some(s) => find(text_pairs(t@), key@) == Some(s@),
            None => find(text_pairs(t@), key@) is None,
        },
{
    let mut i: usize = 0;
    while i < t.len()
        invariant
            i <= t.len(),
            forall|j: int| 0 <= j < i ==> (#[trigger] text_pairs(t@)[j]).0 != key@,
        decreases t.len() - i,
    {
        assert(text_pairs(t@)[i as int] == (t@[i as int].0@, t@[i as int].1@));
        if same_text(t[i].0.as_str(), key) {
            proof {
                lemma_find(text_pairs(t@), key@, i as int);
            }
            return Some(&t[i].1);
        }
        i = i + 1;
    }
    proof {
        lemma_find(text_pairs(t@), key@, i as int);
    }
    None
}

/// A copy of an optional text.
pub(crate) fn copy_text(s: &Option<String>) -> (res: Option<String>)
    ensures
        text_opt(res) == text_opt(*s),
{
    match s {
        Some(t) => Some(t.clone()),
        None => None,
    }
}

impl Clone for Economics {
    fn clone(&self) -> (res: Self)
        ensures
            res@ == self@,
    {
        let mut fuels: Vec<(String, FuelFactors)> = Vec::new();
        let mut i: usize = 0;
        while i < self.fuels.len()
            invariant
                i <= self.fuels.len(),
                fuels@.len() == i,
                forall|j: int|
                    0 <= j < i ==> (#[trigger] fuels@[j]).0@ == self.fuels@[j].0@ && fuels@[j].1
                        == self.fuels@[j].1,
            decreases self.fuels.len() - i,
        {
            fuels.push((self.fuels[i].0.clone(), self.fuels[i].1));
            i = i + 1;
        }
        assert(table(fuels@) =~= table(self.fuels@));
        Economics { source: copy_text(&self.source), fuels }
    }
}

/// The illustrative UK factors: electricity at 0.2611 GBP and 0.177 kgCO₂e per kWh, mains gas at
/// 0.0733 GBP and 0.18296 kgCO₂e per kWh.
pub open spec fn uk_tariff() -> Tariff {
    Tariff {
        source: Some(
            "Illustrative defaults — Ofgem price cap (GB avg, direct debit incl. VAT, 1 Jul–30 Sep 2026) and DESNZ/DEFRA 2025 GHG conversion factors. Not authoritative; override with your own tariff/factors."@,
        ),
        fuels: seq![
            (
                "electricity"@,
                FuelFactors {
                    price_gbp_per_kwh: Double { bits: 0x3fd0_b5dc_c63f_1412 },
                    carbon_kg_per_kwh: Double { bits: 0x3fc6_a7ef_9db2_2d0e },
                },
            ),
            (
                "mains_gas"@,
                FuelFactors {
                    price_gbp_per_kwh: Double { bits: 0x3fb2_c3c9_eecb_fb16 },
                    carbon_kg_per_kwh: Double { bits: 0x3fc7_6b3b_b83c_f2d0 },
                },
            ),
        ],
    }
}

impl Economics {
    /// Illustrative UK defaults, for a request that brings no economics. Not authoritative: a
    /// caller is expected to override them with their own tariff and factors.
    pub fn uk_defaults() -> (res: Self)
        ensures
            res@ == uk_tariff(),
    {
        let mut fuels: Vec<(String, FuelFactors)> = Vec::new();
        fuels.push(
            (
                "electricity".to_owned(),
                FuelFactors {
                    price_gbp_per_kwh: Double { bits: 0x3fd0_b5dc_c63f_1412 },
                    carbon_kg_per_kwh: Double { bits: 0x3fc6_a7ef_9db2_2d0e },
                },
            ),
        );
        fuels.push(
            (
                "mains_gas".to_owned(),
                FuelFactors {
                    price_gbp_per_kwh: Double { bits: 0x3fb2_c3c9_eecb_fb16 },
                    carbon_kg_per_kwh: Double { bits: 0x3fc7_6b3b_b83c_f2d0 },
                },
            ),
        );
        let res: Economics = Economics {
            source: Some(
                "Illustrative defaults — Ofgem price cap (GB avg, direct debit incl. VAT, 1 Jul–30 Sep 2026) and DESNZ/DEFRA 2025 GHG conversion factors. Not authoritative; override with your own tariff/factors.".to_owned(),
            ),
            fuels,
        };
        assert(table(res.fuels@) =~= uk_tariff().fuels);
        res
    }
}

/// `d` is `digits / scale`, to within half a unit of `d`'s last place.
pub open spec fn closest(d: Double, digits: int, scale: int) -> bool {
    let twice_off = 2 * (d.value() * scale - digits * pow2(1074));
    let unit = pow2(d.shift()) * scale;
    d.finite() && -unit <= twice_off <= unit
}

/// The factors of the defaults are the documented decimals, and no fuel occurs twice.
pub proof fn uk_tariff_is_as_documented()
    ensures
        find(uk_tariff().fuels, "electricity"@) matches Some(f) && closest(
            f.price_gbp_per_kwh,
            2611,
            10_000,
        ) && closest(f.carbon_kg_per_kwh, 177, 1_000),
        find(uk_tariff().fuels, "mains_gas"@) matches Some(f) && closest(
            f.price_gbp_per_kwh,
            733,
            10_000,
        ) && closest(f.carbon_kg_per_kwh, 18296, 100_000),
        uk_tariff().well_formed(),
{
    reveal_strlit("electricity");
    reveal_strlit("mains_gas");
    assert("electricity"@.len() != "mains_gas"@.len());
    let t = uk_tariff().fuels;
    lemma_find(t, "electricity"@, 0);
    lemma_find(t, "mains_gas"@, 1);
    lemma_closest(t[0].1.price_gbp_per_kwh, 2611, 10_000);
    lemma_closest(t[0].1.carbon_kg_per_kwh, 177, 1_000);
    lemma_closest(t[1].1.price_gbp_per_kwh, 733, 10_000);
    lemma_closest(t[1].1.carbon_kg_per_kwh, 18296, 100_000);
}

/// A double between 2^-5 and 2^-1 is closest to a fraction if its significand is.
proof fn lemma_closest(d: Double, digits: int, scale: int)
    requires
        !d.negative(),
        1018 <= d.shift() <= 1020,
        d.finite(),
        ({
            let whole = if d.shift() == 1020 {
                0x40_0000_0000_0000int
            } else if d.shift() == 1019 {
                0x80_0000_0000_0000int
            } else {
                0x100_0000_0000_0000int
            };
            -scale <= 2 * (d.significand() * scale - digits * whole) <= scale
        }),
    ensures
        closest(d, digits, scale),
{
    let s = d.shift();
    let p = pow2(s) as int;
    let up = (1074 - s) as nat;
    vstd::arithmetic::power2::lemma2_to64();
    vstd::arithmetic::power2::lemma2_to64_rest();
    lemma_pow2_pos(s);
    lemma_pow2_adds(up, s);
    let m = d.significand();
    let w = pow2(up) as int;
    let off = m * scale - digits * w;
    assert((m * p) * scale - digits * (w * p) == off * p) by (nonlinear_arith)
        requires
            off == m * scale - digits * w,
    ;
    assert(-(p * scale) <= 2 * (off * p) <= p * scale) by (nonlinear_arith)
        requires
            -scale <= 2 * off <= scale,
            p > 0,
    ;
}

/// What becomes of one row of delivered energy.
pub enum Reading {
    /// Not metered: no cost, no carbon.
    Unmetered,
    Charged(Charge),
    /// Metered, but its fuel has no factors: the message says so.
    Unpriced(Seq<char>),
}

/// The message for a fuel without factors.
pub open spec fn no_factors(fuel: Seq<char>, supply: Seq<char>) -> Seq<char> {
    "no economics factors supplied for fuel type '"@ + fuel + "' (energy supply '"@ + supply + "')"@
}

/// What becomes of one row: the aggregate row, a supply that the dwelling does not declare, and
/// the two fuels that carry no meter cost nothing; any other row is charged by its fuel's factors,
/// on its total, or on nothing where it has none.
pub open spec fn reading(
    row: Row,
    supply_fuels: Seq<(Seq<char>, Seq<char>)>,
    fuels: Seq<(Seq<char>, FuelFactors)>,
) -> Reading {
    if row.supply == "total"@ {
        Reading::Unmetered
    } else {
        match find(supply_fuels, row.supply) {
            None => Reading::Unmetered,
            Some(fuel) => if fuel == "energy_from_environment"@ || fuel == "unmet_demand"@ {
                Reading::Unmetered
            } else {
                match find(fuels, fuel) {
                    None => Reading::Unpriced(no_factors(fuel, row.supply)),
                    Some(factors) => Reading::Charged(
                        Charge {
                            kwh: match find(row.end_uses, "total"@) {
                                Some(kwh) => kwh,
                                None => zero(),
                            },
                            factors,
                        },
                    ),
                }
            },
        }
    }
}

/// The charges for some rows, in order; or the message for the first that has no factors.
pub open spec fn charges_for(
    rows: Seq<Row>,
    supply_fuels: Seq<(Seq<char>, Seq<char>)>,
    fuels: Seq<(Seq<char>, FuelFactors)>,
) -> Result<Seq<Charge>, Seq<char>>
    decreases rows.len(),
{
    if rows.len() == 0 {
        Ok(seq![])
    } else {
        match charges_for(rows.drop_last(), supply_fuels, fuels) {
            Err(message) => Err(message),
            Ok(before) => match reading(rows.last(), supply_fuels, fuels) {
                Reading::Unmetered => Ok(before),
                Reading::Charged(c) => Ok(before.push(c)),
                Reading::Unpriced(message) => Err(message),
            },
        }
    }
}

/// Rows after one without factors do not matter.
proof fn lemma_first_error(
    rows: Seq<Row>,
    n: int,
    supply_fuels: Seq<(Seq<char>, Seq<char>)>,
    fuels: Seq<(Seq<char>, FuelFactors)>,
)
    requires
        0 <= n <= rows.len(),
        charges_for(rows.take(n), supply_fuels, fuels) is Err,
    ensures
        charges_for(rows, supply_fuels, fuels) == charges_for(rows.take(n), supply_fuels, fuels),
    decreases rows.len() - n,
{
    if n < rows.len() {
        assert(rows.take(n + 1).drop_last() =~= rows.take(n));
        lemma_first_error(rows, n + 1, supply_fuels, fuels);
    } else {
        assert(rows.take(n) =~= rows);
    }
}

/// Which delivered energy costs, and by which factors.
///
/// A real, metered fuel is one that the dwelling's input declares. A row that is no such supply is
/// internal to the engine and costs nothing. A dwelling that uses a fuel without factors is
/// rejected rather than priced at zero.
pub fn charges(
    summary: &OutputSummary,
    supply_fuels: &Vec<(String, String)>,
    econ: &Economics,
) -> (res: Result<Vec<Charge>, ApiError>)
    ensures
        match res {
            Ok(c) => charges_for(
                summary@.delivered_energy,
                text_pairs(supply_fuels@),
                econ@.fuels,
            ) == Ok::<Seq<Charge>, Seq<char>>(c@),
            Err(e) => charges_for(
                summary@.delivered_energy,
                text_pairs(supply_fuels@),
                econ@.fuels,
            ) matches Err(message) && e@ == Failure::InvalidInput(message),
        },
{
    let mut res: Vec<Charge> = Vec::new();
    let ghost rows = summary@.delivered_energy;
    let ghost supplies = text_pairs(supply_fuels@);
    let ghost factors_by_fuel = econ@.fuels;
    let mut i: usize = 0;
    assert(rows.take(0) =~= seq![]);
    assert(res@ =~= seq![]);
    while i < summary.delivered_energy.len()
        invariant
            i <= summary.delivered_energy.len(),
            rows == summary@.delivered_energy,
            supplies == text_pairs(supply_fuels@),
            factors_by_fuel == econ@.fuels,
            charges_for(rows.take(i as int), supplies, factors_by_fuel) == Ok::<
                Seq<Charge>,
                Seq<char>,
            >(res@),
        decreases summary.delivered_energy.len() - i,
    {
        let row: &SupplyEnergy = &summary.delivered_energy[i];
        proof {
            assert(rows.take(i + 1).drop_last() =~= rows.take(i as int));
            assert(rows.take(i + 1).last() == row@);
        }
        if !same_text(row.supply.as_str(), "total") {
            if let Some(fuel) = find_text(supply_fuels, row.supply.as_str()) {
                if !same_text(fuel.as_str(), "energy_from_environment") && !same_text(
                    fuel.as_str(),
                    "unmet_demand",
                ) {
                    let kwh: Double = match find_entry(&row.end_uses, "total") {
                        Some(kwh) => kwh,
                        None => zero(),
                    };
                    match find_entry(&econ.fuels, fuel.as_str()) {
                        Some(factors) => {
                            res.push(Charge { kwh, factors });
                        },
                        None => {
                            let mut message: String =
                                "no economics factors supplied for fuel type '".to_owned();
                            message.append(fuel.as_str());
                            message.append("' (energy supply '");
                            message.append(row.supply.as_str());
                            message.append("')");
                            proof {
                                lemma_first_error(rows, i + 1, supplies, factors_by_fuel);
                            }
                            return Err(ApiError::InvalidInput(message));
                        },
                    }
                }
            }
        }
        i = i + 1;
    }
    assert(rows.take(rows.len() as int) =~= rows);
    Ok(res)
}

/// The sum of what each charge comes to at its price, from the first on.
pub open spec fn cost_of(charges: Seq<Charge>) -> Formula
    decreases charges.len(),
{
    if charges.len() == 0 {
        given(zero())
    } else {
        let last = charges.last();
        cost_of(charges.drop_last()).plus(
            given(last.kwh).times(given(last.factors.price_gbp_per_kwh)),
        )
    }
}

/// The sum of what each charge emits at its carbon intensity, from the first on.
pub open spec fn carbon_of(charges: Seq<Charge>) -> Formula
    decreases charges.len(),
{
    if charges.len() == 0 {
        given(zero())
    } else {
        let last = charges.last();
        carbon_of(charges.drop_last()).plus(
            given(last.kwh).times(given(last.factors.carbon_kg_per_kwh)),
        )
    }
}

/// `total` is the running cost and the carbon of some charges.
pub open spec fn costed<A: Arithmetic>(charges: Seq<Charge>, total: CostCarbon) -> bool {
    &&& evaluates::<A>(cost_of(charges), total.cost_gbp)
    &&& evaluates::<A>(carbon_of(charges), total.carbon_kg)
}

/// Running cost and carbon of a scenario, from its delivered energy: the energy of each metered
/// supply times its fuel's factors. Rejected where a metered fuel has no factors.
///
/// Delivered energy is what each fuel supplies in all, which is what the meter shows only where
/// the dwelling generates nothing itself.
pub fn cost_carbon<A: Arithmetic>(
    summary: &OutputSummary,
    supply_fuels: &Vec<(String, String)>,
    econ: &Economics,
) -> (res: Result<CostCarbon, ApiError>)
    ensures
        match charges_for(summary@.delivered_energy, text_pairs(supply_fuels@), econ@.fuels) {
            Ok(c) => res matches Ok(total) && costed::<A>(c, total),
            Err(message) => res matches Err(e) && e@ == Failure::InvalidInput(message),
        },
{
    let list: Vec<Charge> = match charges(summary, supply_fuels, econ) {
        Ok(list) => list,
        Err(e) => {
            return Err(e);
        },
    };
    let mut total: CostCarbon = CostCarbon { cost_gbp: zero(), carbon_kg: zero() };
    let mut i: usize = 0;
    assert(list@.take(0) =~= seq![]);
    while i < list.len()
        invariant
            i <= list.len(),
            costed::<A>(list@.take(i as int), total),
        decreases list.len() - i,
    {
        let c: Charge = list[i];
        assert(list@.take(i + 1).drop_last() =~= list@.take(i as int));
        total =
        CostCarbon {
            cost_gbp: plus_product::<A>(total.cost_gbp, c.kwh, c.factors.price_gbp_per_kwh),
            carbon_kg: plus_product::<A>(total.carbon_kg, c.kwh, c.factors.carbon_kg_per_kwh),
        };
        i = i + 1;
    }
    assert(list@.take(list@.len() as int) =~= list@);
    Ok(total)
}

/// The row of a supply: the first, where there are more.
pub open spec fn find_row(rows: Seq<Row>, supply: Seq<char>) -> Option<Row>
    decreases rows.len(),
{
    if rows.len() == 0 {
        None
    } else if rows[0].supply == supply {
        Some(rows[0])
    } else {
        find_row(rows.drop_first(), supply)
    }
}

/// The delivered energy over all supplies and end uses, where the summary has it.
pub open spec fn delivered_total(s: Summary) -> Option<Double> {
    match find_row(s.delivered_energy, "total"@) {
        Some(row) => find(row.end_uses, "total"@),
        None => None,
    }
}

/// What a row says at its place is what is found, if no earlier row is of its supply.
pub proof fn lemma_find_row(rows: Seq<Row>, k: Seq<char>, i: int)
    requires
        0 <= i <= rows.len(),
        forall|j: int| 0 <= j < i ==> (#[trigger] rows[j]).supply != k,
        i < rows.len() ==> rows[i].supply == k,
    ensures
        find_row(rows, k) == (if i < rows.len() {
            Some(rows[i])
        } else {
            None
        }),
    decreases rows.len(),
{
    if rows.len() > 0 && i > 0 {
        assert(rows[0].supply != k);
        let rest = rows.drop_first();
        assert forall|j: int| 0 <= j < i - 1 implies (#[trigger] rest[j]).supply != k by {
            assert(rest[j] == rows[j + 1]);
        }
        lemma_find_row(rest, k, i - 1);
    }
}

impl Tariff {
    /// No fuel occurs twice.
    pub open spec fn well_formed(self) -> bool {
        names_differ(self.fuels)
    }
}

impl Row {
    /// No end use occurs twice.
    pub open spec fn well_formed(self) -> bool {
        names_differ(self.end_uses)
    }
}

impl Summary {
    /// No supply occurs twice, and no end use occurs twice in a supply.
    pub open spec fn well_formed(self) -> bool {
        let rows = self.delivered_energy;
        &&& forall|i: int, j: int|
            0 <= i < j < rows.len() ==> (#[trigger] rows[i]).supply != (#[trigger] rows[j]).supply
        &&& forall|i: int| 0 <= i < rows.len() ==> (#[trigger] rows[i]).well_formed()
    }
}

/// Where no name occurs twice, every entry is what its name finds, and only names of entries find
/// anything.
pub proof fn entries_are_found_by_name<T>(t: Seq<(Seq<char>, T)>)
    requires
        names_differ(t),
    ensures
        forall|i: int| 0 <= i < t.len() ==> find(t, (#[trigger] t[i]).0) == Some(t[i].1),
        forall|k: Seq<char>|
            (#[trigger] find(t, k)) is Some ==> exists|i: int|
                0 <= i < t.len() && (#[trigger] t[i]).0 == k,
{
    assert forall|i: int| 0 <= i < t.len() implies find(t, (#[trigger] t[i]).0) == Some(
        t[i].1,
    ) by {
        lemma_find(t, t[i].0, i);
    }
    assert forall|k: Seq<char>| (#[trigger] find(t, k)) is Some implies exists|i: int|
        0 <= i < t.len() && (#[trigger] t[i]).0 == k by {
        if forall|i: int| 0 <= i < t.len() ==> (#[trigger] t[i]).0 != k {
            lemma_find(t, k, t.len() as int);
        }
    }
}

/// In a tariff in which no fuel occurs twice, every fuel has the factors that its name finds.
pub proof fn fuels_are_found_by_name(tariff: Tariff, i: int)
    requires
        tariff.well_formed(),
        0 <= i < tariff.fuels.len(),
    ensures
        find(tariff.fuels, tariff.fuels[i].0) == Some(tariff.fuels[i].1),
{
    entries_are_found_by_name(tariff.fuels);
}

/// In a summary in which no supply and no end use occurs twice, every supply has the row that its
/// name finds, and every end use in it the energy that its name finds there.
pub proof fn supplies_are_found_by_name(summary: Summary, i: int)
    requires
        summary.well_formed(),
        0 <= i < summary.delivered_energy.len(),
    ensures
        find_row(summary.delivered_energy, summary.delivered_energy[i].supply) == Some(
            summary.delivered_energy[i],
        ),
        forall|j: int|
            0 <= j < summary.delivered_energy[i].end_uses.len() ==> find(
                summary.delivered_energy[i].end_uses,
                (#[trigger] summary.delivered_energy[i].end_uses[j]).0,
            ) == Some(summary.delivered_energy[i].end_uses[j].1),
{
    let rows = summary.delivered_energy;
    lemma_find_row(rows, rows[i].supply, i);
    entries_are_found_by_name(rows[i].end_uses);
}

/// Total delivered energy across all fuels and end uses (kWh), if the summary has it.
pub fn delivered_energy_total(summary: &OutputSummary) -> (res: Option<Double>)
    ensures
        res == delivered_total(summary@),
{
    let ghost rows = summary@.delivered_energy;
    let mut i: usize = 0;
    while i < summary.delivered_energy.len()
        invariant
            i <= summary.delivered_energy.len(),
            rows == summary@.delivered_energy,
            forall|j: int| 0 <= j < i ==> (#[trigger] rows[j]).supply != "total"@,
        decreases summary.delivered_energy.len() - i,
    {
        assert(rows[i as int] == summary.delivered_energy@[i as int]@);
        if same_text(summary.delivered_energy[i].supply.as_str(), "total") {
            proof {
                lemma_find_row(rows, "total"@, i as int);
            }
            return find_entry(&summary.delivered_energy[i].end_uses, "total");
        }
        i = i + 1;
    }
    proof {
        lemma_find_row(rows, "total"@, i as int);
    }
    None
}

/// Nothing metered goes unpriced: where charges are given, every row that is metered has factors,
/// and its charge is among them.
pub proof fn every_metered_row_is_charged(
    rows: Seq<Row>,
    supply_fuels: Seq<(Seq<char>, Seq<char>)>,
    fuels: Seq<(Seq<char>, FuelFactors)>,
    i: int,
)
    requires
        0 <= i < rows.len(),
        charges_for(rows, supply_fuels, fuels) is Ok,
    ensures
        !(reading(rows[i], supply_fuels, fuels) is Unpriced),
        reading(rows[i], supply_fuels, fuels) matches Reading::Charged(c) ==> charges_for(
            rows,
            supply_fuels,
            fuels,
        )->Ok_0.contains(c),
    decreases rows.len(),
{
    let before = rows.drop_last();
    if i < before.len() {
        every_metered_row_is_charged(before, supply_fuels, fuels, i);
        assert(before[i] == rows[i]);
        if let Reading::Charged(c) = reading(rows[i], supply_fuels, fuels) {
            let s = charges_for(before, supply_fuels, fuels)->Ok_0;
            let n = s.index_of(c);
            assert(s[n] == c);
            assert(charges_for(rows, supply_fuels, fuels)->Ok_0[n] == c);
        }
    } else {
        assert(rows[i] == rows.last());
        if let Reading::Charged(c) = reading(rows[i], supply_fuels, fuels) {
            let s = charges_for(rows, supply_fuels, fuels)->Ok_0;
            assert(s[s.len() - 1] == c);
        }
    }
}

/// One of the rows is metered and has no factors.
pub open spec fn some_unpriced(
    rows: Seq<Row>,
    supply_fuels: Seq<(Seq<char>, Seq<char>)>,
    fuels: Seq<(Seq<char>, FuelFactors)>,
) -> bool {
    exists|i: int|
        0 <= i < rows.len() && reading(#[trigger] rows[i], supply_fuels, fuels) is Unpriced
}

/// A dwelling is rejected exactly when one of its metered rows has no factors.
pub proof fn rejected_only_for_want_of_factors(
    rows: Seq<Row>,
    supply_fuels: Seq<(Seq<char>, Seq<char>)>,
    fuels: Seq<(Seq<char>, FuelFactors)>,
)
    ensures
        charges_for(rows, supply_fuels, fuels) is Err == some_unpriced(rows, supply_fuels, fuels),
    decreases rows.len(),
{
    if rows.len() > 0 {
        let before = rows.drop_last();
        rejected_only_for_want_of_factors(before, supply_fuels, fuels);
        assert forall|i: int| 0 <= i < before.len() implies #[trigger] before[i] == rows[i] by {}
        if some_unpriced(before, supply_fuels, fuels) {
            let i = choose|i: int|
                0 <= i < before.len() && reading(
                    #[trigger] before[i],
                    supply_fuels,
                    fuels,
                ) is Unpriced;
            assert(reading(rows[i], supply_fuels, fuels) is Unpriced);
        }
        assert(rows.last() == rows[rows.len() - 1]);
        if some_unpriced(rows, supply_fuels, fuels) && !some_unpriced(
            before,
            supply_fuels,
            fuels,
        ) {
            assert forall|i: int| 0 <= i < before.len() implies !(reading(
                #[trigger] rows[i],
                supply_fuels,
                fuels,
            ) is Unpriced) by {
                assert(before[i] == rows[i]);
            }
        }
    }
}

} // verus!
