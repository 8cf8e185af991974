use vstd::prelude::*;
use vstd::string::StringExecFns;

verus! {

/// The fixed table of conversions: a building type, the ratio of its levels
/// that convert, and the building type they convert to.
pub open spec fn conversion_of(building_type: Seq<char>) -> Option<(nat, Seq<char>)> {
    if building_type == "building_textile_mill"@ {
        Some((4, "building_tailoring_workshop"@))
    } else if building_type == "building_furniture_manufactory"@ {
        Some((4, "building_luxury_furniture_manufactory"@))
    } else if building_type == "building_glassworks"@ {
        Some((4, "building_pottery_mill"@))
    } else if building_type == "building_rye_farm"@ {
        Some((6, "building_fruit_orchard"@))
    } else if building_type == "building_wheat_farm"@ {
        Some((6, "building_fruit_orchard"@))
    } else if building_type == "building_rice_farm"@ {
        Some((6, "building_fruit_orchard"@))
    } else if building_type == "building_millet_farm"@ {
        Some((6, "building_fruit_orchard"@))
    } else if building_type == "building_maize_farm"@ {
        Some((6, "building_fruit_orchard"@))
    } else if building_type == "building_livestock_ranch"@ {
        Some((2, "building_wool_farm"@))
    } else if building_type == "building_food_industry"@ {
        Some((4, "building_distillery"@))
    } else {
        None
    }
}

/// How a building type converts: roughly one level in `ratio` becomes a
/// level of `target`.
pub struct ConversionRule {
    pub ratio: u32,
    pub target: String,
}

fn named(building_type: &String, name: &str) -> (r: bool)
    ensures
        r == (building_type@ == name@),
{
    let n = String::from_str(name);
    *building_type == n
}

fn rule(ratio: u32, target: &str) -> (r: ConversionRule)
    ensures
        r.ratio == ratio,
        r.target@ == target@,
{
    ConversionRule { ratio, target: String::from_str(target) }
}

/// Looks a building type up in the conversion table.
pub fn conversion_rule(building_type: &String) -> (r: Option<ConversionRule>)
    ensures
        match conversion_of(building_type@) {
            None => r is None,
            Some((ratio, target)) => r matches Some(c) && c.ratio == ratio && c.target@ == target,
        },
{
    if named(building_type, "building_textile_mill") {
        Some(rule(4, "building_tailoring_workshop"))
    } else if named(building_type, "building_furniture_manufactory") {
        Some(rule(4, "building_luxury_furniture_manufactory"))
    } else if named(building_type, "building_glassworks") {
        Some(rule(4, "building_pottery_mill"))
    } else if named(building_type, "building_rye_farm") {
        Some(rule(6, "building_fruit_orchard"))
    } else if named(building_type, "building_wheat_farm") {
        Some(rule(6, "building_fruit_orchard"))
    } else if named(building_type, "building_rice_farm") {
        Some(rule(6, "building_fruit_orchard"))
    } else if named(building_type, "building_millet_farm") {
        Some(rule(6, "building_fruit_orchard"))
    } else if named(building_type, "building_maize_farm") {
        Some(rule(6, "building_fruit_orchard"))
    } else if named(building_type, "building_livestock_ranch") {
        Some(rule(2, "building_wool_farm"))
    } else if named(building_type, "building_food_industry") {
        Some(rule(4, "building_distillery"))
    } else {
        None
    }
}

} // verus!
