use automate::levels::parse_levels;
use automate::render::render_split;
use automate::rules::conversion_rule;
use automate::split::{split_building, Building, Owner, OwnerKind};

fn country(tag: &str, levels: u32) -> Owner {
    Owner { kind: OwnerKind::Country, country: tag.to_string(), levels }
}

fn owned_by(building_type: &str, tag: &str, region: &str, levels: u32) -> Owner {
    Owner {
        kind: OwnerKind::Building {
            building_type: building_type.to_string(),
            region: region.to_string(),
        },
        country: tag.to_string(),
        levels,
    }
}

fn building(building_type: &str, owners: Vec<Owner>) -> Building {
    Building { building_type: building_type.to_string(), owners, reserves: "1".to_string() }
}

#[test]
fn table_lists_conversions() {
    let r = conversion_rule(&"building_textile_mill".to_string()).unwrap();
    assert_eq!(r.ratio, 4);
    assert_eq!(r.target, "building_tailoring_workshop");
    let r = conversion_rule(&"building_maize_farm".to_string()).unwrap();
    assert_eq!(r.ratio, 6);
    assert_eq!(r.target, "building_fruit_orchard");
    let r = conversion_rule(&"building_livestock_ranch".to_string()).unwrap();
    assert_eq!(r.ratio, 2);
    assert_eq!(r.target, "building_wool_farm");
    assert!(conversion_rule(&"building_iron_mine".to_string()).is_none());
}

#[test]
fn unlisted_building_is_left_alone() {
    let b = building("building_iron_mine", vec![country("GBR", 20)]);
    assert!(split_building(&b).unwrap().is_none());
}

#[test]
fn small_building_is_left_alone() {
    let b = building("building_rye_farm", vec![country("GBR", 3)]);
    assert!(split_building(&b).unwrap().is_none());
}

#[test]
fn split_reduces_and_moves_levels() {
    let b = building(
        "building_textile_mill",
        vec![
            owned_by("building_textile_mill", "GBR", "STATE_LANCASHIRE", 3),
            country("GBR", 7),
        ],
    );
    let s = split_building(&b).unwrap().unwrap();
    assert_eq!(s.original_type, "building_textile_mill");
    assert_eq!(s.target_type, "building_tailoring_workshop");
    assert_eq!(s.reserves, "1");
    assert_eq!(s.order, vec![1, 0]);
    // Reduced original: the country first (7 levels), then the building (3).
    assert_eq!(s.reduced_owners.len(), 2);
    assert!(matches!(s.reduced_owners[0].kind, OwnerKind::Country));
    assert_eq!(s.reduced_owners[0].levels, 6);
    assert_eq!(s.reduced_owners[1].levels, 2);
    match &s.reduced_owners[1].kind {
        OwnerKind::Building { building_type, region } => {
            assert_eq!(building_type, "building_textile_mill");
            assert_eq!(region, "STATE_LANCASHIRE");
        }
        OwnerKind::Country => panic!("expected a building owner"),
    }
    // Target building: the self-owning building is renamed to the target type.
    assert_eq!(s.target_owners.len(), 2);
    assert_eq!(s.target_owners[0].levels, 1);
    assert_eq!(s.target_owners[0].country, "GBR");
    assert_eq!(s.target_owners[1].levels, 1);
    match &s.target_owners[1].kind {
        OwnerKind::Building { building_type, region } => {
            assert_eq!(building_type, "building_tailoring_workshop");
            assert_eq!(region, "STATE_LANCASHIRE");
        }
        OwnerKind::Country => panic!("expected a building owner"),
    }
}

#[test]
fn other_owner_types_keep_their_type() {
    let b = building(
        "building_wheat_farm",
        vec![owned_by("building_manor_house", "FRA", "STATE_ILE_DE_FRANCE", 12)],
    );
    let s = split_building(&b).unwrap().unwrap();
    assert_eq!(s.target_owners.len(), 1);
    assert_eq!(s.target_owners[0].levels, 2);
    assert_eq!(s.reduced_owners[0].levels, 10);
    match &s.target_owners[0].kind {
        OwnerKind::Building { building_type, .. } => {
            assert_eq!(building_type, "building_manor_house")
        }
        OwnerKind::Country => panic!("expected a building owner"),
    }
}

#[test]
fn owners_giving_nothing_are_left_out_of_target() {
    let b = building(
        "building_glassworks",
        vec![country("GBR", 5), country("FRA", 3), country("PRU", 1)],
    );
    // Ratio 4: 9 / 4 - 0.1 = 2.15 rounds to 2; parts [1, 1, 0].
    let s = split_building(&b).unwrap().unwrap();
    assert_eq!(s.reduced_owners.len(), 3);
    assert_eq!(s.reduced_owners[2].levels, 1);
    assert_eq!(s.target_owners.len(), 2);
    assert_eq!(s.target_owners[0].country, "GBR");
    assert_eq!(s.target_owners[1].country, "FRA");
    for o in &s.target_owners {
        assert!(o.levels > 0);
    }
}

#[test]
fn levels_are_read_as_decimal() {
    assert_eq!(parse_levels("12"), Some(12));
    assert_eq!(parse_levels("+7"), Some(7));
    assert_eq!(parse_levels("0"), Some(0));
    assert_eq!(parse_levels("4294967295"), Some(u32::MAX));
    assert_eq!(parse_levels("4294967296"), None);
    assert_eq!(parse_levels(""), None);
    assert_eq!(parse_levels("+"), None);
    assert_eq!(parse_levels("-3"), None);
    assert_eq!(parse_levels("1x"), None);
}

#[test]
fn split_renders_as_game_script() {
    let b = building(
        "building_textile_mill",
        vec![
            owned_by("building_textile_mill", "GBR", "STATE_LANCASHIRE", 3),
            country("GBR", 7),
        ],
    );
    let s = split_building(&b).unwrap().unwrap();
    let expected = "\t\t\tremove_building = building_textile_mill\n\
\t\t\tcreate_building = {\n\
\t\t\t\tbuilding = \"building_textile_mill\"\n\
\t\t\t\tadd_ownership = {\n\
\t\t\t\t\tcountry = {\n\
\t\t\t\t\t\tcountry = \"GBR\"\n\
\t\t\t\t\t\tlevels = 6\n\
\t\t\t\t\t}\n\
\t\t\t\t\tbuilding = {\n\
\t\t\t\t\t\ttype = \"building_textile_mill\"\n\
\t\t\t\t\t\tcountry = \"GBR\"\n\
\t\t\t\t\t\tlevels = 2\n\
\t\t\t\t\t\tregion = \"STATE_LANCASHIRE\"\n\
\t\t\t\t\t}\n\
\t\t\t\t}\n\
\t\t\t}\n\
\t\t\tcreate_building = {\n\
\t\t\t\tbuilding = \"building_tailoring_workshop\"\n\
\t\t\t\tadd_ownership = {\n\
\t\t\t\t\tcountry = {\n\
\t\t\t\t\t\tcountry = \"GBR\"\n\
\t\t\t\t\t\tlevels = 1\n\
\t\t\t\t\t}\n\
\t\t\t\t\tbuilding = {\n\
\t\t\t\t\t\ttype = \"building_tailoring_workshop\"\n\
\t\t\t\t\t\tcountry = \"GBR\"\n\
\t\t\t\t\t\tlevels = 1\n\
\t\t\t\t\t\tregion = \"STATE_LANCASHIRE\"\n\
\t\t\t\t\t}\n\
\t\t\t\t}\n\
\t\t\t\treserves = 1\n\
\t\t\t}\n";
    assert_eq!(render_split(&s), expected);
}

#[test]
fn large_levels_render_in_decimal() {
    let b = building("building_livestock_ranch", vec![country("USA", 1234)]);
    let s = split_building(&b).unwrap().unwrap();
    // 1234 / 2 - 0.1 = 616.9 rounds to 617.
    let text = render_split(&s);
    assert!(text.contains("levels = 617\n"));
    assert!(text.contains("levels = 617\n\t\t\t\t\t}\n\t\t\t\t}\n\t\t\t}\n"));
    assert!(text.contains("building = \"building_wool_farm\""));
}
