use automate::states::{is_skipped_states_file, rewrite_state_line};

#[test]
fn grain_farms_gain_orchards() {
    let line = "    arable_resources = { \"bg_wheat_farms\" \"building_wheat_farm\" }";
    assert_eq!(
        rewrite_state_line(line),
        "    arable_resources = { \"bg_wheat_farms\" \"building_wheat_farm\" \"bg_fruit_orchard\" }"
    );
}

#[test]
fn ranches_gain_wool_farms() {
    let line = "\tarable_resources = { \"bg_livestock_ranches\" }";
    assert_eq!(
        rewrite_state_line(line),
        "\tarable_resources = { \"bg_livestock_ranches\" \"bg_wool_farm\" }"
    );
}

#[test]
fn both_additions_in_order() {
    let line = "arable_resources = { \"building_rye_farm\" \"bg_livestock_ranches\" }";
    assert_eq!(
        rewrite_state_line(line),
        "arable_resources = { \"building_rye_farm\" \"bg_livestock_ranches\" \"bg_fruit_orchard\" \"bg_wool_farm\" }"
    );
}

#[test]
fn other_lines_unchanged_but_marks_dropped() {
    assert_eq!(rewrite_state_line("\u{feff}STATE_X = {"), "STATE_X = {");
    assert_eq!(rewrite_state_line("  capped_resources = { \"bg_livestock_ranches\" }"),
        "  capped_resources = { \"bg_livestock_ranches\" }");
    assert_eq!(rewrite_state_line(""), "");
}

#[test]
fn resource_line_without_matches_unchanged() {
    let line = "arable_resources = { \"bg_coffee_plantations\" }";
    assert_eq!(rewrite_state_line(line), line);
}

#[test]
fn sea_states_file_is_skipped() {
    assert!(is_skipped_states_file("99_seas"));
    assert!(is_skipped_states_file("x_99_seas_extra"));
    assert!(!is_skipped_states_file("00_west_europe"));
    assert!(!is_skipped_states_file(""));
}
