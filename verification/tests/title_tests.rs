use xeno_canto_scraper::title::format_species_name;
use xeno_canto_scraper::title::parse_title;

#[test]
fn title_well_formed_mp3() {
    let (common, sci) = parse_title("XC - American Robin - Turdus migratorius.mp3");
    assert_eq!(common, "American Robin");
    assert_eq!(sci, "Turdus migratorius");
}

#[test]
fn title_well_formed_no_extension() {
    let (common, sci) = parse_title("XC12345 - Eurasian Blackbird - Turdus merula");
    assert_eq!(common, "Eurasian Blackbird");
    assert_eq!(sci, "Turdus merula");
}

#[test]
fn title_extra_segments_take_second_and_third() {
    let (common, sci) = parse_title("A - B - C - D");
    assert_eq!(common, "B");
    assert_eq!(sci, "C");
}

#[test]
fn title_missing_scientific_name() {
    let (common, sci) = parse_title("XC - Great Tit");
    assert_eq!(common, "Great Tit");
    assert_eq!(sci, "unknown");
}

#[test]
fn title_without_separator_is_unknown() {
    let (common, sci) = parse_title("Unknown Bird");
    assert_eq!(common, "unknown");
    assert_eq!(sci, "unknown");
}

#[test]
fn title_empty_is_unknown() {
    let (common, sci) = parse_title("");
    assert_eq!(common, "unknown");
    assert_eq!(sci, "unknown");
}

#[test]
fn title_fields_are_trimmed() {
    let (common, sci) = parse_title("XC - \tCoal Tit\t - Periparus ater.mp3");
    assert_eq!(common, "Coal Tit");
    assert_eq!(sci, "Periparus ater");
}

#[test]
fn species_name_is_lowercased_with_underscores() {
    assert_eq!(format_species_name("American Robin"), "american_robin");
}

#[test]
fn species_name_handles_non_ascii_lowercase() {
    assert_eq!(format_species_name("Tétras Lyre"), "tétras_lyre");
}

#[test]
fn species_name_of_lowercase_input_is_stable() {
    assert_eq!(format_species_name("wren"), "wren");
}
