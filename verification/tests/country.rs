use war_analyzer::country::parse_localisation_line;

fn entry(tag: &str, name: &str) -> Option<(String, String)> {
    Some((tag.to_string(), name.to_string()))
}

#[test]
fn parses_localisation_lines_using_the_first_two_fields() {
    assert_eq!(
        parse_localisation_line("\u{feff}ENG;The United Kingdom;Royaume-Uni;x"),
        entry("ENG", "The United Kingdom")
    );
    assert_eq!(parse_localisation_line(""), None);
    assert_eq!(parse_localisation_line("# comment"), None);
}

use war_analyzer::country::{
    build_country_catalog, build_sources, describe_source, is_localisation_extension,
    mod_folder_path, normalize_country_tags, resolve_flag_data_url, sort_file_names,
    validate_subdirectory, CountryNames, FlagFile, SourceProbe,
};

fn strings(items: &[&str]) -> Vec<String> {
    items.iter().map(|item| item.to_string()).collect()
}

fn probe(root: &str, exists: bool, is_dir: bool, localisation: bool, flags: bool) -> SourceProbe {
    SourceProbe {
        root: root.to_string(),
        exists,
        is_dir,
        localisation: format!("{root}/localisation"),
        localisation_is_dir: localisation,
        flags: format!("{root}/gfx/flags"),
        flags_is_dir: flags,
    }
}

fn sample_tga_bytes() -> Vec<u8> {
    vec![
        0, 0, 10, 0, 0, 0, 0, 0, 0, 0, 0, 0, 2, 0, 1, 0, 32, 8, 0x01, 0, 0, 255, 255, 0, 255, 0,
        255,
    ]
}

#[test]
fn skips_lines_without_a_tag_or_a_name() {
    assert_eq!(parse_localisation_line("  ENG ; England  "), entry("ENG", "England"));
    assert_eq!(parse_localisation_line("ENG"), None);
    assert_eq!(parse_localisation_line(";England"), None);
    assert_eq!(parse_localisation_line("ENG;  ;x"), None);
    assert_eq!(parse_localisation_line("   "), None);
}

#[test]
fn reports_missing_folders_of_each_source() {
    let mut warnings = Vec::new();
    let sources = build_sources(
        &probe("base", false, false, false, false),
        Some(&probe("mod", true, false, true, false)),
        &mut warnings,
    );
    assert_eq!(sources.len(), 2);
    assert_eq!(sources[0].label, "mod folder");
    assert_eq!(sources[0].localisation_dir.as_deref(), Some("mod/localisation"));
    assert_eq!(sources[0].flags_dir, None);
    assert_eq!(sources[1].label, "base game folder");
    assert_eq!(sources[1].localisation_dir, None);
    assert_eq!(
        warnings,
        strings(&[
            "mod folder is not a directory: mod",
            "mod folder is missing a flags folder at mod/gfx/flags",
            "base game folder does not exist: base",
            "base game folder is missing localisation at base/localisation",
            "base game folder is missing a flags folder at base/gfx/flags",
        ])
    );
}

#[test]
fn describes_a_complete_source_without_warnings() {
    let mut warnings = Vec::new();
    let source = describe_source("base game folder", &probe("game", true, true, true, true), &mut warnings);
    assert!(warnings.is_empty());
    assert_eq!(source.localisation_dir.as_deref(), Some("game/localisation"));
    assert_eq!(source.flags_dir.as_deref(), Some("game/gfx/flags"));
    let only_base = build_sources(&probe("game", true, true, true, true), None, &mut warnings);
    assert_eq!(only_base.len(), 1);
    assert_eq!(only_base[0].label, "base game folder");
    let missing = validate_subdirectory("mod folder", "localisation", &"m/localisation".to_string(), false, &mut warnings);
    assert_eq!(missing, None);
    assert_eq!(warnings, strings(&["mod folder is missing localisation at m/localisation"]));
}

#[test]
fn normalizes_requested_tags() {
    let tags = normalize_country_tags(&strings(&[" FRA", "ENG ", "", "  ", "FRA", "AUS"]));
    assert_eq!(tags, strings(&["AUS", "ENG", "FRA"]));
    assert_eq!(mod_folder_path(&Some("  /mods/x ".to_string())).as_deref(), Some("/mods/x"));
    assert_eq!(mod_folder_path(&Some("   ".to_string())), None);
    assert_eq!(mod_folder_path(&None), None);
}

#[test]
fn reads_localisation_files_in_name_order_with_any_case_extension() {
    assert!(is_localisation_extension("csv"));
    assert!(is_localisation_extension("CsV"));
    assert!(!is_localisation_extension("txt"));
    assert!(!is_localisation_extension("csvx"));
    assert_eq!(
        sort_file_names(strings(&["z.csv", "a.csv", "B.csv", "ab.csv"])),
        strings(&["B.csv", "a.csv", "ab.csv", "z.csv"])
    );
}

#[test]
fn keeps_the_first_name_each_source_finds() {
    let requested = strings(&["ENG", "FRA"]);
    let mut names = CountryNames::new(&requested);
    assert!(!names.is_complete());
    names.add_localisation_text("ENG;First Name;x\r\n# FRA;Commented;x\nGER;Germany;x\n");
    names.add_localisation_text("ENG;Second Name;x\r\nFRA;France;x");
    assert!(names.is_complete());
    assert_eq!(names.name_of("ENG").as_deref(), Some("First Name"));
    assert_eq!(names.name_of("FRA").as_deref(), Some("France"));
    assert_eq!(names.name_of("GER"), None);
}

#[test]
fn prefers_earlier_sources_and_falls_back_to_the_tag() {
    let requested = strings(&["ENG", "FRA", "PRU"]);
    let mut from_mod = CountryNames::new(&requested);
    from_mod.add_localisation_text("ENG;Albion;x\r\n");
    let mut from_base = CountryNames::new(&requested);
    from_base.add_localisation_text("ENG;United Kingdom;x\r\nFRA;France;x\r\n");
    let flag_files = vec![
        vec![
            FlagFile { path: "mod/gfx/flags/ENG.tga".to_string(), contents: Err("denied".to_string()) },
            FlagFile { path: "base/gfx/flags/ENG.tga".to_string(), contents: Ok(sample_tga_bytes()) },
        ],
        vec![FlagFile { path: "base/gfx/flags/FRA.tga".to_string(), contents: Ok(vec![1, 2, 3]) }],
        Vec::new(),
    ];
    let catalog = build_country_catalog(
        &requested,
        &vec![from_mod, from_base],
        &flag_files,
        strings(&["earlier"]),
    );
    let eng = catalog.get("ENG").expect("expected ENG");
    assert_eq!(eng.name, "Albion");
    assert!(eng.flag_data_url.as_deref().unwrap().starts_with("data:image/png;base64,"));
    let fra = catalog.get("FRA").expect("expected FRA");
    assert_eq!(fra.name, "France");
    assert_eq!(fra.flag_data_url, None);
    let pru = catalog.get("PRU").expect("expected PRU");
    assert_eq!(pru.name, "PRU");
    assert!(catalog.get("RUS").is_none());
    assert_eq!(
        catalog.warnings,
        strings(&[
            "earlier",
            "Failed to decode flag ENG from mod/gfx/flags/ENG.tga: denied",
            "Failed to decode flag FRA from base/gfx/flags/FRA.tga: TGA file is too small",
        ])
    );
}

#[test]
fn stops_at_the_first_flag_that_decodes() {
    let mut warnings = Vec::new();
    let files = vec![
        FlagFile { path: "a.tga".to_string(), contents: Ok(sample_tga_bytes()) },
        FlagFile { path: "b.tga".to_string(), contents: Err("unreadable".to_string()) },
    ];
    let url = resolve_flag_data_url(&"ENG".to_string(), &files, &mut warnings);
    assert!(url.is_some());
    assert!(warnings.is_empty());
    let none = resolve_flag_data_url(&"ENG".to_string(), &Vec::new(), &mut warnings);
    assert_eq!(none, None);
}
