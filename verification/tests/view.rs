use war_analyzer::parser::parse_document;
use war_analyzer::view::{build_parsed_savefile_view, WarKindView};
use war_analyzer::war::extract_wars;

fn amount(thousandths: u64) -> f64 {
    thousandths as f64 / 1000.0
}

fn total(thousandths: u128) -> f64 {
    thousandths as f64 / 1000.0
}

#[test]
fn builds_sectioned_sorted_view_and_breaks_units_down_by_side() {
    let document = parse_document(
        r#"
        active_war = {
          name = "Low Loss War"
          history = {
            battle = {
              name = "Quiet Front"
              location = 10
              result = no
              attacker = {
                country = ENG
                infantry = 1000
                losses = 400
              }
              defender = {
                country = FRA
                infantry = 800
                losses = 300
              }
            }
          }
          attacker = ENG
          defender = FRA
          original_attacker = ENG
          original_defender = FRA
        }
        active_war = {
          name = "High Loss War"
          history = {
            battle = {
              name = "Smaller Clash"
              location = 20
              result = yes
              attacker = {
                country = PRU
                artillery = 300
                engineer = 50
                losses = 500
              }
              defender = {
                country = AUS
                dragoon = 100
                artillery = 200
                losses = 300
              }
            }
            battle = {
              name = "Grand Battle"
              location = 30
              result = yes
              attacker = {
                country = PRU
                infantry = 400
                artillery = 100
                losses = 2500
              }
              defender = {
                country = AUS
                infantry = 500
                hussar = 200
                losses = 1500
              }
            }
          }
          attacker = PRU
          defender = AUS
          original_attacker = PRU
          original_defender = AUS
        }
        previous_war = {
          name = "Older War"
          history = {
            battle = {
              name = "Legacy Fight"
              location = 40
              result = no
              attacker = {
                country = RUS
                infantry = 200
                losses = 100
              }
              defender = {
                country = TUR
                infantry = 100
                losses = 150
              }
            }
          }
          attacker = RUS
          defender = TUR
          original_attacker = RUS
          original_defender = TUR
        }
        "#,
    )
    .unwrap();

    let wars = extract_wars(&document);
    let view = build_parsed_savefile_view("campaign.v2".to_string(), 3, &wars);

    assert_eq!(view.path, "campaign.v2");
    assert_eq!(view.top_level_statement_count, 3);
    assert_eq!(view.active_wars.len(), 2);
    assert_eq!(view.previous_wars.len(), 1);
    assert_eq!(view.active_wars[0].name, "High Loss War");
    assert_eq!(view.active_wars[0].kind, WarKindView::Active);
    assert_eq!(view.active_wars[0].battle_count, 2);
    assert_eq!(total(view.active_wars[0].total_losses), 4800.0);
    assert_eq!(view.active_wars[0].battles[0].name, "Grand Battle");
    assert_eq!(
        view.active_wars[0].battles[0].location_label,
        "Province #30"
    );
    assert_eq!(amount(view.active_wars[0].battles[0].total_losses), 4000.0);
    assert_eq!(
        view.active_wars[0].battles[0].attacker.country.as_deref(),
        Some("PRU")
    );
    assert_eq!(view.active_wars[0].battles[0].unit_breakdown.len(), 3);
    assert_eq!(
        view.active_wars[0].battles[0].unit_breakdown[0].unit_kind,
        "infantry"
    );
    assert_eq!(
        view.active_wars[0].battles[0].unit_breakdown[0].attacker_count,
        400
    );
    assert_eq!(
        view.active_wars[0].battles[0].unit_breakdown[0].defender_count,
        500
    );
    assert_eq!(
        view.active_wars[0].battles[0].unit_breakdown[1].unit_kind,
        "hussar"
    );
    assert_eq!(
        view.active_wars[0].battles[0].unit_breakdown[1].attacker_count,
        0
    );
    assert_eq!(
        view.active_wars[0].battles[0].unit_breakdown[1].defender_count,
        200
    );
    assert_eq!(
        view.active_wars[0].battles[0].unit_breakdown[2].unit_kind,
        "artillery"
    );
    assert_eq!(view.active_wars[1].name, "Low Loss War");
    assert_eq!(view.previous_wars[0].kind, WarKindView::Previous);
}

#[test]
fn carries_overflow_corrected_losses_and_handles_missing_values() {
    let document = parse_document(
        r#"
        active_war = {
          name = "Overflow War"
          history = {
            battle = {
              name = "Huge Clash"
              location = 1
              result = yes
              attacker = {
                country = ENG
                losses = -1294967.296
              }
              defender = {
                country = FRA
              }
            }
            battle = {
              name = "Aftermath"
              location = 2
              result = no
              attacker = {
                country = ENG
              }
              defender = {
                country = FRA
              }
            }
          }
          attacker = ENG
          defender = FRA
          original_attacker = ENG
          original_defender = FRA
        }
        "#,
    )
    .unwrap();

    let wars = extract_wars(&document);
    let view = build_parsed_savefile_view("overflow.v2".to_string(), 1, &wars);
    let war = &view.active_wars[0];

    assert_eq!(total(war.total_losses), 3000000.0);
    assert_eq!(war.battles[0].name, "Huge Clash");
    assert_eq!(war.battles[0].attacker.losses.map(amount), Some(3000000.0));
    assert_eq!(war.battles[0].defender.losses.map(amount), None);
    assert!(war.battles[0].unit_breakdown.is_empty());
    assert_eq!(amount(war.battles[1].total_losses), 0.0);
    assert_eq!(war.battles[1].attacker.losses.map(amount), None);
    assert!(war.battles[1].unit_breakdown.is_empty());
}

#[test]
fn falls_back_to_original_participants_when_side_lists_are_missing() {
    let document = parse_document(
        r#"
        previous_war = {
          name = "Originals Only"
          history = {
            battle = {
              name = "Test Battle"
              location = 9
              result = yes
              attacker = {
                country = ENG
                losses = 10
              }
              defender = {
                country = FRA
                losses = 5
              }
            }
          }
          original_attacker = ENG
          original_defender = FRA
        }
        "#,
    )
    .unwrap();

    let wars = extract_wars(&document);
    let view = build_parsed_savefile_view("originals.v2".to_string(), 1, &wars);

    assert_eq!(view.previous_wars[0].attackers, vec!["ENG".to_string()]);
    assert_eq!(view.previous_wars[0].defenders, vec!["FRA".to_string()]);
}
