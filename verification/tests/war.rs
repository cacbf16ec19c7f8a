use war_analyzer::parser::{parse_document, Block, Statement, Value};
use war_analyzer::war::{extract_wars, WarKind};

fn amount(thousandths: u64) -> f64 {
    thousandths as f64 / 1000.0
}

fn total(thousandths: u128) -> f64 {
    thousandths as f64 / 1000.0
}

#[test]
fn extracts_previous_and_active_wars_into_war_data() {
    let document = parse_document(
        r#"
            previous_war = {
              name = "The Brothers War"
              history = {
                battle = {
                  name = "Kavala"
                  location = 823
                  result = no
                  attacker = {
                    country = "ITA"
                    leader = "Pirzio Colonna"
                    artillery = 63000
                    guard = 24000
                    hussar = 12000
                    infantry = 24000
                    losses = 83643
                  }
                  defender = {
                    country = "TUR"
                    leader = "Lutfi Bey"
                    artillery = 90000
                    losses = 19697
                  }
                }
                1836.12.9 = {
                  add_attacker = USA
                }
              }
              original_attacker = ENG
              original_defender = FRA
              original_wargoal = {
                casus_belli = cut_down_to_size
              }
              action = {
                month = 4
              }
            }
            active_war = {
              name = "Great War"
              history = {
                battle = {
                  name = "Edirne"
                  location = 456
                  result = yes
                  attacker = {
                    country = ENG
                    artillery = 4000
                    infantry = 8000
                    losses = 1200
                  }
                  defender = {
                    country = FRA
                    artillery = 3000
                    losses = 900
                  }
                }
                1914.8.4 = {
                  mobilized = yes
                }
              }
              attacker = ENG
              attacker = USA
              defender = FRA
              defender = NGF
              original_attacker = ENG
              original_defender = FRA
              original_wargoal = {
                casus_belli = take_from_sphere
              }
              action = {
                month = 7
              }
              great_wars_enabled = yes
              war_goal = {
                actor = ENG
              }
            }
            "#,
    )
    .unwrap();

    let wars = extract_wars(&document);

    assert_eq!(wars.previous_wars.len(), 1);
    assert_eq!(wars.active_wars.len(), 1);

    let previous_war = &wars.previous_wars[0];
    assert_eq!(previous_war.kind, WarKind::Previous);
    assert_eq!(previous_war.name, "The Brothers War");
    assert_eq!(previous_war.original_attacker, "ENG");
    assert_eq!(previous_war.original_defender, "FRA");
    assert_eq!(previous_war.actions.len(), 1);
    assert_eq!(previous_war.original_wargoals.len(), 1);
    assert!(previous_war.war_goals.is_empty());
    let history = &previous_war.history;
    assert_eq!(history.battles.len(), 1);
    assert_eq!(history.battles[0].name, "Kavala");
    assert_eq!(history.battles[0].location, 823);
    assert_eq!(history.battles[0].attacker_won, Some(false));
    assert_eq!(history.battles[0].attacker.country.as_deref(), Some("ITA"));
    assert_eq!(
        history.battles[0].attacker.leader.as_deref(),
        Some("Pirzio Colonna")
    );
    assert_eq!(
        history.battles[0].attacker.losses_amount().map(amount),
        Some(83643.0)
    );
    assert_eq!(
        history.battles[0].attacker.unit_counts.get("artillery"),
        Some(&63000)
    );
    assert_eq!(history.battles[0].defender.country.as_deref(), Some("TUR"));
    assert_eq!(
        history.battles[0].defender.losses_amount().map(amount),
        Some(19697.0)
    );
    assert_eq!(amount(history.battles[0].attacker_losses()), 83643.0);
    assert_eq!(amount(history.battles[0].defender_losses()), 19697.0);
    assert_eq!(amount(history.battles[0].total_losses()), 103340.0);
    assert_eq!(total(previous_war.attacker_total_losses()), 83643.0);
    assert_eq!(total(previous_war.defender_total_losses()), 19697.0);
    assert_eq!(total(previous_war.total_losses()), 103340.0);
    assert_eq!(history.dated_entries.len(), 1);
    assert_eq!(history.dated_entries[0].date.year, 1836);
    assert_eq!(history.dated_entries[0].date.month, 12);
    assert_eq!(history.dated_entries[0].date.day, 9);
    assert_eq!(
        history.dated_entries[0].value,
        Value::Block(Block::Statements(vec![Statement {
            key: "add_attacker".to_string(),
            value: Some(Value::Identifier("USA".to_string())),
        }]))
    );

    let active_war = &wars.active_wars[0];
    assert_eq!(active_war.kind, WarKind::Active);
    assert_eq!(active_war.name, "Great War");
    assert_eq!(
        active_war.attackers,
        vec!["ENG".to_string(), "USA".to_string()]
    );
    assert_eq!(
        active_war.defenders,
        vec!["FRA".to_string(), "NGF".to_string()]
    );
    assert_eq!(active_war.original_attacker, "ENG");
    assert_eq!(active_war.original_defender, "FRA");
    assert_eq!(active_war.great_wars_enabled, Some(true));
    assert_eq!(active_war.actions.len(), 1);
    assert_eq!(active_war.original_wargoals.len(), 1);
    assert_eq!(active_war.war_goals.len(), 1);
    assert_eq!(
        active_war.history.battles[0]
            .attacker
            .unit_counts
            .get("infantry"),
        Some(&8000)
    );
    assert_eq!(active_war.history.battles[0].attacker_won, Some(true));
    assert_eq!(active_war.history.dated_entries[0].date.year, 1914);
}

#[test]
fn extracts_active_war_battles_nested_under_dated_history_entries() {
    let document = parse_document(
        r#"
            active_war = {
              name = "Dated Battle War"
              history = {
                1901.2.3 = {
                  theater = {
                    battle = {
                      name = "Kavala"
                      location = 823
                      result = 1
                      attacker = {
                        country = ENG
                        losses = 600
                      }
                      defender = {
                        country = FRA
                        losses = 400
                      }
                    }
                  }
                }
              }
              attacker = ENG
              defender = FRA
              original_attacker = ENG
              original_defender = FRA
            }
            "#,
    )
    .unwrap();

    let wars = extract_wars(&document);
    let war = &wars.active_wars[0];

    assert_eq!(war.history.dated_entries.len(), 1);
    assert_eq!(war.history.battles.len(), 1);
    assert_eq!(war.history.battles[0].name, "Kavala");
    assert_eq!(war.history.battles[0].location, 823);
    assert_eq!(war.history.battles[0].attacker_won, Some(true));
    assert_eq!(amount(war.history.battles[0].total_losses()), 1000.0);
    assert_eq!(total(war.attacker_total_losses()), 600.0);
    assert_eq!(total(war.defender_total_losses()), 400.0);
    assert_eq!(total(war.total_losses()), 1000.0);
}

#[test]
fn corrects_overflowed_battle_losses() {
    let document = parse_document(
        r#"
            active_war = {
              name = "Overflow War"
              history = {
                battle = {
                  name = "Big Battle"
                  location = 1
                  result = yes
                  attacker = {
                    country = ENG
                    losses = -1294967.296
                  }
                  defender = {
                    country = FRA
                    losses = 0
                  }
                }
              }
              attacker = ENG
              defender = FRA
              original_attacker = ENG
              original_defender = FRA
            }
            "#,
    )
    .unwrap();

    let wars = extract_wars(&document);
    let battle = &wars.active_wars[0].history.battles[0];

    assert_eq!(battle.attacker.losses_amount().map(amount), Some(3000000.0));
    assert_eq!(amount(battle.attacker_losses()), 3000000.0);
    assert_eq!(amount(battle.defender_losses()), 0.0);
    assert_eq!(amount(battle.total_losses()), 3000000.0);
    assert_eq!(total(wars.active_wars[0].attacker_total_losses()), 3000000.0);
    assert_eq!(total(wars.active_wars[0].defender_total_losses()), 0.0);
    assert_eq!(total(wars.active_wars[0].total_losses()), 3000000.0);
}
