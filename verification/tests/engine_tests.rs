//! The engine on constructed rosters: serpentine scenarios, boundary
//! plans, parsing, errors, determinism and the HTML export.

use team_builder::Person;
use team_builder::ProcessError;
use team_builder::SkillAverage;
use team_builder::TeamBuilder;
use team_builder::generate_html;
use team_builder::ingest::build_roster;
use team_builder::parse::parse_u32;

fn person(surname: &str, levels: Vec<u32>) -> Person {
    Person {
        surname: surname.to_string(),
        skill_levels: levels,
        average_skill_level: SkillAverage::default(),
    }
}

/// A builder whose roster is already ranked ascending: each person gets a
/// single rating equal to their rank, and the averages are filled in.
fn ranked_builder(surnames: &[&str]) -> TeamBuilder {
    let mut tb = TeamBuilder::new();
    tb.skills = vec!["Skill".to_string()];
    for (rank, surname) in surnames.iter().enumerate() {
        tb.people.push(person(surname, vec![rank as u32 + 1]));
    }
    tb.calculate_teams_skill_level();
    tb
}

fn surnames_of(tb: &TeamBuilder, team: usize) -> Vec<String> {
    tb.teams[team].people.iter().map(|p| p.surname.clone()).collect()
}

#[test]
fn test_even_split_scenario() {
    let mut tb = ranked_builder(&[
        "Reclus",
        "Pomettini",
        "Ricchiuti",
        "Leotta",
        "De Dominicis",
        "Bonanni",
    ]);
    assert_eq!(tb.check_number_of_teams(3), Some((2, 0)));

    tb.assign_people_to_team(3);

    // The sweep pauses for one pick at each boundary while it reverses, so
    // over two teams the picks go to teams 0,1,1,0,0,1.
    assert_eq!(tb.teams.len(), 2);
    assert_eq!(surnames_of(&tb, 0), vec!["Bonanni", "Ricchiuti", "Pomettini"]);
    assert_eq!(surnames_of(&tb, 1), vec!["De Dominicis", "Leotta", "Reclus"]);
}

#[test]
fn test_uneven_split_scenario() {
    let roster = ["Ricchiuti", "De Dominicis", "Reclus", "Leotta", "Pomettini"];
    let mut tb = ranked_builder(&roster);
    assert_eq!(tb.check_number_of_teams(2), Some((2, 1)));

    tb.assign_people_to_team(2);

    assert_eq!(tb.teams.len(), 2);
    assert_eq!(tb.teams[0].people.len(), 3);
    assert_eq!(tb.teams[1].people.len(), 2);

    let mut all: Vec<String> = surnames_of(&tb, 0);
    all.extend(surnames_of(&tb, 1));
    all.sort();
    let mut expected: Vec<String> = roster.iter().map(|s| s.to_string()).collect();
    expected.sort();
    assert_eq!(all, expected);
}

#[test]
fn test_plan_rejects_equal_size() {
    let tb = ranked_builder(&["A", "B", "C", "D", "E", "F"]);
    assert_eq!(tb.check_number_of_teams(6), None);
}

#[test]
fn test_plan_rejects_oversize() {
    let tb = ranked_builder(&["A", "B", "C", "D", "E", "F"]);
    assert_eq!(tb.check_number_of_teams(7), None);
}

#[test]
fn test_plan_on_empty_roster() {
    let tb = TeamBuilder::new();
    assert_eq!(tb.check_number_of_teams(1), None);
}

#[test]
fn test_distribute_is_deterministic() {
    let mut tb = ranked_builder(&["A", "B", "C", "D", "E", "F", "G"]);
    tb.assign_people_to_team(2);
    let first_run: Vec<Vec<String>> =
        (0..tb.teams.len()).map(|t| surnames_of(&tb, t)).collect();

    tb.assign_people_to_team(2);
    let second_run: Vec<Vec<String>> =
        (0..tb.teams.len()).map(|t| surnames_of(&tb, t)).collect();

    assert_eq!(first_run, second_run);
}

#[test]
fn test_distribute_leaves_roster_untouched() {
    let mut tb = ranked_builder(&["A", "B", "C", "D"]);
    let before: Vec<String> = tb.people.iter().map(|p| p.surname.clone()).collect();
    tb.assign_people_to_team(2);
    let after: Vec<String> = tb.people.iter().map(|p| p.surname.clone()).collect();
    assert_eq!(before, after);
}

#[test]
fn test_sort_is_idempotent() {
    let mut tb = ranked_builder(&["C", "A", "B"]);
    tb.sort_teams_by_skill_level(None);
    let once: Vec<String> = tb.people.iter().map(|p| p.surname.clone()).collect();
    tb.sort_teams_by_skill_level(None);
    let twice: Vec<String> = tb.people.iter().map(|p| p.surname.clone()).collect();
    assert_eq!(once, twice);
}

#[test]
fn test_sort_keeps_ties_in_order() {
    let mut tb = TeamBuilder::new();
    tb.skills = vec!["Skill".to_string()];
    tb.people.push(person("First", vec![2]));
    tb.people.push(person("Second", vec![2]));
    tb.people.push(person("Third", vec![1]));
    tb.calculate_teams_skill_level();

    tb.sort_teams_by_skill_level(None);

    let order: Vec<String> = tb.people.iter().map(|p| p.surname.clone()).collect();
    assert_eq!(order, vec!["Third", "First", "Second"]);
}

#[test]
fn test_average_is_exact_mean() {
    let p = person("X", vec![1, 2, 4]);
    let avg = p.get_average_skills();
    assert_eq!(avg.sum, 7);
    assert_eq!(avg.count, 3);
}

#[test]
fn test_parse_u32_plain() {
    assert_eq!(parse_u32("42"), Some(42));
    assert_eq!(parse_u32("0"), Some(0));
    assert_eq!(parse_u32("007"), Some(7));
}

#[test]
fn test_parse_u32_limits() {
    assert_eq!(parse_u32("4294967295"), Some(u32::MAX));
    assert_eq!(parse_u32("4294967296"), None);
}

#[test]
fn test_parse_u32_rejects_junk() {
    assert_eq!(parse_u32(""), None);
    assert_eq!(parse_u32("12a"), None);
    assert_eq!(parse_u32("+7"), None);
    assert_eq!(parse_u32("-1"), None);
    assert_eq!(parse_u32(" 3"), None);
}

#[test]
fn test_process_file_rejects_ragged_rows() {
    let mut tb = TeamBuilder::new();
    tb.set_people_file("Surname;Skill One;Skill Two\nShort;1".to_string());
    assert_eq!(tb.process_file(), Err(ProcessError::MalformedCsv));
    assert_eq!(tb.people.len(), 0);
}

#[test]
fn test_process_file_rejects_bad_rating() {
    let mut tb = TeamBuilder::new();
    tb.set_people_file("Surname;Skill One\nName;abc".to_string());
    assert_eq!(tb.process_file(), Err(ProcessError::BadSkillValue));
}

#[test]
fn test_build_roster_reports_missing_field() {
    let rows = vec![
        vec!["Surname".to_string(), "Skill One".to_string()],
        vec!["OnlyName".to_string()],
    ];
    assert_eq!(build_roster(&rows), Err(ProcessError::MissingField));
}

#[test]
fn test_process_file_accepts_empty_text() {
    let mut tb = TeamBuilder::new();
    tb.set_people_file(String::new());
    assert_eq!(tb.process_file(), Ok(()));
    assert_eq!(tb.people.len(), 0);
    assert_eq!(tb.skills.len(), 0);
}

#[test]
fn test_process_file_unquotes_fields() {
    let mut tb = TeamBuilder::new();
    tb.set_people_file("Surname;Skill One\n\"De;Dominicis\";3".to_string());
    assert_eq!(tb.process_file(), Ok(()));
    assert_eq!(tb.people.len(), 1);
    assert_eq!(tb.people[0].surname, "De;Dominicis");
    assert_eq!(tb.people[0].skill_levels, vec![3]);
}

#[test]
fn test_spreadsheet_rows_layout() {
    let mut tb = ranked_builder(&["Ada", "Bob", "Cid", "Dot"]);
    tb.assign_people_to_team(2);

    let rows = team_builder::spreadsheet_exporter::spreadsheet_rows(&tb.teams);

    assert_eq!(
        rows,
        vec![
            vec!["Team name", "Dot", "Ada"],
            vec!["Team name", "Cid", "Bob"],
        ]
    );
}

#[test]
fn test_generate_html_document() {
    let mut tb = ranked_builder(&["Ada", "Bob", "Cid", "Dot"]);
    tb.assign_people_to_team(2);

    let html = generate_html(&tb.teams).expect("Cannot generate HTML");

    let header = "<!DOCTYPE html>\n<html>\n<head>\n<title>Team Builder</title>\n<style>\ntable {\n  font-family: arial, sans-serif;\n  border-collapse: collapse;\n}\n\ntd, th {\n  border: 1px solid #dddddd;\n  text-align: left;\n  padding: 8px;\n}\n\ntr:nth-child(even) {\n  background-color: #dddddd;\n}\n</style>\n</head>\n<body>";
    let footer = "</body>\n</html>";
    let expected = format!(
        "{}<table><tr><th>Team name</th><td>Dot</td><td>Ada</td></tr><tr><th>Team name</th><td>Cid</td><td>Bob</td></tr></table>{}",
        header, footer
    );
    assert_eq!(html, expected);
}
