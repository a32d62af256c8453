//! The builder pipeline over a small roster file: loading, ingestion,
//! scoring, ranking and distribution.

use team_builder::Person;
use team_builder::TeamBuilder;

const SKILL_PROGRAMMING: usize = 2;

fn even_csv() -> String {
    [
        "Surname;Game Design;Level Design;Programming;Narrative;Graphics;Teamwork",
        "De Dominicis;3;3;0;2;2;2",
        "Ricchiuti;2;2;2;3;2;2",
        "Pomettini;1;1;5;2;1;1",
        "Bonanni;3;2;3;2;2;2",
        "Reclus;2;1;2;2;1;1",
        "Leotta;2;2;1;2;2;1",
    ]
    .join("\n")
}

fn uneven_csv() -> String {
    [
        "Surname;Game Design;Level Design;Programming;Narrative;Graphics;Teamwork",
        "De Dominicis;3;3;0;2;2;2",
        "Ricchiuti;2;2;2;3;2;2",
        "Pomettini;1;1;5;2;1;1",
        "Bonanni;3;2;3;2;2;2",
        "Leotta;2;2;1;2;2;1",
    ]
    .join("\n")
}

fn builder_loaded(contents: String) -> TeamBuilder {
    let mut tb = TeamBuilder::new();
    tb.set_people_file(contents);
    tb
}

fn builder_processed(contents: String) -> TeamBuilder {
    let mut tb = builder_loaded(contents);
    tb.process_file().expect("Cannot process file");
    tb
}

fn average_as_f32(p: &Person) -> f32 {
    p.average_skill_level.sum as f32 / p.average_skill_level.count as f32
}

fn approx(a: f32, b: f32) -> bool {
    (a - b).abs() <= 1e-5
}

#[test]
fn test_load_csv_correct_path() {
    let tb = builder_loaded(even_csv());
    assert!(!tb.people_file.is_empty());
}

#[test]
fn test_load_csv_valid_content() {
    let tb = builder_processed(even_csv());
    assert!(!tb.people_file.is_empty());
}

#[test]
fn test_get_people_number_green() {
    let tb = builder_processed(even_csv());
    assert_eq!(tb.people.len(), 6);
}

#[test]
fn test_get_people_number_red() {
    let tb = builder_processed(even_csv());
    assert_ne!(tb.people.len(), 0);
}

#[test]
fn test_get_skills_green() {
    let tb = builder_processed(even_csv());
    assert_eq!(
        tb.skills,
        vec![
            "Game Design",
            "Level Design",
            "Programming",
            "Narrative",
            "Graphics",
            "Teamwork"
        ]
    );
}

#[test]
fn test_get_skills_red() {
    let tb = builder_processed(even_csv());
    assert_ne!(tb.skills, vec!["None"]);
}

#[test]
fn test_get_people_skills_average_green() {
    let tb = builder_processed(even_csv());
    let first = tb.people[0].get_average_skills();
    let second = tb.people[1].get_average_skills();
    assert!(approx(first.sum as f32 / first.count as f32, 2.0));
    assert!(approx(second.sum as f32 / second.count as f32, 2.166_666_7));
}

#[test]
fn test_get_people_skills_average_red() {
    let tb = builder_processed(even_csv());
    let first = tb.people[0].get_average_skills();
    let second = tb.people[1].get_average_skills();
    assert!(!approx(first.sum as f32 / first.count as f32, 3.0));
    assert!(!approx(second.sum as f32 / second.count as f32, 3.0));
}

#[test]
fn test_check_number_of_teams_divisible_first() {
    let tb = builder_processed(even_csv());
    assert_eq!(tb.check_number_of_teams(2), Some((3, 0)));
}

#[test]
fn test_check_number_of_teams_divisible_second() {
    let tb = builder_processed(even_csv());
    assert_eq!(tb.check_number_of_teams(3), Some((2, 0)));
}

#[test]
fn test_check_number_of_teams_not_divisible() {
    let tb = builder_processed(even_csv());
    assert_eq!(tb.check_number_of_teams(4), Some((1, 2)));
}

#[test]
fn test_check_number_of_teams_same_size() {
    let tb = builder_processed(even_csv());
    assert_eq!(tb.check_number_of_teams(6), None);
}

#[test]
fn test_check_number_of_teams_exceed() {
    let tb = builder_processed(even_csv());
    assert_eq!(tb.check_number_of_teams(7), None);
}

#[test]
fn test_calculate_skill_level_green() {
    let mut tb = builder_processed(even_csv());

    tb.calculate_teams_skill_level();

    let person = tb
        .people
        .iter()
        .find(|x| x.surname == "Pomettini")
        .unwrap();

    assert!(approx(average_as_f32(person), 1.833_333));
}

#[test]
fn test_calculate_skill_level_red() {
    let mut tb = builder_processed(even_csv());

    tb.calculate_teams_skill_level();

    let person = tb
        .people
        .iter()
        .find(|x| x.surname == "Pomettini")
        .unwrap();

    assert!(!approx(average_as_f32(person), 2.0));
}

#[test]
fn test_sort_by_skill_level_best_green() {
    let mut tb = builder_processed(even_csv());

    tb.calculate_teams_skill_level();
    tb.sort_teams_by_skill_level(None);

    assert_eq!(tb.people.last().unwrap().surname, "Bonanni");
}

#[test]
fn test_sort_by_skill_level_best_red() {
    let mut tb = builder_processed(even_csv());

    tb.calculate_teams_skill_level();
    tb.sort_teams_by_skill_level(None);

    assert_ne!(tb.people.last().unwrap().surname, "Pomettini");
}

#[test]
fn test_sort_by_skill_level_worst_green() {
    let mut tb = builder_processed(even_csv());

    tb.calculate_teams_skill_level();
    tb.sort_teams_by_skill_level(None);

    assert_eq!(tb.people.first().unwrap().surname, "Reclus");
}

#[test]
fn test_sort_by_skill_level_worst_red() {
    let mut tb = builder_processed(even_csv());

    tb.calculate_teams_skill_level();
    tb.sort_teams_by_skill_level(None);

    assert_ne!(tb.people.first().unwrap().surname, "Pomettini");
}

#[test]
fn test_sort_by_skill_best_green() {
    let mut tb = builder_processed(even_csv());

    tb.calculate_teams_skill_level();
    tb.sort_teams_by_skill_level(Some(SKILL_PROGRAMMING));

    assert_eq!(tb.people.last().unwrap().surname, "Pomettini");
}

#[test]
fn test_sort_by_specific_skill_best_red() {
    let mut tb = builder_processed(even_csv());

    tb.calculate_teams_skill_level();
    tb.sort_teams_by_skill_level(Some(SKILL_PROGRAMMING));

    assert_ne!(tb.people.last().unwrap().surname, "De Dominicis");
}

#[test]
fn test_sort_by_specific_skill_worst_green() {
    let mut tb = builder_processed(even_csv());

    tb.calculate_teams_skill_level();
    tb.sort_teams_by_skill_level(Some(SKILL_PROGRAMMING));

    assert_eq!(tb.people.first().unwrap().surname, "De Dominicis");
}

#[test]
fn test_sort_by_specific_skill_worst_red() {
    let mut tb = builder_processed(even_csv());

    tb.calculate_teams_skill_level();
    tb.sort_teams_by_skill_level(Some(SKILL_PROGRAMMING));

    assert_ne!(tb.people.first().unwrap().surname, "Pomettini");
}

#[test]
fn test_assign_people_to_team_even() {
    let mut tb = builder_processed(even_csv());

    tb.calculate_teams_skill_level();
    tb.sort_teams_by_skill_level(None);
    tb.assign_people_to_team(3);

    let first_team: Vec<String> = tb.teams[0]
        .people
        .iter()
        .map(|x| x.surname.clone())
        .collect();

    let second_team: Vec<String> = tb.teams[1]
        .people
        .iter()
        .map(|x| x.surname.clone())
        .collect();

    assert_eq!(tb.teams.len(), 2);
    assert_eq!(first_team, vec!["Bonanni", "Pomettini", "Leotta"]);
    assert_eq!(second_team, vec!["Ricchiuti", "De Dominicis", "Reclus"]);
}

#[test]
fn test_assign_people_to_team_uneven() {
    let mut tb = builder_processed(uneven_csv());

    tb.calculate_teams_skill_level();
    tb.sort_teams_by_skill_level(None);
    tb.assign_people_to_team(2);

    let first_team: Vec<String> = tb.teams[0]
        .people
        .iter()
        .map(|x| x.surname.clone())
        .collect();

    let second_team: Vec<String> = tb.teams[1]
        .people
        .iter()
        .map(|x| x.surname.clone())
        .collect();

    assert_eq!(tb.teams.len(), 2);
    assert_eq!(first_team, vec!["Bonanni", "Pomettini", "Leotta"]);
    assert_eq!(second_team, vec!["Ricchiuti", "De Dominicis"]);
}
