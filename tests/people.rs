use sand_grid::people::{add_people, update_people, Name, Person};

fn texts(names: &[Name]) -> Vec<String> {
    names.iter().map(|n| n.0.clone()).collect()
}

#[test]
fn roster_starts_with_three_people() {
    let names = add_people();
    assert_eq!(texts(&names), vec!["Elaina Proctor", "Renzo Hume", "Zayna Nieves"]);
    let _marker = Person;
}

#[test]
fn update_renames_first_match_only() {
    let mut names = add_people();
    names.push(Name("Renzo Hume".to_string()));
    update_people(&mut names);
    assert_eq!(
        texts(&names),
        vec!["Elaina Proctor", "Renzo Proctor", "Zayna Nieves", "Renzo Hume"]
    );
}

#[test]
fn update_without_match_changes_nothing() {
    let mut names = vec![Name("Ada".to_string())];
    update_people(&mut names);
    assert_eq!(texts(&names), vec!["Ada"]);
    let mut empty: Vec<Name> = Vec::new();
    update_people(&mut empty);
    assert!(empty.is_empty());
}
