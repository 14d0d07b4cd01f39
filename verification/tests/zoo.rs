use collection::zoo::{MutantDog, Poodle, Zoo};

#[test]
fn walk_around_reports_each_dog() {
    let zoo = Zoo::new(
        vec![Poodle::new("james"), Poodle::new("rex")],
        vec![MutantDog::new("Charles")],
    );
    assert_eq!(zoo.walk_around(), vec!["james: WALK".to_string(), "rex: WALK".to_string()]);
}

#[test]
fn walk_lines_carry_the_names() {
    assert_eq!(Poodle::new("a").walk_line(), "a: WALK");
    assert_eq!(MutantDog::new("b").walk_line(), "b: Mutant WALK");
}

#[test]
fn empty_zoo_walks_nobody() {
    let zoo = Zoo::new(Vec::new(), Vec::new());
    assert_eq!(zoo.walk_around(), Vec::<String>::new());
}
