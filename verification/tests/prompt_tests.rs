use mutuals_graph::prompt::{accept_input, add_user_step, appened_names, classify_answer, classify_normalized, Answer, NameSet};

#[test]
fn input_is_trimmed_and_must_not_be_blank() {
    assert_eq!(accept_input("  carol \n"), Some("carol".to_string()));
    assert_eq!(accept_input(" \t\n"), None);
    assert_eq!(accept_input(""), None);
}

#[test]
fn answers_are_lowercased_and_trimmed() {
    assert_eq!(classify_answer("YES\n"), Answer::Yes);
    assert_eq!(classify_answer(" y "), Answer::Yes);
    assert_eq!(classify_answer("No"), Answer::No);
    assert_eq!(classify_answer("N"), Answer::No);
    assert_eq!(classify_answer("   "), Answer::Blank);
    assert_eq!(classify_answer("maybe"), Answer::Invalid);
    assert_eq!(classify_answer("yess"), Answer::Invalid);
    assert_eq!(classify_answer("ΝΟ"), Answer::Invalid);
}

#[test]
fn normalized_answers() {
    assert_eq!(classify_normalized("yes"), Answer::Yes);
    assert_eq!(classify_normalized("no"), Answer::No);
    assert_eq!(classify_normalized("YES"), Answer::Invalid);
    assert_eq!(classify_normalized(""), Answer::Blank);
    assert_eq!(classify_normalized("ye"), Answer::Invalid);
}

#[test]
fn names_are_added_once() {
    let mut set = NameSet::new();
    assert!(appened_names(&mut set, "ann"));
    assert!(appened_names(&mut set, "bob"));
    assert!(!appened_names(&mut set, "ann"));
    assert_eq!(set.len(), 2);
    assert!(set.contains("bob"));
    assert!(!set.contains("Bob"));
}

#[test]
fn gathering_names_keeps_each_and_stops_after_no() {
    let mut names: Vec<String> = Vec::new();
    assert!(add_user_step(&mut names, "a".to_string(), true));
    assert!(!add_user_step(&mut names, "b".to_string(), false));
    assert_eq!(names, vec!["a".to_string(), "b".to_string()]);
}
