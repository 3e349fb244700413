use vocab::dispatch::{
    list_lines, load_vocabulary, modify_chosen, resolve_conflict, version_line, ConflictChoice,
    LoadError, LoadPolicy,
};
use vocab::store::Vocabulary;
use vocab::text::trim_string;

#[test]
fn version_line_text() {
    assert_eq!(version_line(), "rs vocab 0.1.0");
}

#[test]
fn modify_chosen_only_on_one() {
    assert!(modify_chosen(1));
    assert!(!modify_chosen(0));
    assert!(!modify_chosen(2));
    assert!(!modify_chosen(-1));
}

#[test]
fn trim_string_removes_surrounding_whitespace() {
    assert_eq!(trim_string(&"  new def \n".to_string()), "new def");
    assert_eq!(trim_string(&"\t\r\n ".to_string()), "");
    assert_eq!(trim_string(&"inner  space".to_string()), "inner  space");
    assert_eq!(trim_string(&"näite sõna ".to_string()), "näite sõna");
}

#[test]
fn add_keeps_insertion_order() {
    let mut v = Vocabulary::new();
    v.add_new("b".to_string(), "second".to_string());
    v.add_new("a".to_string(), "first".to_string());
    v.add_new("c".to_string(), "third".to_string());
    assert_eq!(v.count(), 3);
    assert_eq!(list_lines(&v), vec!["b: second", "a: first", "c: third"]);
}

#[test]
fn contains_term_sees_only_present_terms() {
    let mut v = Vocabulary::new();
    v.add_new("tere".to_string(), "hello".to_string());
    assert!(v.contains_term(&"tere".to_string()));
    assert!(!v.contains_term(&"ter".to_string()));
    assert!(!v.contains_term(&"hello".to_string()));
}

#[test]
fn remove_absent_reports_nonexistence_and_changes_nothing() {
    let mut v = Vocabulary::new();
    v.add_new("a".to_string(), "da".to_string());
    v.add_new("b".to_string(), "db".to_string());
    let removed = v.remove_term(&"c".to_string());
    assert!(!removed);
    assert_eq!(v.count(), 2);
    assert_eq!(list_lines(&v), vec!["a: da", "b: db"]);
}

#[test]
fn remove_present_deletes_exactly_that_entry() {
    let mut v = Vocabulary::new();
    v.add_new("a".to_string(), "da".to_string());
    v.add_new("b".to_string(), "db".to_string());
    v.add_new("c".to_string(), "dc".to_string());
    let removed = v.remove_term(&"b".to_string());
    assert!(removed);
    assert_eq!(v.count(), 2);
    assert_eq!(list_lines(&v), vec!["a: da", "c: dc"]);
}

#[test]
fn declining_modification_keeps_definition() {
    let mut v = Vocabulary::new();
    v.add_new("x".to_string(), "first def".to_string());
    resolve_conflict(&mut v, &"x".to_string(), &ConflictChoice::Decline);
    assert_eq!(v.count(), 1);
    assert_eq!(list_lines(&v), vec!["x: first def"]);
}

#[test]
fn accepting_modification_replaces_trimmed_without_duplicate() {
    let mut v = Vocabulary::new();
    v.add_new("x".to_string(), "first def".to_string());
    v.add_new("y".to_string(), "other".to_string());
    resolve_conflict(
        &mut v,
        &"x".to_string(),
        &ConflictChoice::Modify { replacement: "  new def \n".to_string() },
    );
    assert_eq!(v.count(), 2);
    assert_eq!(list_lines(&v), vec!["x: new def", "y: other"]);
}

#[test]
fn added_definition_is_not_trimmed() {
    let mut v = Vocabulary::new();
    v.add_new("x".to_string(), " padded ".to_string());
    assert_eq!(list_lines(&v), vec!["x:  padded "]);
}

#[test]
fn load_missing_file_propagates_or_substitutes() {
    let r = load_vocabulary(&None, LoadPolicy::Propagate);
    assert_eq!(r.err(), Some(LoadError::Unreadable));
    let v = load_vocabulary(&None, LoadPolicy::SubstituteEmpty).ok().unwrap();
    assert_eq!(v.count(), 0);
}

#[test]
fn load_malformed_text_propagates_or_substitutes() {
    let bad = Some("not a vocabulary".to_string());
    let r = load_vocabulary(&bad, LoadPolicy::Propagate);
    assert_eq!(r.err(), Some(LoadError::Malformed));
    let v = load_vocabulary(&bad, LoadPolicy::SubstituteEmpty).ok().unwrap();
    assert_eq!(v.count(), 0);
}
