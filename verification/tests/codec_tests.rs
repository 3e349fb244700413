use vocab::codec::{parse_vocabulary, serialize_vocabulary};
use vocab::dispatch::{list_lines, load_vocabulary, resolve_conflict, ConflictChoice, LoadPolicy};
use vocab::store::Vocabulary;

fn vocab_of(pairs: &[(&str, &str)]) -> Vocabulary {
    let mut v = Vocabulary::new();
    for (t, d) in pairs {
        v.add_new(t.to_string(), d.to_string());
    }
    v
}

#[test]
fn empty_vocabulary_file_text() {
    let v = Vocabulary::new();
    assert_eq!(serialize_vocabulary(&v), "{\n  \"words\": []\n}");
}

#[test]
fn one_entry_file_text() {
    let v = vocab_of(&[("x", "first def")]);
    let expected = "{\n  \"words\": [\n    {\n      \"term\": \"x\",\n      \"definition\": \"first def\"\n    }\n  ]\n}";
    assert_eq!(serialize_vocabulary(&v), expected);
}

#[test]
fn two_entry_file_text() {
    let v = vocab_of(&[("a", "da"), ("b", "db")]);
    let expected = "{\n  \"words\": [\n    {\n      \"term\": \"a\",\n      \"definition\": \"da\"\n    },\n    {\n      \"term\": \"b\",\n      \"definition\": \"db\"\n    }\n  ]\n}";
    assert_eq!(serialize_vocabulary(&v), expected);
}

#[test]
fn round_trip_plain_values() {
    let v = vocab_of(&[("a", "da"), ("b", "db"), ("c", "dc")]);
    let text = serialize_vocabulary(&v);
    let back = parse_vocabulary(&text).unwrap();
    assert_eq!(serialize_vocabulary(&back), text);
    assert_eq!(list_lines(&back), list_lines(&v));
}

#[test]
fn round_trip_escaped_values() {
    let v = vocab_of(&[
        ("quote\"inside", "back\\slash"),
        ("tab\there", "line\nbreak and\rreturn"),
        ("sõna", "tähendus ülakomaga '"),
    ]);
    let text = serialize_vocabulary(&v);
    let back = parse_vocabulary(&text).unwrap();
    assert_eq!(serialize_vocabulary(&back), text);
    assert_eq!(list_lines(&back), list_lines(&v));
}

#[test]
fn save_load_save_is_stable() {
    let v = vocab_of(&[("x", " spaced  def "), ("y", "")]);
    let text1 = serialize_vocabulary(&v);
    let loaded = parse_vocabulary(&text1).unwrap();
    let text2 = serialize_vocabulary(&loaded);
    assert_eq!(text1, text2);
}

#[test]
fn parse_accepts_compact_text() {
    let text = "{\"words\":[{\"term\":\"a\",\"definition\":\"b\"}]}";
    let v = parse_vocabulary(text).unwrap();
    assert_eq!(list_lines(&v), vec!["a: b"]);
}

#[test]
fn parse_accepts_loose_whitespace() {
    let text = "  {\n\t\"words\" :\n [ {\r\n \"term\"\t: \"a\" ,\n \"definition\" : \"b c\" } ,\n{ \"term\": \"d\", \"definition\": \"e\" } ] }\n  ";
    let v = parse_vocabulary(text).unwrap();
    assert_eq!(list_lines(&v), vec!["a: b c", "d: e"]);
}

#[test]
fn parse_undoes_escapes() {
    let text = "{\"words\":[{\"term\":\"q\\\"t\",\"definition\":\"a\\\\b\\nc\\td\\re\\/f\"}]}";
    let v = parse_vocabulary(text).unwrap();
    assert_eq!(v.words[0].term, "q\"t");
    assert_eq!(v.words[0].definition, "a\\b\nc\td\re/f");
}

#[test]
fn parse_rejects_malformed_text() {
    assert!(parse_vocabulary("").is_none());
    assert!(parse_vocabulary("garbage").is_none());
    assert!(parse_vocabulary("{\"words\": [").is_none());
    assert!(parse_vocabulary("{\"words\": []").is_none());
    assert!(parse_vocabulary("{\"word\": []}").is_none());
    assert!(parse_vocabulary("{\"words\": [{\"term\": \"a\"}]}").is_none());
    assert!(parse_vocabulary("{\"words\": []} trailing").is_none());
    assert!(parse_vocabulary("{\"words\": [{\"definition\": \"d\", \"term\": \"a\"}]}").is_none());
    assert!(parse_vocabulary("{\"words\": [{\"term\": \"a\", \"definition\": \"unterminated}]}").is_none());
}

#[test]
fn written_text_is_well_formed_json() {
    let v = vocab_of(&[("q\"t", "a\\b\nc"), ("y", "plain")]);
    let text = serialize_vocabulary(&v);
    let value: serde_json::Value = serde_json::from_str(&text).unwrap();
    let words = value.get("words").unwrap().as_array().unwrap();
    assert_eq!(words.len(), 2);
    assert_eq!(words[0].get("term").unwrap().as_str().unwrap(), "q\"t");
    assert_eq!(words[0].get("definition").unwrap().as_str().unwrap(), "a\\b\nc");
    assert_eq!(words[1].get("term").unwrap().as_str().unwrap(), "y");
}

#[test]
fn full_command_scenario() {
    // No file yet: adding substitutes an empty vocabulary.
    let mut file: Option<String> = None;
    let mut v = load_vocabulary(&file, LoadPolicy::SubstituteEmpty).ok().unwrap();
    assert!(!v.contains_term(&"x".to_string()));
    v.add_new("x".to_string(), "first def".to_string());
    file = Some(serialize_vocabulary(&v));

    // Adding the same term again, declining: the definition stays.
    let mut v = load_vocabulary(&file, LoadPolicy::SubstituteEmpty).ok().unwrap();
    assert!(v.contains_term(&"x".to_string()));
    resolve_conflict(&mut v, &"x".to_string(), &ConflictChoice::Decline);
    // Declined: nothing is written back.
    let loaded = load_vocabulary(&file, LoadPolicy::Propagate).ok().unwrap();
    assert_eq!(list_lines(&loaded), vec!["x: first def"]);

    // Adding again, accepting with a replacement: the definition changes.
    let mut v = load_vocabulary(&file, LoadPolicy::SubstituteEmpty).ok().unwrap();
    assert!(v.contains_term(&"x".to_string()));
    resolve_conflict(
        &mut v,
        &"x".to_string(),
        &ConflictChoice::Modify { replacement: "new def".to_string() },
    );
    file = Some(serialize_vocabulary(&v));
    let loaded = load_vocabulary(&file, LoadPolicy::Propagate).ok().unwrap();
    assert_eq!(list_lines(&loaded), vec!["x: new def"]);
    assert_eq!(loaded.count(), 1);

    // Removing the term empties the file.
    let mut v = load_vocabulary(&file, LoadPolicy::SubstituteEmpty).ok().unwrap();
    assert!(v.remove_term(&"x".to_string()));
    file = Some(serialize_vocabulary(&v));
    let loaded = load_vocabulary(&file, LoadPolicy::Propagate).ok().unwrap();
    assert_eq!(loaded.count(), 0);

    // Removing it again reports non-existence and writes the same bytes.
    let mut v = load_vocabulary(&file, LoadPolicy::SubstituteEmpty).ok().unwrap();
    let before = file.clone().unwrap();
    assert!(!v.remove_term(&"x".to_string()));
    assert_eq!(serialize_vocabulary(&v), before);
}
