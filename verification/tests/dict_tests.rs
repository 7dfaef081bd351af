use column_transform::dict::DictionaryMapper;

fn s(x: &str) -> Option<String> {
    Some(x.to_string())
}

fn mapper(pairs: &[(&str, &str)]) -> DictionaryMapper {
    let mut d = DictionaryMapper::new();
    for (k, v) in pairs {
        d.insert(k.to_string(), v.to_string());
    }
    d
}

#[test]
fn get_present_and_missing() {
    let d = mapper(&[("a", "x"), ("b", "y")]);
    assert_eq!(d.get(&"a".to_string()), Some(&"x".to_string()));
    assert_eq!(d.get(&"b".to_string()), Some(&"y".to_string()));
    assert_eq!(d.get(&"c".to_string()), None);
}

#[test]
fn insert_last_binding_wins() {
    let d = mapper(&[("a", "x"), ("a", "z")]);
    assert_eq!(d.get(&"a".to_string()), Some(&"z".to_string()));
}

#[test]
fn map_dict_with_null_and_missing_key() {
    let d = mapper(&[("a", "x"), ("b", "y")]);
    let input = vec![s("a"), None, s("c"), s("b")];
    let output = d.apply(&input);
    assert_eq!(output, vec![s("x"), None, s("c"), s("y")]);
}

#[test]
fn empty_mapping_passes_through() {
    let d = DictionaryMapper::new();
    let input = vec![s("a"), s("b")];
    let output = d.apply(&input);
    assert_eq!(output, vec![s("a"), s("b")]);
}

#[test]
fn empty_column_stays_empty() {
    let d = mapper(&[("a", "x")]);
    let input: Vec<Option<String>> = vec![];
    assert_eq!(d.apply(&input), Vec::<Option<String>>::new());
}

#[test]
fn nulls_only_stay_nulls() {
    let d = mapper(&[("a", "x")]);
    let input = vec![None, None];
    assert_eq!(d.apply(&input), vec![None, None]);
}

#[test]
fn applying_twice_equals_once_when_image_avoids_domain() {
    // The image {"x"} is disjoint from the domain {"a"}, so a second
    // application changes nothing.
    let d = mapper(&[("a", "x")]);
    let input = vec![s("a"), s("x"), None, s("q")];
    let once = d.apply(&input);
    let twice = d.apply(&once);
    assert_eq!(once, vec![s("x"), s("x"), None, s("q")]);
    assert_eq!(twice, once);
}
