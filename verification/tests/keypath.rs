use yaml_datastore::keypath::{validate_and_trim, CandidateIter, KeyPath, KeyPathParseError};

fn collect_forward(mut it: CandidateIter) -> Vec<(String, Vec<String>)> {
    let mut out: Vec<(String, Vec<String>)> = Vec::new();
    while let Some(c) = it.next() {
        out.push(c);
    }
    out
}

fn collect_backward(mut it: CandidateIter) -> Vec<(String, Vec<String>)> {
    let mut out: Vec<(String, Vec<String>)> = Vec::new();
    while let Some(c) = it.next_back() {
        out.push(c);
    }
    out
}

#[test]
fn adhoc() {
    let input = "this.is.a.keypath";
    let result = KeyPath::try_from(input).unwrap();
    let zipped = collect_forward(result.iter());
    let expected: Vec<(String, Vec<String>)> = vec![
        ("this/is/a/keypath.yaml".to_string(), vec![]),
        ("this/is/a/keypath.yml".to_string(), vec![]),
        ("this/is/a.yaml".to_string(), vec!["keypath".to_string()]),
        ("this/is/a.yml".to_string(), vec!["keypath".to_string()]),
        ("this/is.yaml".to_string(), vec!["a".to_string(), "keypath".to_string()]),
        ("this/is.yml".to_string(), vec!["a".to_string(), "keypath".to_string()]),
        (
            "this.yaml".to_string(),
            vec!["is".to_string(), "a".to_string(), "keypath".to_string()],
        ),
        (
            "this.yml".to_string(),
            vec!["is".to_string(), "a".to_string(), "keypath".to_string()],
        ),
    ];
    assert_eq!(zipped, expected);
}

#[test]
fn valid() {
    let input = "this.is.a.valid.keypath";
    let result = KeyPath::try_from(input).unwrap();
    let expected: Vec<String> = vec![
        "this".to_string(),
        "is".to_string(),
        "a".to_string(),
        "valid".to_string(),
        "keypath".to_string(),
    ];
    assert_eq!(result.components(), &expected);
    assert_eq!(result.to_string(), input);
}

#[test]
fn valid_with_spaces() {
    let input = " this . is . a . valid . keypath ";
    let result = KeyPath::try_from(input).unwrap();
    let expected: Vec<String> = vec![
        "this".to_string(),
        "is".to_string(),
        "a".to_string(),
        "valid".to_string(),
        "keypath".to_string(),
    ];
    assert_eq!(result.components(), &expected);
    assert_eq!(result.to_string(), "this.is.a.valid.keypath");
}

#[test]
fn err_contains_slash() {
    let input = "contains/slash";
    let result = KeyPath::try_from(input).unwrap_err();
    assert!(matches!(result, KeyPathParseError::InvalidKeyPath));
}

#[test]
fn err_empty_component_middle() {
    let input = "has..component";
    let result = KeyPath::try_from(input).unwrap_err();
    assert!(matches!(result, KeyPathParseError::InvalidKeyPath));
}

#[test]
fn err_empty_component_first() {
    let input = ".has.component";
    let result = KeyPath::try_from(input).unwrap_err();
    assert!(matches!(result, KeyPathParseError::InvalidKeyPath));
}

#[test]
fn err_empty_component_last() {
    let input = "has.component.";
    let result = KeyPath::try_from(input).unwrap_err();
    assert!(matches!(result, KeyPathParseError::InvalidKeyPath));
}

#[test]
fn err_whitespace_only_component() {
    let result = KeyPath::try_from("a. .b").unwrap_err();
    assert!(matches!(result, KeyPathParseError::InvalidKeyPath));
    let result = KeyPath::try_from("   ").unwrap_err();
    assert!(matches!(result, KeyPathParseError::InvalidKeyPath));
}

#[test]
fn single_component() {
    let result = KeyPath::try_from("keypath").unwrap();
    let expected: Vec<String> = vec!["keypath".to_string()];
    assert_eq!(result.components(), &expected);
    let zipped = collect_forward(result.iter());
    let expected: Vec<(String, Vec<String>)> = vec![
        ("keypath.yaml".to_string(), vec![]),
        ("keypath.yml".to_string(), vec![]),
    ];
    assert_eq!(zipped, expected);
}

#[test]
fn parse_idempotent_on_canonical_output() {
    let first = KeyPath::try_from(" a . b .c ").unwrap();
    let canonical = first.to_string();
    assert_eq!(canonical, "a.b.c");
    let second = KeyPath::try_from(&canonical).unwrap();
    assert_eq!(second.components(), first.components());
    assert_eq!(second.to_string(), canonical);
}

#[test]
fn candidate_count_and_split() {
    let kp = KeyPath::try_from("a.b.c").unwrap();
    let zipped = collect_forward(kp.iter());
    assert_eq!(zipped.len(), 3 * 2);
    for (path, keys) in &zipped {
        let path_components = path.split('/').count();
        assert_eq!(path_components + keys.len(), 3);
    }
    let exts: Vec<String> =
        vec!["yaml".to_string(), "yml".to_string(), "json".to_string()];
    let zipped = collect_forward(kp.candidates(&exts));
    assert_eq!(zipped.len(), 3 * 3);
}

#[test]
fn reverse_yields_mirror_order() {
    let kp = KeyPath::try_from("a.b.c").unwrap();
    let forward = collect_forward(kp.iter());
    let backward = collect_backward(kp.iter());
    let mut mirrored = forward.clone();
    mirrored.reverse();
    assert_eq!(backward, mirrored);
    assert_eq!(backward.first().unwrap().0, "a.yml".to_string());
}

#[test]
fn validate_and_trim_components() {
    assert_eq!(validate_and_trim("  spaced  ").unwrap(), "spaced");
    assert_eq!(validate_and_trim("plain").unwrap(), "plain");
    assert!(matches!(
        validate_and_trim("  ").unwrap_err(),
        KeyPathParseError::InvalidKeyPath
    ));
    assert!(matches!(
        validate_and_trim("with/slash").unwrap_err(),
        KeyPathParseError::InvalidKeyPath
    ));
    assert!(matches!(
        validate_and_trim("with.dot").unwrap_err(),
        KeyPathParseError::InvalidKeyPath
    ));
}

#[test]
fn custom_extensions() {
    let kp = KeyPath::try_from("a.b").unwrap();
    let exts: Vec<String> = vec!["json".to_string()];
    let zipped = collect_forward(kp.candidates(&exts));
    let expected: Vec<(String, Vec<String>)> = vec![
        ("a/b.json".to_string(), vec![]),
        ("a.json".to_string(), vec!["b".to_string()]),
    ];
    assert_eq!(zipped, expected);
}
