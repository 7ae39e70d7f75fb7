use yaml_datastore::keypath::KeyPathParseError;
use yaml_datastore::{resolve, yaml_mapping_recurse, Datastore, Error, Node};

/// A file entry of an in-memory store: the parsed document, or `None` for
/// a file whose bytes do not parse.
type Store = Vec<(String, Option<Node<serde_yaml::Value>>)>;

/// Build the library's tree from a parsed document: mapping nodes carry
/// their string-keyed entries, every node carries its own value for the
/// caller to decode.
fn to_node(v: &serde_yaml::Value) -> Node<serde_yaml::Value> {
    let children = match v {
        serde_yaml::Value::Mapping(m) => {
            let mut entries: Vec<(String, Node<serde_yaml::Value>)> = Vec::new();
            for (key, value) in m {
                if let Some(k) = key.as_str() {
                    entries.push((k.to_string(), to_node(value)));
                }
            }
            Some(entries)
        }
        _ => None,
    };
    Node { data: v.clone(), children }
}

fn parse_node(yaml: &str) -> Node<serde_yaml::Value> {
    let value: serde_yaml::Value = serde_yaml::from_str(yaml).unwrap();
    to_node(&value)
}

fn mapping_entries(yaml: &str) -> Vec<(String, Node<serde_yaml::Value>)> {
    let mapping: serde_yaml::Mapping = serde_yaml::from_str(yaml).unwrap();
    to_node(&serde_yaml::Value::Mapping(mapping)).children.unwrap()
}

fn default_extensions() -> Vec<String> {
    vec!["yaml".to_string(), "yml".to_string()]
}

#[test]
fn empty_keys() {
    let yaml = "";
    let data = mapping_entries(yaml);
    let keys: Vec<String> = vec![];
    let value = yaml_mapping_recurse(&data, &keys).unwrap_err();
    assert!(matches!(value, Error::EmptyKeyVector));
}

#[test]
fn missing_key_in_data() {
    let yaml = "";
    let data = mapping_entries(yaml);
    let keys: Vec<String> = vec!["something".to_string()];
    let value = yaml_mapping_recurse(&data, &keys).unwrap_err();
    assert!(matches!(value, Error::KeyNotFound));
}

#[test]
fn flat_keys() {
    let yaml = "
        key1: false
        key2: true
        key3: false
        ";
    let data = mapping_entries(yaml);

    let keys: Vec<String> = vec!["key1".to_string()];
    let node = yaml_mapping_recurse(&data, &keys).unwrap();
    let value: bool = serde_yaml::from_value(node.data.clone()).unwrap();
    assert!(!value);

    let keys: Vec<String> = vec!["key2".to_string()];
    let node = yaml_mapping_recurse(&data, &keys).unwrap();
    let value: bool = serde_yaml::from_value(node.data.clone()).unwrap();
    assert!(value);

    let keys: Vec<String> = vec!["key3".to_string()];
    let node = yaml_mapping_recurse(&data, &keys).unwrap();
    let value: bool = serde_yaml::from_value(node.data.clone()).unwrap();
    assert!(!value);
}

#[test]
fn nested_keys() {
    let yaml = "
        outer:
            middle:
                inner: true
        ";
    let data = mapping_entries(yaml);
    let keys: Vec<String> =
        vec!["outer".to_string(), "middle".to_string(), "inner".to_string()];
    let node = yaml_mapping_recurse(&data, &keys).unwrap();
    let value: bool = serde_yaml::from_value(node.data.clone()).unwrap();
    assert!(value);
}

#[test]
fn intermediate_non_mapping_is_key_not_found() {
    let yaml = "outer: 3";
    let data = mapping_entries(yaml);
    let keys: Vec<String> = vec!["outer".to_string(), "inner".to_string()];
    let value = yaml_mapping_recurse(&data, &keys).unwrap_err();
    assert!(matches!(value, Error::KeyNotFound));
}

#[test]
fn initialize_yaml_datastore() {
    let _datastore: Datastore = Datastore::open("tests/data");
}

#[test]
fn datastore_keeps_root() {
    let datastore = Datastore::open("tests/data");
    assert_eq!(datastore.root(), "tests/data");
}

#[test]
fn resolve_via_residual_key() {
    // A store holding only `a/b/c.yaml` with content `{d: 42}`: the
    // keypath `a.b.c.d` must fall through the missing `a/b/c/d.*`
    // candidates and match key `d` inside `a/b/c.yaml`.
    let files: Store = vec![("a/b/c.yaml".to_string(), Some(parse_node("d: 42")))];
    let exts = default_extensions();
    let found = resolve(&files, "a.b.c.d", &exts).unwrap();
    assert!(!found.whole_file);
    let value: u64 = serde_yaml::from_value(found.node.data.clone()).unwrap();
    assert_eq!(value, 42);
}

#[test]
fn resolve_whole_file() {
    // `complete.yaml` with content `{complete: true}`: the keypath
    // `complete` has zero residual keys and yields the whole document.
    let files: Store =
        vec![("complete.yaml".to_string(), Some(parse_node("complete: true")))];
    let exts = default_extensions();
    let found = resolve(&files, "complete", &exts).unwrap();
    assert!(found.whole_file);
    let doc: std::collections::BTreeMap<String, bool> =
        serde_yaml::from_value(found.node.data.clone()).unwrap();
    assert_eq!(doc.get("complete"), Some(&true));
}

#[test]
fn resolve_prefers_longer_path() {
    // Both `a/b.yaml` (key `c: 1`) and `a.yaml` (key `b.c: 2`) exist: the
    // longer path must win, so `a.b.c` is 1, never 2.
    let files: Store = vec![
        ("a/b.yaml".to_string(), Some(parse_node("c: 1"))),
        ("a.yaml".to_string(), Some(parse_node("b:\n  c: 2"))),
    ];
    let exts = default_extensions();
    let found = resolve(&files, "a.b.c", &exts).unwrap();
    assert!(!found.whole_file);
    let value: i64 = serde_yaml::from_value(found.node.data.clone()).unwrap();
    assert_eq!(value, 1);
}

#[test]
fn resolve_skips_unparsable_file() {
    // `a.yaml` exists but does not parse; `a.yml` parses and holds the
    // key: the unparsable file is a soft miss and the next extension wins.
    let files: Store = vec![
        ("a.yaml".to_string(), None),
        ("a.yml".to_string(), Some(parse_node("b: 7"))),
    ];
    let exts = default_extensions();
    let found = resolve(&files, "a.b", &exts).unwrap();
    let value: i64 = serde_yaml::from_value(found.node.data.clone()).unwrap();
    assert_eq!(value, 7);
}

#[test]
fn resolve_exhausted_is_key_not_found() {
    let files: Store = vec![("other.yaml".to_string(), Some(parse_node("x: 1")))];
    let exts = default_extensions();
    let err = resolve(&files, "a.b", &exts).unwrap_err();
    assert!(matches!(err, Error::KeyNotFound));
}

#[test]
fn resolve_invalid_keypath_is_hard_error() {
    let files: Store = vec![("a.yaml".to_string(), Some(parse_node("b: 1")))];
    let exts = default_extensions();
    let err = resolve(&files, ".a.b", &exts).unwrap_err();
    assert!(matches!(
        err,
        Error::KeyPathError(KeyPathParseError::InvalidKeyPath)
    ));
}

#[test]
fn empty_key_vector_distinct_from_key_not_found() {
    let data = mapping_entries("x: 1");
    let no_keys: Vec<String> = vec![];
    let missing: Vec<String> = vec!["y".to_string()];
    let empty_err = yaml_mapping_recurse(&data, &no_keys).unwrap_err();
    let missing_err = yaml_mapping_recurse(&data, &missing).unwrap_err();
    assert!(matches!(empty_err, Error::EmptyKeyVector));
    assert!(matches!(missing_err, Error::KeyNotFound));
    assert_ne!(empty_err, missing_err);
}
