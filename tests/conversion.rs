use serde_yaml_nested::conversion::{flatten, unflatten, Error};
use serde_yaml_nested::tree::{Key, Value as Tree};
use serde_yaml_ng::from_str;
use serde_yaml_ng::Mapping;
use serde_yaml_ng::Number;
use serde_yaml_ng::Value;
use std::collections::BTreeMap;

fn to_key(key: Value) -> Key {
    match key {
        Value::Bool(b) => Key::Bool(b),
        Value::Number(n) => Key::Number(n),
        Value::String(s) => Key::String(s),
        other => panic!("a mapping key should be literal, found: {:?}", other),
    }
}

fn to_tree(value: Value) -> Tree {
    match value {
        Value::Null => Tree::Null,
        Value::Bool(b) => Tree::Bool(b),
        Value::Number(n) => Tree::Number(n),
        Value::String(s) => Tree::String(s),
        Value::Sequence(items) => Tree::Sequence(items.into_iter().map(to_tree).collect()),
        Value::Mapping(mapping) => Tree::Mapping(
            mapping
                .into_iter()
                .map(|(k, v)| (to_key(k), to_tree(v)))
                .collect(),
        ),
        Value::Tagged(_) => panic!("tagged values are not supported"),
    }
}

fn from_key(key: Key) -> Value {
    match key {
        Key::Bool(b) => Value::Bool(b),
        Key::Number(n) => Value::Number(n),
        Key::String(s) => Value::String(s),
    }
}

fn from_tree(value: Tree) -> Value {
    match value {
        Tree::Null => Value::Null,
        Tree::Bool(b) => Value::Bool(b),
        Tree::Number(n) => Value::Number(n),
        Tree::String(s) => Value::String(s),
        Tree::Sequence(items) => Value::Sequence(items.into_iter().map(from_tree).collect()),
        Tree::Mapping(entries) => Value::Mapping(
            entries
                .into_iter()
                .map(|(k, v)| (from_key(k), from_tree(v)))
                .collect(),
        ),
    }
}

fn flatten_yaml(input: Value) -> BTreeMap<String, Value> {
    let flat = flatten(to_tree(input));
    for pair in flat.windows(2) {
        assert!(pair[0].0 < pair[1].0);
    }
    flat.into_iter().map(|(k, v)| (k, from_tree(v))).collect()
}

fn unflatten_yaml<I: IntoIterator<Item = (String, Value)>>(input: I) -> Result<Value, Error> {
    let pairs: Vec<(String, Tree)> = input.into_iter().map(|(k, v)| (k, to_tree(v))).collect();
    unflatten(pairs).map(from_tree)
}

#[test]
fn test_flatten_one_layer() {
    let bool_null = "true: null";
    let yaml = from_str::<Value>(&bool_null).unwrap();
    let flattened = flatten_yaml(yaml);
    assert_eq!(
        flattened,
        BTreeMap::from([(String::from("true"), Value::Null)])
    );

    let bool_bool = "true: true";
    let yaml = from_str::<Value>(&bool_bool).unwrap();
    let flattened = flatten_yaml(yaml);
    assert_eq!(
        flattened,
        BTreeMap::from([(String::from("true"), Value::Bool(true))])
    );

    let bool_number = "true: 1";
    let yaml = from_str::<Value>(&bool_number).unwrap();
    let flattened = flatten_yaml(yaml);
    assert_eq!(
        flattened,
        BTreeMap::from([(String::from("true"), Value::Number(Number::from(1)))])
    );

    let bool_str = "true: str";
    let yaml = from_str::<Value>(&bool_str).unwrap();
    let flattened = flatten_yaml(yaml);
    assert_eq!(
        flattened,
        BTreeMap::from([(String::from("true"), Value::String("str".into()))])
    );

    let yaml_str = r#"
1: null 
2: true
3: 1
4: hello

str1: null
str2: true
str3: 1
str4: hello
    "#;

    let yaml = from_str::<Value>(&yaml_str).unwrap();
    let flattened = flatten_yaml(yaml);

    let expected = BTreeMap::from([
        (String::from("1"), Value::Null),
        (String::from("2"), Value::Bool(true)),
        (String::from("3"), Value::Number(Number::from(1))),
        (String::from("4"), Value::String("hello".into())),
        (String::from("str1"), Value::Null),
        (String::from("str2"), Value::Bool(true)),
        (String::from("str3"), Value::Number(Number::from(1))),
        (String::from("str4"), Value::String("hello".into())),
    ]);
    assert_eq!(flattened, expected);
}

#[test]
fn teset_flatten_two_layers() {
    let yaml_str = r#"
true:
  true: true
  false: false

  1: null
  2: true
  3: 1
  4: hello

  str1: null
  str2: true
  str3: 1
  str4: hello
1:
  true: true
  false: false

  1: null
  2: true
  3: 1
  4: hello

  str1: null
  str2: true
  str3: 1
  str4: hello

str:
  true: true
  false: false

  1: null
  2: true
  3: 1
  4: hello

  str1: null
  str2: true
  str3: 1
  str4: hello
"#;

    let yaml = from_str::<Value>(&yaml_str).unwrap();

    let flattened = flatten_yaml(yaml);

    let expected = BTreeMap::from([
        (String::from("true.true"), Value::Bool(true)),
        (String::from("true.false"), Value::Bool(false)),
        (String::from("true.1"), Value::Null),
        (String::from("true.2"), Value::Bool(true)),
        (String::from("true.3"), Value::Number(Number::from(1))),
        (String::from("true.4"), Value::String("hello".into())),
        (String::from("true.str1"), Value::Null),
        (String::from("true.str2"), Value::Bool(true)),
        (String::from("true.str3"), Value::Number(Number::from(1))),
        (String::from("true.str4"), Value::String("hello".into())),
        (String::from("1.true"), Value::Bool(true)),
        (String::from("1.false"), Value::Bool(false)),
        (String::from("1.1"), Value::Null),
        (String::from("1.2"), Value::Bool(true)),
        (String::from("1.3"), Value::Number(Number::from(1))),
        (String::from("1.4"), Value::String("hello".into())),
        (String::from("1.str1"), Value::Null),
        (String::from("1.str2"), Value::Bool(true)),
        (String::from("1.str3"), Value::Number(Number::from(1))),
        (String::from("1.str4"), Value::String("hello".into())),
        (String::from("str.true"), Value::Bool(true)),
        (String::from("str.false"), Value::Bool(false)),
        (String::from("str.1"), Value::Null),
        (String::from("str.2"), Value::Bool(true)),
        (String::from("str.3"), Value::Number(Number::from(1))),
        (String::from("str.4"), Value::String("hello".into())),
        (String::from("str.str1"), Value::Null),
        (String::from("str.str2"), Value::Bool(true)),
        (String::from("str.str3"), Value::Number(Number::from(1))),
        (String::from("str.str4"), Value::String("hello".into())),
    ]);

    assert_eq!(flattened, expected);
}

#[test]
fn test_flatten_three_layers() {
    let yaml_str = r#"
true:
  true:
    true: true
    false: false
  
    1: null
    2: true
    3: 1
    4: hello
  
    str1: null
    str2: true
    str3: 1
    str4: hello
  1:
    true: true
    false: false
  
    1: null
    2: true
    3: 1
    4: hello
  
    str1: null
    str2: true
    str3: 1
    str4: hello
  
  str:
    true: true
    false: false
  
    1: null
    2: true
    3: 1
    4: hello
  
    str1: null
    str2: true
    str3: 1
    str4: hello

1:
  true:
    true: true
    false: false
  
    1: null
    2: true
    3: 1
    4: hello
  
    str1: null
    str2: true
    str3: 1
    str4: hello
  1:
    true: true
    false: false
  
    1: null
    2: true
    3: 1
    4: hello
  
    str1: null
    str2: true
    str3: 1
    str4: hello
  
  str:
    true: true
    false: false
  
    1: null
    2: true
    3: 1
    4: hello
  
    str1: null
    str2: true
    str3: 1
    str4: hello
str:
  true:
    true: true
    false: false
  
    1: null
    2: true
    3: 1
    4: hello
  
    str1: null
    str2: true
    str3: 1
    str4: hello
  1:
    true: true
    false: false
  
    1: null
    2: true
    3: 1
    4: hello
  
    str1: null
    str2: true
    str3: 1
    str4: hello
  
  str:
    true: true
    false: false
  
    1: null
    2: true
    3: 1
    4: hello
  
    str1: null
    str2: true
    str3: 1
    str4: hello
"#;

    let yaml = from_str::<Value>(&yaml_str).unwrap();
    let flattened = flatten_yaml(yaml);

    let expected = BTreeMap::from([
        (String::from("true.true.true"), Value::Bool(true)),
        (String::from("true.true.false"), Value::Bool(false)),
        (String::from("true.true.1"), Value::Null),
        (String::from("true.true.2"), Value::Bool(true)),
        (String::from("true.true.3"), Value::Number(Number::from(1))),
        (String::from("true.true.4"), Value::String("hello".into())),
        (String::from("true.true.str1"), Value::Null),
        (String::from("true.true.str2"), Value::Bool(true)),
        (
            String::from("true.true.str3"),
            Value::Number(Number::from(1)),
        ),
        (
            String::from("true.true.str4"),
            Value::String("hello".into()),
        ),
        (String::from("true.1.true"), Value::Bool(true)),
        (String::from("true.1.false"), Value::Bool(false)),
        (String::from("true.1.1"), Value::Null),
        (String::from("true.1.2"), Value::Bool(true)),
        (String::from("true.1.3"), Value::Number(Number::from(1))),
        (String::from("true.1.4"), Value::String("hello".into())),
        (String::from("true.1.str1"), Value::Null),
        (String::from("true.1.str2"), Value::Bool(true)),
        (String::from("true.1.str3"), Value::Number(Number::from(1))),
        (String::from("true.1.str4"), Value::String("hello".into())),
        (String::from("true.str.true"), Value::Bool(true)),
        (String::from("true.str.false"), Value::Bool(false)),
        (String::from("true.str.1"), Value::Null),
        (String::from("true.str.2"), Value::Bool(true)),
        (String::from("true.str.3"), Value::Number(Number::from(1))),
        (String::from("true.str.4"), Value::String("hello".into())),
        (String::from("true.str.str1"), Value::Null),
        (String::from("true.str.str2"), Value::Bool(true)),
        (
            String::from("true.str.str3"),
            Value::Number(Number::from(1)),
        ),
        (String::from("true.str.str4"), Value::String("hello".into())),
        (String::from("1.true.true"), Value::Bool(true)),
        (String::from("1.true.false"), Value::Bool(false)),
        (String::from("1.true.1"), Value::Null),
        (String::from("1.true.2"), Value::Bool(true)),
        (String::from("1.true.3"), Value::Number(Number::from(1))),
        (String::from("1.true.4"), Value::String("hello".into())),
        (String::from("1.true.str1"), Value::Null),
        (String::from("1.true.str2"), Value::Bool(true)),
        (String::from("1.true.str3"), Value::Number(Number::from(1))),
        (String::from("1.true.str4"), Value::String("hello".into())),
        (String::from("1.1.true"), Value::Bool(true)),
        (String::from("1.1.false"), Value::Bool(false)),
        (String::from("1.1.1"), Value::Null),
        (String::from("1.1.2"), Value::Bool(true)),
        (String::from("1.1.3"), Value::Number(Number::from(1))),
        (String::from("1.1.4"), Value::String("hello".into())),
        (String::from("1.1.str1"), Value::Null),
        (String::from("1.1.str2"), Value::Bool(true)),
        (String::from("1.1.str3"), Value::Number(Number::from(1))),
        (String::from("1.1.str4"), Value::String("hello".into())),
        (String::from("1.str.true"), Value::Bool(true)),
        (String::from("1.str.false"), Value::Bool(false)),
        (String::from("1.str.1"), Value::Null),
        (String::from("1.str.2"), Value::Bool(true)),
        (String::from("1.str.3"), Value::Number(Number::from(1))),
        (String::from("1.str.4"), Value::String("hello".into())),
        (String::from("1.str.str1"), Value::Null),
        (String::from("1.str.str2"), Value::Bool(true)),
        (String::from("1.str.str3"), Value::Number(Number::from(1))),
        (String::from("1.str.str4"), Value::String("hello".into())),
        (String::from("str.true.true"), Value::Bool(true)),
        (String::from("str.true.false"), Value::Bool(false)),
        (String::from("str.true.1"), Value::Null),
        (String::from("str.true.2"), Value::Bool(true)),
        (String::from("str.true.3"), Value::Number(Number::from(1))),
        (String::from("str.true.4"), Value::String("hello".into())),
        (String::from("str.true.str1"), Value::Null),
        (String::from("str.true.str2"), Value::Bool(true)),
        (
            String::from("str.true.str3"),
            Value::Number(Number::from(1)),
        ),
        (String::from("str.true.str4"), Value::String("hello".into())),
        (String::from("str.1.true"), Value::Bool(true)),
        (String::from("str.1.false"), Value::Bool(false)),
        (String::from("str.1.1"), Value::Null),
        (String::from("str.1.2"), Value::Bool(true)),
        (String::from("str.1.3"), Value::Number(Number::from(1))),
        (String::from("str.1.4"), Value::String("hello".into())),
        (String::from("str.1.str1"), Value::Null),
        (String::from("str.1.str2"), Value::Bool(true)),
        (String::from("str.1.str3"), Value::Number(Number::from(1))),
        (String::from("str.1.str4"), Value::String("hello".into())),
        (String::from("str.str.true"), Value::Bool(true)),
        (String::from("str.str.false"), Value::Bool(false)),
        (String::from("str.str.1"), Value::Null),
        (String::from("str.str.2"), Value::Bool(true)),
        (String::from("str.str.3"), Value::Number(Number::from(1))),
        (String::from("str.str.4"), Value::String("hello".into())),
        (String::from("str.str.str1"), Value::Null),
        (String::from("str.str.str2"), Value::Bool(true)),
        (String::from("str.str.str3"), Value::Number(Number::from(1))),
        (String::from("str.str.str4"), Value::String("hello".into())),
    ]);
    assert_eq!(flattened, expected);
}

#[test]
fn test_flatten_partially_flattened() {
    let yaml_str = r#"
cluster.fault_detection:
  follower_check:
    interval: 1000
    retry: 3
  master_check:
    interval: 500
    retry: 9
routing.allocation.same_shard.host: false"#;
    let yaml: Value = from_str(&yaml_str).unwrap();
    let flattened = flatten_yaml(yaml);
    let expected = BTreeMap::from([
        (
            String::from("cluster.fault_detection.follower_check.interval"),
            Value::Number(Number::from(1000)),
        ),
        (
            String::from("cluster.fault_detection.follower_check.retry"),
            Value::Number(Number::from(3)),
        ),
        (
            String::from("cluster.fault_detection.master_check.interval"),
            Value::Number(Number::from(500)),
        ),
        (
            String::from("cluster.fault_detection.master_check.retry"),
            Value::Number(Number::from(9)),
        ),
        (
            String::from("routing.allocation.same_shard.host"),
            Value::Bool(false),
        ),
    ]);

    assert_eq!(flattened, expected);
}

#[test]
fn test_flatten_totally_flattened() {
    let yaml_str = r#"
action.auto_create_index: true
action.destructive_requires_name: true
action.search.pre_filter_shard_size.default: 128
action.search.shard_count.limit: 9223372036854775807
async_search.index_cleanup_interval: 1h
bootstrap.ctrlhandler: true
bootstrap.memory_lock: false
cache.recycler.page.limit.heap: 10%
cache.recycler.page.type: CONCURRENT
cache.recycler.page.weight.bytes: 1.0"#;
    let yaml: Value = from_str(&yaml_str).unwrap();
    let flattened = flatten_yaml(yaml);

    let expected = BTreeMap::from([
        (String::from("action.auto_create_index"), Value::Bool(true)),
        (
            String::from("action.destructive_requires_name"),
            Value::Bool(true),
        ),
        (
            String::from("action.search.pre_filter_shard_size.default"),
            Value::Number(128.into()),
        ),
        (
            String::from("action.search.shard_count.limit"),
            Value::Number(Number::from(9223372036854775807_u64)),
        ),
        (
            String::from("async_search.index_cleanup_interval"),
            Value::String("1h".into()),
        ),
        (String::from("bootstrap.ctrlhandler"), Value::Bool(true)),
        (String::from("bootstrap.memory_lock"), Value::Bool(false)),
        (
            String::from("cache.recycler.page.limit.heap"),
            Value::String("10%".into()),
        ),
        (
            String::from("cache.recycler.page.type"),
            Value::String("CONCURRENT".into()),
        ),
        (
            String::from("cache.recycler.page.weight.bytes"),
            Value::Number(Number::from(1.0)),
        ),
    ]);

    assert_eq!(flattened, expected);
}

#[test]
fn test_unflatten_one_layer() {
    let nested = unflatten_yaml([
        ("a".into(), Value::Null),
        ("b".into(), Value::Bool(false)),
        ("c".into(), Value::Number(Number::from(1))),
        ("d".into(), Value::String("hello".into())),
    ])
    .unwrap();
    let expected_mapping: Mapping = [
        (Value::String("a".into()), Value::Null),
        (Value::String("b".into()), Value::Bool(false)),
        (Value::String("c".into()), Value::Number(Number::from(1))),
        (Value::String("d".into()), Value::String("hello".into())),
    ]
    .into_iter()
    .collect();

    let expected = Value::Mapping(expected_mapping);
    assert_eq!(expected, nested);
}

#[test]
fn test_unflatten_two_layers() {
    let nested = unflatten_yaml([
        ("a.a".into(), Value::Null),
        ("a.b".into(), Value::Bool(false)),
        ("a.c".into(), Value::Number(Number::from(1))),
        ("a.d".into(), Value::String("hello".into())),
    ])
    .unwrap();

    let inner_mapping: Mapping = [
        (Value::String("a".into()), Value::Null),
        (Value::String("b".into()), Value::Bool(false)),
        (Value::String("c".into()), Value::Number(Number::from(1))),
        (Value::String("d".into()), Value::String("hello".into())),
    ]
    .into_iter()
    .collect();

    let mut expected_mapping = Mapping::new();
    expected_mapping.insert(Value::String("a".into()), Value::Mapping(inner_mapping));

    let expected = Value::Mapping(expected_mapping);
    assert_eq!(expected, nested);
}

#[test]
fn test_unflatten_three_layers() {
    let nested = unflatten_yaml([
        ("a.a.a".into(), Value::Null),
        ("a.a.b".into(), Value::Bool(false)),
        ("a.a.c".into(), Value::Number(Number::from(1))),
        ("a.a.d".into(), Value::String("hello".into())),
    ])
    .unwrap();

    let innermost_mapping: Mapping = [
        (Value::String("a".into()), Value::Null),
        (Value::String("b".into()), Value::Bool(false)),
        (Value::String("c".into()), Value::Number(Number::from(1))),
        (Value::String("d".into()), Value::String("hello".into())),
    ]
    .into_iter()
    .collect();

    let mut middle_mapping = Mapping::new();
    middle_mapping.insert(Value::String("a".into()), Value::Mapping(innermost_mapping));

    let mut expected_mapping = Mapping::new();
    expected_mapping.insert(Value::String("a".into()), Value::Mapping(middle_mapping));

    let expected = Value::Mapping(expected_mapping);
    assert_eq!(expected, nested);
}

#[test]
fn test_unflatten_duplicate_value() {
    let error =
        unflatten_yaml([("a".into(), Value::Null), ("a".into(), Value::Bool(false))]).unwrap_err();
    assert_eq!(
        error,
        Error::DuplicateValue {
            key: "a".into(),
            token: "a".into()
        }
    );

    let error = unflatten_yaml([
        ("a.b".into(), Value::Null),
        ("a.b.c".into(), Value::Bool(false)),
    ])
    .unwrap_err();
    assert_eq!(
        error,
        Error::DuplicateValue {
            key: "a.b.c".into(),
            token: "b".into()
        }
    );

    let error = unflatten_yaml([
        ("a.b.c".into(), Value::Null),
        ("a.b".into(), Value::Bool(false)),
    ])
    .unwrap_err();
    assert_eq!(
        error,
        Error::DuplicateValue {
            key: "a.b".into(),
            token: "b".into()
        }
    );
}
