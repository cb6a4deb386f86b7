use jsonish::Node;

#[test]
fn format() {
    let tests = vec![
        ("null", "null"),
        (" true", "true"),
        ("false ", "false"),
        (" 1 ", "1"),
        ("\t-2", "-2"),
        ("-3e10\n", "-3e10"),
        ("{}", "{}"),
        ("[]", "[]"),
        (
            r#"{"a":"hello"}"#,
            r#"{
  "a": "hello"
}"#,
        ),
        (
            r#"{"a":"hello", "b":  [1, 2 , false]}"#,
            r#"{
  "a": "hello",
  "b": [
    1,
    2,
    false
  ]
}"#,
        ),
        (
            r#"["a", "hello", null, { "i": "x"}, -1.000 ]"#,
            r#"[
  "a",
  "hello",
  null,
  {
    "i": "x"
  },
  -1.000
]"#,
        ),
    ];

    for (input, expected) in tests {
        let actual = jsonish::parse(input).map(|x| x.to_string());
        assert_eq!(
            actual.as_ref(),
            Ok(&expected.to_owned()),
            "\n input: `{}`\n",
            input.replace("\n", "\\n"),
        );
    }
}

#[test]
fn format_is_deterministic() {
    let node = jsonish::parse(r#"{"a":"hello", "b":  [1, 2 , false]}"#).unwrap();
    let first = node.to_string();
    let second = node.to_string();
    assert_eq!(first, second);
}

#[test]
fn empty_containers_format_bare() {
    for input in ["{}", " {  } ", "{\n}\t", "[]", " [ ] ", "[\n]\t"] {
        let out = jsonish::parse(input).unwrap().to_string();
        assert!(out == "{}" || out == "[]");
        assert_eq!(out.trim(), out);
    }
    assert_eq!(jsonish::parse(" { } ").unwrap().to_string(), "{}");
    assert_eq!(jsonish::parse(" [ ] ").unwrap().to_string(), "[]");
}

#[test]
fn nested_containers_indent_by_two_spaces() {
    let out = jsonish::parse(r#"{"a":{"b":[{}]}}"#).unwrap().to_string();
    assert_eq!(out, "{\n  \"a\": {\n    \"b\": [\n      {}\n    ]\n  }\n}");
}

#[test]
fn formats_hand_built_trees() {
    let node = Node::Array(vec![
        Node::Value("1".to_string()),
        Node::Object(vec![("\"k\"".to_string(), Node::Value("null".to_string()))]),
    ]);
    assert_eq!(node.to_string(), "[\n  1,\n  {\n    \"k\": null\n  }\n]");
}
