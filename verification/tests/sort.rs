use jsonish::Node;
use jsonish::Node::{Array, Object, Value};

fn v(s: &str) -> Node {
    Value(s.to_string())
}

fn a(xs: Vec<Node>) -> Node {
    Array(xs)
}

fn o(ms: Vec<(&str, Node)>) -> Node {
    Object(ms.into_iter().map(|(k, n)| (k.to_string(), n)).collect())
}

#[test]
fn sort_by_name() {
    let tests = vec![
        (v("1"), v("1")),
        (o(vec![]), o(vec![])),
        (o(vec![("1", v("a"))]), o(vec![("1", v("a"))])),
        (
            o(vec![("1", v("a")), ("2", v("b"))]),
            o(vec![("1", v("a")), ("2", v("b"))]),
        ),
        (
            o(vec![("2", v("b")), ("1", v("a"))]),
            o(vec![("1", v("a")), ("2", v("b"))]),
        ),
        (
            o(vec![("\"a \"", v("x")), ("\"a\"", v("x"))]),
            o(vec![("\"a\"", v("x")), ("\"a \"", v("x"))]),
        ),
        (
            o(vec![
                ("2", v("b")),
                ("1", v("a")),
                ("3", o(vec![("1", v("one")), ("0", v("zero"))])),
            ]),
            o(vec![
                ("1", v("a")),
                ("2", v("b")),
                ("3", o(vec![("0", v("zero")), ("1", v("one"))])),
            ]),
        ),
        (
            o(vec![
                ("2", v("b")),
                ("1", v("a")),
                ("3", a(vec![o(vec![("1", v("one")), ("0", v("zero"))])])),
            ]),
            o(vec![
                ("1", v("a")),
                ("2", v("b")),
                ("3", a(vec![o(vec![("0", v("zero")), ("1", v("one"))])])),
            ]),
        ),
        (a(vec![]), a(vec![])),
        (
            a(vec![o(vec![("1", v("one")), ("0", v("zero"))])]),
            a(vec![o(vec![("0", v("zero")), ("1", v("one"))])]),
        ),
        (
            a(vec![o(vec![
                ("1", v("one")),
                ("0", a(vec![o(vec![("y", v("yy")), ("x", v("xx"))])])),
            ])]),
            a(vec![o(vec![
                ("0", a(vec![o(vec![("x", v("xx")), ("y", v("yy"))])])),
                ("1", v("one")),
            ])]),
        ),
    ];

    for (mut actual, expected) in tests {
        actual.sort_by_name();
        assert_eq!(actual, expected);
    }
}

#[test]
fn sort_by_value() {
    let tests = [
        ("", v("1"), v("1")),
        ("", o(vec![]), o(vec![])),
        ("", a(vec![]), a(vec![])),
        (
            "name",
            a(vec![
                o(vec![("\"name\"", v("1"))]),
                o(vec![("\"name\"", v("2"))]),
            ]),
            a(vec![
                o(vec![("\"name\"", v("1"))]),
                o(vec![("\"name\"", v("2"))]),
            ]),
        ),
        (
            "name",
            a(vec![
                o(vec![("\"name\"", v("2"))]),
                o(vec![("\"name\"", v("1"))]),
            ]),
            a(vec![
                o(vec![("\"name\"", v("1"))]),
                o(vec![("\"name\"", v("2"))]),
            ]),
        ),
        (
            "name",
            o(vec![(
                "\"name\"",
                a(vec![
                    o(vec![("\"name\"", v("2"))]),
                    o(vec![("\"name\"", v("1"))]),
                ]),
            )]),
            o(vec![(
                "\"name\"",
                a(vec![
                    o(vec![("\"name\"", v("1"))]),
                    o(vec![("\"name\"", v("2"))]),
                ]),
            )]),
        ),
        (
            "a",
            a(vec![
                o(vec![("\"a\"", v("1"))]),
                o(vec![("\"a\"", v("2"))]),
                o(vec![("\"a\"", v("0"))]),
            ]),
            a(vec![
                o(vec![("\"a\"", v("0"))]),
                o(vec![("\"a\"", v("1"))]),
                o(vec![("\"a\"", v("2"))]),
            ]),
        ),
        (
            "a",
            a(vec![
                o(vec![("\"a\"", v("\"cmd+h c\""))]),
                o(vec![("\"a\"", v("\"cmd+h\""))]),
            ]),
            a(vec![
                o(vec![("\"a\"", v("\"cmd+h\""))]),
                o(vec![("\"a\"", v("\"cmd+h c\""))]),
            ]),
        ),
        (
            "a",
            a(vec![
                o(vec![("\"a\"", v("1"))]),
                o(vec![("\"a\"", v("0"))]),
                o(vec![(
                    "\"b\"",
                    a(vec![
                        o(vec![("\"a\"", v("2"))]),
                        o(vec![("\"a\"", v("1"))]),
                    ]),
                )]),
            ]),
            a(vec![
                o(vec![("\"a\"", v("0"))]),
                o(vec![("\"a\"", v("1"))]),
                o(vec![(
                    "\"b\"",
                    a(vec![
                        o(vec![("\"a\"", v("1"))]),
                        o(vec![("\"a\"", v("2"))]),
                    ]),
                )]),
            ]),
        ),
    ];

    for (key, mut actual, expected) in tests {
        actual.sort_by_value(key);
        assert_eq!(actual, expected);
    }
}

#[test]
fn can_sort_by_name_pipeline() {
    let mut node = jsonish::parse("{\"1\":0,\"0\":0}").unwrap();
    node.sort_by_name();
    assert_eq!(node.to_string(), "{\n  \"0\": 0,\n  \"1\": 0\n}");
}

#[test]
fn can_sort_by_value_pipeline() {
    let mut node = jsonish::parse("[{\"x\":1},{\"x\":0}]").unwrap();
    node.sort_by_value("x");
    assert_eq!(
        node.to_string(),
        "[\n  {\n    \"x\": 0\n  },\n  {\n    \"x\": 1\n  }\n]"
    );
}

#[test]
fn sorting_is_idempotent() {
    let input = r#"{"b":1,"a":[{"x":2},{"x":1},{"y":0}],"a ":{}}"#;
    let mut once = jsonish::parse(input).unwrap();
    once.sort_by_name();
    let mut twice = jsonish::parse(input).unwrap();
    twice.sort_by_name();
    twice.sort_by_name();
    assert_eq!(once, twice);

    let vinput = r#"[{"x":2},{"x":1},{"y":0},{"x":1}]"#;
    let mut vonce = jsonish::parse(vinput).unwrap();
    vonce.sort_by_value("x");
    let mut vtwice = jsonish::parse(vinput).unwrap();
    vtwice.sort_by_value("x");
    vtwice.sort_by_value("x");
    assert_eq!(vonce, vtwice);
}

#[test]
fn equal_keys_keep_their_order() {
    // duplicate member keys survive a name sort in their original order
    let mut node = o(vec![("\"a\"", v("2")), ("\"a\"", v("1")), ("\"0\"", v("z"))]);
    node.sort_by_name();
    assert_eq!(node, o(vec![("\"0\"", v("z")), ("\"a\"", v("2")), ("\"a\"", v("1"))]));

    // elements with equal sort values keep their order
    let mut arr = a(vec![
        o(vec![("\"x\"", v("2")), ("\"tag\"", v("p"))]),
        o(vec![("\"x\"", v("1")), ("\"tag\"", v("q"))]),
        o(vec![("\"x\"", v("1")), ("\"tag\"", v("r"))]),
        o(vec![("\"x\"", v("0"))]),
    ]);
    arr.sort_by_value("x");
    assert_eq!(
        arr,
        a(vec![
            o(vec![("\"x\"", v("0"))]),
            o(vec![("\"x\"", v("1")), ("\"tag\"", v("q"))]),
            o(vec![("\"x\"", v("1")), ("\"tag\"", v("r"))]),
            o(vec![("\"x\"", v("2")), ("\"tag\"", v("p"))]),
        ])
    );

    // a pair in which either element has no sort value is never reordered
    let mut mixed = a(vec![
        o(vec![("\"x\"", v("1")), ("\"tag\"", v("p"))]),
        o(vec![("\"tag\"", v("q"))]),
        o(vec![("\"x\"", v("1")), ("\"tag\"", v("r"))]),
    ]);
    mixed.sort_by_value("x");
    assert_eq!(
        mixed,
        a(vec![
            o(vec![("\"x\"", v("1")), ("\"tag\"", v("p"))]),
            o(vec![("\"tag\"", v("q"))]),
            o(vec![("\"x\"", v("1")), ("\"tag\"", v("r"))]),
        ])
    );
}

#[test]
fn find_value_takes_the_first_scalar_match() {
    let node = o(vec![
        ("\"k\"", o(vec![])),
        ("\"k\"", v("5")),
        ("\"k\"", v("6")),
    ]);
    assert_eq!(jsonish::find_value(&node, "k"), Some("5".to_string()));
    assert_eq!(jsonish::find_value(&node, "missing"), None);
    assert_eq!(jsonish::find_value(&v("5"), "k"), None);

    // keys are matched by their unquoted text
    let bare = o(vec![("k", v("7"))]);
    assert_eq!(jsonish::find_value(&bare, "k"), Some("7".to_string()));
}

#[test]
fn unquote_strips_one_quote_pair() {
    assert_eq!(jsonish::unquote("\"a\""), "a");
    assert_eq!(jsonish::unquote("a"), "a");
    assert_eq!(jsonish::unquote("\""), "\"");
    assert_eq!(jsonish::unquote("\"\""), "");
    assert_eq!(jsonish::unquote("\"\"\""), "\"");
    assert_eq!(jsonish::unquote("x\""), "x\"");
}
