use jsonish::Node;

// Formatting a parsed tree and parsing the result gives the tree back.
#[test]
fn format_then_parse_gives_the_same_tree() {
    let inputs = [
        "true",
        " -10",
        "\"a b\"",
        "\" \\\" \"",
        "{}",
        "[]",
        "{\"a\":\"hello\", \"b\":  [1, 2 , false]}",
        "[ 10.000000 , null, { \"ja\tck\": [1, -3, true, {\"a\" : false}]} ]",
        "[\t{},{} , {} , {}\n, []] ",
        "{\"dup\":1,\"dup\":2}",
    ];
    for input in inputs {
        let node = jsonish::parse(input).unwrap();
        let formatted = node.to_string();
        let reparsed = jsonish::parse(&formatted).unwrap();
        assert_eq!(reparsed, node, "\n input: `{}`\n formatted: `{}`", input, formatted);
    }
}

// The same, after the tree has been reordered.
#[test]
fn sorted_trees_round_trip_too() {
    let mut node = jsonish::parse("[{\"b\":2,\"a\":1},{\"x\":0}]").unwrap();
    node.sort_by_name();
    node.sort_by_value("a");
    let formatted = node.to_string();
    assert_eq!(jsonish::parse(&formatted).unwrap(), node);
}

// A tree built by hand round-trips as long as its scalars are tokens the
// parser could have produced.
#[test]
fn hand_built_trees_round_trip() {
    let node = Node::Array(vec![
        Node::Value("bare-word".to_string()),
        Node::Value("\"quoted \\\" text\"".to_string()),
        Node::Object(vec![("\"k\"".to_string(), Node::Value("1e10".to_string()))]),
    ]);
    let formatted = node.to_string();
    assert_eq!(jsonish::parse(&formatted).unwrap(), node);
}
