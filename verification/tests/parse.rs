use jsonish::{ExpectedKind, Node};

fn v(s: &str) -> Node {
    Node::Value(s.to_string())
}

fn a(xs: Vec<Node>) -> Node {
    Node::Array(xs)
}

fn o(ms: Vec<(&str, Node)>) -> Node {
    Node::Object(ms.into_iter().map(|(k, n)| (k.to_string(), n)).collect())
}

fn parser_tests() -> Vec<(&'static str, Node)> {
    vec![
        ("true", v("true")),
        (" true", v("true")),
        (" true ", v("true")),
        ("true ", v("true")),
        ("false\t", v("false")),
        ("\nfalse\t", v("false")),
        ("null", v("null")),
        ("1", v("1")),
        ("-2", v("-2")),
        ("-3.4", v("-3.4")),
        ("5e6", v("5e6")),
        ("7.00", v("7.00")),
        ("-8.900", v("-8.900")),
        (" -10", v("-10")),
        (" 11 ", v("11")),
        ("12\t", v("12")),
        ("\n\t13\n", v("13")),
        ("\"\"", v("\"\"")),
        (" \"\"", v("\"\"")),
        (" \"\" ", v("\"\"")),
        ("\"\" ", v("\"\"")),
        (" \" \" ", v("\" \"")),
        (" \"a b\" ", v("\"a b\"")),
        (" \"\\\"a b\" ", v("\"\\\"a b\"")),
        (" \"a\\\" b\" ", v("\"a\\\" b\"")),
        (" \"a b\\\"\" ", v("\"a b\\\"\"")),
        (" \"a\nb\" ", v("\"a\nb\"")),
        (" \"\ta \nb false\" ", v("\"\ta \nb false\"")),
        ("[]", a(vec![])),
        (" []", a(vec![])),
        (" [] ", a(vec![])),
        (" [ ] ", a(vec![])),
        ("[ ] ", a(vec![])),
        ("[] ", a(vec![])),
        ("{}", o(vec![])),
        ("{} ", o(vec![])),
        ("{ } ", o(vec![])),
        (" { } ", o(vec![])),
        (" {} ", o(vec![])),
        (" {}", o(vec![])),
        ("[1] ", a(vec![v("1")])),
        ("[ 1, false] ", a(vec![v("1"), v("false")])),
        ("[ 0E-18 , true ] ", a(vec![v("0E-18"), v("true")])),
        ("[ 2 , true , {}] ", a(vec![v("2"), v("true"), o(vec![])])),
        (
            "[\t{},{} , {} , {}\n, []] ",
            a(vec![o(vec![]), o(vec![]), o(vec![]), o(vec![]), a(vec![])]),
        ),
        ("{\"hi\" : true} ", o(vec![("\"hi\"", v("true"))])),
        ("{\"hello world\" : {}} ", o(vec![("\"hello world\"", o(vec![]))])),
        ("{\"bob\" : []} ", o(vec![("\"bob\"", a(vec![]))])),
        (
            "{\"bob\" : { \"ja\tck\": [1, -3, true, {\"a\" : false}]}} ",
            o(vec![(
                "\"bob\"",
                o(vec![(
                    "\"ja\tck\"",
                    a(vec![v("1"), v("-3"), v("true"), o(vec![("\"a\"", v("false"))])]),
                )]),
            )]),
        ),
        (
            "[ 10.000000 , null, { \"ja\tck\": [1, -3, true, {\"a\" : false}]} ]",
            a(vec![
                v("10.000000"),
                v("null"),
                o(vec![(
                    "\"ja\tck\"",
                    a(vec![v("1"), v("-3"), v("true"), o(vec![("\"a\"", v("false"))])]),
                )]),
            ]),
        ),
        ("\\u001b\\u007f", v("\\u001b\\u007f")),
        ("\"^[^@]+@[^@.]+\\.[^@]+$\"", v("\"^[^@]+@[^@.]+\\.[^@]+$\"")),
    ]
}

#[test]
fn parse() {
    for (input, expected) in parser_tests() {
        let actual = jsonish::parse(input);
        assert_eq!(
            actual.as_ref(),
            Ok(&expected),
            "expected: {:?}\n  actual: {:?}\n   input: `{}`\n",
            expected,
            actual,
            input.replace("\n", "\\n"),
        );
    }
}

#[test]
fn whitespace_is_skipped_everywhere() {
    let empty = jsonish::parse("{}").unwrap();
    assert_eq!(jsonish::parse(" {  } ").unwrap(), empty);
    assert_eq!(jsonish::parse("{\n}\t").unwrap(), empty);
    assert_eq!(empty, Node::Object(vec![]));
}

#[test]
fn trailing_text_is_ignored() {
    assert_eq!(jsonish::parse("[1] [2]").unwrap(), Node::Array(vec![Node::Value("1".to_string())]));
    assert_eq!(jsonish::parse("true false").unwrap(), Node::Value("true".to_string()));
}

#[test]
fn missing_value_reports_its_position() {
    let err = jsonish::parse("{\"a\":}").unwrap_err();
    assert_eq!(err.offset, 5);
    assert_eq!(err.expected, ExpectedKind::Value);
    assert_eq!(err.render(), "expected a value at character 5");
}

#[test]
fn empty_input_wants_a_value() {
    let err = jsonish::parse("").unwrap_err();
    assert_eq!(err.offset, 0);
    assert_eq!(err.expected, ExpectedKind::Value);
    let err = jsonish::parse(" \t\n").unwrap_err();
    assert_eq!(err.offset, 3);
    assert_eq!(err.expected, ExpectedKind::Value);
}

#[test]
fn bareword_key_is_an_error() {
    let err = jsonish::parse("{a:1}").unwrap_err();
    assert_eq!(err.offset, 1);
    assert_eq!(err.expected, ExpectedKind::Key);
    assert_eq!(err.render(), "expected an object key at character 1");
}

#[test]
fn missing_colon_is_an_error() {
    let err = jsonish::parse("{\"a\" 1}").unwrap_err();
    assert_eq!(err.offset, 5);
    assert_eq!(err.expected, ExpectedKind::Colon);
}

#[test]
fn unseparated_members_are_an_error() {
    let err = jsonish::parse("{\"a\":1 \"b\":2}").unwrap_err();
    assert_eq!(err.offset, 7);
    assert_eq!(err.expected, ExpectedKind::CommaOrCloseBrace);
    assert_eq!(err.render(), "expected `,` or `}` at character 7");
}

#[test]
fn unseparated_elements_are_an_error() {
    let err = jsonish::parse("[1 2]").unwrap_err();
    assert_eq!(err.offset, 3);
    assert_eq!(err.expected, ExpectedKind::CommaOrCloseBracket);
}

#[test]
fn unterminated_string_is_an_error() {
    let err = jsonish::parse("\"abc").unwrap_err();
    assert_eq!(err.offset, 0);
    assert_eq!(err.expected, ExpectedKind::StringEnd);
    assert_eq!(err.render(), "expected a closing `\"` at character 0");
    let err = jsonish::parse("{\"a\": \"x}").unwrap_err();
    assert_eq!(err.offset, 6);
    assert_eq!(err.expected, ExpectedKind::StringEnd);
}

#[test]
fn escaped_quotes_do_not_end_strings() {
    // one backslash escapes a quote; a pair of backslashes does not
    assert_eq!(jsonish::parse("\"a\\\"b\"").unwrap(), Node::Value("\"a\\\"b\"".to_string()));
    assert_eq!(jsonish::parse("\"a\\\\\"").unwrap(), Node::Value("\"a\\\\\"".to_string()));
}

#[test]
fn offsets_render_in_decimal() {
    let err = jsonish::parse("[1, 2, 3, 4,]").unwrap_err();
    assert_eq!(err.offset, 12);
    assert_eq!(err.expected, ExpectedKind::Value);
    assert_eq!(err.render(), "expected a value at character 12");
}

#[test]
fn unicode_whitespace_and_text() {
    // any Unicode whitespace separates tokens
    assert_eq!(
        jsonish::parse("\u{a0}\u{2003}42\u{3000}").unwrap(),
        Node::Value("42".to_string())
    );
    // non-ASCII scalar text is kept verbatim
    assert_eq!(
        jsonish::parse("h\u{e9}llo").unwrap(),
        Node::Value("h\u{e9}llo".to_string())
    );
}

#[test]
fn a_quote_inside_a_bareword_is_plain_text() {
    assert_eq!(
        jsonish::parse("ab\"cd").unwrap(),
        Node::Value("ab\"cd".to_string())
    );
}
