use yaml2lua::{escape_string, fits_within, get_indent, parse, walk, ParseError, Value};

fn text(s: &str) -> Value {
    Value::Str(s.to_string())
}

fn num(s: &str) -> Value {
    Value::Number(s.to_string())
}

fn seq(items: Vec<Value>) -> Value {
    Value::Sequence(items)
}

fn map(entries: Vec<(Value, Value)>) -> Value {
    Value::Mapping(entries)
}

fn tagged(tag: &str, inner: Value) -> Value {
    Value::Tagged(tag.to_string(), Box::new(inner))
}

#[test]
fn all_values() {
    let doc = map(vec![
        (text("string"), text("str")),
        (text("int"), num("420")),
        (text("float"), num("4.2")),
        (text("bool"), Value::Bool(true)),
        (text("nil"), Value::Null),
        (
            text("array"),
            seq(vec![
                text("string"),
                num("12345"),
                Value::Bool(false),
                map(vec![(text("k"), text("v"))]),
            ]),
        ),
        (text("object"), map(vec![(text("key"), text("value"))])),
    ]);
    let lua = "{\n\
\t[\"string\"] = \"str\",\n\
\t[\"int\"] = 420,\n\
\t[\"float\"] = 4.2,\n\
\t[\"bool\"] = true,\n\
\t[\"nil\"] = nil,\n\
\t[\"array\"] = {\n\
\t\t\"string\",\n\
\t\t12345,\n\
\t\tfalse,\n\
\t\t{\n\
\t\t\t[\"k\"] = \"v\",\n\
\t\t},\n\
\t},\n\
\t[\"object\"] = {\n\
\t\t[\"key\"] = \"value\",\n\
\t},\n\
}";
    assert_eq!(parse(&doc).unwrap(), lua);
}

#[test]
fn malformed_strings() {
    // Entries 1 to 5 hold a backslash and a letter as written; 6 to 10 hold
    // the character that a double-quoted YAML string decodes to.
    let doc = map(vec![
        (num("1"), text("..\\n..")),
        (num("2"), text("..\\t..")),
        (num("3"), text("..\\r..")),
        (num("4"), text("..\\\\..")),
        (num("5"), text("..\\\"..")),
        (num("6"), text("..\n..")),
        (num("7"), text("..\t..")),
        (num("8"), text("..\r..")),
        (num("9"), text("..\\..")),
        (num("10"), text("..\"..")),
    ]);
    let lua = "{\n\
\t[1] = \"..\\n..\",\n\
\t[2] = \"..\\t..\",\n\
\t[3] = \"..\\r..\",\n\
\t[4] = \"..\\\\..\",\n\
\t[5] = \"..\\\"..\",\n\
\t[6] = \"..\\n..\",\n\
\t[7] = \"..\\t..\",\n\
\t[8] = \"..\\r..\",\n\
\t[9] = \"..\\\\..\",\n\
\t[10] = \"..\\\"..\",\n\
}";
    assert_eq!(parse(&doc).unwrap(), lua);
}

#[test]
fn root_array() {
    let doc = seq(vec![text("a"), text("b"), text("c")]);
    assert_eq!(parse(&doc).unwrap(), "{\n\t\"a\",\n\t\"b\",\n\t\"c\",\n}");
}

#[test]
fn flat_mapping_scenario() {
    let doc = map(vec![
        (text("string"), text("a")),
        (text("int"), num("1")),
        (text("bool"), Value::Bool(true)),
    ]);
    assert_eq!(
        parse(&doc).unwrap(),
        "{\n\t[\"string\"] = \"a\",\n\t[\"int\"] = 1,\n\t[\"bool\"] = true,\n}"
    );
}

#[test]
fn root_sequence_scenario() {
    let doc = seq(vec![text("a"), text("b")]);
    assert_eq!(parse(&doc).unwrap(), "{\n\t\"a\",\n\t\"b\",\n}");
}

#[test]
fn embedded_newline_scenario() {
    let doc = map(vec![(text("k"), text("line1\nline2"))]);
    let lua = parse(&doc).unwrap();
    assert!(lua.contains("[\"k\"] = \"line1\\nline2\""));
    assert!(!lua.contains("line1\nline2"));
}

#[test]
fn nested_mapping_scenario() {
    let doc = map(vec![(text("nested"), map(vec![(text("x"), num("1"))]))]);
    assert_eq!(
        parse(&doc).unwrap(),
        "{\n\t[\"nested\"] = {\n\t\t[\"x\"] = 1,\n\t},\n}"
    );
}

#[test]
fn tagged_mapping_scenario() {
    let doc = map(vec![(text("test"), tagged("!Tag", map(vec![(text("x"), num("5"))])))]);
    assert_eq!(
        parse(&doc).unwrap(),
        "{\n\t[\"test\"] = {\n\t\t[\"Tag\"] = {\n\t\t\t[\"x\"] = 5,\n\t\t},\n\t},\n}"
    );
}

#[test]
fn tagged_scalar_in_sequence() {
    let doc = seq(vec![tagged("!Point", num("3"))]);
    assert_eq!(parse(&doc).unwrap(), "{\n\t{\n\t\t[\"Point\"] = 3,\n\t},\n}");
}

#[test]
fn scalar_roots_are_refused() {
    assert_eq!(parse(&text("plain")), Err(ParseError::RootNotTable));
    assert_eq!(parse(&num("42")), Err(ParseError::RootNotTable));
    assert_eq!(parse(&Value::Null), Err(ParseError::RootNotTable));
    assert_eq!(parse(&Value::Bool(true)), Err(ParseError::RootNotTable));
    assert_eq!(
        parse(&tagged("!Tag", seq(vec![]))),
        Err(ParseError::RootNotTable)
    );
}

#[test]
fn unkeyable_entries_leave_no_trace() {
    let doc = map(vec![
        (text("a"), num("1")),
        (Value::Null, text("null key")),
        (seq(vec![text("x")]), text("sequence key")),
        (map(vec![(text("y"), num("2"))]), text("mapping key")),
        (tagged("!T", text("z")), text("tagged key")),
        (text("b"), num("2")),
    ]);
    assert_eq!(parse(&doc).unwrap(), "{\n\t[\"a\"] = 1,\n\t[\"b\"] = 2,\n}");
}

#[test]
fn number_and_bool_keys() {
    let doc = map(vec![
        (num("-3"), text("neg")),
        (Value::Bool(false), text("no")),
        (num("1.5"), Value::Null),
    ]);
    assert_eq!(
        parse(&doc).unwrap(),
        "{\n\t[-3] = \"neg\",\n\t[false] = \"no\",\n\t[1.5] = nil,\n}"
    );
}

#[test]
fn order_is_kept() {
    let doc = map(vec![
        (text("z"), num("1")),
        (text("a"), num("2")),
        (text("m"), num("3")),
        (text("a2"), seq(vec![num("3"), num("1"), num("2")])),
    ]);
    assert_eq!(
        parse(&doc).unwrap(),
        "{\n\t[\"z\"] = 1,\n\t[\"a\"] = 2,\n\t[\"m\"] = 3,\n\t[\"a2\"] = {\n\t\t3,\n\t\t1,\n\t\t2,\n\t},\n}"
    );
}

#[test]
fn repeated_calls_agree() {
    let doc = map(vec![
        (text("k"), tagged("!T", seq(vec![text("q\"uote"), Value::Null]))),
        (num("7"), Value::Bool(true)),
    ]);
    let first = parse(&doc).unwrap();
    let second = parse(&doc).unwrap();
    assert_eq!(first, second);
}

#[test]
fn empty_tables() {
    assert_eq!(parse(&seq(vec![])).unwrap(), "{\n}");
    assert_eq!(parse(&map(vec![])).unwrap(), "{\n}");
    let doc = map(vec![(text("a"), seq(vec![])), (text("b"), map(vec![]))]);
    assert_eq!(
        parse(&doc).unwrap(),
        "{\n\t[\"a\"] = {\n\t},\n\t[\"b\"] = {\n\t},\n}"
    );
}

#[test]
fn tag_without_marker_is_an_error() {
    let doc = seq(vec![tagged("Tag", num("1"))]);
    assert_eq!(parse(&doc), Err(ParseError::MalformedTag));
    let doc = map(vec![(text("k"), tagged("", num("1")))]);
    assert_eq!(parse(&doc), Err(ParseError::MalformedTag));
}

#[test]
fn tag_under_dropped_key_is_not_rendered() {
    let doc = map(vec![(Value::Null, tagged("Tag", num("1")))]);
    assert_eq!(parse(&doc).unwrap(), "{\n}");
}

#[test]
fn escaping_keeps_valid_escape_pairs() {
    assert_eq!(escape_string("plain"), "plain");
    assert_eq!(escape_string(""), "");
    assert_eq!(escape_string("a\\nb\\tc\\rd\\\\e\\\"f"), "a\\nb\\tc\\rd\\\\e\\\"f");
    assert_eq!(escape_string("it's"), "it's");
    assert_eq!(escape_string("caf\u{e9}"), "caf\u{e9}");
}

#[test]
fn escaping_rewrites_every_character() {
    assert_eq!(escape_string("a\nb"), "a\\nb");
    assert_eq!(escape_string("tab\there"), "tab\\there");
    assert_eq!(escape_string("cr\r"), "cr\\r");
    assert_eq!(escape_string("say \"hi\""), "say \\\"hi\\\"");
    assert_eq!(escape_string("a\\q"), "a\\\\q");
    assert_eq!(escape_string("trailing\\"), "trailing\\\\");
    assert_eq!(escape_string("it's\n"), "it\\'s\\n");
    assert_eq!(escape_string("\\n\n"), "\\\\n\\n");
    assert_eq!(escape_string("caf\u{e9}\t"), "caf\\u{e9}\\t");
}

#[test]
fn indentation_is_tabs() {
    assert_eq!(get_indent(0), "");
    assert_eq!(get_indent(1), "\t");
    assert_eq!(get_indent(3), "\t\t\t");
}

#[test]
fn walk_appends_one_entry() {
    let mut lua = String::from(">");
    walk(None, &text("x"), 2, &mut lua).unwrap();
    assert_eq!(lua, ">\t\t\"x\",\n");
    let key = text("k\"ey");
    walk(Some(&key), &seq(vec![Value::Null]), 1, &mut lua).unwrap();
    assert_eq!(lua, ">\t\t\"x\",\n\t[\"k\\\"ey\"] = {\n\t\tnil,\n\t},\n");
}

#[test]
fn walk_skips_unkeyable_entry() {
    let mut lua = String::from("kept");
    let key = map(vec![]);
    assert_eq!(walk(Some(&key), &text("v"), 1, &mut lua), Ok(()));
    assert_eq!(lua, "kept");
}

#[test]
fn nesting_room() {
    let doc = seq(vec![map(vec![(text("a"), tagged("!T", seq(vec![])))])]);
    assert!(fits_within(&doc, 4));
    assert!(!fits_within(&doc, 3));
    assert!(fits_within(&text("s"), 0));
    assert!(!fits_within(&seq(vec![]), 0));
}
