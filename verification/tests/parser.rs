use actions_runner::hir::parser::{
    check_kvps_empty, is_quoted, parse, parse_action_def, parse_def, parse_def_body, parse_kvp,
    parse_workflow_def, trim_str, Def, DefKind, Expected, KvPair, ParseError, RawBlock, RawPair,
    RawValue, Span, Value, ValueKind,
};
use actions_runner::string_map::StringMap;

fn span(start: usize, end: usize) -> Span {
    Span { start, end }
}

fn lit(s: &str) -> String {
    format!("\"{}\"", s)
}

fn raw_string(s: &str) -> RawValue {
    RawValue::String(lit(s))
}

fn raw_array(items: &[&str]) -> RawValue {
    RawValue::Array(items.iter().map(|s| lit(s)).collect())
}

fn raw_map(pairs: &[(&str, &str)]) -> RawValue {
    RawValue::Mapping(pairs.iter().map(|(k, v)| (k.to_string(), lit(v))).collect())
}

fn pair(ident: &str, value: RawValue, at: usize) -> RawPair {
    RawPair { ident: ident.to_string(), value, span: span(at, at + 1) }
}

fn block(kind: DefKind, name: &str, pairs: Vec<RawPair>) -> RawBlock {
    RawBlock { kind, name: lit(name), pairs, span: span(0, 100) }
}

fn strings(items: &[&str]) -> Vec<String> {
    items.iter().map(|s| s.to_string()).collect()
}

fn action_of(pairs: Vec<RawPair>) -> Result<actions_runner::hir::parser::ActionDef, ParseError> {
    parse_action_def(&block(DefKind::Action, "a", pairs))
}

#[test]
fn trim_str_drops_first_and_last_character() {
    assert_eq!(trim_str("\"abc\""), "abc");
    assert_eq!(trim_str("\"\""), "");
    assert_eq!(trim_str("\"a b\""), "a b");
    assert_eq!(trim_str("\"é\""), "é");
    assert_eq!(trim_str("xyz"), "y");
}

#[test]
fn is_quoted_wants_both_quotes() {
    assert!(is_quoted("\"\""));
    assert!(is_quoted("\"a\""));
    assert!(!is_quoted("\""));
    assert!(!is_quoted(""));
    assert!(!is_quoted("a\""));
    assert!(!is_quoted("\"a"));
    assert!(!is_quoted("'a'"));
}

#[test]
fn value_names_its_kind() {
    assert_eq!(Value::String("s".to_string()).ty(), "string");
    assert_eq!(Value::Array(vec![]).ty(), "array");
    assert_eq!(Value::Mapping(StringMap::new()).ty(), "map");
    assert_eq!(Value::Array(vec![]).kind(), ValueKind::Array);
    assert_eq!(ValueKind::Mapping.name(), "map");
}

#[test]
fn array_or_from_string_wraps_a_single_string() {
    let p = span(3, 9);
    assert_eq!(Value::String("a".to_string()).array_or_from_string(p), Ok(strings(&["a"])));
    assert_eq!(Value::String("a b".to_string()).array_or_from_string(p), Ok(strings(&["a b"])));
    assert_eq!(
        Value::Array(strings(&["x", "y"])).array_or_from_string(p),
        Ok(strings(&["x", "y"]))
    );
    assert_eq!(
        Value::Mapping(StringMap::new()).array_or_from_string(p),
        Err(ParseError::TypeMismatch {
            expected: Expected::ArrayOrString,
            actual: ValueKind::Mapping,
            span: p,
        })
    );
}

#[test]
fn array_or_split_string_splits_a_single_string() {
    let p = span(1, 2);
    assert_eq!(
        Value::String("a b c".to_string()).array_or_split_string(p),
        Ok(strings(&["a", "b", "c"]))
    );
    assert_eq!(Value::String("  ".to_string()).array_or_split_string(p), Ok(strings(&[])));
    assert_eq!(
        Value::Array(strings(&["a", "b c"])).array_or_split_string(p),
        Ok(strings(&["a", "b c"]))
    );
    assert_eq!(
        Value::Mapping(StringMap::new()).array_or_split_string(p),
        Err(ParseError::TypeMismatch {
            expected: Expected::ArrayOrSplitString,
            actual: ValueKind::Mapping,
            span: p,
        })
    );
}

#[test]
fn exact_projections_turn_down_other_kinds() {
    let p = span(7, 8);
    assert_eq!(Value::String("s".to_string()).string(p), Ok("s".to_string()));
    assert_eq!(
        Value::Array(vec![]).string(p),
        Err(ParseError::TypeMismatch { expected: Expected::String, actual: ValueKind::Array, span: p })
    );
    assert_eq!(
        Value::Mapping(StringMap::new()).string(p),
        Err(ParseError::TypeMismatch {
            expected: Expected::String,
            actual: ValueKind::Mapping,
            span: p,
        })
    );
    assert_eq!(Value::Array(strings(&["a"])).array(p), Ok(strings(&["a"])));
    assert_eq!(
        Value::String("s".to_string()).array(p),
        Err(ParseError::TypeMismatch { expected: Expected::Array, actual: ValueKind::String, span: p })
    );
    let mut m = StringMap::new();
    m.insert("k".to_string(), "v".to_string());
    let got = Value::Mapping(m).map(p).unwrap();
    assert_eq!(got.get("k"), Some(&"v".to_string()));
    assert_eq!(
        Value::Array(vec![]).map(p).unwrap_err(),
        ParseError::TypeMismatch { expected: Expected::Mapping, actual: ValueKind::Array, span: p }
    );
}

#[test]
fn parse_kvp_strips_the_quotes() {
    let KvPair { ident, val } = parse_kvp(&pair("uses", raw_string("docker://x"), 0)).unwrap();
    assert_eq!(ident, "uses");
    assert_eq!(val.string(span(0, 0)), Ok("docker://x".to_string()));

    let KvPair { val, .. } = parse_kvp(&pair("args", raw_array(&["a", "b c", ""]), 0)).unwrap();
    assert_eq!(val.array(span(0, 0)), Ok(strings(&["a", "b c", ""])));

    let KvPair { val, .. } =
        parse_kvp(&pair("env", raw_map(&[("A", "1"), ("B", "2"), ("A", "3")]), 0)).unwrap();
    let m = val.map(span(0, 0)).unwrap();
    assert_eq!(m.len(), 2);
    assert_eq!(m.key(0), "A");
    assert_eq!(m.value(0), "3");
    assert_eq!(m.key(1), "B");
    assert_eq!(m.value(1), "2");
}

#[test]
fn parse_kvp_reports_a_malformed_literal_at_the_pair() {
    let at = span(5, 6);
    let bad = |value: RawValue| RawPair { ident: "k".to_string(), value, span: at };
    let expected = ParseError::Syntax { span: at };
    assert_eq!(parse_kvp(&bad(RawValue::String("plain".to_string()))).unwrap_err(), expected);
    assert_eq!(parse_kvp(&bad(RawValue::String("\"".to_string()))).unwrap_err(), expected);
    assert_eq!(
        parse_kvp(&bad(RawValue::Array(vec![lit("ok"), "bad".to_string()]))).unwrap_err(),
        expected
    );
    assert_eq!(
        parse_kvp(&bad(RawValue::Mapping(vec![("A".to_string(), "bad\"".to_string())])))
            .unwrap_err(),
        expected
    );
}

#[test]
fn def_body_reads_name_and_pairs_in_source_order() {
    let b = block(
        DefKind::Action,
        "build it",
        vec![pair("uses", raw_string("u"), 1), pair("zzz", raw_array(&[]), 2)],
    );
    let (name, pairs) = parse_def_body(&b, &["uses"]).unwrap();
    assert_eq!(name, "build it");
    assert_eq!(pairs.len(), 2);
    assert_eq!(pairs[0].ident, "uses");
    assert_eq!(pairs[1].ident, "zzz");
}

#[test]
fn def_body_reports_a_key_given_twice() {
    let b = block(
        DefKind::Action,
        "a",
        vec![
            pair("uses", raw_string("u"), 1),
            pair("env", raw_map(&[]), 2),
            pair("uses", raw_string("v"), 3),
        ],
    );
    assert_eq!(
        parse_def_body(&b, &["uses"]).unwrap_err(),
        ParseError::DuplicateKey { key: "uses".to_string(), span: span(3, 4) }
    );
}

#[test]
fn def_body_reports_the_first_required_key_that_is_absent() {
    let b = block(DefKind::Workflow, "w", vec![pair("other", raw_string("x"), 1)]);
    assert_eq!(
        parse_def_body(&b, &["on", "resolves"]).unwrap_err(),
        ParseError::MissingKey { key: "on".to_string(), span: span(0, 100) }
    );
    let b = block(DefKind::Workflow, "w", vec![pair("on", raw_string("push"), 1)]);
    assert_eq!(
        parse_def_body(&b, &["on", "resolves"]).unwrap_err(),
        ParseError::MissingKey { key: "resolves".to_string(), span: span(0, 100) }
    );
}

#[test]
fn def_body_reports_a_malformed_name() {
    let b = RawBlock {
        kind: DefKind::Action,
        name: "bare".to_string(),
        pairs: vec![],
        span: span(4, 8),
    };
    assert_eq!(parse_def_body(&b, &[]).unwrap_err(), ParseError::Syntax { span: span(4, 8) });
}

#[test]
fn def_body_meets_errors_in_source_order() {
    // The malformed literal of the second pair comes before the repeat in the third.
    let b = block(
        DefKind::Action,
        "a",
        vec![
            pair("uses", raw_string("u"), 1),
            RawPair { ident: "x".to_string(), value: RawValue::String("bad".to_string()), span: span(2, 3) },
            pair("uses", raw_string("v"), 3),
        ],
    );
    assert_eq!(parse_def_body(&b, &["uses"]).unwrap_err(), ParseError::Syntax { span: span(2, 3) });
    // A repeat comes before a required key that is absent.
    let b = block(
        DefKind::Workflow,
        "w",
        vec![pair("on", raw_string("push"), 1), pair("on", raw_string("push"), 2)],
    );
    assert_eq!(
        parse_def_body(&b, &["on", "resolves"]).unwrap_err(),
        ParseError::DuplicateKey { key: "on".to_string(), span: span(2, 3) }
    );
}

#[test]
fn check_kvps_empty_names_the_first_pair_left() {
    let p = span(9, 10);
    assert_eq!(check_kvps_empty(p, &vec![]), Ok(()));
    let left = vec![
        KvPair { ident: "first".to_string(), val: Value::Array(vec![]) },
        KvPair { ident: "second".to_string(), val: Value::Array(vec![]) },
    ];
    assert_eq!(
        check_kvps_empty(p, &left),
        Err(ParseError::UnexpectedKey { key: "first".to_string(), span: p })
    );
}

#[test]
fn workflow_block_is_decoded() {
    let b = block(
        DefKind::Workflow,
        "main",
        vec![pair("resolves", raw_array(&["deploy", "lint"]), 2), pair("on", raw_string("push"), 1)],
    );
    let w = parse_workflow_def(&b).unwrap();
    assert_eq!(w.name, "main");
    assert_eq!(w.on, "push");
    assert_eq!(w.resolves, strings(&["deploy", "lint"]));
}

#[test]
fn workflow_resolves_may_be_a_single_name() {
    let b = block(
        DefKind::Workflow,
        "main",
        vec![pair("on", raw_string("push"), 1), pair("resolves", raw_string("deploy"), 2)],
    );
    assert_eq!(parse_workflow_def(&b).unwrap().resolves, strings(&["deploy"]));
}

#[test]
fn workflow_block_errors() {
    let p = span(0, 100);
    let b = block(
        DefKind::Workflow,
        "main",
        vec![pair("on", raw_array(&["push"]), 1), pair("resolves", raw_map(&[]), 2)],
    );
    assert_eq!(
        parse_workflow_def(&b).unwrap_err(),
        ParseError::TypeMismatch { expected: Expected::String, actual: ValueKind::Array, span: p }
    );
    let b = block(
        DefKind::Workflow,
        "main",
        vec![pair("on", raw_string("push"), 1), pair("resolves", raw_map(&[]), 2)],
    );
    assert_eq!(
        parse_workflow_def(&b).unwrap_err(),
        ParseError::TypeMismatch {
            expected: Expected::ArrayOrString,
            actual: ValueKind::Mapping,
            span: p,
        }
    );
    let b = block(
        DefKind::Workflow,
        "main",
        vec![
            pair("uses", raw_string("x"), 0),
            pair("on", raw_string("push"), 1),
            pair("needs", raw_string("x"), 2),
            pair("resolves", raw_array(&[]), 3),
        ],
    );
    assert_eq!(
        parse_workflow_def(&b).unwrap_err(),
        ParseError::UnexpectedKey { key: "uses".to_string(), span: p }
    );
    let b = block(DefKind::Workflow, "main", vec![pair("resolves", raw_array(&[]), 3)]);
    assert_eq!(
        parse_workflow_def(&b).unwrap_err(),
        ParseError::MissingKey { key: "on".to_string(), span: p }
    );
}

#[test]
fn action_block_with_every_field() {
    let a = action_of(vec![
        pair("secrets", raw_array(&["TOKEN", "KEY"]), 6),
        pair("env", raw_map(&[("FOO", "x"), ("BAR", "y z")]), 5),
        pair("args", raw_array(&["a", "b c"]), 4),
        pair("runs", raw_string("sh -c  run"), 3),
        pair("needs", raw_array(&["x", "y"]), 2),
        pair("uses", raw_string("docker://alpine"), 1),
    ])
    .unwrap();
    assert_eq!(a.name, "a");
    assert_eq!(a.uses, "docker://alpine");
    assert_eq!(a.needs, strings(&["x", "y"]));
    assert_eq!(a.runs, Some(strings(&["sh", "-c", "run"])));
    assert_eq!(a.args, Some(strings(&["a", "b c"])));
    assert_eq!(a.env.len(), 2);
    assert_eq!(a.env.get("FOO"), Some(&"x".to_string()));
    assert_eq!(a.env.get("BAR"), Some(&"y z".to_string()));
    assert_eq!(a.secrets, strings(&["TOKEN", "KEY"]));
}

#[test]
fn action_block_with_only_uses_takes_the_defaults() {
    let a = action_of(vec![pair("uses", raw_string("docker://alpine"), 1)]).unwrap();
    assert_eq!(a.needs, strings(&[]));
    assert_eq!(a.runs, None);
    assert_eq!(a.args, None);
    assert_eq!(a.env.len(), 0);
    assert_eq!(a.secrets, strings(&[]));
}

#[test]
fn bare_strings_are_coerced_field_by_field() {
    let a = action_of(vec![
        pair("uses", raw_string("u"), 1),
        pair("needs", raw_string("a"), 2),
        pair("runs", raw_string("a b c"), 3),
        pair("args", raw_array(&["a", "b c"]), 4),
    ])
    .unwrap();
    assert_eq!(a.needs, strings(&["a"]));
    assert_eq!(a.runs, Some(strings(&["a", "b", "c"])));
    assert_eq!(a.args, Some(strings(&["a", "b c"])));
}

#[test]
fn needs_is_not_split_on_whitespace() {
    let a = action_of(vec![pair("uses", raw_string("u"), 1), pair("needs", raw_string("a b"), 2)])
        .unwrap();
    assert_eq!(a.needs, strings(&["a b"]));
}

#[test]
fn empty_lists_stay_present() {
    let a = action_of(vec![
        pair("uses", raw_string("u"), 1),
        pair("runs", raw_array(&[]), 2),
        pair("args", raw_string(""), 3),
    ])
    .unwrap();
    assert_eq!(a.runs, Some(strings(&[])));
    assert_eq!(a.args, Some(strings(&[])));
}

#[test]
fn action_block_type_errors_come_in_field_order() {
    let p = span(0, 100);
    let mismatch = |expected, actual| ParseError::TypeMismatch { expected, actual, span: p };
    // Source order is the reverse of field order: the field order decides.
    let all_bad = vec![
        pair("secrets", raw_string("s"), 6),
        pair("env", raw_array(&[]), 5),
        pair("args", raw_map(&[]), 4),
        pair("runs", raw_map(&[]), 3),
        pair("needs", raw_map(&[]), 2),
        pair("uses", raw_array(&[]), 1),
    ];
    let expected = [
        mismatch(Expected::String, ValueKind::Array),
        mismatch(Expected::ArrayOrString, ValueKind::Mapping),
        mismatch(Expected::ArrayOrSplitString, ValueKind::Mapping),
        mismatch(Expected::ArrayOrSplitString, ValueKind::Mapping),
        mismatch(Expected::Mapping, ValueKind::Array),
        mismatch(Expected::Array, ValueKind::String),
    ];
    let good = [
        raw_string("u"),
        raw_array(&[]),
        raw_array(&["r"]),
        raw_array(&["a"]),
        raw_map(&[]),
        raw_array(&[]),
    ];
    let names = ["uses", "needs", "runs", "args", "env", "secrets"];
    for fixed in 0..6 {
        let mut pairs = all_bad.clone();
        for (i, name) in names.iter().enumerate().take(fixed) {
            let at = pairs.iter().position(|q| q.ident == *name).unwrap();
            pairs[at].value = good[i].clone();
        }
        assert_eq!(action_of(pairs).unwrap_err(), expected[fixed], "first bad field {}", names[fixed]);
    }
}

#[test]
fn action_block_reports_an_unknown_key_after_the_fields() {
    let p = span(0, 100);
    let pairs = vec![
        pair("image", raw_string("x"), 1),
        pair("uses", raw_string("u"), 2),
        pair("on", raw_string("push"), 3),
    ];
    assert_eq!(
        action_of(pairs).unwrap_err(),
        ParseError::UnexpectedKey { key: "image".to_string(), span: p }
    );
    // A field of the wrong kind is reported before the unknown key.
    let pairs = vec![pair("image", raw_string("x"), 1), pair("uses", raw_array(&[]), 2)];
    assert_eq!(
        action_of(pairs).unwrap_err(),
        ParseError::TypeMismatch { expected: Expected::String, actual: ValueKind::Array, span: p }
    );
}

#[test]
fn action_block_requires_uses() {
    assert_eq!(
        action_of(vec![pair("needs", raw_array(&[]), 1)]).unwrap_err(),
        ParseError::MissingKey { key: "uses".to_string(), span: span(0, 100) }
    );
}

#[test]
fn parse_def_goes_by_the_kind_of_block() {
    let w = block(
        DefKind::Workflow,
        "w",
        vec![pair("on", raw_string("push"), 1), pair("resolves", raw_array(&[]), 2)],
    );
    assert!(matches!(parse_def(&w), Ok(Def::Workflow(_))));
    let a = block(DefKind::Action, "a", vec![pair("uses", raw_string("u"), 1)]);
    assert!(matches!(parse_def(&a), Ok(Def::Action(_))));
    // The same pairs in a block of the other kind are turned down.
    let a = block(DefKind::Workflow, "a", vec![pair("uses", raw_string("u"), 1)]);
    assert!(matches!(parse_def(&a), Err(ParseError::MissingKey { .. })));
}

#[test]
fn parse_keeps_source_order_and_stops_at_the_first_error() {
    let w = block(
        DefKind::Workflow,
        "w",
        vec![pair("on", raw_string("push"), 1), pair("resolves", raw_array(&["b"]), 2)],
    );
    let a = block(DefKind::Action, "a", vec![pair("uses", raw_string("u"), 1)]);
    let b = block(DefKind::Action, "b", vec![pair("uses", raw_string("u"), 1)]);
    let defs = parse(&vec![a.clone(), w.clone(), b.clone()]).unwrap();
    assert_eq!(defs.len(), 3);
    match (&defs[0], &defs[1], &defs[2]) {
        (Def::Action(x), Def::Workflow(y), Def::Action(z)) => {
            assert_eq!(x.name, "a");
            assert_eq!(y.name, "w");
            assert_eq!(z.name, "b");
        }
        other => panic!("unexpected {:?}", other),
    }
    assert_eq!(parse(&vec![]).unwrap().len(), 0);

    let bad1 = RawBlock { kind: DefKind::Action, name: lit("x"), pairs: vec![], span: span(10, 20) };
    let bad2 = RawBlock { kind: DefKind::Action, name: lit("y"), pairs: vec![], span: span(30, 40) };
    assert_eq!(
        parse(&vec![a, bad1, w, bad2]).unwrap_err(),
        ParseError::MissingKey { key: "uses".to_string(), span: span(10, 20) }
    );
}
