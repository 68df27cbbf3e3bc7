use actions_runner::hir::builder::ResolveError;
use actions_runner::hir::lint::LintViolation;
use actions_runner::hir::parser::{parse, DefKind, RawBlock, RawPair, RawValue, Span};
use actions_runner::hir::{build, ActionId, BuildError};
use actions_runner::scheduler::schedule;

fn lit(s: &str) -> String {
    format!("\"{}\"", s)
}

fn pair(ident: &str, value: RawValue) -> RawPair {
    RawPair { ident: ident.to_string(), value, span: Span { start: 0, end: 0 } }
}

fn string(s: &str) -> RawValue {
    RawValue::String(lit(s))
}

fn array(items: &[&str]) -> RawValue {
    RawValue::Array(items.iter().map(|s| lit(s)).collect())
}

fn workflow(on: &str, resolves: RawValue) -> RawBlock {
    RawBlock {
        kind: DefKind::Workflow,
        name: lit("main"),
        pairs: vec![pair("on", string(on)), pair("resolves", resolves)],
        span: Span { start: 0, end: 0 },
    }
}

fn action(name: &str, extra: Vec<RawPair>) -> RawBlock {
    let mut pairs = vec![pair("uses", string("docker://alpine"))];
    pairs.extend(extra);
    RawBlock { kind: DefKind::Action, name: lit(name), pairs, span: Span { start: 0, end: 0 } }
}

#[test]
fn build_test_deploy_end_to_end() {
    let blocks = vec![
        workflow("push", array(&["deploy"])),
        action("build", vec![]),
        action("test", vec![pair("needs", string("build"))]),
        action("deploy", vec![pair("needs", array(&["test"]))]),
    ];
    let hir = build(parse(&blocks).unwrap()).unwrap();
    let order = schedule(&hir).unwrap();
    let names: Vec<&str> = order.iter().map(|id| hir.action(*id).name.as_str()).collect();
    assert_eq!(names, vec!["build", "test", "deploy"]);
    assert_eq!(hir.workflow().depends, vec![ActionId::new(2)]);
}

#[test]
fn a_cycle_is_reported_edge_by_edge() {
    let blocks = vec![
        workflow("push", array(&[])),
        action("a", vec![pair("needs", string("b"))]),
        action("b", vec![pair("needs", string("a"))]),
    ];
    let hir = build(parse(&blocks).unwrap()).unwrap();
    let err = schedule(&hir).unwrap_err();
    assert_eq!(err.lines(), vec!["a -> b", "b -> a"]);
}

#[test]
fn a_ghost_dependency_stops_the_build() {
    let blocks =
        vec![workflow("push", array(&[])), action("a", vec![pair("needs", array(&["ghost"]))])];
    assert_eq!(
        build(parse(&blocks).unwrap()).unwrap_err(),
        BuildError::Resolve(ResolveError::UnknownAction {
            kind: DefKind::Action,
            referrer: "a".to_string(),
            name: "ghost".to_string(),
        })
    );
}

#[test]
fn written_out_empty_lists_stop_the_build() {
    let blocks = vec![
        workflow("push", array(&[])),
        action("a", vec![pair("runs", array(&[])), pair("args", array(&[]))]),
        action(
            "b",
            vec![pair(
                "env",
                RawValue::Mapping(vec![
                    ("FOO".to_string(), lit("x")),
                    ("GITHUB_TOKEN".to_string(), lit("x")),
                ]),
            )],
        ),
    ];
    assert_eq!(
        build(parse(&blocks).unwrap()).unwrap_err(),
        BuildError::Lint(vec![
            LintViolation::ReservedEnvPrefix {
                action: "b".to_string(),
                key: "GITHUB_TOKEN".to_string(),
            },
            LintViolation::EmptyRuns { action: "a".to_string() },
            LintViolation::EmptyArgs { action: "a".to_string() },
        ])
    );
}
