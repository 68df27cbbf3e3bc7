use actions_runner::hir::builder::build as resolve;
use actions_runner::hir::lint::{
    lint, lint_empty_arr, lint_env_github, lint_secrets_limit, LintOutcome, LintViolation,
    SECRET_COUNT_LIMIT,
};
use actions_runner::hir::parser::{ActionDef, Def, WorkflowDef};
use actions_runner::hir::Hir;
use actions_runner::string_map::StringMap;

fn strings(items: &[&str]) -> Vec<String> {
    items.iter().map(|s| s.to_string()).collect()
}

fn plain(name: &str) -> ActionDef {
    ActionDef {
        name: name.to_string(),
        uses: "docker://alpine".to_string(),
        needs: vec![],
        runs: None,
        args: None,
        env: StringMap::new(),
        secrets: vec![],
    }
}

fn with_env(name: &str, vars: &[(&str, &str)]) -> ActionDef {
    let mut a = plain(name);
    for (k, v) in vars {
        a.env.insert(k.to_string(), v.to_string());
    }
    a
}

fn with_secrets(name: &str, secrets: Vec<String>) -> ActionDef {
    let mut a = plain(name);
    a.secrets = secrets;
    a
}

fn hir_of(actions: Vec<ActionDef>) -> Hir {
    let mut defs = vec![Def::Workflow(WorkflowDef {
        name: "main".to_string(),
        on: "push".to_string(),
        resolves: vec![],
    })];
    defs.extend(actions.into_iter().map(Def::Action));
    resolve(defs).unwrap()
}

fn numbered(from: usize, to: usize) -> Vec<String> {
    (from..to).map(|i| format!("SECRET_{}", i)).collect()
}

fn reserved(action: &str, key: &str) -> LintViolation {
    LintViolation::ReservedEnvPrefix { action: action.to_string(), key: key.to_string() }
}

#[test]
fn outcomes_are_ordered() {
    assert!(LintOutcome::Allow < LintOutcome::Error);
    for (a, b) in [
        (LintOutcome::Allow, LintOutcome::Allow),
        (LintOutcome::Allow, LintOutcome::Error),
        (LintOutcome::Error, LintOutcome::Allow),
        (LintOutcome::Error, LintOutcome::Error),
    ] {
        let mut x = a;
        x.max_assign(b);
        assert_eq!(x, std::cmp::max(a, b));
    }
}

#[test]
fn the_secret_limit_is_one_hundred() {
    assert_eq!(SECRET_COUNT_LIMIT, 100);
}

#[test]
fn a_reserved_prefix_is_a_violation() {
    let h = hir_of(vec![with_env("a", &[("GITHUB_TOKEN", "x")])]);
    let mut report = vec![];
    assert_eq!(lint_env_github(&h, &mut report), LintOutcome::Error);
    assert_eq!(report, vec![reserved("a", "GITHUB_TOKEN")]);
    assert_eq!(lint(&h), Err(vec![reserved("a", "GITHUB_TOKEN")]));
}

#[test]
fn another_name_passes_the_prefix_rule() {
    let h = hir_of(vec![with_env("a", &[("FOO", "x")])]);
    let mut report = vec![];
    assert_eq!(lint_env_github(&h, &mut report), LintOutcome::Allow);
    assert_eq!(report, vec![]);
    assert_eq!(lint(&h), Ok(()));
}

#[test]
fn the_prefix_match_is_literal() {
    let h = hir_of(vec![with_env(
        "a",
        &[
            ("github_token", "x"),
            ("GITHUB", "x"),
            ("MY_GITHUB_TOKEN", "x"),
            ("Github_Token", "x"),
            ("GITHUB_", "x"),
        ],
    )]);
    assert_eq!(lint(&h), Err(vec![reserved("a", "GITHUB_")]));
}

#[test]
fn the_prefix_rule_looks_at_keys_not_values() {
    let h = hir_of(vec![with_env("a", &[("TOKEN", "GITHUB_TOKEN")])]);
    assert_eq!(lint(&h), Ok(()));
}

#[test]
fn every_reserved_name_is_reported_in_order() {
    let h = hir_of(vec![
        with_env("a", &[("GITHUB_B", "1"), ("OK", "2"), ("GITHUB_A", "3")]),
        plain("b"),
        with_env("c", &[("GITHUB_C", "4")]),
    ]);
    let mut report = vec![LintViolation::EmptyArgs { action: "kept".to_string() }];
    assert_eq!(lint_env_github(&h, &mut report), LintOutcome::Error);
    assert_eq!(
        report,
        vec![
            LintViolation::EmptyArgs { action: "kept".to_string() },
            reserved("a", "GITHUB_B"),
            reserved("a", "GITHUB_A"),
            reserved("c", "GITHUB_C"),
        ]
    );
}

#[test]
fn one_hundred_distinct_secrets_pass() {
    let h = hir_of(vec![with_secrets("a", numbered(0, 60)), with_secrets("b", numbered(60, 100))]);
    let mut report = vec![];
    assert_eq!(lint_secrets_limit(&h, &mut report), LintOutcome::Allow);
    assert_eq!(report, vec![]);
    assert_eq!(lint(&h), Ok(()));
}

#[test]
fn one_hundred_and_one_distinct_secrets_fail() {
    let h = hir_of(vec![with_secrets("a", numbered(0, 60)), with_secrets("b", numbered(60, 101))]);
    let mut report = vec![];
    assert_eq!(lint_secrets_limit(&h, &mut report), LintOutcome::Error);
    assert_eq!(report, vec![LintViolation::TooManySecrets { count: 101, limit: 100 }]);
    assert_eq!(lint(&h), Err(vec![LintViolation::TooManySecrets { count: 101, limit: 100 }]));
}

#[test]
fn repeated_secrets_count_once() {
    // 150 mentions of 100 names, within one action and across two.
    let mut first = numbered(0, 75);
    first.extend(numbered(0, 25));
    let h = hir_of(vec![with_secrets("a", first), with_secrets("b", numbered(50, 100))]);
    assert_eq!(lint(&h), Ok(()));
    let mut first = numbered(0, 75);
    first.extend(numbered(0, 25));
    let h = hir_of(vec![with_secrets("a", first), with_secrets("b", numbered(50, 103))]);
    assert_eq!(lint(&h), Err(vec![LintViolation::TooManySecrets { count: 103, limit: 100 }]));
}

#[test]
fn no_secrets_pass() {
    let h = hir_of(vec![plain("a")]);
    let mut report = vec![];
    assert_eq!(lint_secrets_limit(&h, &mut report), LintOutcome::Allow);
    assert_eq!(lint(&hir_of(vec![])), Ok(()));
}

#[test]
fn an_empty_runs_is_a_violation() {
    let mut a = plain("a");
    a.runs = Some(vec![]);
    let h = hir_of(vec![a]);
    let mut report = vec![];
    assert_eq!(lint_empty_arr(&h, &mut report), LintOutcome::Error);
    assert_eq!(report, vec![LintViolation::EmptyRuns { action: "a".to_string() }]);
}

#[test]
fn an_empty_args_is_a_violation() {
    let mut a = plain("a");
    a.args = Some(vec![]);
    let h = hir_of(vec![a]);
    assert_eq!(lint(&h), Err(vec![LintViolation::EmptyArgs { action: "a".to_string() }]));
}

#[test]
fn both_empty_lists_of_one_action_are_reported() {
    let mut a = plain("a");
    a.runs = Some(vec![]);
    a.args = Some(vec![]);
    let mut b = plain("b");
    b.runs = Some(strings(&["sh"]));
    b.args = Some(vec![]);
    let h = hir_of(vec![a, b]);
    assert_eq!(
        lint(&h),
        Err(vec![
            LintViolation::EmptyRuns { action: "a".to_string() },
            LintViolation::EmptyArgs { action: "a".to_string() },
            LintViolation::EmptyArgs { action: "b".to_string() },
        ])
    );
}

#[test]
fn lists_that_are_absent_or_filled_pass() {
    let mut a = plain("a");
    a.runs = Some(strings(&["sh"]));
    a.args = Some(strings(&[""]));
    let h = hir_of(vec![a, plain("b")]);
    let mut report = vec![];
    assert_eq!(lint_empty_arr(&h, &mut report), LintOutcome::Allow);
    assert_eq!(report, vec![]);
}

#[test]
fn every_rule_runs_whatever_the_others_found() {
    let mut a = with_env("a", &[("GITHUB_SHA", "x")]);
    a.secrets = numbered(0, 101);
    a.args = Some(vec![]);
    let mut b = with_env("b", &[("GITHUB_REF", "y")]);
    b.runs = Some(vec![]);
    let h = hir_of(vec![a, b]);
    assert_eq!(
        lint(&h),
        Err(vec![
            reserved("a", "GITHUB_SHA"),
            reserved("b", "GITHUB_REF"),
            LintViolation::TooManySecrets { count: 101, limit: 100 },
            LintViolation::EmptyArgs { action: "a".to_string() },
            LintViolation::EmptyRuns { action: "b".to_string() },
        ])
    );
}
