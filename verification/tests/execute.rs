use actions_runner::execute::{command_line, provide_docker_image, ExecError, ExecOptions, GitInfo};
use actions_runner::hir::builder::build as resolve;
use actions_runner::hir::parser::{ActionDef, Def, WorkflowDef};
use actions_runner::hir::{ActionId, Hir};
use actions_runner::string_map::StringMap;
use std::path::PathBuf;

fn strings(items: &[&str]) -> Vec<String> {
    items.iter().map(|s| s.to_string()).collect()
}

fn options() -> ExecOptions {
    ExecOptions {
        git: GitInfo::new("abc123".to_string()),
        dir: PathBuf::from("/repo"),
        dry: true,
        home_dir: "/tmp/home".to_string(),
        workspace_dir: "/tmp/ws".to_string(),
    }
}

fn hir_with(action: ActionDef) -> Hir {
    resolve(vec![
        Def::Workflow(WorkflowDef {
            name: "ci flow".to_string(),
            on: "push".to_string(),
            resolves: vec![],
        }),
        Def::Action(action),
    ])
    .unwrap()
}

fn plain(uses: &str) -> ActionDef {
    ActionDef {
        name: "build".to_string(),
        uses: uses.to_string(),
        needs: vec![],
        runs: None,
        args: None,
        env: StringMap::new(),
        secrets: vec![],
    }
}

const RESERVED: [&str; 16] = [
    "--env",
    "HOME=/github/home",
    "--env",
    "GITHUB_WORKFLOW=ci flow",
    "--env",
    "GITHUB_ACTION=build",
    "--env",
    "GITHUB_EVENT_NAME=push",
    "--env",
    "GITHUB_EVENT_PATH=/github/workflow/event.json",
    "--env",
    "GITHUB_WORKSPACE=/github/workspace",
    "--env",
    "GITHUB_SHA=abc123",
    "--env",
    "GH_ACTIONS_RUNNER_LOCAL=1",
];

const MOUNTS: [&str; 6] = [
    "--workdir",
    "/github/workspace",
    "--volume",
    "/tmp/ws:/github/workspace",
    "--volume",
    "/tmp/home:/github/home",
];

fn expected(env: &[&str], tail: &[&str]) -> Vec<String> {
    let mut all = strings(&["run", "--rm"]);
    all.extend(strings(env));
    all.extend(strings(&MOUNTS));
    all.extend(strings(tail));
    all
}

#[test]
fn git_info_holds_the_commit() {
    assert_eq!(GitInfo::new("deadbeef".to_string()).commit(), "deadbeef");
}

#[test]
fn image_reference_loses_its_scheme() {
    assert_eq!(provide_docker_image("docker://alpine:3"), Ok("alpine:3".to_string()));
    assert_eq!(provide_docker_image("docker://"), Ok("".to_string()));
    assert_eq!(provide_docker_image("docker://a/docker://b"), Ok("a/docker://b".to_string()));
}

#[test]
fn every_leading_scheme_is_dropped() {
    assert_eq!(provide_docker_image("docker://docker://alpine"), Ok("alpine".to_string()));
    for input in ["docker://x", "docker://docker://docker://x", "docker://docker:/x"] {
        assert_eq!(
            provide_docker_image(input),
            Ok(input.trim_start_matches("docker://").to_string())
        );
    }
}

#[test]
fn other_references_are_not_supported() {
    for uses in ["alpine", "./local", "owner/repo@v1", "", "docker:/x", "Docker://x", " docker://x"] {
        assert_eq!(
            provide_docker_image(uses),
            Err(ExecError::UnsupportedImage { uses: uses.to_string() })
        );
    }
}

#[test]
fn command_line_of_a_bare_action() {
    let h = hir_with(plain("docker://alpine"));
    assert_eq!(
        command_line(&h, ActionId::new(0), &options()),
        Ok(expected(&RESERVED, &["alpine"]))
    );
}

#[test]
fn command_line_with_args_only() {
    let mut a = plain("docker://alpine");
    a.args = Some(strings(&["echo", "hello world"]));
    let h = hir_with(a);
    assert_eq!(
        command_line(&h, ActionId::new(0), &options()),
        Ok(expected(&RESERVED, &["alpine", "echo", "hello world"]))
    );
}

#[test]
fn command_line_with_runs_sets_the_entry_point() {
    let mut a = plain("docker://alpine");
    a.runs = Some(strings(&["sh", "-c"]));
    let h = hir_with(a);
    assert_eq!(
        command_line(&h, ActionId::new(0), &options()),
        Ok(expected(&RESERVED, &["--entrypoint", "sh", "alpine", "-c"]))
    );
}

#[test]
fn command_line_with_runs_and_args() {
    let mut a = plain("docker://node:10");
    a.runs = Some(strings(&["npm"]));
    a.args = Some(strings(&["run", "build"]));
    let h = hir_with(a);
    assert_eq!(
        command_line(&h, ActionId::new(0), &options()),
        Ok(expected(&RESERVED, &["--entrypoint", "npm", "node:10", "run", "build"]))
    );
}

#[test]
fn declared_variables_come_first_and_reserved_ones_win() {
    let mut a = plain("docker://alpine");
    a.env.insert("FOO".to_string(), "bar".to_string());
    a.env.insert("HOME".to_string(), "/root".to_string());
    a.env.insert("GITHUB_SHA".to_string(), "forged".to_string());
    a.env.insert("EMPTY".to_string(), "".to_string());
    let h = hir_with(a);
    let env = [
        "--env",
        "FOO=bar",
        "--env",
        "HOME=/github/home",
        "--env",
        "GITHUB_SHA=abc123",
        "--env",
        "EMPTY=",
        "--env",
        "GITHUB_WORKFLOW=ci flow",
        "--env",
        "GITHUB_ACTION=build",
        "--env",
        "GITHUB_EVENT_NAME=push",
        "--env",
        "GITHUB_EVENT_PATH=/github/workflow/event.json",
        "--env",
        "GITHUB_WORKSPACE=/github/workspace",
        "--env",
        "GH_ACTIONS_RUNNER_LOCAL=1",
    ];
    assert_eq!(command_line(&h, ActionId::new(0), &options()), Ok(expected(&env, &["alpine"])));
}

#[test]
fn command_line_turns_down_other_images() {
    let mut a = plain("owner/repo@master");
    a.runs = Some(strings(&["x"]));
    let h = hir_with(a);
    assert_eq!(
        command_line(&h, ActionId::new(0), &options()),
        Err(ExecError::UnsupportedImage { uses: "owner/repo@master".to_string() })
    );
}
