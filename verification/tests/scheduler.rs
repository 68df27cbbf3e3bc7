use actions_runner::hir::builder::build as resolve;
use actions_runner::hir::parser::{ActionDef, Def, WorkflowDef};
use actions_runner::hir::{build, ActionId, Hir};
use actions_runner::scheduler::{schedule, CycleError};
use actions_runner::string_map::StringMap;

fn strings(items: &[&str]) -> Vec<String> {
    items.iter().map(|s| s.to_string()).collect()
}

fn action(name: &str, needs: &[&str]) -> Def {
    Def::Action(ActionDef {
        name: name.to_string(),
        uses: "docker://alpine".to_string(),
        needs: strings(needs),
        runs: None,
        args: None,
        env: StringMap::new(),
        secrets: Vec::new(),
    })
}

fn workflow(resolves: &[&str]) -> Def {
    Def::Workflow(WorkflowDef {
        name: "main".to_string(),
        on: "push".to_string(),
        resolves: strings(resolves),
    })
}

fn graph(actions: &[(&str, &[&str])]) -> Hir {
    let mut defs = vec![workflow(&[])];
    defs.extend(actions.iter().map(|(name, needs)| action(name, needs)));
    resolve(defs).unwrap()
}

fn ids(items: &[usize]) -> Vec<ActionId> {
    items.iter().map(|i| ActionId::new(*i)).collect()
}

fn names(h: &Hir, order: &[ActionId]) -> Vec<String> {
    order.iter().map(|id| h.action(*id).name.clone()).collect()
}

fn edges(items: &[(&str, &str)]) -> Vec<(String, String)> {
    items.iter().map(|(a, b)| (a.to_string(), b.to_string())).collect()
}

fn assert_is_schedule(h: &Hir, order: &[ActionId]) {
    let n = h.actions_cnt();
    assert_eq!(order.len(), n);
    let mut position = vec![usize::MAX; n];
    for (at, id) in order.iter().enumerate() {
        assert!(id.as_inner() < n);
        assert_eq!(position[id.as_inner()], usize::MAX, "{:?} occurs twice", id);
        position[id.as_inner()] = at;
    }
    for a in 0..n {
        for b in &h.action(ActionId::new(a)).needs {
            assert!(position[b.as_inner()] < position[a], "{} must come after {:?}", a, b);
        }
    }
}

#[test]
fn chain_is_scheduled_in_dependency_order() {
    let defs = vec![
        workflow(&["deploy"]),
        action("build", &[]),
        action("test", &["build"]),
        action("deploy", &["test"]),
    ];
    let hir = build(defs).unwrap();
    let order = schedule(&hir).unwrap();
    assert_eq!(names(&hir, &order), vec!["build", "test", "deploy"]);
    assert_eq!(order, ids(&[0, 1, 2]));
}

#[test]
fn chain_declared_backwards_is_scheduled_in_dependency_order() {
    let hir = graph(&[("deploy", &["test"]), ("test", &["build"]), ("build", &[])]);
    let order = schedule(&hir).unwrap();
    assert_eq!(names(&hir, &order), vec!["build", "test", "deploy"]);
}

#[test]
fn no_actions_give_an_empty_schedule() {
    assert_eq!(schedule(&graph(&[])), Ok(vec![]));
}

#[test]
fn unconnected_actions_come_in_table_order() {
    let hir = graph(&[("c", &[]), ("a", &[]), ("b", &[])]);
    assert_eq!(schedule(&hir), Ok(ids(&[0, 1, 2])));
}

#[test]
fn dependencies_are_walked_in_list_order() {
    // 0 needs 3 then 1; 1 needs 2; the walk from 0 leaves 3 first.
    let hir = graph(&[("a", &["d", "b"]), ("b", &["c"]), ("c", &[]), ("d", &[])]);
    assert_eq!(schedule(&hir), Ok(ids(&[3, 2, 1, 0])));
    let hir = graph(&[("a", &["b", "d"]), ("b", &["c"]), ("c", &[]), ("d", &[])]);
    assert_eq!(schedule(&hir), Ok(ids(&[2, 1, 3, 0])));
}

#[test]
fn a_diamond_is_scheduled_once_per_action() {
    let hir = graph(&[
        ("top", &["left", "right"]),
        ("left", &["bottom"]),
        ("right", &["bottom"]),
        ("bottom", &[]),
    ]);
    let order = schedule(&hir).unwrap();
    assert_eq!(names(&hir, &order), vec!["bottom", "left", "right", "top"]);
    assert_is_schedule(&hir, &order);
}

#[test]
fn a_repeated_dependency_counts_once() {
    let hir = graph(&[("a", &["b", "b", "b"]), ("b", &[])]);
    assert_eq!(schedule(&hir), Ok(ids(&[1, 0])));
}

#[test]
fn a_larger_graph_gets_a_permutation_that_respects_every_edge() {
    let hir = graph(&[
        ("n0", &["n5", "n3"]),
        ("n1", &["n0", "n7"]),
        ("n2", &[]),
        ("n3", &["n4", "n2"]),
        ("n4", &["n2"]),
        ("n5", &["n6", "n4"]),
        ("n6", &["n2", "n8"]),
        ("n7", &["n3", "n9"]),
        ("n8", &[]),
        ("n9", &["n8", "n2"]),
    ]);
    let order = schedule(&hir).unwrap();
    assert_is_schedule(&hir, &order);
    assert_eq!(order, ids(&[2, 8, 6, 4, 5, 3, 0, 9, 7, 1]));
}

#[test]
fn a_deep_chain_is_scheduled() {
    let n = 20_000;
    let mut defs = vec![workflow(&[])];
    for i in 0..n {
        let name = format!("a{}", i);
        if i + 1 < n {
            defs.push(action(&name, &[format!("a{}", i + 1).as_str()]));
        } else {
            defs.push(action(&name, &[]));
        }
    }
    let hir = resolve(defs).unwrap();
    let order = schedule(&hir).unwrap();
    let expected: Vec<ActionId> = (0..n).rev().map(ActionId::new).collect();
    assert_eq!(order, expected);
}

#[test]
fn two_actions_that_need_each_other_are_a_cycle() {
    let hir = graph(&[("a", &["b"]), ("b", &["a"])]);
    assert_eq!(
        schedule(&hir),
        Err(CycleError { cycle: ids(&[0, 1]), edges: edges(&[("a", "b"), ("b", "a")]) })
    );
}

#[test]
fn an_action_that_needs_itself_is_a_cycle() {
    let hir = graph(&[("x", &[]), ("a", &["x", "a"])]);
    assert_eq!(
        schedule(&hir),
        Err(CycleError { cycle: ids(&[1]), edges: edges(&[("a", "a")]) })
    );
}

#[test]
fn the_cycle_leaves_out_the_way_that_led_to_it() {
    // 0 -> 1 -> 2 -> 3 -> 1: the cycle is 1, 2, 3.
    let hir = graph(&[("start", &["p"]), ("p", &["q"]), ("q", &["r"]), ("r", &["p"])]);
    assert_eq!(
        schedule(&hir),
        Err(CycleError {
            cycle: ids(&[1, 2, 3]),
            edges: edges(&[("p", "q"), ("q", "r"), ("r", "p")]),
        })
    );
}

#[test]
fn the_first_cycle_that_the_walk_meets_is_reported() {
    let hir = graph(&[
        ("free", &[]),
        ("a", &["free", "b"]),
        ("b", &["a"]),
        ("c", &["d"]),
        ("d", &["c"]),
    ]);
    assert_eq!(
        schedule(&hir),
        Err(CycleError { cycle: ids(&[1, 2]), edges: edges(&[("a", "b"), ("b", "a")]) })
    );
}

#[test]
fn a_cycle_anywhere_leaves_no_partial_schedule() {
    let hir = graph(&[("ok1", &[]), ("ok2", &["ok1"]), ("x", &["y"]), ("y", &["x"])]);
    assert!(schedule(&hir).is_err());
}
