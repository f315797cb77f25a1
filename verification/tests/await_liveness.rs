use kobo_driver::await_liveness::{
    await_live_locals_in_expr, live_locals_by_await_in_body, AsyncArm, AsyncExpr, AsyncStmt,
};

fn names(items: &[&str]) -> Vec<String> {
    items.iter().map(|s| s.to_string()).collect()
}

fn path(name: &str) -> AsyncExpr {
    AsyncExpr::Opaque { uses: names(&[name]), await_count: 0 }
}

fn call(func: &str, args: Vec<AsyncExpr>) -> AsyncExpr {
    let mut children = vec![path(func)];
    children.extend(args);
    AsyncExpr::Sequence(children)
}

fn awaited(e: AsyncExpr) -> AsyncExpr {
    AsyncExpr::Await(Box::new(e))
}

fn local(binding: &str, init: AsyncExpr) -> AsyncStmt {
    AsyncStmt::Local { pattern_bindings: names(&[binding]), init: Some(init), diverge: None }
}

#[test]
fn await_keeps_locals_used_after_it() {
    let body = vec![
        local("a", path("x")),
        local("_b", path("y")),
        local("unused", path("z")),
        local("c", awaited(call("fetch", vec![]))),
        AsyncStmt::Expr(call("consume", vec![path("a"), path("c"), path("_b")])),
    ];
    assert_eq!(live_locals_by_await_in_body(&body), vec![names(&["a"])]);
}

#[test]
fn locals_declared_after_an_await_are_not_live_across_it() {
    let body = vec![
        AsyncStmt::Expr(awaited(call("tick", vec![]))),
        local("late", path("x")),
        AsyncStmt::Expr(call("consume", vec![path("late")])),
    ];
    assert_eq!(live_locals_by_await_in_body(&body), vec![Vec::<String>::new()]);
}

#[test]
fn operands_after_an_await_keep_their_locals_live() {
    let expr = call("f", vec![awaited(call("g", vec![])), path("a")]);
    let (awaits, uses) = await_live_locals_in_expr(&expr, &vec![], &names(&["b", "a"]));
    assert_eq!(awaits, vec![names(&["a"])]);
    assert_eq!(uses, names(&["a", "f", "g"]));
}

#[test]
fn an_awaited_condition_keeps_both_branches_live() {
    let expr = AsyncExpr::If {
        cond: Box::new(awaited(call("ready", vec![]))),
        then_branch: vec![AsyncStmt::Expr(path("b"))],
        else_branch: Some(Box::new(AsyncExpr::Block(vec![AsyncStmt::Expr(path("a"))]))),
    };
    let (awaits, _) = await_live_locals_in_expr(&expr, &vec![], &names(&["z", "b", "a"]));
    assert_eq!(awaits, vec![names(&["a", "b"])]);
}

#[test]
fn a_match_guard_sees_its_arm_bindings() {
    let expr = AsyncExpr::Match {
        scrutinee: Box::new(path("s")),
        arms: vec![
            AsyncArm {
                pattern_bindings: names(&["v"]),
                guard: Some(awaited(call("check", vec![]))),
                body: path("v"),
            },
            AsyncArm { pattern_bindings: vec![], guard: None, body: awaited(path("w")) },
        ],
    };
    let (awaits, uses) = await_live_locals_in_expr(&expr, &names(&["w"]), &names(&["w"]));
    assert_eq!(awaits, vec![names(&["v", "w"]), names(&["w"])]);
    assert_eq!(uses, names(&["check", "s", "v", "w"]));
}

#[test]
fn loop_bodies_keep_the_iterator_locals_live() {
    let expr = AsyncExpr::ForLoop {
        pattern_bindings: names(&["item"]),
        iter: Box::new(awaited(path("stream"))),
        body: vec![AsyncStmt::Expr(awaited(call("handle", vec![path("item"), path("conn")])))],
    };
    let (awaits, _) = await_live_locals_in_expr(&expr, &vec![], &names(&["conn"]));
    assert_eq!(awaits, vec![names(&["conn"]), Vec::<String>::new()]);
}

#[test]
fn opaque_expressions_repeat_the_live_set_for_each_await() {
    let expr = AsyncExpr::Opaque { uses: names(&["q", "p"]), await_count: 2 };
    let (awaits, uses) = await_live_locals_in_expr(&expr, &names(&["a", "b"]), &names(&["b", "a", "_c"]));
    assert_eq!(awaits, vec![names(&["a", "b"]), names(&["a", "b"])]);
    assert_eq!(uses, names(&["p", "q"]));
}
