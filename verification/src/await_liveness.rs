//! Which locals stay live across each await of an async body. The body is
//! given as a tree of the expression forms that matter for evaluation order;
//! each await records the locals declared before it that a later part of the
//! body still uses.
use vstd::prelude::*;
use crate::live_locals::{counted_local, lemma_filter_sorted, live_declared_locals, live_of};
use crate::templates::{insert_sorted, sorted_strict, texts};
use crate::text::utf8_len;

verus! {

/// An expression of an async body, as far as await liveness needs it.
#[derive(Debug)]
pub enum AsyncExpr {
    /// `base.await`.
    Await(Box<AsyncExpr>),
    /// Operands evaluated from left to right: arrays, assignments, binary
    /// operations, calls and method calls, indexing, ranges, repeats, struct
    /// literals and tuples.
    Sequence(Vec<AsyncExpr>),
    /// A block (plain, `try` or `unsafe`).
    Block(Vec<AsyncStmt>),
    /// A form with at most one operand: `break`, casts, closures, field
    /// access, groups, `let` conditions, parentheses, references, `return`,
    /// `?`, unary operations and `yield`.
    Single(Option<Box<AsyncExpr>>),
    /// A `for` loop with the bindings of its pattern.
    ForLoop { pattern_bindings: Vec<String>, iter: Box<AsyncExpr>, body: Vec<AsyncStmt> },
    /// A `while` loop.
    While { cond: Box<AsyncExpr>, body: Vec<AsyncStmt> },
    /// An `if`, with its `else` branch if it has one.
    If { cond: Box<AsyncExpr>, then_branch: Vec<AsyncStmt>, else_branch: Option<Box<AsyncExpr>> },
    /// A `match`.
    Match { scrutinee: Box<AsyncExpr>, arms: Vec<AsyncArm> },
    /// Any other expression: the single-segment paths it uses and the number
    /// of awaits inside it.
    Opaque { uses: Vec<String>, await_count: usize },
}

/// A `match` arm: the bindings of its pattern, its guard and its body.
#[derive(Debug)]
pub struct AsyncArm {
    pub pattern_bindings: Vec<String>,
    pub guard: Option<AsyncExpr>,
    pub body: AsyncExpr,
}

/// A statement of an async body.
#[derive(Debug)]
pub enum AsyncStmt {
    /// A `let` with the bindings of its pattern, its initializer and the
    /// `else` branch of a `let ... else`.
    Local { pattern_bindings: Vec<String>, init: Option<AsyncExpr>, diverge: Option<AsyncExpr> },
    /// An expression statement.
    Expr(AsyncExpr),
    /// A macro or item statement, with the single-segment paths it uses.
    Other { uses: Vec<String> },
}

/// The set of texts of a list of strings.
pub open spec fn set_of(v: Seq<String>) -> Set<Seq<char>> {
    texts(v).to_set()
}

/// The locals of `declared` that stay live when `later` is what the rest of
/// the body uses: those it uses, other than `_`-prefixed ones.
pub open spec fn live_set(later: Set<Seq<char>>, declared: Set<Seq<char>>) -> Set<Seq<char>> {
    declared.filter(|b: Seq<char>| counted_local(b) && later.contains(b))
}

/// The single-segment paths an expression uses.
pub open spec fn expr_uses(e: AsyncExpr) -> Set<Seq<char>>
    decreases e, 0int,
{
    match e {
        AsyncExpr::Await(base) => expr_uses(*base),
        AsyncExpr::Sequence(children) => exprs_uses_from(children@, 0),
        AsyncExpr::Block(stmts) => stmts_uses_from(stmts@, 0),
        AsyncExpr::Single(child) => match child {
            Some(c) => expr_uses(*c),
            None => Set::empty(),
        },
        AsyncExpr::ForLoop { pattern_bindings, iter, body } => expr_uses(*iter) + stmts_uses_from(body@, 0),
        AsyncExpr::While { cond, body } => expr_uses(*cond) + stmts_uses_from(body@, 0),
        AsyncExpr::If { cond, then_branch, else_branch } => {
            let from_else = match else_branch {
                Some(b) => expr_uses(*b),
                None => Set::empty(),
            };
            expr_uses(*cond) + stmts_uses_from(then_branch@, 0) + from_else
        },
        AsyncExpr::Match { scrutinee, arms } => expr_uses(*scrutinee) + arms_uses_from(arms@, 0),
        AsyncExpr::Opaque { uses, await_count } => set_of(uses@),
    }
}

/// The paths the expressions of `children` from position `i` on use.
pub open spec fn exprs_uses_from(children: Seq<AsyncExpr>, i: int) -> Set<Seq<char>>
    decreases children, children.len() - i,
{
    if 0 <= i < children.len() {
        expr_uses(children[i]) + exprs_uses_from(children, i + 1)
    } else {
        Set::empty()
    }
}

/// The paths a statement uses.
pub open spec fn stmt_uses(s: AsyncStmt) -> Set<Seq<char>>
    decreases s, 0int,
{
    match s {
        AsyncStmt::Local { pattern_bindings, init, diverge } => {
            let from_init = match init {
                Some(i) => expr_uses(i),
                None => Set::empty(),
            };
            let from_diverge = match diverge {
                Some(d) => expr_uses(d),
                None => Set::empty(),
            };
            from_init + from_diverge
        },
        AsyncStmt::Expr(e) => expr_uses(e),
        AsyncStmt::Other { uses } => set_of(uses@),
    }
}

/// The paths the statements of `stmts` from position `i` on use.
pub open spec fn stmts_uses_from(stmts: Seq<AsyncStmt>, i: int) -> Set<Seq<char>>
    decreases stmts, stmts.len() - i,
{
    if 0 <= i < stmts.len() {
        stmt_uses(stmts[i]) + stmts_uses_from(stmts, i + 1)
    } else {
        Set::empty()
    }
}

/// The paths a `match` arm uses, in its guard and its body.
pub open spec fn arm_uses(a: AsyncArm) -> Set<Seq<char>>
    decreases a, 0int,
{
    let from_guard = match a.guard {
        Some(g) => expr_uses(g),
        None => Set::empty(),
    };
    from_guard + expr_uses(a.body)
}

/// The paths the arms of `arms` from position `i` on use.
pub open spec fn arms_uses_from(arms: Seq<AsyncArm>, i: int) -> Set<Seq<char>>
    decreases arms, arms.len() - i,
{
    if 0 <= i < arms.len() {
        arm_uses(arms[i]) + arms_uses_from(arms, i + 1)
    } else {
        Set::empty()
    }
}

/// The bindings a statement declares: those of a `let` pattern.
pub open spec fn stmt_bindings(s: AsyncStmt) -> Set<Seq<char>> {
    match s {
        AsyncStmt::Local { pattern_bindings, .. } => set_of(pattern_bindings@),
        _ => Set::empty(),
    }
}

/// The bindings the first `n` statements of `stmts` declare.
pub open spec fn stmts_bindings_upto(stmts: Seq<AsyncStmt>, n: int) -> Set<Seq<char>>
    decreases n,
{
    if n <= 0 {
        Set::empty()
    } else {
        stmts_bindings_upto(stmts, n - 1) + stmt_bindings(stmts[n - 1])
    }
}

/// The live locals at each await of an expression, in evaluation order, when
/// `later` is what the body uses after it and `declared` the locals declared
/// before it.
pub open spec fn expr_awaits(e: AsyncExpr, later: Set<Seq<char>>, declared: Set<Seq<char>>) -> Seq<Set<Seq<char>>>
    decreases e, 0int,
{
    match e {
        AsyncExpr::Await(base) => expr_awaits(*base, later, declared).push(live_set(later, declared)),
        AsyncExpr::Sequence(children) => exprs_awaits_upto(children@, later, declared, children@.len() as int),
        AsyncExpr::Block(stmts) => stmts_awaits_upto(stmts@, later, declared, stmts@.len() as int),
        AsyncExpr::Single(child) => match child {
            Some(c) => expr_awaits(*c, later, declared),
            None => Seq::empty(),
        },
        AsyncExpr::ForLoop { pattern_bindings, iter, body } =>
            expr_awaits(*iter, later + stmts_uses_from(body@, 0), declared)
                + stmts_awaits_upto(body@, later, declared + set_of(pattern_bindings@), body@.len() as int),
        AsyncExpr::While { cond, body } =>
            expr_awaits(*cond, later + stmts_uses_from(body@, 0), declared)
                + stmts_awaits_upto(body@, later, declared, body@.len() as int),
        AsyncExpr::If { cond, then_branch, else_branch } => {
            let else_uses = match else_branch {
                Some(b) => expr_uses(*b),
                None => Set::empty(),
            };
            let else_awaits = match else_branch {
                Some(b) => expr_awaits(*b, later, declared),
                None => Seq::empty(),
            };
            expr_awaits(*cond, later + stmts_uses_from(then_branch@, 0) + else_uses, declared)
                + stmts_awaits_upto(then_branch@, later, declared, then_branch@.len() as int) + else_awaits
        },
        AsyncExpr::Match { scrutinee, arms } =>
            expr_awaits(*scrutinee, later + arms_uses_from(arms@, 0), declared)
                + arms_awaits_upto(arms@, later, declared, arms@.len() as int),
        AsyncExpr::Opaque { uses, await_count } => Seq::new(await_count as nat, |k: int| live_set(later, declared)),
    }
}

/// The awaits of the first `n` operands of `children`, each evaluated with
/// the uses of the operands after it added to `later`.
pub open spec fn exprs_awaits_upto(children: Seq<AsyncExpr>, later: Set<Seq<char>>, declared: Set<Seq<char>>, n: int) -> Seq<Set<Seq<char>>>
    decreases children, n,
{
    if 0 < n <= children.len() {
        exprs_awaits_upto(children, later, declared, n - 1)
            + expr_awaits(children[n - 1], later + exprs_uses_from(children, n), declared)
    } else {
        Seq::empty()
    }
}

/// The awaits of a statement.
pub open spec fn stmt_awaits(s: AsyncStmt, later: Set<Seq<char>>, declared: Set<Seq<char>>) -> Seq<Set<Seq<char>>>
    decreases s, 0int,
{
    match s {
        AsyncStmt::Local { pattern_bindings, init, diverge } => match init {
            Some(i) => expr_awaits(i, later, declared),
            None => Seq::empty(),
        },
        AsyncStmt::Expr(e) => expr_awaits(e, later, declared),
        AsyncStmt::Other { uses } => Seq::empty(),
    }
}

/// The awaits of the first `n` statements of a block: each with the uses of
/// the statements after it added to `later`, and the bindings of the ones
/// before it added to `declared`.
pub open spec fn stmts_awaits_upto(stmts: Seq<AsyncStmt>, later: Set<Seq<char>>, declared: Set<Seq<char>>, n: int) -> Seq<Set<Seq<char>>>
    decreases stmts, n,
{
    if 0 < n <= stmts.len() {
        stmts_awaits_upto(stmts, later, declared, n - 1)
            + stmt_awaits(stmts[n - 1], later + stmts_uses_from(stmts, n), declared + stmts_bindings_upto(stmts, n - 1))
    } else {
        Seq::empty()
    }
}

/// The awaits of a `match` arm: those of its guard, which its body's uses
/// follow, then those of its body, both with the arm's bindings declared.
pub open spec fn arm_awaits(a: AsyncArm, later: Set<Seq<char>>, declared: Set<Seq<char>>) -> Seq<Set<Seq<char>>>
    decreases a, 0int,
{
    let arm_declared = declared + set_of(a.pattern_bindings@);
    let guard_awaits = match a.guard {
        Some(g) => expr_awaits(g, later + expr_uses(a.body), arm_declared),
        None => Seq::empty(),
    };
    guard_awaits + expr_awaits(a.body, later, arm_declared)
}

/// The awaits of the first `n` arms of a `match`.
pub open spec fn arms_awaits_upto(arms: Seq<AsyncArm>, later: Set<Seq<char>>, declared: Set<Seq<char>>, n: int) -> Seq<Set<Seq<char>>>
    decreases arms, n,
{
    if 0 < n <= arms.len() {
        arms_awaits_upto(arms, later, declared, n - 1) + arm_awaits(arms[n - 1], later, declared)
    } else {
        Seq::empty()
    }
}

/// Every name in `names` is short enough to measure in bytes.
pub open spec fn names_fit(names: Set<Seq<char>>) -> bool {
    forall|x: Seq<char>| #[trigger] names.contains(x) ==> utf8_len(x) <= usize::MAX
}

/// Every binding that a pattern of the expression declares is short enough
/// to measure in bytes.
pub open spec fn expr_bindings_fit(e: AsyncExpr) -> bool
    decreases e, 0int,
{
    match e {
        AsyncExpr::Await(base) => expr_bindings_fit(*base),
        AsyncExpr::Sequence(children) => exprs_bindings_fit(children@, 0),
        AsyncExpr::Block(stmts) => stmts_bindings_fit(stmts@, 0),
        AsyncExpr::Single(child) => match child {
            Some(c) => expr_bindings_fit(*c),
            None => true,
        },
        AsyncExpr::ForLoop { pattern_bindings, iter, body } =>
            names_fit(set_of(pattern_bindings@)) && expr_bindings_fit(*iter) && stmts_bindings_fit(body@, 0),
        AsyncExpr::While { cond, body } => expr_bindings_fit(*cond) && stmts_bindings_fit(body@, 0),
        AsyncExpr::If { cond, then_branch, else_branch } => {
            let else_fits = match else_branch {
                Some(b) => expr_bindings_fit(*b),
                None => true,
            };
            expr_bindings_fit(*cond) && stmts_bindings_fit(then_branch@, 0) && else_fits
        },
        AsyncExpr::Match { scrutinee, arms } => expr_bindings_fit(*scrutinee) && arms_bindings_fit(arms@, 0),
        AsyncExpr::Opaque { .. } => true,
    }
}

pub open spec fn exprs_bindings_fit(children: Seq<AsyncExpr>, i: int) -> bool
    decreases children, children.len() - i,
{
    0 <= i < children.len() ==> expr_bindings_fit(children[i]) && exprs_bindings_fit(children, i + 1)
}

pub open spec fn stmt_bindings_fit(s: AsyncStmt) -> bool
    decreases s, 0int,
{
    match s {
        AsyncStmt::Local { pattern_bindings, init, diverge } => names_fit(set_of(pattern_bindings@)) && match init {
            Some(i) => expr_bindings_fit(i),
            None => true,
        },
        AsyncStmt::Expr(e) => expr_bindings_fit(e),
        AsyncStmt::Other { .. } => true,
    }
}

pub open spec fn stmts_bindings_fit(stmts: Seq<AsyncStmt>, i: int) -> bool
    decreases stmts, stmts.len() - i,
{
    0 <= i < stmts.len() ==> stmt_bindings_fit(stmts[i]) && stmts_bindings_fit(stmts, i + 1)
}

pub open spec fn arm_bindings_fit(a: AsyncArm) -> bool
    decreases a, 0int,
{
    let guard_fits = match a.guard {
        Some(g) => expr_bindings_fit(g),
        None => true,
    };
    names_fit(set_of(a.pattern_bindings@)) && guard_fits && expr_bindings_fit(a.body)
}

pub open spec fn arms_bindings_fit(arms: Seq<AsyncArm>, i: int) -> bool
    decreases arms, arms.len() - i,
{
    0 <= i < arms.len() ==> arm_bindings_fit(arms[i]) && arms_bindings_fit(arms, i + 1)
}

/// Every set of `sets` holds only names that fit.
pub open spec fn all_fit(sets: Seq<Set<Seq<char>>>) -> bool {
    forall|j: int| 0 <= j < sets.len() ==> names_fit(#[trigger] sets[j])
}

proof fn lemma_all_fit_concat(a: Seq<Set<Seq<char>>>, b: Seq<Set<Seq<char>>>)
    requires
        all_fit(a),
        all_fit(b),
    ensures
        all_fit(a + b),
{
    assert forall|j: int| 0 <= j < (a + b).len() implies names_fit(#[trigger] (a + b)[j]) by {
        if j < a.len() {
            assert((a + b)[j] == a[j]);
        } else {
            assert((a + b)[j] == b[j - a.len()]);
        }
    }
}

proof fn lemma_exprs_fit_at(children: Seq<AsyncExpr>, i: int, k: int)
    requires
        exprs_bindings_fit(children, i),
        0 <= i <= k < children.len(),
    ensures
        expr_bindings_fit(children[k]),
    decreases k - i,
{
    if i < k {
        lemma_exprs_fit_at(children, i + 1, k);
    }
}

proof fn lemma_stmts_fit_at(stmts: Seq<AsyncStmt>, i: int, k: int)
    requires
        stmts_bindings_fit(stmts, i),
        0 <= i <= k < stmts.len(),
    ensures
        stmt_bindings_fit(stmts[k]),
    decreases k - i,
{
    if i < k {
        lemma_stmts_fit_at(stmts, i + 1, k);
    }
}

proof fn lemma_arms_fit_at(arms: Seq<AsyncArm>, i: int, k: int)
    requires
        arms_bindings_fit(arms, i),
        0 <= i <= k < arms.len(),
    ensures
        arm_bindings_fit(arms[k]),
    decreases k - i,
{
    if i < k {
        lemma_arms_fit_at(arms, i + 1, k);
    }
}

proof fn lemma_live_set_fits(later: Set<Seq<char>>, declared: Set<Seq<char>>)
    requires
        names_fit(declared),
    ensures
        names_fit(live_set(later, declared)),
{
}

/// The live locals at every await are among the locals declared before it,
/// so where those and the expression's own bindings fit, so do they.
pub proof fn lemma_expr_awaits_fit(e: AsyncExpr, later: Set<Seq<char>>, declared: Set<Seq<char>>)
    requires
        names_fit(declared),
        expr_bindings_fit(e),
    ensures
        all_fit(expr_awaits(e, later, declared)),
    decreases e, 0int,
{
    lemma_live_set_fits(later, declared);
    match e {
        AsyncExpr::Await(base) => {
            lemma_expr_awaits_fit(*base, later, declared);
            let prev = expr_awaits(*base, later, declared);
            assert(prev.push(live_set(later, declared)) =~= prev + seq![live_set(later, declared)]);
            lemma_all_fit_concat(prev, seq![live_set(later, declared)]);
        },
        AsyncExpr::Sequence(children) => {
            lemma_exprs_awaits_fit(children@, later, declared, children@.len() as int);
        },
        AsyncExpr::Block(stmts) => {
            lemma_stmts_awaits_fit(stmts@, later, declared, stmts@.len() as int);
        },
        AsyncExpr::Single(child) => {
            match child {
                Some(c) => lemma_expr_awaits_fit(*c, later, declared),
                None => {},
            }
        },
        AsyncExpr::ForLoop { pattern_bindings, iter, body } => {
            lemma_expr_awaits_fit(*iter, later + stmts_uses_from(body@, 0), declared);
            lemma_stmts_awaits_fit(body@, later, declared + set_of(pattern_bindings@), body@.len() as int);
            lemma_all_fit_concat(expr_awaits(*iter, later + stmts_uses_from(body@, 0), declared),
                stmts_awaits_upto(body@, later, declared + set_of(pattern_bindings@), body@.len() as int));
        },
        AsyncExpr::While { cond, body } => {
            lemma_expr_awaits_fit(*cond, later + stmts_uses_from(body@, 0), declared);
            lemma_stmts_awaits_fit(body@, later, declared, body@.len() as int);
            lemma_all_fit_concat(expr_awaits(*cond, later + stmts_uses_from(body@, 0), declared),
                stmts_awaits_upto(body@, later, declared, body@.len() as int));
        },
        AsyncExpr::If { cond, then_branch, else_branch } => {
            let else_uses = match else_branch {
                Some(b) => expr_uses(*b),
                None => Set::empty(),
            };
            let else_awaits = match else_branch {
                Some(b) => expr_awaits(*b, later, declared),
                None => Seq::empty(),
            };
            match else_branch {
                Some(b) => lemma_expr_awaits_fit(*b, later, declared),
                None => {},
            }
            let c = expr_awaits(*cond, later + stmts_uses_from(then_branch@, 0) + else_uses, declared);
            let t = stmts_awaits_upto(then_branch@, later, declared, then_branch@.len() as int);
            lemma_expr_awaits_fit(*cond, later + stmts_uses_from(then_branch@, 0) + else_uses, declared);
            lemma_stmts_awaits_fit(then_branch@, later, declared, then_branch@.len() as int);
            lemma_all_fit_concat(c, t);
            lemma_all_fit_concat(c + t, else_awaits);
        },
        AsyncExpr::Match { scrutinee, arms } => {
            lemma_expr_awaits_fit(*scrutinee, later + arms_uses_from(arms@, 0), declared);
            lemma_arms_awaits_fit(arms@, later, declared, arms@.len() as int);
            lemma_all_fit_concat(expr_awaits(*scrutinee, later + arms_uses_from(arms@, 0), declared),
                arms_awaits_upto(arms@, later, declared, arms@.len() as int));
        },
        AsyncExpr::Opaque { uses, await_count } => {},
    }
}

proof fn lemma_exprs_awaits_fit(children: Seq<AsyncExpr>, later: Set<Seq<char>>, declared: Set<Seq<char>>, n: int)
    requires
        names_fit(declared),
        exprs_bindings_fit(children, 0),
    ensures
        all_fit(exprs_awaits_upto(children, later, declared, n)),
    decreases children, n,
{
    if 0 < n <= children.len() {
        lemma_exprs_awaits_fit(children, later, declared, n - 1);
        lemma_exprs_fit_at(children, 0, n - 1);
        lemma_expr_awaits_fit(children[n - 1], later + exprs_uses_from(children, n), declared);
        lemma_all_fit_concat(exprs_awaits_upto(children, later, declared, n - 1),
            expr_awaits(children[n - 1], later + exprs_uses_from(children, n), declared));
    }
}

proof fn lemma_stmt_awaits_fit(s: AsyncStmt, later: Set<Seq<char>>, declared: Set<Seq<char>>)
    requires
        names_fit(declared),
        stmt_bindings_fit(s),
    ensures
        all_fit(stmt_awaits(s, later, declared)),
    decreases s, 0int,
{
    match s {
        AsyncStmt::Local { pattern_bindings, init, diverge } => match init {
            Some(i) => lemma_expr_awaits_fit(i, later, declared),
            None => {},
        },
        AsyncStmt::Expr(e) => lemma_expr_awaits_fit(e, later, declared),
        AsyncStmt::Other { uses } => {},
    }
}

proof fn lemma_stmts_bindings_upto_fit(stmts: Seq<AsyncStmt>, n: int)
    requires
        stmts_bindings_fit(stmts, 0),
        n <= stmts.len(),
    ensures
        names_fit(stmts_bindings_upto(stmts, n)),
    decreases n,
{
    if n > 0 {
        lemma_stmts_bindings_upto_fit(stmts, n - 1);
        lemma_stmts_fit_at(stmts, 0, n - 1);
    }
}

/// The live locals at every await of a block are among the locals declared
/// before it, so where those and the block's own bindings fit, so do they.
pub proof fn lemma_stmts_awaits_fit(stmts: Seq<AsyncStmt>, later: Set<Seq<char>>, declared: Set<Seq<char>>, n: int)
    requires
        names_fit(declared),
        stmts_bindings_fit(stmts, 0),
    ensures
        all_fit(stmts_awaits_upto(stmts, later, declared, n)),
    decreases stmts, n,
{
    if 0 < n <= stmts.len() {
        lemma_stmts_awaits_fit(stmts, later, declared, n - 1);
        lemma_stmts_fit_at(stmts, 0, n - 1);
        lemma_stmts_bindings_upto_fit(stmts, n - 1);
        let d = declared + stmts_bindings_upto(stmts, n - 1);
        lemma_stmt_awaits_fit(stmts[n - 1], later + stmts_uses_from(stmts, n), d);
        lemma_all_fit_concat(stmts_awaits_upto(stmts, later, declared, n - 1),
            stmt_awaits(stmts[n - 1], later + stmts_uses_from(stmts, n), d));
    }
}

proof fn lemma_arm_awaits_fit(a: AsyncArm, later: Set<Seq<char>>, declared: Set<Seq<char>>)
    requires
        names_fit(declared),
        arm_bindings_fit(a),
    ensures
        all_fit(arm_awaits(a, later, declared)),
    decreases a, 0int,
{
    let arm_declared = declared + set_of(a.pattern_bindings@);
    let guard_awaits = match a.guard {
        Some(g) => expr_awaits(g, later + expr_uses(a.body), arm_declared),
        None => Seq::empty(),
    };
    match a.guard {
        Some(g) => lemma_expr_awaits_fit(g, later + expr_uses(a.body), arm_declared),
        None => {},
    }
    lemma_expr_awaits_fit(a.body, later, arm_declared);
    lemma_all_fit_concat(guard_awaits, expr_awaits(a.body, later, arm_declared));
}

proof fn lemma_arms_awaits_fit(arms: Seq<AsyncArm>, later: Set<Seq<char>>, declared: Set<Seq<char>>, n: int)
    requires
        names_fit(declared),
        arms_bindings_fit(arms, 0),
    ensures
        all_fit(arms_awaits_upto(arms, later, declared, n)),
    decreases arms, n,
{
    if 0 < n <= arms.len() {
        lemma_arms_awaits_fit(arms, later, declared, n - 1);
        lemma_arms_fit_at(arms, 0, n - 1);
        lemma_arm_awaits_fit(arms[n - 1], later, declared);
        lemma_all_fit_concat(arms_awaits_upto(arms, later, declared, n - 1), arm_awaits(arms[n - 1], later, declared));
    }
}

/// Every set of `sets` holds `x`.
pub open spec fn all_hold(sets: Seq<Set<Seq<char>>>, x: Seq<char>) -> bool {
    forall|j: int| 0 <= j < sets.len() ==> (#[trigger] sets[j]).contains(x)
}

proof fn lemma_all_hold_concat(a: Seq<Set<Seq<char>>>, b: Seq<Set<Seq<char>>>, x: Seq<char>)
    requires
        all_hold(a, x),
        all_hold(b, x),
    ensures
        all_hold(a + b, x),
{
    assert forall|j: int| 0 <= j < (a + b).len() implies (#[trigger] (a + b)[j]).contains(x) by {
        if j < a.len() {
            assert((a + b)[j] == a[j]);
        } else {
            assert((a + b)[j] == b[j - a.len()]);
        }
    }
}

/// A local declared before an expression that the body still uses later,
/// and that is not `_`-prefixed, is live across every await inside the
/// expression.
pub proof fn lemma_expr_awaits_hold(e: AsyncExpr, later: Set<Seq<char>>, declared: Set<Seq<char>>, x: Seq<char>)
    requires
        declared.contains(x),
        later.contains(x),
        counted_local(x),
    ensures
        all_hold(expr_awaits(e, later, declared), x),
    decreases e, 0int,
{
    match e {
        AsyncExpr::Await(base) => {
            lemma_expr_awaits_hold(*base, later, declared, x);
            let prev = expr_awaits(*base, later, declared);
            assert(prev.push(live_set(later, declared)) =~= prev + seq![live_set(later, declared)]);
            lemma_all_hold_concat(prev, seq![live_set(later, declared)], x);
        },
        AsyncExpr::Sequence(children) => {
            lemma_exprs_awaits_hold(children@, later, declared, x, children@.len() as int);
        },
        AsyncExpr::Block(stmts) => {
            lemma_stmts_awaits_hold(stmts@, later, declared, x, stmts@.len() as int);
        },
        AsyncExpr::Single(child) => {
            match child {
                Some(c) => lemma_expr_awaits_hold(*c, later, declared, x),
                None => {},
            }
        },
        AsyncExpr::ForLoop { pattern_bindings, iter, body } => {
            lemma_expr_awaits_hold(*iter, later + stmts_uses_from(body@, 0), declared, x);
            lemma_stmts_awaits_hold(body@, later, declared + set_of(pattern_bindings@), x, body@.len() as int);
            lemma_all_hold_concat(expr_awaits(*iter, later + stmts_uses_from(body@, 0), declared),
                stmts_awaits_upto(body@, later, declared + set_of(pattern_bindings@), body@.len() as int), x);
        },
        AsyncExpr::While { cond, body } => {
            lemma_expr_awaits_hold(*cond, later + stmts_uses_from(body@, 0), declared, x);
            lemma_stmts_awaits_hold(body@, later, declared, x, body@.len() as int);
            lemma_all_hold_concat(expr_awaits(*cond, later + stmts_uses_from(body@, 0), declared),
                stmts_awaits_upto(body@, later, declared, body@.len() as int), x);
        },
        AsyncExpr::If { cond, then_branch, else_branch } => {
            let else_uses = match else_branch {
                Some(b) => expr_uses(*b),
                None => Set::empty(),
            };
            let else_awaits = match else_branch {
                Some(b) => expr_awaits(*b, later, declared),
                None => Seq::empty(),
            };
            match else_branch {
                Some(b) => lemma_expr_awaits_hold(*b, later, declared, x),
                None => {},
            }
            let c = expr_awaits(*cond, later + stmts_uses_from(then_branch@, 0) + else_uses, declared);
            let t = stmts_awaits_upto(then_branch@, later, declared, then_branch@.len() as int);
            lemma_expr_awaits_hold(*cond, later + stmts_uses_from(then_branch@, 0) + else_uses, declared, x);
            lemma_stmts_awaits_hold(then_branch@, later, declared, x, then_branch@.len() as int);
            lemma_all_hold_concat(c, t, x);
            lemma_all_hold_concat(c + t, else_awaits, x);
        },
        AsyncExpr::Match { scrutinee, arms } => {
            lemma_expr_awaits_hold(*scrutinee, later + arms_uses_from(arms@, 0), declared, x);
            lemma_arms_awaits_hold(arms@, later, declared, x, arms@.len() as int);
            lemma_all_hold_concat(expr_awaits(*scrutinee, later + arms_uses_from(arms@, 0), declared),
                arms_awaits_upto(arms@, later, declared, arms@.len() as int), x);
        },
        AsyncExpr::Opaque { uses, await_count } => {},
    }
}

proof fn lemma_exprs_awaits_hold(children: Seq<AsyncExpr>, later: Set<Seq<char>>, declared: Set<Seq<char>>, x: Seq<char>, n: int)
    requires
        declared.contains(x),
        later.contains(x),
        counted_local(x),
    ensures
        all_hold(exprs_awaits_upto(children, later, declared, n), x),
    decreases children, n,
{
    if 0 < n <= children.len() {
        lemma_exprs_awaits_hold(children, later, declared, x, n - 1);
        lemma_expr_awaits_hold(children[n - 1], later + exprs_uses_from(children, n), declared, x);
        lemma_all_hold_concat(exprs_awaits_upto(children, later, declared, n - 1),
            expr_awaits(children[n - 1], later + exprs_uses_from(children, n), declared), x);
    }
}

proof fn lemma_stmt_awaits_hold(s: AsyncStmt, later: Set<Seq<char>>, declared: Set<Seq<char>>, x: Seq<char>)
    requires
        declared.contains(x),
        later.contains(x),
        counted_local(x),
    ensures
        all_hold(stmt_awaits(s, later, declared), x),
    decreases s, 0int,
{
    match s {
        AsyncStmt::Local { pattern_bindings, init, diverge } => match init {
            Some(i) => lemma_expr_awaits_hold(i, later, declared, x),
            None => {},
        },
        AsyncStmt::Expr(e) => lemma_expr_awaits_hold(e, later, declared, x),
        AsyncStmt::Other { uses } => {},
    }
}

proof fn lemma_stmts_awaits_hold(stmts: Seq<AsyncStmt>, later: Set<Seq<char>>, declared: Set<Seq<char>>, x: Seq<char>, n: int)
    requires
        declared.contains(x),
        later.contains(x),
        counted_local(x),
    ensures
        all_hold(stmts_awaits_upto(stmts, later, declared, n), x),
    decreases stmts, n,
{
    if 0 < n <= stmts.len() {
        lemma_stmts_awaits_hold(stmts, later, declared, x, n - 1);
        let d = declared + stmts_bindings_upto(stmts, n - 1);
        lemma_stmt_awaits_hold(stmts[n - 1], later + stmts_uses_from(stmts, n), d, x);
        lemma_all_hold_concat(stmts_awaits_upto(stmts, later, declared, n - 1),
            stmt_awaits(stmts[n - 1], later + stmts_uses_from(stmts, n), d), x);
    }
}

proof fn lemma_arm_awaits_hold(a: AsyncArm, later: Set<Seq<char>>, declared: Set<Seq<char>>, x: Seq<char>)
    requires
        declared.contains(x),
        later.contains(x),
        counted_local(x),
    ensures
        all_hold(arm_awaits(a, later, declared), x),
    decreases a, 0int,
{
    let arm_declared = declared + set_of(a.pattern_bindings@);
    let guard_awaits = match a.guard {
        Some(g) => expr_awaits(g, later + expr_uses(a.body), arm_declared),
        None => Seq::empty(),
    };
    match a.guard {
        Some(g) => lemma_expr_awaits_hold(g, later + expr_uses(a.body), arm_declared, x),
        None => {},
    }
    lemma_expr_awaits_hold(a.body, later, arm_declared, x);
    lemma_all_hold_concat(guard_awaits, expr_awaits(a.body, later, arm_declared), x);
}

proof fn lemma_arms_awaits_hold(arms: Seq<AsyncArm>, later: Set<Seq<char>>, declared: Set<Seq<char>>, x: Seq<char>, n: int)
    requires
        declared.contains(x),
        later.contains(x),
        counted_local(x),
    ensures
        all_hold(arms_awaits_upto(arms, later, declared, n), x),
    decreases arms, n,
{
    if 0 < n <= arms.len() {
        lemma_arms_awaits_hold(arms, later, declared, x, n - 1);
        lemma_arm_awaits_hold(arms[n - 1], later, declared, x);
        lemma_all_hold_concat(arms_awaits_upto(arms, later, declared, n - 1), arm_awaits(arms[n - 1], later, declared), x);
    }
}

/// How many awaits an expression has does not depend on what is used after
/// it or declared before it.
pub proof fn lemma_expr_await_count(e: AsyncExpr, l1: Set<Seq<char>>, d1: Set<Seq<char>>, l2: Set<Seq<char>>, d2: Set<Seq<char>>)
    ensures
        expr_awaits(e, l1, d1).len() == expr_awaits(e, l2, d2).len(),
    decreases e, 0int,
{
    match e {
        AsyncExpr::Await(base) => lemma_expr_await_count(*base, l1, d1, l2, d2),
        AsyncExpr::Sequence(children) => lemma_exprs_await_count(children@, l1, d1, l2, d2, children@.len() as int),
        AsyncExpr::Block(stmts) => lemma_stmts_await_count(stmts@, l1, d1, l2, d2, stmts@.len() as int),
        AsyncExpr::Single(child) => match child {
            Some(c) => lemma_expr_await_count(*c, l1, d1, l2, d2),
            None => {},
        },
        AsyncExpr::ForLoop { pattern_bindings, iter, body } => {
            lemma_expr_await_count(*iter, l1 + stmts_uses_from(body@, 0), d1, l2 + stmts_uses_from(body@, 0), d2);
            lemma_stmts_await_count(body@, l1, d1 + set_of(pattern_bindings@), l2, d2 + set_of(pattern_bindings@), body@.len() as int);
        },
        AsyncExpr::While { cond, body } => {
            lemma_expr_await_count(*cond, l1 + stmts_uses_from(body@, 0), d1, l2 + stmts_uses_from(body@, 0), d2);
            lemma_stmts_await_count(body@, l1, d1, l2, d2, body@.len() as int);
        },
        AsyncExpr::If { cond, then_branch, else_branch } => {
            let else_uses = match else_branch {
                Some(b) => expr_uses(*b),
                None => Set::empty(),
            };
            lemma_expr_await_count(*cond, l1 + stmts_uses_from(then_branch@, 0) + else_uses, d1,
                l2 + stmts_uses_from(then_branch@, 0) + else_uses, d2);
            lemma_stmts_await_count(then_branch@, l1, d1, l2, d2, then_branch@.len() as int);
            match else_branch {
                Some(b) => lemma_expr_await_count(*b, l1, d1, l2, d2),
                None => {},
            }
        },
        AsyncExpr::Match { scrutinee, arms } => {
            lemma_expr_await_count(*scrutinee, l1 + arms_uses_from(arms@, 0), d1, l2 + arms_uses_from(arms@, 0), d2);
            lemma_arms_await_count(arms@, l1, d1, l2, d2, arms@.len() as int);
        },
        AsyncExpr::Opaque { .. } => {},
    }
}

proof fn lemma_exprs_await_count(children: Seq<AsyncExpr>, l1: Set<Seq<char>>, d1: Set<Seq<char>>, l2: Set<Seq<char>>, d2: Set<Seq<char>>, n: int)
    ensures
        exprs_awaits_upto(children, l1, d1, n).len() == exprs_awaits_upto(children, l2, d2, n).len(),
    decreases children, n,
{
    if 0 < n <= children.len() {
        lemma_exprs_await_count(children, l1, d1, l2, d2, n - 1);
        lemma_expr_await_count(children[n - 1], l1 + exprs_uses_from(children, n), d1, l2 + exprs_uses_from(children, n), d2);
    }
}

proof fn lemma_stmt_await_count(s: AsyncStmt, l1: Set<Seq<char>>, d1: Set<Seq<char>>, l2: Set<Seq<char>>, d2: Set<Seq<char>>)
    ensures
        stmt_awaits(s, l1, d1).len() == stmt_awaits(s, l2, d2).len(),
    decreases s, 0int,
{
    match s {
        AsyncStmt::Local { pattern_bindings, init, diverge } => match init {
            Some(i) => lemma_expr_await_count(i, l1, d1, l2, d2),
            None => {},
        },
        AsyncStmt::Expr(e) => lemma_expr_await_count(e, l1, d1, l2, d2),
        AsyncStmt::Other { .. } => {},
    }
}

proof fn lemma_stmts_await_count(stmts: Seq<AsyncStmt>, l1: Set<Seq<char>>, d1: Set<Seq<char>>, l2: Set<Seq<char>>, d2: Set<Seq<char>>, n: int)
    ensures
        stmts_awaits_upto(stmts, l1, d1, n).len() == stmts_awaits_upto(stmts, l2, d2, n).len(),
    decreases stmts, n,
{
    if 0 < n <= stmts.len() {
        lemma_stmts_await_count(stmts, l1, d1, l2, d2, n - 1);
        lemma_stmt_await_count(stmts[n - 1], l1 + stmts_uses_from(stmts, n), d1 + stmts_bindings_upto(stmts, n - 1),
            l2 + stmts_uses_from(stmts, n), d2 + stmts_bindings_upto(stmts, n - 1));
    }
}

proof fn lemma_arm_await_count(a: AsyncArm, l1: Set<Seq<char>>, d1: Set<Seq<char>>, l2: Set<Seq<char>>, d2: Set<Seq<char>>)
    ensures
        arm_awaits(a, l1, d1).len() == arm_awaits(a, l2, d2).len(),
    decreases a, 0int,
{
    match a.guard {
        Some(g) => lemma_expr_await_count(g, l1 + expr_uses(a.body), d1 + set_of(a.pattern_bindings@),
            l2 + expr_uses(a.body), d2 + set_of(a.pattern_bindings@)),
        None => {},
    }
    lemma_expr_await_count(a.body, l1, d1 + set_of(a.pattern_bindings@), l2, d2 + set_of(a.pattern_bindings@));
}

proof fn lemma_arms_await_count(arms: Seq<AsyncArm>, l1: Set<Seq<char>>, d1: Set<Seq<char>>, l2: Set<Seq<char>>, d2: Set<Seq<char>>, n: int)
    ensures
        arms_awaits_upto(arms, l1, d1, n).len() == arms_awaits_upto(arms, l2, d2, n).len(),
    decreases arms, n,
{
    if 0 < n <= arms.len() {
        lemma_arms_await_count(arms, l1, d1, l2, d2, n - 1);
        lemma_arm_await_count(arms[n - 1], l1, d1, l2, d2);
    }
}

/// At every await of a `while` loop's condition, the locals declared before
/// the loop that its body uses (other than `_`-prefixed ones) stay live: the
/// body runs after the condition.
pub proof fn lemma_while_condition_keeps_body_locals(cond: Box<AsyncExpr>, body: Vec<AsyncStmt>, later: Set<Seq<char>>, declared: Set<Seq<char>>, x: Seq<char>)
    requires
        declared.contains(x),
        counted_local(x),
        stmts_uses_from(body@, 0).contains(x),
    ensures
        forall|j: int| 0 <= j < expr_awaits(*cond, later, declared).len()
            ==> (#[trigger] expr_awaits(AsyncExpr::While { cond: cond, body: body }, later, declared)[j]).contains(x),
{
    let cl = later + stmts_uses_from(body@, 0);
    lemma_expr_await_count(*cond, later, declared, cl, declared);
    lemma_expr_awaits_hold(*cond, cl, declared, x);
    let w = expr_awaits(AsyncExpr::While { cond: cond, body: body }, later, declared);
    let c = expr_awaits(*cond, cl, declared);
    assert forall|j: int| 0 <= j < expr_awaits(*cond, later, declared).len() implies (#[trigger] w[j]).contains(x) by {
        assert(w[j] == c[j]);
    }
}

/// The sets of a list of lists of strings.
pub open spec fn sets_of(v: Seq<Vec<String>>) -> Seq<Set<Seq<char>>> {
    v.map_values(|x: Vec<String>| set_of(x@))
}

/// Each list is strictly sorted.
pub open spec fn all_sorted(v: Seq<Vec<String>>) -> bool {
    forall|i: int| 0 <= i < v.len() ==> sorted_strict(#[trigger] texts(v[i]@))
}

fn copy_strings(v: &Vec<String>) -> (r: Vec<String>)
    ensures
        r@ == v@,
{
    let mut r: Vec<String> = Vec::new();
    let mut i: usize = 0;
    while i < v.len()
        invariant
            i <= v@.len(),
            r@ == v@.take(i as int),
        decreases v@.len() - i,
    {
        r.push(v[i].clone());
        proof {
            assert(v@.take(i + 1) =~= v@.take(i as int).push(v@[i as int]));
        }
        i = i + 1;
    }
    proof {
        assert(v@.take(i as int) =~= v@);
    }
    r
}

proof fn lemma_set_of_push(v: Seq<String>, x: String)
    ensures
        set_of(v.push(x)) == set_of(v).insert(x@),
{
    assert(texts(v.push(x)) =~= texts(v).push(x@));
    assert(texts(v).push(x@).to_set() =~= texts(v).to_set().insert(x@)) by {
        assert forall|y: Seq<char>| texts(v).push(x@).to_set().contains(y) <==> texts(v).to_set().insert(x@).contains(y) by {
            if texts(v).contains(y) {
                let k = choose|k: int| 0 <= k < texts(v).len() && texts(v)[k] == y;
                assert(texts(v).push(x@)[k] == y);
            }
            if y == x@ {
                assert(texts(v).push(x@)[texts(v).len() as int] == y);
            }
        }
    }
}

/// Adds the strings of `other` to the strictly sorted `acc`.
fn union_into(acc: &mut Vec<String>, other: &Vec<String>)
    requires
        sorted_strict(texts(old(acc)@)),
    ensures
        sorted_strict(texts(final(acc)@)),
        set_of(final(acc)@) == set_of(old(acc)@) + set_of(other@),
{
    let ghost start = set_of(acc@);
    let mut i: usize = 0;
    proof {
        assert(other@.take(0) =~= Seq::<String>::empty());
        assert(set_of(other@.take(0)) =~= Set::<Seq<char>>::empty());
        assert(start + Set::<Seq<char>>::empty() =~= start);
    }
    while i < other.len()
        invariant
            i <= other@.len(),
            sorted_strict(texts(acc@)),
            set_of(acc@) == start + set_of(other@.take(i as int)),
        decreases other@.len() - i,
    {
        let ghost before = acc@;
        insert_sorted(acc, other[i].clone());
        proof {
            assert(other@.take(i + 1) =~= other@.take(i as int).push(other@[i as int]));
            lemma_set_of_push(other@.take(i as int), other@[i as int]);
            assert(set_of(acc@) =~= set_of(before).insert(other@[i as int]@)) by {
                assert forall|y: Seq<char>| set_of(acc@).contains(y) <==> set_of(before).insert(other@[i as int]@).contains(y) by {
                    assert(texts(acc@).contains(y) <==> (texts(before).contains(y) || y == other@[i as int]@));
                }
            }
            assert(set_of(acc@) =~= start + set_of(other@.take(i + 1)));
        }
        i = i + 1;
    }
    proof {
        assert(other@.take(i as int) =~= other@);
    }
}

/// The strings of `items` as a strictly sorted list.
fn sorted_set(items: &Vec<String>) -> (r: Vec<String>)
    ensures
        sorted_strict(texts(r@)),
        set_of(r@) == set_of(items@),
{
    let mut r: Vec<String> = Vec::new();
    proof {
        assert(set_of(r@) =~= Set::<Seq<char>>::empty());
    }
    union_into(&mut r, items);
    proof {
        assert(Set::<Seq<char>>::empty() + set_of(items@) =~= set_of(items@));
    }
    r
}

/// The union of two strictly sorted lists, strictly sorted.
fn union_of(a: &Vec<String>, b: &Vec<String>) -> (r: Vec<String>)
    requires
        sorted_strict(texts(a@)),
    ensures
        sorted_strict(texts(r@)),
        set_of(r@) == set_of(a@) + set_of(b@),
{
    let mut r = copy_strings(a);
    union_into(&mut r, b);
    r
}

/// The live locals of `declared` when `later` is what follows.
fn live_locals_exec(later: &Vec<String>, declared: &Vec<String>) -> (r: Vec<String>)
    requires
        sorted_strict(texts(declared@)),
    ensures
        sorted_strict(texts(r@)),
        set_of(r@) == live_set(set_of(later@), set_of(declared@)),
{
    let r = live_declared_locals(later.as_slice(), declared.as_slice());
    proof {
        let keep = |b: Seq<char>| counted_local(b) && texts(later@).contains(b);
        lemma_filter_sorted(texts(declared@), keep);
        assert(set_of(r@) =~= live_set(set_of(later@), set_of(declared@))) by {
            assert forall|x: Seq<char>| set_of(r@).contains(x) <==> live_set(set_of(later@), set_of(declared@)).contains(x) by {
                assert(texts(r@) == texts(declared@).filter(keep));
            }
        }
    }
    r
}

proof fn lemma_sets_of_append(a: Seq<Vec<String>>, b: Seq<Vec<String>>)
    ensures
        sets_of(a + b) == sets_of(a) + sets_of(b),
        all_sorted(a) && all_sorted(b) ==> all_sorted(a + b),
{
    assert(sets_of(a + b) =~= sets_of(a) + sets_of(b));
    if all_sorted(a) && all_sorted(b) {
        assert forall|i: int| 0 <= i < (a + b).len() implies sorted_strict(#[trigger] texts((a + b)[i]@)) by {
            if i < a.len() {
                assert((a + b)[i] == a[i]);
            } else {
                assert((a + b)[i] == b[i - a.len()]);
            }
        }
    }
}

/// Appends the awaits of `more` to `acc`.
fn append_awaits(acc: &mut Vec<Vec<String>>, more: Vec<Vec<String>>)
    requires
        all_sorted(old(acc)@),
        all_sorted(more@),
    ensures
        all_sorted(final(acc)@),
        sets_of(final(acc)@) == sets_of(old(acc)@) + sets_of(more@),
{
    let mut more = more;
    let ghost m = more@;
    acc.append(&mut more);
    proof {
        lemma_sets_of_append(old(acc)@, m);
    }
}

/// The single-segment paths an expression uses, strictly sorted.
pub fn expr_uses_exec(e: &AsyncExpr) -> (r: Vec<String>)
    ensures
        sorted_strict(texts(r@)),
        set_of(r@) == expr_uses(*e),
    decreases e, 0int,
{
    match e {
        AsyncExpr::Await(base) => expr_uses_exec(base),
        AsyncExpr::Sequence(children) => exprs_uses_from_exec(children, 0),
        AsyncExpr::Block(stmts) => stmts_uses_from_exec(stmts, 0),
        AsyncExpr::Single(child) => match child {
            Some(c) => expr_uses_exec(c),
            None => {
                let r: Vec<String> = Vec::new();
                proof {
                    assert(set_of(r@) =~= Set::<Seq<char>>::empty());
                }
                r
            },
        },
        AsyncExpr::ForLoop { pattern_bindings, iter, body } => {
            let a = expr_uses_exec(iter);
            let b = stmts_uses_from_exec(body, 0);
            union_of(&a, &b)
        },
        AsyncExpr::While { cond, body } => {
            let a = expr_uses_exec(cond);
            let b = stmts_uses_from_exec(body, 0);
            union_of(&a, &b)
        },
        AsyncExpr::If { cond, then_branch, else_branch } => {
            let a = expr_uses_exec(cond);
            let b = stmts_uses_from_exec(then_branch, 0);
            let mut r = union_of(&a, &b);
            match else_branch {
                Some(x) => {
                    let c = expr_uses_exec(x);
                    union_into(&mut r, &c);
                },
                None => {
                    proof {
                        assert(set_of(r@) + Set::<Seq<char>>::empty() =~= set_of(r@));
                    }
                },
            }
            r
        },
        AsyncExpr::Match { scrutinee, arms } => {
            let a = expr_uses_exec(scrutinee);
            let b = arms_uses_from_exec(arms, 0);
            union_of(&a, &b)
        },
        AsyncExpr::Opaque { uses, await_count } => sorted_set(uses),
    }
}

fn exprs_uses_from_exec(children: &Vec<AsyncExpr>, i: usize) -> (r: Vec<String>)
    ensures
        sorted_strict(texts(r@)),
        set_of(r@) == exprs_uses_from(children@, i as int),
    decreases children@, 0int,
{
    let mut acc: Vec<String> = Vec::new();
    let mut k: usize = children.len();
    proof {
        assert(set_of(acc@) =~= Set::<Seq<char>>::empty());
    }
    if i >= k {
        return acc;
    }
    while k > i
        invariant
            i <= k <= children@.len(),
            sorted_strict(texts(acc@)),
            set_of(acc@) == exprs_uses_from(children@, k as int),
        decreases k,
    {
        k = k - 1;
        let u = expr_uses_exec(&children[k]);
        union_into(&mut acc, &u);
        proof {
            assert(set_of(acc@) =~= exprs_uses_from(children@, k as int));
        }
    }
    acc
}

fn stmt_uses_exec(s: &AsyncStmt) -> (r: Vec<String>)
    ensures
        sorted_strict(texts(r@)),
        set_of(r@) == stmt_uses(*s),
    decreases s, 0int,
{
    match s {
        AsyncStmt::Local { pattern_bindings, init, diverge } => {
            let mut r: Vec<String> = Vec::new();
            proof {
                assert(set_of(r@) =~= Set::<Seq<char>>::empty());
            }
            match init {
                Some(x) => {
                    let u = expr_uses_exec(x);
                    union_into(&mut r, &u);
                },
                None => {},
            }
            match diverge {
                Some(x) => {
                    let u = expr_uses_exec(x);
                    union_into(&mut r, &u);
                },
                None => {},
            }
            proof {
                assert(set_of(r@) =~= stmt_uses(*s));
            }
            r
        },
        AsyncStmt::Expr(x) => expr_uses_exec(x),
        AsyncStmt::Other { uses } => sorted_set(uses),
    }
}

fn stmts_uses_from_exec(stmts: &Vec<AsyncStmt>, i: usize) -> (r: Vec<String>)
    ensures
        sorted_strict(texts(r@)),
        set_of(r@) == stmts_uses_from(stmts@, i as int),
    decreases stmts@, 0int,
{
    let mut acc: Vec<String> = Vec::new();
    let mut k: usize = stmts.len();
    proof {
        assert(set_of(acc@) =~= Set::<Seq<char>>::empty());
    }
    if i >= k {
        return acc;
    }
    while k > i
        invariant
            i <= k <= stmts@.len(),
            sorted_strict(texts(acc@)),
            set_of(acc@) == stmts_uses_from(stmts@, k as int),
        decreases k,
    {
        k = k - 1;
        let u = stmt_uses_exec(&stmts[k]);
        union_into(&mut acc, &u);
        proof {
            assert(set_of(acc@) =~= stmts_uses_from(stmts@, k as int));
        }
    }
    acc
}

fn arm_uses_exec(a: &AsyncArm) -> (r: Vec<String>)
    ensures
        sorted_strict(texts(r@)),
        set_of(r@) == arm_uses(*a),
    decreases a, 0int,
{
    let mut r: Vec<String> = Vec::new();
    proof {
        assert(set_of(r@) =~= Set::<Seq<char>>::empty());
    }
    match &a.guard {
        Some(g) => {
            let u = expr_uses_exec(g);
            union_into(&mut r, &u);
        },
        None => {},
    }
    let b = expr_uses_exec(&a.body);
    union_into(&mut r, &b);
    proof {
        assert(set_of(r@) =~= arm_uses(*a));
    }
    r
}

fn arms_uses_from_exec(arms: &Vec<AsyncArm>, i: usize) -> (r: Vec<String>)
    ensures
        sorted_strict(texts(r@)),
        set_of(r@) == arms_uses_from(arms@, i as int),
    decreases arms@, 0int,
{
    let mut acc: Vec<String> = Vec::new();
    let mut k: usize = arms.len();
    proof {
        assert(set_of(acc@) =~= Set::<Seq<char>>::empty());
    }
    if i >= k {
        return acc;
    }
    while k > i
        invariant
            i <= k <= arms@.len(),
            sorted_strict(texts(acc@)),
            set_of(acc@) == arms_uses_from(arms@, k as int),
        decreases k,
    {
        k = k - 1;
        let u = arm_uses_exec(&arms[k]);
        union_into(&mut acc, &u);
        proof {
            assert(set_of(acc@) =~= arms_uses_from(arms@, k as int));
        }
    }
    acc
}

fn no_awaits() -> (r: Vec<Vec<String>>)
    ensures
        all_sorted(r@),
        sets_of(r@) == Seq::<Set<Seq<char>>>::empty(),
{
    let r: Vec<Vec<String>> = Vec::new();
    proof {
        assert(sets_of(r@) =~= Seq::<Set<Seq<char>>>::empty());
    }
    r
}

/// The live locals at each await of an expression, in evaluation order, each
/// strictly sorted: `later` is what the body uses after the expression and
/// `declared` the locals declared before it.
pub fn expr_awaits_exec(e: &AsyncExpr, later: &Vec<String>, declared: &Vec<String>) -> (r: Vec<Vec<String>>)
    requires
        sorted_strict(texts(later@)),
        sorted_strict(texts(declared@)),
    ensures
        all_sorted(r@),
        sets_of(r@) == expr_awaits(*e, set_of(later@), set_of(declared@)),
    decreases e, 0int,
{
    match e {
        AsyncExpr::Await(base) => {
            let mut r = expr_awaits_exec(base, later, declared);
            let live = live_locals_exec(later, declared);
            let ghost before = r@;
            r.push(live);
            proof {
                assert(sets_of(r@) =~= sets_of(before).push(set_of(live@)));
            }
            r
        },
        AsyncExpr::Sequence(children) => exprs_awaits_exec(children, later, declared),
        AsyncExpr::Block(stmts) => stmts_awaits_exec(stmts, later, declared),
        AsyncExpr::Single(child) => match child {
            Some(c) => expr_awaits_exec(c, later, declared),
            None => no_awaits(),
        },
        AsyncExpr::ForLoop { pattern_bindings, iter, body } => {
            let body_uses = stmts_uses_from_exec(body, 0);
            let iter_later = union_of(later, &body_uses);
            let mut r = expr_awaits_exec(iter, &iter_later, declared);
            let body_declared = union_of(declared, pattern_bindings);
            let b = stmts_awaits_exec(body, later, &body_declared);
            append_awaits(&mut r, b);
            r
        },
        AsyncExpr::While { cond, body } => {
            let body_uses = stmts_uses_from_exec(body, 0);
            let cond_later = union_of(later, &body_uses);
            let mut r = expr_awaits_exec(cond, &cond_later, declared);
            let b = stmts_awaits_exec(body, later, declared);
            append_awaits(&mut r, b);
            r
        },
        AsyncExpr::If { cond, then_branch, else_branch } => {
            let then_uses = stmts_uses_from_exec(then_branch, 0);
            let mut cond_later = union_of(later, &then_uses);
            match else_branch {
                Some(x) => {
                    let u = expr_uses_exec(x);
                    union_into(&mut cond_later, &u);
                },
                None => {
                    proof {
                        assert(set_of(cond_later@) + Set::<Seq<char>>::empty() =~= set_of(cond_later@));
                    }
                },
            }
            let mut r = expr_awaits_exec(cond, &cond_later, declared);
            let t = stmts_awaits_exec(then_branch, later, declared);
            append_awaits(&mut r, t);
            let x = match else_branch {
                Some(x) => expr_awaits_exec(x, later, declared),
                None => no_awaits(),
            };
            append_awaits(&mut r, x);
            r
        },
        AsyncExpr::Match { scrutinee, arms } => {
            let arm_uses = arms_uses_from_exec(arms, 0);
            let scrutinee_later = union_of(later, &arm_uses);
            let mut r = expr_awaits_exec(scrutinee, &scrutinee_later, declared);
            let a = arms_awaits_exec(arms, later, declared);
            append_awaits(&mut r, a);
            r
        },
        AsyncExpr::Opaque { uses, await_count } => {
            let mut r: Vec<Vec<String>> = Vec::new();
            let mut k: usize = 0;
            while k < *await_count
                invariant
                    k <= *await_count,
                    sorted_strict(texts(declared@)),
                    all_sorted(r@),
                    sets_of(r@) == Seq::new(k as nat, |j: int| live_set(set_of(later@), set_of(declared@))),
                decreases *await_count - k,
            {
                let live = live_locals_exec(later, declared);
                let ghost before = r@;
                r.push(live);
                proof {
                    assert(sets_of(r@) =~= sets_of(before).push(set_of(live@)));
                    assert(sets_of(r@) =~= Seq::new((k + 1) as nat, |j: int| live_set(set_of(later@), set_of(declared@))));
                    assert forall|i: int| 0 <= i < r@.len() implies sorted_strict(#[trigger] texts(r@[i]@)) by {
                        if i < before.len() {
                            assert(r@[i] == before[i]);
                        }
                    }
                }
                k = k + 1;
            }
            r
        },
    }
}

fn exprs_awaits_exec(children: &Vec<AsyncExpr>, later: &Vec<String>, declared: &Vec<String>) -> (r: Vec<Vec<String>>)
    requires
        sorted_strict(texts(later@)),
        sorted_strict(texts(declared@)),
    ensures
        all_sorted(r@),
        sets_of(r@) == exprs_awaits_upto(children@, set_of(later@), set_of(declared@), children@.len() as int),
    decreases children@, 0int,
{
    let mut r = no_awaits();
    let mut k: usize = 0;
    while k < children.len()
        invariant
            k <= children@.len(),
            sorted_strict(texts(later@)),
            sorted_strict(texts(declared@)),
            all_sorted(r@),
            sets_of(r@) == exprs_awaits_upto(children@, set_of(later@), set_of(declared@), k as int),
        decreases children@.len() - k,
    {
        let rest = exprs_uses_from_exec(children, k + 1);
        let child_later = union_of(later, &rest);
        let a = expr_awaits_exec(&children[k], &child_later, declared);
        append_awaits(&mut r, a);
        k = k + 1;
    }
    r
}

fn stmt_bindings_exec(s: &AsyncStmt) -> (r: Vec<String>)
    ensures
        sorted_strict(texts(r@)),
        set_of(r@) == stmt_bindings(*s),
{
    match s {
        AsyncStmt::Local { pattern_bindings, .. } => sorted_set(pattern_bindings),
        _ => {
            let r: Vec<String> = Vec::new();
            proof {
                assert(set_of(r@) =~= Set::<Seq<char>>::empty());
            }
            r
        },
    }
}

fn stmt_awaits_exec(s: &AsyncStmt, later: &Vec<String>, declared: &Vec<String>) -> (r: Vec<Vec<String>>)
    requires
        sorted_strict(texts(later@)),
        sorted_strict(texts(declared@)),
    ensures
        all_sorted(r@),
        sets_of(r@) == stmt_awaits(*s, set_of(later@), set_of(declared@)),
    decreases s, 0int,
{
    match s {
        AsyncStmt::Local { pattern_bindings, init, diverge } => match init {
            Some(x) => expr_awaits_exec(x, later, declared),
            None => no_awaits(),
        },
        AsyncStmt::Expr(x) => expr_awaits_exec(x, later, declared),
        AsyncStmt::Other { uses } => no_awaits(),
    }
}

fn stmts_awaits_exec(stmts: &Vec<AsyncStmt>, later: &Vec<String>, declared: &Vec<String>) -> (r: Vec<Vec<String>>)
    requires
        sorted_strict(texts(later@)),
        sorted_strict(texts(declared@)),
    ensures
        all_sorted(r@),
        sets_of(r@) == stmts_awaits_upto(stmts@, set_of(later@), set_of(declared@), stmts@.len() as int),
    decreases stmts@, 0int,
{
    let mut r = no_awaits();
    let mut decl = copy_strings(declared);
    let mut k: usize = 0;
    proof {
        assert(set_of(declared@) + stmts_bindings_upto(stmts@, 0) =~= set_of(declared@));
    }
    while k < stmts.len()
        invariant
            k <= stmts@.len(),
            sorted_strict(texts(later@)),
            sorted_strict(texts(decl@)),
            set_of(decl@) == set_of(declared@) + stmts_bindings_upto(stmts@, k as int),
            all_sorted(r@),
            sets_of(r@) == stmts_awaits_upto(stmts@, set_of(later@), set_of(declared@), k as int),
        decreases stmts@.len() - k,
    {
        let rest = stmts_uses_from_exec(stmts, k + 1);
        let stmt_later = union_of(later, &rest);
        let a = stmt_awaits_exec(&stmts[k], &stmt_later, &decl);
        append_awaits(&mut r, a);
        let b = stmt_bindings_exec(&stmts[k]);
        union_into(&mut decl, &b);
        proof {
            assert(set_of(decl@) =~= set_of(declared@) + stmts_bindings_upto(stmts@, k + 1));
        }
        k = k + 1;
    }
    r
}

fn arm_awaits_exec(a: &AsyncArm, later: &Vec<String>, declared: &Vec<String>) -> (r: Vec<Vec<String>>)
    requires
        sorted_strict(texts(later@)),
        sorted_strict(texts(declared@)),
    ensures
        all_sorted(r@),
        sets_of(r@) == arm_awaits(*a, set_of(later@), set_of(declared@)),
    decreases a, 0int,
{
    let arm_declared = union_of(declared, &a.pattern_bindings);
    let mut r = match &a.guard {
        Some(g) => {
            let body_uses = expr_uses_exec(&a.body);
            let guard_later = union_of(later, &body_uses);
            expr_awaits_exec(g, &guard_later, &arm_declared)
        },
        None => no_awaits(),
    };
    let b = expr_awaits_exec(&a.body, later, &arm_declared);
    append_awaits(&mut r, b);
    r
}

fn arms_awaits_exec(arms: &Vec<AsyncArm>, later: &Vec<String>, declared: &Vec<String>) -> (r: Vec<Vec<String>>)
    requires
        sorted_strict(texts(later@)),
        sorted_strict(texts(declared@)),
    ensures
        all_sorted(r@),
        sets_of(r@) == arms_awaits_upto(arms@, set_of(later@), set_of(declared@), arms@.len() as int),
    decreases arms@, 0int,
{
    let mut r = no_awaits();
    let mut k: usize = 0;
    while k < arms.len()
        invariant
            k <= arms@.len(),
            sorted_strict(texts(later@)),
            sorted_strict(texts(declared@)),
            all_sorted(r@),
            sets_of(r@) == arms_awaits_upto(arms@, set_of(later@), set_of(declared@), k as int),
        decreases arms@.len() - k,
    {
        let a = arm_awaits_exec(&arms[k], later, declared);
        append_awaits(&mut r, a);
        k = k + 1;
    }
    r
}

/// The live locals at each await of `expr`, in evaluation order, and the
/// paths `expr` uses: `later_uses` is what the body uses after `expr`, and
/// `declared_before` the locals declared before it. Each await's locals are
/// those declared before it, used later and not `_`-prefixed, strictly sorted.
pub fn await_live_locals_in_expr(expr: &AsyncExpr, later_uses: &Vec<String>, declared_before: &Vec<String>) -> (r: (Vec<Vec<String>>, Vec<String>))
    ensures
        all_sorted(r.0@),
        sets_of(r.0@) == expr_awaits(*expr, set_of(later_uses@), set_of(declared_before@)),
        sorted_strict(texts(r.1@)),
        set_of(r.1@) == expr_uses(*expr),
{
    let later = sorted_set(later_uses);
    let declared = sorted_set(declared_before);
    let awaits = expr_awaits_exec(expr, &later, &declared);
    let uses = expr_uses_exec(expr);
    (awaits, uses)
}

/// The live locals at each await of an async function body, in evaluation
/// order: at each, the locals declared before it that the rest of the body
/// still uses, other than `_`-prefixed ones, strictly sorted.
pub fn live_locals_by_await_in_body(body: &Vec<AsyncStmt>) -> (r: Vec<Vec<String>>)
    ensures
        all_sorted(r@),
        sets_of(r@) == stmts_awaits_upto(body@, Set::empty(), Set::empty(), body@.len() as int),
{
    let none: Vec<String> = Vec::new();
    proof {
        assert(set_of(none@) =~= Set::<Seq<char>>::empty());
    }
    stmts_awaits_exec(body, &none, &none)
}

} // verus!
