use dangling_check::ast::{AnalysisError, Expr, FunctionAst, Location, Param, ScopeKind, Stmt, Type};
use dangling_check::escape::{find_escapes, EscapeKind, Finding, Region, Severity};
use dangling_check::report::{render, render_all, verdict_of, Phase, Verdict};
use dangling_check::samples::{add_one, dangling};
use dangling_check::scope::{build_scope_tree, Binding, BindingKind, Scope, ScopeTree};

fn at(line: u32, column: u32) -> Location {
    Location { line, column }
}

fn name(s: &str) -> String {
    String::from(s)
}

fn nested() -> FunctionAst {
    FunctionAst {
        name: name("nested"),
        location: at(1, 1),
        params: vec![Param { name: name("p"), ty: Type::Reference, location: at(1, 11) }],
        body: vec![
            Stmt::Let { name: name("a"), ty: Type::Value, init: Some(Expr::Literal(1)), location: at(2, 5) },
            Stmt::Enter { kind: ScopeKind::Then, location: at(3, 5) },
            Stmt::Let { name: name("b"), ty: Type::Reference, init: Some(Expr::AddrOf(name("a"))), location: at(4, 9) },
            Stmt::Enter { kind: ScopeKind::Loop, location: at(5, 9) },
            Stmt::Exit,
            Stmt::Exit,
            Stmt::Enter { kind: ScopeKind::Else, location: at(8, 5) },
            Stmt::Let { name: name("a"), ty: Type::Value, init: None, location: at(9, 9) },
            Stmt::Exit,
            Stmt::Return { value: None, location: at(11, 5) },
        ],
    }
}

fn finding(line: u32, referent: &str, kind: EscapeKind) -> Finding {
    Finding {
        location: at(line, 5),
        referent_name: name(referent),
        referent_scope_location: at(1, 1),
        kind,
    }
}

#[test]
fn tree_of_a_nested_function() {
    let tree = build_scope_tree(&nested()).unwrap();
    assert_eq!(
        tree.scopes,
        vec![
            Scope { parent: None, kind: ScopeKind::Function, location: at(1, 1) },
            Scope { parent: Some(0), kind: ScopeKind::Then, location: at(3, 5) },
            Scope { parent: Some(1), kind: ScopeKind::Loop, location: at(5, 9) },
            Scope { parent: Some(0), kind: ScopeKind::Else, location: at(8, 5) },
        ]
    );
    assert_eq!(tree.stmt_scopes, vec![0, 0, 1, 1, 2, 1, 0, 3, 3, 0]);
    assert_eq!(
        tree.bindings,
        vec![
            Binding { name: name("p"), scope: 0, ty: Type::Reference, kind: BindingKind::Parameter, order: 0, location: at(1, 11) },
            Binding { name: name("a"), scope: 0, ty: Type::Value, kind: BindingKind::Local, order: 1, location: at(2, 5) },
            Binding { name: name("b"), scope: 1, ty: Type::Reference, kind: BindingKind::Local, order: 3, location: at(4, 9) },
            Binding { name: name("a"), scope: 3, ty: Type::Value, kind: BindingKind::Local, order: 8, location: at(9, 9) },
        ]
    );
    assert!(tree.is_well_formed());
    assert!(tree.covers(&nested().body));
}

#[test]
fn tree_of_an_empty_function() {
    let f = FunctionAst { name: name("e"), location: at(3, 7), params: vec![], body: vec![] };
    let tree = build_scope_tree(&f).unwrap();
    assert_eq!(tree.scopes, vec![Scope { parent: None, kind: ScopeKind::Function, location: at(3, 7) }]);
    assert!(tree.bindings.is_empty());
    assert!(tree.stmt_scopes.is_empty());
}

#[test]
fn unbalanced_blocks_have_no_tree() {
    let mut f = nested();
    f.body.push(Stmt::Exit);
    assert_eq!(build_scope_tree(&f), Err(AnalysisError::MalformedInput));
    let mut g = nested();
    g.body.push(Stmt::Enter { kind: ScopeKind::Block, location: at(12, 5) });
    assert_eq!(build_scope_tree(&g), Err(AnalysisError::MalformedInput));
    let h = FunctionAst {
        name: name("h"),
        location: at(1, 1),
        params: vec![],
        body: vec![Stmt::Exit, Stmt::Enter { kind: ScopeKind::Block, location: at(2, 5) }],
    };
    assert_eq!(build_scope_tree(&h), Err(AnalysisError::MalformedInput));
}

#[test]
fn outlives_is_ancestor_or_equal() {
    let tree = build_scope_tree(&nested()).unwrap();
    for s in 0..4 {
        assert!(tree.outlives(s, s));
        assert!(tree.outlives(0, s));
    }
    assert!(tree.outlives(1, 2));
    assert!(!tree.outlives(2, 1));
    assert!(!tree.outlives(1, 0));
    assert!(!tree.outlives(1, 3));
    assert!(!tree.outlives(3, 2));
    assert!(!tree.outlives(0, 4));
    assert!(tree.outlives(4, 4));
}

#[test]
fn regions_are_ordered_with_the_caller_on_top() {
    let tree = build_scope_tree(&nested()).unwrap();
    assert!(tree.region_outlives(Region::Caller, Region::Caller));
    assert!(tree.region_outlives(Region::Caller, Region::Scope(2)));
    assert!(!tree.region_outlives(Region::Scope(0), Region::Caller));
    assert!(tree.region_outlives(Region::Scope(0), Region::Scope(2)));
    assert!(!tree.region_outlives(Region::Scope(2), Region::Scope(0)));
}

#[test]
fn resolve_follows_scopes_and_creation_order() {
    let tree = build_scope_tree(&nested()).unwrap();
    assert_eq!(tree.resolve(&name("p"), 0, 0), Some(0));
    assert_eq!(tree.resolve(&name("a"), 0, 0), None);
    assert_eq!(tree.resolve(&name("a"), 0, 1), Some(1));
    assert_eq!(tree.resolve(&name("a"), 2, 4), Some(1));
    assert_eq!(tree.resolve(&name("b"), 1, 2), None);
    assert_eq!(tree.resolve(&name("b"), 1, 3), Some(2));
    assert_eq!(tree.resolve(&name("b"), 2, 4), Some(2));
    assert_eq!(tree.resolve(&name("b"), 0, 9), None);
    assert_eq!(tree.resolve(&name("b"), 3, 8), None);
    assert_eq!(tree.resolve(&name("a"), 3, 7), Some(1));
    assert_eq!(tree.resolve(&name("a"), 3, 8), Some(3));
    assert_eq!(tree.resolve(&name("a"), 0, 9), Some(1));
    assert_eq!(tree.resolve(&name("c"), 0, 9), None);
}

#[test]
fn expressions_resolve_name_by_name() {
    let tree = build_scope_tree(&nested()).unwrap();
    let good = Expr::Add(
        Box::new(Expr::Deref(Box::new(Expr::Var(name("b"))))),
        Box::new(Expr::Call { callee: name("g"), args: vec![Expr::AddrOf(name("a")), Expr::Literal(2)] }),
    );
    assert!(tree.expr_resolves(&good, 1, 3));
    assert!(!tree.expr_resolves(&good, 0, 9));
    let bad = Expr::Call { callee: name("a"), args: vec![Expr::Var(name("a")), Expr::Var(name("g"))] };
    assert!(!tree.expr_resolves(&bad, 1, 3));
    assert!(tree.expr_resolves(&Expr::Call { callee: name("zz"), args: vec![] }, 0, 0));
    assert!(tree.expr_resolves(&Expr::Literal(7), 9, 0));
    assert!(tree.expr_resolves(&Expr::Var(name("b")), 1, 3));
    assert!(tree.expr_resolves(&Expr::AddrOf(name("b")), 1, 3));
    assert!(!tree.expr_resolves(&Expr::AddrOf(name("b")), 3, 8));
    assert!(tree.expr_resolves(&Expr::AddrOf(name("p")), 0, 0));
    assert!(tree.expr_resolves(&Expr::AddrOf(name("a")), 0, 1));
}

#[test]
fn escapes_of_a_function_with_its_own_tree() {
    let f = dangling();
    let tree = build_scope_tree(&f).unwrap();
    assert_eq!(find_escapes(&f, &tree), Ok(vec![finding(7, "i", EscapeKind::Return)
        .relocated(at(5, 1))]));
    let g = add_one();
    let tree = build_scope_tree(&g).unwrap();
    assert_eq!(find_escapes(&g, &tree), Ok(vec![]));
}

trait Relocate {
    fn relocated(self, scope: Location) -> Self;
}

impl Relocate for Finding {
    fn relocated(mut self, scope: Location) -> Self {
        self.referent_scope_location = scope;
        self
    }
}

#[test]
fn tree_that_does_not_fit_is_refused() {
    let f = dangling();
    let good = build_scope_tree(&f).unwrap();

    let mut no_root = build_scope_tree(&f).unwrap();
    no_root.scopes.clear();
    assert!(!no_root.is_well_formed());
    assert_eq!(find_escapes(&f, &no_root), Err(AnalysisError::MalformedInput));

    let mut rooted_twice = build_scope_tree(&f).unwrap();
    rooted_twice.scopes.push(Scope { parent: None, kind: ScopeKind::Block, location: at(9, 9) });
    assert!(!rooted_twice.is_well_formed());
    assert_eq!(find_escapes(&f, &rooted_twice), Err(AnalysisError::MalformedInput));

    let mut parent_of_root = build_scope_tree(&f).unwrap();
    parent_of_root.scopes[0].parent = Some(0);
    assert!(!parent_of_root.is_well_formed());
    assert_eq!(find_escapes(&f, &parent_of_root), Err(AnalysisError::MalformedInput));

    let mut cyclic = build_scope_tree(&f).unwrap();
    cyclic.scopes.push(Scope { parent: Some(1), kind: ScopeKind::Block, location: at(9, 9) });
    assert!(!cyclic.is_well_formed());
    assert_eq!(find_escapes(&f, &cyclic), Err(AnalysisError::MalformedInput));

    let mut homeless = build_scope_tree(&f).unwrap();
    homeless.bindings[0].scope = 1;
    assert!(!homeless.is_well_formed());
    assert_eq!(find_escapes(&f, &homeless), Err(AnalysisError::MalformedInput));

    let mut short = build_scope_tree(&f).unwrap();
    short.stmt_scopes.pop();
    assert!(short.is_well_formed());
    assert!(!short.covers(&f.body));
    assert_eq!(find_escapes(&f, &short), Err(AnalysisError::MalformedInput));

    let mut astray = build_scope_tree(&f).unwrap();
    astray.stmt_scopes[1] = 1;
    assert!(!astray.covers(&f.body));
    assert_eq!(find_escapes(&f, &astray), Err(AnalysisError::MalformedInput));

    let mut nameless = build_scope_tree(&f).unwrap();
    nameless.bindings.clear();
    assert!(nameless.is_well_formed());
    assert!(nameless.covers(&f.body));
    assert_eq!(find_escapes(&f, &nameless), Err(AnalysisError::MalformedInput));

    assert!(find_escapes(&f, &good).is_ok());
}

#[test]
fn hand_made_tree_is_taken_as_given() {
    let f = FunctionAst {
        name: name("f"),
        location: at(1, 1),
        params: vec![],
        body: vec![
            Stmt::Assign { target: name("outer"), value: Expr::AddrOf(name("inner")), location: at(4, 5) },
            Stmt::Assign { target: name("inner"), value: Expr::AddrOf(name("outer")), location: at(5, 5) },
        ],
    };
    let tree = ScopeTree {
        scopes: vec![
            Scope { parent: None, kind: ScopeKind::Function, location: at(1, 1) },
            Scope { parent: Some(0), kind: ScopeKind::Block, location: at(2, 3) },
        ],
        bindings: vec![
            Binding { name: name("outer"), scope: 0, ty: Type::Value, kind: BindingKind::Local, order: 0, location: at(1, 5) },
            Binding { name: name("inner"), scope: 1, ty: Type::Value, kind: BindingKind::Local, order: 0, location: at(3, 5) },
        ],
        stmt_scopes: vec![1, 1],
    };
    let expected = Finding {
        location: at(4, 5),
        referent_name: name("inner"),
        referent_scope_location: at(2, 3),
        kind: EscapeKind::OutwardStore,
    };
    assert_eq!(find_escapes(&f, &tree), Ok(vec![expected]));
}

#[test]
fn verdict_is_accepted_exactly_without_findings() {
    assert_eq!(verdict_of(vec![]), Verdict::Accepted);
    assert!(verdict_of(vec![]).is_accepted());
    let one = vec![finding(3, "x", EscapeKind::Return)];
    assert_eq!(verdict_of(one.clone()), Verdict::Rejected(one.clone()));
    assert!(!verdict_of(one).is_accepted());
}

#[test]
fn merged_verdicts_keep_every_finding_in_order() {
    let a = finding(3, "x", EscapeKind::Return);
    let b = finding(5, "y", EscapeKind::OutwardStore);
    let c = finding(7, "z", EscapeKind::Return);
    let left = Verdict::Rejected(vec![a.clone(), b.clone()]);
    let right = Verdict::Rejected(vec![c.clone()]);
    assert_eq!(left.merge(right), Verdict::Rejected(vec![a.clone(), b.clone(), c.clone()]));
    assert_eq!(Verdict::Accepted.merge(Verdict::Accepted), Verdict::Accepted);
    assert_eq!(Verdict::Accepted.merge(Verdict::Rejected(vec![c.clone()])), Verdict::Rejected(vec![c.clone()]));
    assert_eq!(Verdict::Rejected(vec![a.clone()]).merge(Verdict::Accepted), Verdict::Rejected(vec![a.clone()]));
    assert_eq!(Verdict::Rejected(vec![]).merge(Verdict::Accepted), Verdict::Accepted);
    assert_eq!(Verdict::Rejected(vec![a.clone()]).into_findings(), vec![a]);
    assert!(Verdict::Accepted.into_findings().is_empty());
}

#[test]
fn every_finding_is_fatal() {
    assert_eq!(finding(3, "x", EscapeKind::Return).severity(), Severity::Fatal);
    assert_eq!(finding(3, "x", EscapeKind::OutwardStore).severity(), Severity::Fatal);
}

#[test]
fn phases_run_from_pending_to_an_end() {
    let rejected = Verdict::Rejected(vec![finding(3, "x", EscapeKind::Return)]);
    assert_eq!(Phase::Pending.start(), Some(Phase::Analyzing));
    assert_eq!(Phase::Analyzing.start(), None);
    assert_eq!(Phase::Accepted.start(), None);
    assert_eq!(Phase::Rejected.start(), None);
    assert_eq!(Phase::Analyzing.finish(&Verdict::Accepted), Some(Phase::Accepted));
    assert_eq!(Phase::Analyzing.finish(&rejected), Some(Phase::Rejected));
    assert_eq!(Phase::Pending.finish(&Verdict::Accepted), None);
    assert_eq!(Phase::Accepted.finish(&rejected), None);
    assert_eq!(Phase::Rejected.finish(&Verdict::Accepted), None);
}

#[test]
fn messages_show_all_of_a_finding() {
    let stored = Finding {
        location: at(120, 4294967295),
        referent_name: name("buffer"),
        referent_scope_location: at(0, 10),
        kind: EscapeKind::OutwardStore,
    };
    assert_eq!(
        render(&stored),
        "120:4294967295: error: stored reference would dangle: the scope opened at 0:10 owns buffer"
    );
    let returned = Finding {
        location: at(9, 90),
        referent_name: name(""),
        referent_scope_location: at(1009, 7),
        kind: EscapeKind::Return,
    };
    assert_eq!(
        render(&returned),
        "9:90: error: returned reference would dangle: the scope opened at 1009:7 owns "
    );
}

#[test]
fn different_findings_have_different_messages() {
    let base = finding(12, "x", EscapeKind::Return);
    let mut other_line = base.clone();
    other_line.location.line = 1;
    let mut other_column = base.clone();
    other_column.location.column = 52;
    let mut other_kind = base.clone();
    other_kind.kind = EscapeKind::OutwardStore;
    let mut other_scope = base.clone();
    other_scope.referent_scope_location = at(11, 1);
    let mut other_name = base.clone();
    other_name.referent_name = name("x ");
    let all = [base, other_line, other_column, other_kind, other_scope, other_name];
    for i in 0..all.len() {
        for j in 0..all.len() {
            assert_eq!(render(&all[i]) == render(&all[j]), i == j);
        }
    }
}

#[test]
fn one_message_for_each_finding() {
    let a = finding(3, "x", EscapeKind::Return);
    let b = finding(5, "y", EscapeKind::OutwardStore);
    let lines = render_all(&Verdict::Rejected(vec![a.clone(), b.clone()]));
    assert_eq!(lines, vec![render(&a), render(&b)]);
    assert!(render_all(&Verdict::Accepted).is_empty());
}

#[test]
fn samples_are_the_two_functions() {
    let f = dangling();
    assert_eq!(f.name, "dangling");
    assert_eq!(f.location, at(5, 1));
    assert!(f.params.is_empty());
    assert_eq!(
        f.body,
        vec![
            Stmt::Let { name: name("i"), ty: Type::Value, init: Some(Expr::Literal(1234)), location: at(6, 5) },
            Stmt::Return { value: Some(Expr::AddrOf(name("i"))), location: at(7, 5) },
        ]
    );
    let g = add_one();
    assert_eq!(g.name, "add_one");
    assert_eq!(g.location, at(10, 1));
    assert!(g.params.is_empty());
    assert_eq!(
        g.body,
        vec![
            Stmt::Let {
                name: name("num"),
                ty: Type::Reference,
                init: Some(Expr::Call { callee: name("dangling"), args: vec![] }),
                location: at(11, 5),
            },
            Stmt::Return {
                value: Some(Expr::Add(
                    Box::new(Expr::Deref(Box::new(Expr::Var(name("num"))))),
                    Box::new(Expr::Literal(1)),
                )),
                location: at(12, 5),
            },
        ]
    );
}
