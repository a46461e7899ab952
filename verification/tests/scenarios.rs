use dangling_check::analysis::analyze;
use dangling_check::ast::{AnalysisError, Expr, FunctionAst, Location, Param, ScopeKind, Stmt, Type};
use dangling_check::escape::{EscapeKind, Finding};
use dangling_check::report::{render, Verdict};
use dangling_check::samples::{add_one, dangling};

fn at(line: u32, column: u32) -> Location {
    Location { line, column }
}

fn name(s: &str) -> String {
    String::from(s)
}

fn function(params: Vec<Param>, body: Vec<Stmt>) -> FunctionAst {
    FunctionAst { name: name("f"), location: at(1, 1), params, body }
}

fn reference_param(s: &str) -> Param {
    Param { name: name(s), ty: Type::Reference, location: at(1, 6) }
}

fn value_param(s: &str) -> Param {
    Param { name: name(s), ty: Type::Value, location: at(1, 6) }
}

fn let_value(s: &str, line: u32) -> Stmt {
    Stmt::Let { name: name(s), ty: Type::Value, init: Some(Expr::Literal(1234)), location: at(line, 5) }
}

fn let_reference(s: &str, init: Option<Expr>, line: u32) -> Stmt {
    Stmt::Let { name: name(s), ty: Type::Reference, init, location: at(line, 5) }
}

fn ret(e: Expr, line: u32) -> Stmt {
    Stmt::Return { value: Some(e), location: at(line, 5) }
}

fn addr(s: &str) -> Expr {
    Expr::AddrOf(name(s))
}

fn var(s: &str) -> Expr {
    Expr::Var(name(s))
}

#[test]
fn dangling_sample_is_rejected_with_one_return_finding() {
    let verdict = analyze(&dangling()).unwrap();
    let expected = Finding {
        location: at(7, 5),
        referent_name: name("i"),
        referent_scope_location: at(5, 1),
        kind: EscapeKind::Return,
    };
    assert_eq!(verdict, Verdict::Rejected(vec![expected]));
}

#[test]
fn add_one_sample_is_accepted() {
    assert_eq!(analyze(&add_one()), Ok(Verdict::Accepted));
}

#[test]
fn returning_a_received_reference_is_accepted() {
    let f = function(vec![reference_param("p")], vec![ret(var("p"), 2)]);
    assert_eq!(analyze(&f), Ok(Verdict::Accepted));
}

#[test]
fn returning_a_value_is_accepted() {
    let f = function(vec![], vec![let_value("i", 2), ret(var("i"), 3)]);
    assert_eq!(analyze(&f), Ok(Verdict::Accepted));
}

#[test]
fn returning_the_address_of_a_value_parameter_is_rejected() {
    let f = function(vec![value_param("n")], vec![ret(addr("n"), 2)]);
    let verdict = analyze(&f).unwrap();
    match verdict {
        Verdict::Rejected(found) => {
            assert_eq!(found.len(), 1);
            assert_eq!(found[0].referent_name, "n");
            assert_eq!(found[0].kind, EscapeKind::Return);
            assert_eq!(found[0].referent_scope_location, at(1, 1));
        },
        Verdict::Accepted => panic!("accepted"),
    }
}

#[test]
fn one_unsafe_branch_rejects() {
    let f = function(
        vec![reference_param("p")],
        vec![
            let_value("i", 2),
            Stmt::Eval { expr: var("i"), location: at(3, 8) },
            Stmt::Enter { kind: ScopeKind::Then, location: at(3, 10) },
            ret(addr("i"), 4),
            Stmt::Exit,
            Stmt::Enter { kind: ScopeKind::Else, location: at(5, 12) },
            ret(var("p"), 6),
            Stmt::Exit,
        ],
    );
    let expected = Finding {
        location: at(4, 5),
        referent_name: name("i"),
        referent_scope_location: at(1, 1),
        kind: EscapeKind::Return,
    };
    assert_eq!(analyze(&f), Ok(Verdict::Rejected(vec![expected])));
}

#[test]
fn store_into_an_enclosing_scope_is_rejected() {
    let f = function(
        vec![reference_param("p")],
        vec![
            Stmt::Let { name: name("out"), ty: Type::Reference, init: Some(var("p")), location: at(2, 5) },
            Stmt::Enter { kind: ScopeKind::Block, location: at(3, 5) },
            let_value("x", 4),
            Stmt::Assign { target: name("out"), value: addr("x"), location: at(5, 9) },
            Stmt::Exit,
        ],
    );
    let expected = Finding {
        location: at(5, 9),
        referent_name: name("x"),
        referent_scope_location: at(3, 5),
        kind: EscapeKind::OutwardStore,
    };
    assert_eq!(analyze(&f), Ok(Verdict::Rejected(vec![expected])));
}

#[test]
fn store_within_one_scope_is_accepted() {
    let f = function(
        vec![],
        vec![
            let_value("x", 2),
            Stmt::Let { name: name("r"), ty: Type::Reference, init: None, location: at(3, 5) },
            Stmt::Assign { target: name("r"), value: addr("x"), location: at(4, 5) },
        ],
    );
    assert_eq!(analyze(&f), Ok(Verdict::Accepted));
}

#[test]
fn store_of_an_outer_address_into_an_inner_binding_is_accepted() {
    let f = function(
        vec![],
        vec![
            let_value("x", 2),
            Stmt::Enter { kind: ScopeKind::Loop, location: at(3, 5) },
            Stmt::Let { name: name("r"), ty: Type::Reference, init: None, location: at(4, 9) },
            Stmt::Assign { target: name("r"), value: addr("x"), location: at(5, 9) },
            Stmt::Exit,
        ],
    );
    assert_eq!(analyze(&f), Ok(Verdict::Accepted));
}

#[test]
fn findings_come_in_source_order() {
    let f = function(
        vec![],
        vec![
            let_value("a", 2),
            Stmt::Enter { kind: ScopeKind::Then, location: at(3, 5) },
            let_value("b", 4),
            ret(addr("b"), 5),
            Stmt::Exit,
            ret(addr("a"), 7),
        ],
    );
    match analyze(&f).unwrap() {
        Verdict::Rejected(found) => {
            assert_eq!(found.len(), 2);
            assert_eq!(found[0].referent_name, "b");
            assert_eq!(found[0].location, at(5, 5));
            assert_eq!(found[0].referent_scope_location, at(3, 5));
            assert_eq!(found[1].referent_name, "a");
            assert_eq!(found[1].location, at(7, 5));
            assert_eq!(found[1].referent_scope_location, at(1, 1));
        },
        Verdict::Accepted => panic!("accepted"),
    }
}

#[test]
fn parameter_overwritten_with_an_address_leads_to_that_binding() {
    let f = function(
        vec![reference_param("p")],
        vec![
            let_value("x", 2),
            Stmt::Assign { target: name("p"), value: addr("x"), location: at(3, 5) },
            ret(var("p"), 4),
        ],
    );
    let expected = Finding {
        location: at(4, 5),
        referent_name: name("x"),
        referent_scope_location: at(1, 1),
        kind: EscapeKind::Return,
    };
    assert_eq!(analyze(&f), Ok(Verdict::Rejected(vec![expected])));
}

#[test]
fn parameter_overwritten_with_a_received_reference_is_accepted() {
    let f = function(
        vec![reference_param("p"), reference_param("q")],
        vec![
            Stmt::Assign { target: name("p"), value: var("q"), location: at(2, 5) },
            ret(var("p"), 3),
        ],
    );
    assert_eq!(analyze(&f), Ok(Verdict::Accepted));
}

#[test]
fn store_after_the_return_counts_too() {
    let f = function(
        vec![reference_param("p")],
        vec![
            let_value("x", 2),
            Stmt::Enter { kind: ScopeKind::Loop, location: at(3, 5) },
            ret(var("p"), 4),
            Stmt::Assign { target: name("p"), value: addr("x"), location: at(5, 9) },
            Stmt::Exit,
        ],
    );
    let expected = Finding {
        location: at(4, 5),
        referent_name: name("x"),
        referent_scope_location: at(1, 1),
        kind: EscapeKind::Return,
    };
    assert_eq!(analyze(&f), Ok(Verdict::Rejected(vec![expected])));
}

#[test]
fn bindings_stored_into_each_other_are_followed_once() {
    let stores = |tail: Expr| {
        function(
            vec![reference_param("p")],
            vec![
                let_value("x", 2),
                let_reference("a", Some(var("p")), 3),
                let_reference("b", Some(var("a")), 4),
                Stmt::Assign { target: name("a"), value: var("b"), location: at(5, 5) },
                Stmt::Assign { target: name("b"), value: var("a"), location: at(6, 5) },
                Stmt::Assign { target: name("b"), value: tail, location: at(7, 5) },
                ret(var("a"), 8),
            ],
        )
    };
    assert_eq!(analyze(&stores(var("p"))), Ok(Verdict::Accepted));
    let expected = Finding {
        location: at(8, 5),
        referent_name: name("x"),
        referent_scope_location: at(1, 1),
        kind: EscapeKind::Return,
    };
    assert_eq!(analyze(&stores(addr("x"))), Ok(Verdict::Rejected(vec![expected])));
}

#[test]
fn returning_a_settled_local_is_charged_to_its_initialiser() {
    let f = function(
        vec![],
        vec![let_value("i", 2), let_reference("r", Some(addr("i")), 3), ret(var("r"), 4)],
    );
    let expected = Finding {
        location: at(4, 5),
        referent_name: name("i"),
        referent_scope_location: at(1, 1),
        kind: EscapeKind::Return,
    };
    assert_eq!(analyze(&f), Ok(Verdict::Rejected(vec![expected])));
}

#[test]
fn returning_a_copy_of_a_received_reference_is_accepted() {
    let f = function(
        vec![reference_param("p")],
        vec![
            let_reference("q", Some(var("p")), 2),
            let_reference("r", Some(var("q")), 3),
            ret(var("r"), 4),
        ],
    );
    assert_eq!(analyze(&f), Ok(Verdict::Accepted));
}

#[test]
fn returning_a_local_overwritten_with_received_references_is_accepted() {
    let f = function(
        vec![reference_param("p")],
        vec![
            let_reference("r", Some(var("p")), 2),
            Stmt::Assign { target: name("r"), value: var("p"), location: at(3, 5) },
            ret(var("r"), 4),
        ],
    );
    assert_eq!(analyze(&f), Ok(Verdict::Accepted));
}

#[test]
fn returning_a_local_that_nothing_was_put_into_is_accepted() {
    let f = function(vec![], vec![let_reference("r", None, 2), ret(var("r"), 3)]);
    assert_eq!(analyze(&f), Ok(Verdict::Accepted));
}

#[test]
fn returning_a_local_filled_by_a_later_store_is_rejected() {
    let f = function(
        vec![],
        vec![
            let_value("x", 2),
            let_reference("r", None, 3),
            Stmt::Assign { target: name("r"), value: addr("x"), location: at(4, 5) },
            ret(var("r"), 5),
        ],
    );
    let expected = Finding {
        location: at(5, 5),
        referent_name: name("x"),
        referent_scope_location: at(1, 1),
        kind: EscapeKind::Return,
    };
    assert_eq!(analyze(&f), Ok(Verdict::Rejected(vec![expected])));
}

#[test]
fn dereference_yields_a_value() {
    let f = function(
        vec![reference_param("p")],
        vec![
            let_value("i", 2),
            let_reference("q", Some(addr("i")), 3),
            let_reference("r", Some(Expr::Deref(Box::new(var("q")))), 4),
            ret(var("r"), 5),
            ret(Expr::Deref(Box::new(var("q"))), 6),
        ],
    );
    assert_eq!(analyze(&f), Ok(Verdict::Accepted));
}

#[test]
fn reference_read_back_through_a_dereference_is_followed() {
    let f = function(
        vec![],
        vec![
            let_value("i", 2),
            let_reference("p", Some(addr("i")), 3),
            let_reference("pp", Some(addr("p")), 4),
            ret(Expr::Deref(Box::new(var("pp"))), 5),
        ],
    );
    let expected = Finding {
        location: at(5, 5),
        referent_name: name("i"),
        referent_scope_location: at(1, 1),
        kind: EscapeKind::Return,
    };
    assert_eq!(analyze(&f), Ok(Verdict::Rejected(vec![expected])));
}

#[test]
fn address_of_a_reference_binding_is_judged_by_its_scope() {
    let g = function(vec![reference_param("p")], vec![ret(addr("p"), 2)]);
    let expected = Finding {
        location: at(2, 5),
        referent_name: name("p"),
        referent_scope_location: at(1, 1),
        kind: EscapeKind::Return,
    };
    assert_eq!(analyze(&g), Ok(Verdict::Rejected(vec![expected])));
    let h = function(
        vec![reference_param("p")],
        vec![let_reference("x", Some(var("p")), 2), ret(addr("x"), 3)],
    );
    let expected = Finding {
        location: at(3, 5),
        referent_name: name("x"),
        referent_scope_location: at(1, 1),
        kind: EscapeKind::Return,
    };
    assert_eq!(analyze(&h), Ok(Verdict::Rejected(vec![expected])));
}

#[test]
fn taking_the_address_of_a_parameter_does_not_taint_it() {
    let f = function(
        vec![reference_param("p")],
        vec![let_reference("q", Some(addr("p")), 2), ret(var("p"), 3)],
    );
    assert_eq!(analyze(&f), Ok(Verdict::Accepted));
    let g = function(
        vec![reference_param("p")],
        vec![let_reference("q", Some(addr("p")), 2), ret(Expr::Deref(Box::new(var("q"))), 3)],
    );
    assert_eq!(analyze(&g), Ok(Verdict::Accepted));
    let h = function(
        vec![reference_param("p")],
        vec![let_reference("q", Some(addr("p")), 2), ret(var("q"), 3)],
    );
    match analyze(&h).unwrap() {
        Verdict::Rejected(found) => {
            assert_eq!(found.len(), 1);
            assert_eq!(found[0].referent_name, "p");
        },
        Verdict::Accepted => panic!("accepted"),
    }
}

#[test]
fn what_lies_behind_is_followed_through_stores() {
    let f = function(
        vec![reference_param("p")],
        vec![
            let_value("x", 2),
            let_reference("r", Some(var("p")), 3),
            let_reference("rr", Some(addr("r")), 4),
            ret(Expr::Deref(Box::new(var("rr"))), 5),
            Stmt::Assign { target: name("r"), value: addr("x"), location: at(6, 5) },
        ],
    );
    let expected = Finding {
        location: at(5, 5),
        referent_name: name("x"),
        referent_scope_location: at(1, 1),
        kind: EscapeKind::Return,
    };
    assert_eq!(analyze(&f), Ok(Verdict::Rejected(vec![expected])));
}

#[test]
fn dereferencing_twice_looks_no_deeper_than_once() {
    let twice = Expr::Deref(Box::new(Expr::Deref(Box::new(var("pp")))));
    let f = function(
        vec![],
        vec![
            let_value("i", 2),
            let_reference("p", Some(addr("i")), 3),
            let_reference("pp", Some(addr("p")), 4),
            ret(twice, 5),
        ],
    );
    match analyze(&f).unwrap() {
        Verdict::Rejected(found) => {
            assert_eq!(found.len(), 1);
            assert_eq!(found[0].referent_name, "i");
        },
        Verdict::Accepted => panic!("accepted"),
    }
}

#[test]
fn returned_address_is_the_one_finding_beside_other_uses_of_it() {
    let f = function(
        vec![],
        vec![
            let_value("i", 2),
            let_reference("r", Some(addr("i")), 3),
            Stmt::Assign { target: name("i"), value: Expr::Literal(7), location: at(4, 5) },
            ret(addr("i"), 5),
        ],
    );
    let expected = Finding {
        location: at(5, 5),
        referent_name: name("i"),
        referent_scope_location: at(1, 1),
        kind: EscapeKind::Return,
    };
    assert_eq!(analyze(&f), Ok(Verdict::Rejected(vec![expected])));
}

#[test]
fn store_into_a_place_that_outlives_the_call() {
    let f = function(
        vec![reference_param("p")],
        vec![
            let_value("x", 2),
            Stmt::StoreOut { value: var("p"), location: at(3, 5) },
            Stmt::StoreOut { value: Expr::Literal(3), location: at(4, 5) },
            Stmt::Enter { kind: ScopeKind::Block, location: at(5, 5) },
            let_reference("r", Some(addr("x")), 6),
            Stmt::StoreOut { value: var("r"), location: at(7, 9) },
            Stmt::Exit,
        ],
    );
    let expected = Finding {
        location: at(7, 9),
        referent_name: name("x"),
        referent_scope_location: at(1, 1),
        kind: EscapeKind::OutwardStore,
    };
    assert_eq!(analyze(&f), Ok(Verdict::Rejected(vec![expected])));
    let g = function(
        vec![],
        vec![Stmt::StoreOut { value: var("nowhere"), location: at(2, 5) }],
    );
    assert_eq!(analyze(&g), Err(AnalysisError::MalformedInput));
}

#[test]
fn returning_a_call_result_held_in_a_local() {
    let call = Expr::Call { callee: name("id"), args: vec![addr("x")] };
    let f = function(
        vec![],
        vec![let_value("x", 2), let_reference("r", Some(call), 3), ret(var("r"), 4)],
    );
    match analyze(&f).unwrap() {
        Verdict::Rejected(found) => {
            assert_eq!(found.len(), 1);
            assert_eq!(found[0].referent_name, "x");
        },
        Verdict::Accepted => panic!("accepted"),
    }
}

#[test]
fn storing_an_inner_local_reference_outward_is_rejected() {
    let f = function(
        vec![reference_param("p")],
        vec![
            let_reference("out", Some(var("p")), 2),
            Stmt::Enter { kind: ScopeKind::Loop, location: at(3, 5) },
            let_value("x", 4),
            let_reference("r", Some(addr("x")), 5),
            Stmt::Assign { target: name("out"), value: var("r"), location: at(6, 9) },
            Stmt::Exit,
            ret(var("out"), 8),
        ],
    );
    match analyze(&f).unwrap() {
        Verdict::Rejected(found) => {
            assert_eq!(found.len(), 2);
            assert_eq!(found[0].kind, EscapeKind::OutwardStore);
            assert_eq!(found[0].referent_name, "x");
            assert_eq!(found[0].referent_scope_location, at(3, 5));
            assert_eq!(found[0].location, at(6, 9));
            assert_eq!(found[1].kind, EscapeKind::Return);
            assert_eq!(found[1].referent_name, "x");
            assert_eq!(found[1].referent_scope_location, at(3, 5));
            assert_eq!(found[1].location, at(8, 5));
        },
        Verdict::Accepted => panic!("accepted"),
    }
}

#[test]
fn call_result_is_charged_to_its_first_unsafe_argument() {
    let call = Expr::Call { callee: name("pick"), args: vec![var("p"), Expr::Literal(3), addr("x"), addr("y")] };
    let f = function(
        vec![reference_param("p")],
        vec![let_value("x", 2), let_value("y", 3), ret(call, 4)],
    );
    match analyze(&f).unwrap() {
        Verdict::Rejected(found) => {
            assert_eq!(found.len(), 1);
            assert_eq!(found[0].referent_name, "x");
        },
        Verdict::Accepted => panic!("accepted"),
    }
}

#[test]
fn call_with_received_references_only_is_accepted() {
    let call = Expr::Call { callee: name("pick"), args: vec![var("p"), var("q")] };
    let f = function(vec![reference_param("p"), reference_param("q")], vec![ret(call, 2)]);
    assert_eq!(analyze(&f), Ok(Verdict::Accepted));
}

#[test]
fn dereferenced_and_summed_values_do_not_escape() {
    let sum = Expr::Add(Box::new(Expr::Deref(Box::new(addr("i")))), Box::new(Expr::Literal(1)));
    let f = function(vec![], vec![let_value("i", 2), ret(sum, 3)]);
    assert_eq!(analyze(&f), Ok(Verdict::Accepted));
}

#[test]
fn shadowing_picks_the_latest_declaration() {
    let f = function(
        vec![reference_param("x")],
        vec![
            let_value("i", 2),
            ret(var("x"), 3),
            let_reference("x", Some(addr("i")), 4),
            ret(var("x"), 5),
        ],
    );
    match analyze(&f).unwrap() {
        Verdict::Rejected(found) => {
            assert_eq!(found.len(), 1);
            assert_eq!(found[0].location, at(5, 5));
            assert_eq!(found[0].referent_name, "i");
        },
        Verdict::Accepted => panic!("accepted"),
    }
}

#[test]
fn initialiser_sees_the_binding_it_shadows() {
    let f = function(
        vec![reference_param("x")],
        vec![let_reference("x", Some(var("x")), 2), ret(var("x"), 3)],
    );
    assert_eq!(analyze(&f), Ok(Verdict::Accepted));
}

#[test]
fn inner_declaration_shadows_only_inside_its_block() {
    let f = function(
        vec![reference_param("x")],
        vec![
            Stmt::Enter { kind: ScopeKind::Block, location: at(2, 5) },
            let_value("i", 3),
            let_reference("x", Some(addr("i")), 4),
            Stmt::Exit,
            ret(var("x"), 6),
        ],
    );
    assert_eq!(analyze(&f), Ok(Verdict::Accepted));
}

#[test]
fn binding_of_a_closed_block_is_not_visible() {
    let f = function(
        vec![],
        vec![
            Stmt::Enter { kind: ScopeKind::Block, location: at(2, 5) },
            let_value("x", 3),
            Stmt::Exit,
            ret(var("x"), 5),
        ],
    );
    assert_eq!(analyze(&f), Err(AnalysisError::MalformedInput));
}

#[test]
fn use_before_declaration_is_malformed() {
    let f = function(vec![], vec![ret(addr("x"), 2), let_value("x", 3)]);
    assert_eq!(analyze(&f), Err(AnalysisError::MalformedInput));
}

#[test]
fn undeclared_name_in_a_call_argument_is_malformed() {
    let call = Expr::Call { callee: name("g"), args: vec![Expr::Literal(1), var("nowhere")] };
    let f = function(vec![], vec![Stmt::Eval { expr: call, location: at(2, 5) }]);
    assert_eq!(analyze(&f), Err(AnalysisError::MalformedInput));
}

#[test]
fn store_into_an_undeclared_binding_is_malformed() {
    let f = function(
        vec![],
        vec![Stmt::Assign { target: name("r"), value: Expr::Literal(1), location: at(2, 5) }],
    );
    assert_eq!(analyze(&f), Err(AnalysisError::MalformedInput));
}

#[test]
fn exit_without_enter_is_malformed() {
    let f = function(vec![], vec![Stmt::Exit]);
    assert_eq!(analyze(&f), Err(AnalysisError::MalformedInput));
}

#[test]
fn unclosed_block_is_malformed() {
    let f = function(vec![], vec![Stmt::Enter { kind: ScopeKind::Loop, location: at(2, 5) }]);
    assert_eq!(analyze(&f), Err(AnalysisError::MalformedInput));
}

#[test]
fn empty_function_is_accepted() {
    assert_eq!(analyze(&function(vec![], vec![])), Ok(Verdict::Accepted));
}

#[test]
fn analysis_is_repeatable() {
    let f = dangling();
    assert_eq!(analyze(&f), analyze(&f));
}

#[test]
fn message_of_the_dangling_sample() {
    match analyze(&dangling()).unwrap() {
        Verdict::Rejected(found) => {
            assert_eq!(
                render(&found[0]),
                "7:5: error: returned reference would dangle: the scope opened at 5:1 owns i"
            );
        },
        Verdict::Accepted => panic!("accepted"),
    }
}
