//! Two small functions to try the analysis on: one that hands out the
//! address of its own local, and its caller.
use vstd::prelude::*;
use crate::ast::{Expr, FunctionAst, Location, Param, Stmt, Type};

verus! {

/// `f` is the function
///
/// ```text
/// fn dangling() -> &int {
///     let i = 1234;
///     return &i;
/// }
/// ```
pub open spec fn is_dangling(f: FunctionAst) -> bool {
    &&& f.name@ == "dangling"@
    &&& f.location == Location { line: 5, column: 1 }
    &&& f.params@.len() == 0
    &&& f.body@.len() == 2
    &&& f.body@[0] matches Stmt::Let { name, ty, init, location }
    &&& name@ == "i"@
    &&& ty == Type::Value
    &&& init == Some(Expr::Literal(1234))
    &&& location == Location { line: 6, column: 5 }
    &&& f.body@[1] matches Stmt::Return { value: Some(Expr::AddrOf(referent)), location }
    &&& referent@ == "i"@
    &&& location == Location { line: 7, column: 5 }
}

/// `f` is the function
///
/// ```text
/// fn add_one() -> int {
///     let num = dangling();
///     return *num + 1;
/// }
/// ```
pub open spec fn is_add_one(f: FunctionAst) -> bool {
    &&& f.name@ == "add_one"@
    &&& f.location == Location { line: 10, column: 1 }
    &&& f.params@.len() == 0
    &&& f.body@.len() == 2
    &&& f.body@[0] matches Stmt::Let { name, ty, init: Some(Expr::Call { callee, args }), location }
    &&& name@ == "num"@
    &&& ty == Type::Reference
    &&& callee@ == "dangling"@
    &&& args@.len() == 0
    &&& location == Location { line: 11, column: 5 }
    &&& f.body@[1] matches Stmt::Return { value: Some(Expr::Add(left, right)), location }
    &&& *left matches Expr::Deref(pointer)
    &&& *pointer matches Expr::Var(held)
    &&& held@ == "num"@
    &&& *right == Expr::Literal(1)
    &&& location == Location { line: 12, column: 5 }
}

/// The function that returns the address of its own local `i`.
pub fn dangling() -> (f: FunctionAst)
    ensures
        is_dangling(f),
{
    let mut body: Vec<Stmt> = Vec::new();
    body.push(
        Stmt::Let {
            name: "i".to_owned(),
            ty: Type::Value,
            init: Some(Expr::Literal(1234)),
            location: Location { line: 6, column: 5 },
        },
    );
    body.push(
        Stmt::Return {
            value: Some(Expr::AddrOf("i".to_owned())),
            location: Location { line: 7, column: 5 },
        },
    );
    let params: Vec<Param> = Vec::new();
    FunctionAst {
        name: "dangling".to_owned(),
        location: Location { line: 5, column: 1 },
        params,
        body,
    }
}

/// The function that calls [`dangling`] and adds one to what the result
/// points at.
pub fn add_one() -> (f: FunctionAst)
    ensures
        is_add_one(f),
{
    let mut body: Vec<Stmt> = Vec::new();
    body.push(
        Stmt::Let {
            name: "num".to_owned(),
            ty: Type::Reference,
            init: Some(Expr::Call { callee: "dangling".to_owned(), args: Vec::new() }),
            location: Location { line: 11, column: 5 },
        },
    );
    body.push(
        Stmt::Return {
            value: Some(
                Expr::Add(
                    Box::new(Expr::Deref(Box::new(Expr::Var("num".to_owned())))),
                    Box::new(Expr::Literal(1)),
                ),
            ),
            location: Location { line: 12, column: 5 },
        },
    );
    let params: Vec<Param> = Vec::new();
    FunctionAst {
        name: "add_one".to_owned(),
        location: Location { line: 10, column: 1 },
        params,
        body,
    }
}

} // verus!
