//! The input of the analysis: one function, as handed over by a front end.
//!
//! A function body is a flat statement sequence in source order. Nested blocks
//! are bracketed by [`Stmt::Enter`] and [`Stmt::Exit`].
use vstd::prelude::*;

verus! {

/// A position in the analysed source text.
#[derive(Clone, Copy, Debug, PartialEq, Eq, Structural)]
pub struct Location {
    pub line: u32,
    pub column: u32,
}

/// The declared type of a binding, as far as this analysis cares.
#[derive(Clone, Copy, Debug, PartialEq, Eq, Structural)]
pub enum Type {
    /// The binding holds a value of its own.
    Value,
    /// The binding holds the address of another binding.
    Reference,
}

/// What kind of lexical region a scope is.
#[derive(Clone, Copy, Debug, PartialEq, Eq, Structural)]
pub enum ScopeKind {
    /// The outermost scope of a function; it also owns the parameters.
    Function,
    /// An explicit nested block.
    Block,
    /// The body of the taken branch of a conditional.
    Then,
    /// The body of the other branch of a conditional.
    Else,
    /// The body of a loop.
    Loop,
}

/// An expression.
#[derive(Debug, PartialEq, Eq)]
pub enum Expr {
    /// An integer constant.
    Literal(i64),
    /// The current content of a binding. If the binding holds a reference, the
    /// expression evaluates to that reference.
    Var(String),
    /// The address of a binding: the one reference-producing expression.
    AddrOf(String),
    /// What lies behind a reference. Behind the address of a binding that
    /// holds a reference lies that reference.
    Deref(Box<Expr>),
    /// The sum of two values.
    Add(Box<Expr>, Box<Expr>),
    /// A call of another function. The callee is not resolved here.
    Call { callee: String, args: Vec<Expr> },
}

/// A statement of a function body.
#[derive(Debug, PartialEq, Eq)]
#[allow(inconsistent_fields)]
pub enum Stmt {
    /// Declares a local binding in the current scope.
    Let { name: String, ty: Type, init: Option<Expr>, location: Location },
    /// Stores a value into an existing binding.
    Assign { target: String, value: Expr, location: Location },
    /// Stores a value into a place that outlives the call, such as the
    /// target of an out-parameter.
    StoreOut { value: Expr, location: Location },
    /// Leaves the function, handing `value` to the caller.
    Return { value: Option<Expr>, location: Location },
    /// Evaluates an expression for its effect (a call, a loop condition).
    Eval { expr: Expr, location: Location },
    /// Opens a nested block: a child scope of the current scope.
    Enter { kind: ScopeKind, location: Location },
    /// Closes the innermost open block.
    Exit,
}

/// A parameter of a function.
#[derive(Debug, PartialEq, Eq)]
pub struct Param {
    pub name: String,
    pub ty: Type,
    pub location: Location,
}

/// A function as the front end hands it over.
#[derive(Debug, PartialEq, Eq)]
pub struct FunctionAst {
    pub name: String,
    pub location: Location,
    pub params: Vec<Param>,
    pub body: Vec<Stmt>,
}

/// Why an analysis run could not produce a verdict.
#[derive(Clone, Copy, Debug, PartialEq, Eq, Structural)]
pub enum AnalysisError {
    /// The input is structurally inconsistent. This points at a defect in
    /// whatever produced the input, not at the analysed program.
    MalformedInput,
}

} // verus!
