//! The escape analysis: for every point where a reference leaves a scope,
//! decide whether what it refers to lives long enough.
//!
//! The analysis is path-insensitive. A reference binding may hold whatever
//! any statement of the body puts into it, and each escape point is judged by
//! the scope it stands in and the bindings visible there, so an escape in any
//! branch or loop body counts.
use vstd::prelude::*;
use crate::ast::{AnalysisError, Expr, FunctionAst, Location, Stmt, Type};
use crate::scope::{BindingKind, ScopeTree, ScopeTreeView};

verus! {

/// How a reference left its scope.
#[derive(Clone, Copy, Debug, PartialEq, Eq, Structural)]
pub enum EscapeKind {
    /// It was returned to the caller.
    Return,
    /// It was stored into a binding of an enclosing scope, or into a place
    /// that outlives the call.
    OutwardStore,
}

/// How serious a finding is. Every dangling reference is fatal.
#[derive(Clone, Copy, Debug, PartialEq, Eq, Structural)]
pub enum Severity {
    Fatal,
}

/// One escaping reference whose referent does not live long enough.
#[derive(Clone, Debug, PartialEq, Eq)]
pub struct Finding {
    /// Where the reference escapes.
    pub location: Location,
    /// The binding that the reference points to.
    pub referent_name: String,
    /// Where the scope that owns that binding begins.
    pub referent_scope_location: Location,
    pub kind: EscapeKind,
}

impl Finding {
    /// The severity of this finding.
    pub fn severity(&self) -> (r: Severity)
        ensures
            r == Severity::Fatal,
    {
        Severity::Fatal
    }
}

/// A place in the program where a reference may leave the scope it was
/// made in.
pub struct EscapePoint {
    pub location: Location,
    pub kind: EscapeKind,
    /// The expression whose value escapes.
    pub value: Expr,
    /// The scope that the value escapes from.
    pub from: usize,
    /// Where the value escapes to.
    pub target: Region,
}

/// A stretch of time that a value can live for, or that a reference can
/// escape to.
#[derive(Clone, Copy, Debug, PartialEq, Eq, Structural)]
pub enum Region {
    /// Everything outside the analysed function. It outlasts every scope.
    Caller,
    /// The lifetime of one scope of the function.
    Scope(usize),
}

/// What has been followed already: for each binding, whether what it holds
/// was followed, and whether what lies behind that was.
pub struct Marks {
    pub plain: Seq<bool>,
    pub behind: Seq<bool>,
}

impl Marks {
    /// There is a pair of marks for each of `n` bindings.
    pub open spec fn fits(self, n: nat) -> bool {
        self.plain.len() == n && self.behind.len() == n
    }

    /// The mark of binding `b`.
    pub open spec fn has(self, b: int, behind: bool) -> bool {
        if behind {
            self.behind[b]
        } else {
            self.plain[b]
        }
    }

    /// The marks with that of binding `b` set.
    pub open spec fn with(self, b: int, behind: bool) -> Marks {
        if behind {
            Marks { behind: self.behind.update(b, true), ..self }
        } else {
            Marks { plain: self.plain.update(b, true), ..self }
        }
    }
}

impl ScopeTreeView {
    /// A value that lives for `r` is still alive wherever in `target` a
    /// reference to it may end up.
    pub open spec fn region_outlives(self, r: Region, target: Region) -> bool {
        match r {
            Region::Caller => true,
            Region::Scope(a) => match target {
                Region::Caller => false,
                Region::Scope(b) => self.outlives(a as int, b as int),
            },
        }
    }

    /// Every name in `e` denotes a binding, seen from scope `s` at statement
    /// `now`.
    pub open spec fn expr_resolves(self, e: Expr, s: int, now: int) -> bool
        decreases e,
    {
        match e {
            Expr::Literal(_) => true,
            Expr::Var(name) => self.resolve(name@, s, now) is Some,
            Expr::AddrOf(name) => self.resolve(name@, s, now) is Some,
            Expr::Deref(inner) => self.expr_resolves(*inner, s, now),
            Expr::Add(left, right) => self.expr_resolves(*left, s, now) && self.expr_resolves(
                *right,
                s,
                now,
            ),
            Expr::Call { callee, args } => forall|i: int|
                0 <= i < args.len() ==> self.expr_resolves(#[trigger] args[i], s, now),
        }
    }

    /// Every name in statement `k` denotes a binding.
    pub open spec fn stmt_resolves(self, body: Seq<Stmt>, k: int) -> bool {
        let s = self.stmt_scopes[k] as int;
        match body[k] {
            Stmt::Let { init: Some(e), .. } => self.expr_resolves(e, s, k),
            Stmt::Assign { target, value, .. } => self.resolve(target@, s, k) is Some
                && self.expr_resolves(value, s, k),
            Stmt::StoreOut { value, .. } => self.expr_resolves(value, s, k),
            Stmt::Return { value: Some(e), .. } => self.expr_resolves(e, s, k),
            Stmt::Eval { expr, .. } => self.expr_resolves(expr, s, k),
            _ => true,
        }
    }

    /// Each of the first `n` statements passes [`Self::stmt_resolves`].
    pub open spec fn resolves_before(self, body: Seq<Stmt>, n: int) -> bool {
        forall|k: int| 0 <= k < n ==> #[trigger] self.stmt_resolves(body, k)
    }

    /// The tree fits the body: it is well formed, it records an existing
    /// scope for each statement, and every name used in the body denotes a
    /// binding.
    pub open spec fn consistent(self, body: Seq<Stmt>) -> bool {
        self.wf() && self.covers(body) && self.resolves_before(body, body.len() as int)
    }

    /// The expression whose value statement `k` puts into binding `b`, if it
    /// puts one there: the value of a store into `b`, or the initialiser of
    /// the declaration of `b`.
    pub open spec fn source_of(self, body: Seq<Stmt>, k: int, b: int) -> Option<Expr> {
        match body[k] {
            Stmt::Assign { target, value, .. } => if self.resolve(
                target@,
                self.stmt_scopes[k] as int,
                k,
            ) == Some(b) {
                Some(value)
            } else {
                None
            },
            Stmt::Let { init: Some(e), .. } => if self.bindings[b].kind == BindingKind::Local
                && self.bindings[b].order == k + 1 && self.bindings[b].scope
                == self.stmt_scopes[k] {
                Some(e)
            } else {
                None
            },
            _ => None,
        }
    }

    /// Follows a value back to the bindings that it may point to, and gives
    /// the first of them whose scope does not outlive `target`.
    ///
    /// The value is that of `e`, evaluated in scope `s` at statement `now`,
    /// or, if `behind` is set, what lies behind that value. The address of a
    /// binding points to that binding, and behind it lies what the binding
    /// holds. A reference binding holds whatever any statement puts into it,
    /// be it the initialiser or a store, wherever in the body that statement
    /// stands; the sources are followed in source order. A parameter may
    /// also hold what the caller passed in; that, and all that lies behind
    /// it, is safe. A call may hand back any reference that it was given.
    /// Sums and constants are values.
    ///
    /// `seen` marks what was followed already: nothing is followed twice.
    /// Beside the result stands `seen` as it is afterwards. `fuel` bounds
    /// how many bindings a chain may pass through.
    pub open spec fn trace(
        self,
        body: Seq<Stmt>,
        e: Expr,
        s: int,
        now: int,
        target: Region,
        behind: bool,
        seen: Marks,
        fuel: nat,
    ) -> (Option<int>, Marks)
        decreases fuel, 1int, 0int, e, 0int,
    {
        match e {
            Expr::AddrOf(name) => match self.resolve(name@, s, now) {
                Some(b) => if behind {
                    self.follow(body, b, target, false, seen, fuel)
                } else if self.region_outlives(Region::Scope(self.bindings[b].scope), target) {
                    (None, seen)
                } else {
                    (Some(b), seen)
                },
                None => (None, seen),
            },
            Expr::Var(name) => match self.resolve(name@, s, now) {
                Some(b) => self.follow(body, b, target, behind, seen, fuel),
                None => (None, seen),
            },
            Expr::Deref(inner) => self.trace(body, *inner, s, now, target, true, seen, fuel),
            Expr::Call { callee, args } => self.trace_args(body, args, 0, s, now, target, seen, fuel),
            _ => (None, seen),
        }
    }

    /// [`Self::trace`] for what binding `b` holds, or, if `behind` is set,
    /// for what lies behind that. A binding that holds a value leads
    /// nowhere.
    pub open spec fn follow(
        self,
        body: Seq<Stmt>,
        b: int,
        target: Region,
        behind: bool,
        seen: Marks,
        fuel: nat,
    ) -> (Option<int>, Marks)
        decreases fuel, 0int,
    {
        if 0 <= b < self.bindings.len() && self.bindings[b].ty == Type::Reference && fuel > 0
            && seen.fits(self.bindings.len()) && !seen.has(b, behind) {
            self.trace_sources(body, b, 0, target, behind, seen.with(b, behind), (fuel - 1) as nat)
        } else {
            (None, seen)
        }
    }

    /// [`Self::trace`] for the arguments of a call, from the `i`-th on.
    pub open spec fn trace_args(
        self,
        body: Seq<Stmt>,
        args: Vec<Expr>,
        i: int,
        s: int,
        now: int,
        target: Region,
        seen: Marks,
        fuel: nat,
    ) -> (Option<int>, Marks)
        decreases fuel, 1int, 0int, args, args.len() - i,
    {
        if 0 <= i < args.len() {
            let first = self.trace(body, args[i], s, now, target, false, seen, fuel);
            if first.0 is Some {
                first
            } else {
                self.trace_args(body, args, i + 1, s, now, target, first.1, fuel)
            }
        } else {
            (None, seen)
        }
    }

    /// [`Self::trace`] for what the statements from the `k`-th on put into
    /// binding `b`.
    pub open spec fn trace_sources(
        self,
        body: Seq<Stmt>,
        b: int,
        k: int,
        target: Region,
        behind: bool,
        seen: Marks,
        fuel: nat,
    ) -> (Option<int>, Marks)
        decreases fuel, 2int, body.len() - k,
    {
        if 0 <= k < body.len() {
            match self.source_of(body, k, b) {
                Some(e) => {
                    let first = self.trace(
                        body,
                        e,
                        self.stmt_scopes[k] as int,
                        k,
                        target,
                        behind,
                        seen,
                        fuel,
                    );
                    if first.0 is Some {
                        first
                    } else {
                        self.trace_sources(body, b, k + 1, target, behind, first.1, fuel)
                    }
                },
                None => self.trace_sources(body, b, k + 1, target, behind, seen, fuel),
            }
        } else {
            (None, seen)
        }
    }

    /// Nothing followed yet.
    pub open spec fn unseen(self) -> Marks {
        Marks {
            plain: Seq::new(self.bindings.len(), |b: int| false),
            behind: Seq::new(self.bindings.len(), |b: int| false),
        }
    }

    /// The binding that makes it unsafe for the value of `e`, evaluated in
    /// scope `s` at statement `now`, to reach `target`, if there is one:
    /// what [`Self::trace`] finds when it starts afresh.
    pub open spec fn offender(self, body: Seq<Stmt>, e: Expr, s: int, now: int, target: Region)
        -> Option<int> {
        self.trace(body, e, s, now, target, false, self.unseen(), 2 * self.bindings.len()).0
    }

    /// The finding that names binding `b` as the referent.
    pub open spec fn finding_for(self, b: int, location: Location, kind: EscapeKind) -> Finding {
        Finding {
            location,
            referent_name: self.bindings[b].name,
            referent_scope_location: self.scopes[self.bindings[b].scope as int].location,
            kind,
        }
    }

    /// The escape point that statement `k` is, if it is one.
    ///
    /// A `return` lets its value escape to the caller, and so does a store
    /// into a place that outlives the call. A store into a binding lets its
    /// value escape to the scope of that binding.
    pub open spec fn escape_at(self, body: Seq<Stmt>, k: int) -> Option<EscapePoint> {
        let from = self.stmt_scopes[k];
        match body[k] {
            Stmt::Return { value: Some(e), location } => Some(
                EscapePoint {
                    location,
                    kind: EscapeKind::Return,
                    value: e,
                    from,
                    target: Region::Caller,
                },
            ),
            Stmt::StoreOut { value, location } => Some(
                EscapePoint {
                    location,
                    kind: EscapeKind::OutwardStore,
                    value,
                    from,
                    target: Region::Caller,
                },
            ),
            Stmt::Assign { target, value, location } => match self.resolve(
                target@,
                from as int,
                k,
            ) {
                Some(held) => Some(
                    EscapePoint {
                        location,
                        kind: EscapeKind::OutwardStore,
                        value,
                        from,
                        target: Region::Scope(self.bindings[held].scope),
                    },
                ),
                None => None,
            },
            _ => None,
        }
    }

    /// The finding that statement `k` gives rise to, if any: the statement
    /// is an escape point, and its value has an offender for its target.
    pub open spec fn finding_at(self, body: Seq<Stmt>, k: int) -> Option<Finding> {
        match self.escape_at(body, k) {
            Some(point) => match self.offender(
                body,
                point.value,
                point.from as int,
                k,
                point.target,
            ) {
                Some(b) => Some(self.finding_for(b, point.location, point.kind)),
                None => None,
            },
            None => None,
        }
    }

    /// The findings of the first `n` statements, in source order.
    pub open spec fn findings_before(self, body: Seq<Stmt>, n: int) -> Seq<Finding>
        decreases n,
    {
        if n <= 0 {
            Seq::empty()
        } else {
            match self.finding_at(body, n - 1) {
                Some(finding) => self.findings_before(body, n - 1).push(finding),
                None => self.findings_before(body, n - 1),
            }
        }
    }

    /// All findings of the body, in source order.
    pub open spec fn findings(self, body: Seq<Stmt>) -> Seq<Finding> {
        self.findings_before(body, body.len() as int)
    }
}

/// An index as a mathematical integer.
pub open spec fn index_of(r: Option<usize>) -> Option<int> {
    match r {
        Some(b) => Some(b as int),
        None => None,
    }
}

impl ScopeTree {
    /// Decides [`ScopeTreeView::region_outlives`].
    pub fn region_outlives(&self, r: Region, target: Region) -> (ok: bool)
        ensures
            ok == self@.region_outlives(r, target),
    {
        match r {
            Region::Caller => true,
            Region::Scope(a) => match target {
                Region::Caller => false,
                Region::Scope(b) => self.outlives(a, b),
            },
        }
    }

    /// Decides [`ScopeTreeView::expr_resolves`].
    pub fn expr_resolves(&self, e: &Expr, s: usize, now: usize) -> (r: bool)
        ensures
            r == self@.expr_resolves(*e, s as int, now as int),
        decreases e,
    {
        match e {
            Expr::Literal(_) => true,
            Expr::Var(name) => self.resolve(name, s, now).is_some(),
            Expr::AddrOf(name) => self.resolve(name, s, now).is_some(),
            Expr::Deref(inner) => self.expr_resolves(inner, s, now),
            Expr::Add(left, right) => self.expr_resolves(left, s, now) && self.expr_resolves(
                right,
                s,
                now,
            ),
            Expr::Call { callee, args } => {
                let mut i: usize = 0;
                while i < args.len()
                    invariant
                        i <= args.len(),
                        *e is Call,
                        e->args == *args,
                        forall|j: int|
                            0 <= j < i ==> self@.expr_resolves(#[trigger] args[j], s as int, now as int),
                    decreases args.len() - i,
                {
                    if !self.expr_resolves(&args[i], s, now) {
                        return false;
                    }
                    i = i + 1;
                }
                true
            },
        }
    }

    /// Decides [`ScopeTreeView::stmt_resolves`] for statement `k` of `body`.
    fn stmt_resolves(&self, body: &Vec<Stmt>, k: usize) -> (r: bool)
        requires
            self@.covers(body@),
            k < body.len(),
        ensures
            r == self@.stmt_resolves(body@, k as int),
    {
        let s = self.stmt_scopes[k];
        match &body[k] {
            Stmt::Let { init: Some(e), .. } => self.expr_resolves(e, s, k),
            Stmt::Assign { target, value, .. } => self.resolve(target, s, k).is_some()
                && self.expr_resolves(value, s, k),
            Stmt::StoreOut { value, .. } => self.expr_resolves(value, s, k),
            Stmt::Return { value: Some(e), .. } => self.expr_resolves(e, s, k),
            Stmt::Eval { expr, .. } => self.expr_resolves(expr, s, k),
            _ => true,
        }
    }

    /// Decides [`ScopeTreeView::resolves_before`] for the whole of `body`.
    fn body_resolves(&self, body: &Vec<Stmt>) -> (r: bool)
        requires
            self@.covers(body@),
        ensures
            r == self@.resolves_before(body@, body@.len() as int),
    {
        let mut k: usize = 0;
        while k < body.len()
            invariant
                k <= body.len(),
                self@.covers(body@),
                self@.resolves_before(body@, k as int),
            decreases body.len() - k,
        {
            if !self.stmt_resolves(body, k) {
                return false;
            }
            k = k + 1;
        }
        true
    }

    /// One mark for each binding, none of them set.
    fn unmarked(&self) -> (seen: Vec<bool>)
        ensures
            seen@ == Seq::new(self@.bindings.len(), |b: int| false),
    {
        let mut seen: Vec<bool> = Vec::new();
        while seen.len() < self.bindings.len()
            invariant
                seen@.len() <= self@.bindings.len(),
                forall|b: int| 0 <= b < seen@.len() ==> !#[trigger] seen@[b],
            decreases self.bindings.len() - seen.len(),
        {
            seen.push(false);
        }
        assert(seen@ =~= Seq::new(self@.bindings.len(), |b: int| false));
        seen
    }

    /// Decides [`ScopeTreeView::source_of`]: whether statement `k` puts a
    /// value into binding `b`, and if so which.
    fn source_of<'a>(&self, body: &'a Vec<Stmt>, k: usize, b: usize) -> (r: Option<&'a Expr>)
        requires
            self@.covers(body@),
            k < body.len(),
            b < self.bindings.len(),
        ensures
            match r {
                Some(e) => self@.source_of(body@, k as int, b as int) == Some(*e),
                None => self@.source_of(body@, k as int, b as int) is None,
            },
    {
        match &body[k] {
            Stmt::Assign { target, value, .. } => match self.resolve(
                target,
                self.stmt_scopes[k],
                k,
            ) {
                Some(held) => if held == b {
                    Some(value)
                } else {
                    None
                },
                None => None,
            },
            Stmt::Let { init: Some(e), .. } => {
                let binding = &self.bindings[b];
                if binding.kind == BindingKind::Local && binding.order == k + 1 && binding.scope
                    == self.stmt_scopes[k] {
                    Some(e)
                } else {
                    None
                }
            },
            _ => None,
        }
    }

    /// Decides [`ScopeTreeView::trace`].
    fn trace(
        &self,
        body: &Vec<Stmt>,
        e: &Expr,
        s: usize,
        now: usize,
        target: Region,
        behind: bool,
        plain: &mut Vec<bool>,
        deep: &mut Vec<bool>,
        fuel: u128,
    ) -> (r: Option<usize>)
        requires
            self@.covers(body@),
            old(plain)@.len() == self@.bindings.len(),
            old(deep)@.len() == self@.bindings.len(),
        ensures
            final(plain)@.len() == old(plain)@.len(),
            final(deep)@.len() == old(deep)@.len(),
            r matches Some(b) ==> b < self.bindings.len(),
            self@.trace(
                body@,
                *e,
                s as int,
                now as int,
                target,
                behind,
                Marks { plain: old(plain)@, behind: old(deep)@ },
                fuel as nat,
            ) == (index_of(r), Marks { plain: final(plain)@, behind: final(deep)@ }),
        decreases fuel, 1int, e,
    {
        match e {
            Expr::AddrOf(name) => match self.resolve(name, s, now) {
                Some(b) => if behind {
                    self.follow(body, b, target, false, plain, deep, fuel)
                } else if self.region_outlives(Region::Scope(self.bindings[b].scope), target) {
                    None
                } else {
                    Some(b)
                },
                None => None,
            },
            Expr::Var(name) => match self.resolve(name, s, now) {
                Some(b) => self.follow(body, b, target, behind, plain, deep, fuel),
                None => None,
            },
            Expr::Deref(inner) => self.trace(body, inner, s, now, target, true, plain, deep, fuel),
            Expr::Call { callee, args } => {
                let mut i: usize = 0;
                while i < args.len()
                    invariant
                        i <= args.len(),
                        *e is Call,
                        e->args == *args,
                        self@.covers(body@),
                        plain@.len() == self@.bindings.len(),
                        deep@.len() == self@.bindings.len(),
                        old(plain)@.len() == self@.bindings.len(),
                        old(deep)@.len() == self@.bindings.len(),
                        self@.trace_args(
                            body@,
                            *args,
                            0,
                            s as int,
                            now as int,
                            target,
                            Marks { plain: old(plain)@, behind: old(deep)@ },
                            fuel as nat,
                        ) == self@.trace_args(
                            body@,
                            *args,
                            i as int,
                            s as int,
                            now as int,
                            target,
                            Marks { plain: plain@, behind: deep@ },
                            fuel as nat,
                        ),
                    decreases args.len() - i,
                {
                    match self.trace(body, &args[i], s, now, target, false, plain, deep, fuel) {
                        Some(b) => {
                            return Some(b);
                        },
                        None => {},
                    }
                    i = i + 1;
                }
                None
            },
            _ => None,
        }
    }

    /// Decides [`ScopeTreeView::follow`].
    fn follow(
        &self,
        body: &Vec<Stmt>,
        b: usize,
        target: Region,
        behind: bool,
        plain: &mut Vec<bool>,
        deep: &mut Vec<bool>,
        fuel: u128,
    ) -> (r: Option<usize>)
        requires
            self@.covers(body@),
            b < self.bindings.len(),
            old(plain)@.len() == self@.bindings.len(),
            old(deep)@.len() == self@.bindings.len(),
        ensures
            final(plain)@.len() == old(plain)@.len(),
            final(deep)@.len() == old(deep)@.len(),
            r matches Some(x) ==> x < self.bindings.len(),
            self@.follow(
                body@,
                b as int,
                target,
                behind,
                Marks { plain: old(plain)@, behind: old(deep)@ },
                fuel as nat,
            ) == (index_of(r), Marks { plain: final(plain)@, behind: final(deep)@ }),
        decreases fuel, 0int,
    {
        if self.bindings[b].ty != Type::Reference || fuel == 0 {
            return None;
        }
        if behind {
            if deep[b] {
                return None;
            }
            deep.set(b, true);
        } else {
            if plain[b] {
                return None;
            }
            plain.set(b, true);
        }
        self.trace_sources(body, b, target, behind, plain, deep, fuel - 1)
    }

    /// Decides [`ScopeTreeView::trace_sources`] from the first statement on.
    fn trace_sources(
        &self,
        body: &Vec<Stmt>,
        b: usize,
        target: Region,
        behind: bool,
        plain: &mut Vec<bool>,
        deep: &mut Vec<bool>,
        fuel: u128,
    ) -> (r: Option<usize>)
        requires
            self@.covers(body@),
            b < self.bindings.len(),
            old(plain)@.len() == self@.bindings.len(),
            old(deep)@.len() == self@.bindings.len(),
        ensures
            final(plain)@.len() == old(plain)@.len(),
            final(deep)@.len() == old(deep)@.len(),
            r matches Some(x) ==> x < self.bindings.len(),
            self@.trace_sources(
                body@,
                b as int,
                0,
                target,
                behind,
                Marks { plain: old(plain)@, behind: old(deep)@ },
                fuel as nat,
            ) == (index_of(r), Marks { plain: final(plain)@, behind: final(deep)@ }),
        decreases fuel, 2int,
    {
        let mut k: usize = 0;
        while k < body.len()
            invariant
                k <= body.len(),
                self@.covers(body@),
                b < self.bindings.len(),
                plain@.len() == self@.bindings.len(),
                deep@.len() == self@.bindings.len(),
                old(plain)@.len() == self@.bindings.len(),
                old(deep)@.len() == self@.bindings.len(),
                self@.trace_sources(
                    body@,
                    b as int,
                    0,
                    target,
                    behind,
                    Marks { plain: old(plain)@, behind: old(deep)@ },
                    fuel as nat,
                ) == self@.trace_sources(
                    body@,
                    b as int,
                    k as int,
                    target,
                    behind,
                    Marks { plain: plain@, behind: deep@ },
                    fuel as nat,
                ),
            decreases body.len() - k,
        {
            match self.source_of(body, k, b) {
                Some(e) => {
                    match self.trace(
                        body,
                        e,
                        self.stmt_scopes[k],
                        k,
                        target,
                        behind,
                        plain,
                        deep,
                        fuel,
                    ) {
                        Some(x) => {
                            return Some(x);
                        },
                        None => {},
                    }
                },
                None => {},
            }
            k = k + 1;
        }
        None
    }

    /// Decides [`ScopeTreeView::offender`].
    fn offender(&self, body: &Vec<Stmt>, e: &Expr, s: usize, now: usize, target: Region) -> (r:
        Option<usize>)
        requires
            self@.covers(body@),
        ensures
            r matches Some(b) ==> b < self.bindings.len(),
            self@.offender(body@, *e, s as int, now as int, target) == index_of(r),
    {
        let mut plain = self.unmarked();
        let mut deep = self.unmarked();
        let fuel: u128 = 2 * (self.bindings.len() as u128);
        self.trace(body, e, s, now, target, false, &mut plain, &mut deep, fuel)
    }

    /// Builds [`ScopeTreeView::finding_for`].
    fn finding_for(&self, b: usize, location: Location, kind: EscapeKind) -> (r: Finding)
        requires
            self@.wf(),
            b < self.bindings.len(),
        ensures
            r == self@.finding_for(b as int, location, kind),
    {
        let binding = &self.bindings[b];
        Finding {
            location,
            referent_name: binding.name.clone(),
            referent_scope_location: self.scopes[binding.scope].location,
            kind,
        }
    }
}

/// Finds the dangling references of `f`, given its scope tree.
///
/// Fails exactly when the tree does not fit the body. Otherwise the result
/// holds one finding for each statement that lets a reference escape beyond
/// the life of what it may point to, in source order.
pub fn find_escapes(f: &FunctionAst, tree: &ScopeTree) -> (r: Result<Vec<Finding>, AnalysisError>)
    ensures
        r is Ok <==> tree@.consistent(f.body@),
        r matches Ok(found) ==> found@ == tree@.findings(f.body@),
        r matches Err(e) ==> e == AnalysisError::MalformedInput,
{
    if !tree.is_well_formed() || !tree.covers(&f.body) {
        return Err(AnalysisError::MalformedInput);
    }
    if !tree.body_resolves(&f.body) {
        return Err(AnalysisError::MalformedInput);
    }
    let mut found: Vec<Finding> = Vec::new();
    let mut k: usize = 0;
    while k < f.body.len()
        invariant
            k <= f.body.len(),
            tree@.wf(),
            tree@.covers(f.body@),
            found@ == tree@.findings_before(f.body@, k as int),
        decreases f.body.len() - k,
    {
        let s = tree.stmt_scopes[k];
        match &f.body[k] {
            Stmt::Return { value: Some(e), location } => {
                match tree.offender(&f.body, e, s, k, Region::Caller) {
                    Some(b) => {
                        found.push(tree.finding_for(b, *location, EscapeKind::Return));
                    },
                    None => {},
                }
            },
            Stmt::StoreOut { value, location } => {
                match tree.offender(&f.body, value, s, k, Region::Caller) {
                    Some(b) => {
                        found.push(tree.finding_for(b, *location, EscapeKind::OutwardStore));
                    },
                    None => {},
                }
            },
            Stmt::Assign { target, value, location } => {
                match tree.resolve(target, s, k) {
                    Some(held) => {
                        let to = Region::Scope(tree.bindings[held].scope);
                        match tree.offender(&f.body, value, s, k, to) {
                            Some(b) => {
                                found.push(
                                    tree.finding_for(b, *location, EscapeKind::OutwardStore),
                                );
                            },
                            None => {},
                        }
                    },
                    None => {},
                }
            },
            _ => {},
        }
        k = k + 1;
    }
    Ok(found)
}

} // verus!
