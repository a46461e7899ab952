//! The scope tree: an arena of lexical scopes with parent indices, the
//! bindings declared in them, and the scope in effect at each statement.
use vstd::prelude::*;
use crate::ast::{AnalysisError, FunctionAst, Location, Param, ScopeKind, Stmt, Type};

verus! {

/// Whether a binding was created by the call or by a declaration.
#[derive(Clone, Copy, Debug, PartialEq, Eq, Structural)]
pub enum BindingKind {
    Parameter,
    Local,
}

/// A named value that lives exactly as long as its declaring scope.
#[derive(Debug, PartialEq, Eq)]
pub struct Binding {
    pub name: String,
    /// Index of the declaring scope in the arena.
    pub scope: usize,
    pub ty: Type,
    pub kind: BindingKind,
    /// Creation order: 0 for parameters, one more than the index of the
    /// declaring statement for locals. A binding is in existence at
    /// statement `k` when its order is at most `k`.
    pub order: usize,
    pub location: Location,
}

/// A lexical region. Its lifetime is nested within that of its parent.
#[derive(Clone, Copy, Debug, PartialEq, Eq, Structural)]
pub struct Scope {
    /// Index of the enclosing scope; `None` for the function's own scope.
    pub parent: Option<usize>,
    pub kind: ScopeKind,
    pub location: Location,
}

/// The scope tree of one function.
#[derive(Debug, PartialEq, Eq)]
pub struct ScopeTree {
    /// The arena. Entry 0 is the function's own scope.
    pub scopes: Vec<Scope>,
    /// All bindings, in creation order.
    pub bindings: Vec<Binding>,
    /// For each statement of the body, the scope it stands in.
    pub stmt_scopes: Vec<usize>,
}

/// The mathematical content of a [`ScopeTree`].
pub struct ScopeTreeView {
    pub scopes: Seq<Scope>,
    pub bindings: Seq<Binding>,
    pub stmt_scopes: Seq<usize>,
}

impl View for ScopeTree {
    type V = ScopeTreeView;

    open spec fn view(&self) -> ScopeTreeView {
        ScopeTreeView {
            scopes: self.scopes@,
            bindings: self.bindings@,
            stmt_scopes: self.stmt_scopes@,
        }
    }
}

impl ScopeTreeView {
    /// The arena is a tree rooted at entry 0: every other scope names a
    /// parent that comes before it, and every binding names a scope that
    /// exists.
    pub open spec fn wf(self) -> bool {
        &&& self.scopes.len() >= 1
        &&& self.scopes[0].parent is None
        &&& forall|j: int|
            1 <= j < self.scopes.len() ==> (#[trigger] self.scopes[j]).parent is Some
                && self.scopes[j].parent->0 < j
        &&& forall|b: int|
            0 <= b < self.bindings.len() ==> (#[trigger] self.bindings[b]).scope
                < self.scopes.len()
    }

    /// The tree records a scope for each statement of `body`, and each of
    /// those scopes exists.
    pub open spec fn covers(self, body: Seq<Stmt>) -> bool {
        &&& self.stmt_scopes.len() == body.len()
        &&& forall|k: int|
            0 <= k < self.stmt_scopes.len() ==> (#[trigger] self.stmt_scopes[k])
                < self.scopes.len()
    }
}

impl ScopeTreeView {
    /// Scope `a` outlives scope `b`: `a` is `b` itself or one of its
    /// ancestors, so the lifetime of `a` contains that of `b`.
    pub open spec fn outlives(self, a: int, b: int) -> bool
        decreases b,
    {
        a == b || (0 <= b < self.scopes.len() && self.scopes[b].parent is Some
            && self.scopes[b].parent->0 < b && self.outlives(a, self.scopes[b].parent->0 as int))
    }

    /// How many scopes lie between scope `s` and the function's own scope,
    /// counting `s` itself.
    pub open spec fn depth(self, s: int) -> nat
        decreases s,
    {
        if 0 < s < self.scopes.len() && self.scopes[s].parent is Some && self.scopes[s].parent->0
            < s {
            1 + self.depth(self.scopes[s].parent->0 as int)
        } else {
            0
        }
    }

    /// Binding `b` can be named from scope `s` at statement `now`: it has
    /// been created by then, and its scope is `s` or encloses it.
    pub open spec fn visible(self, b: int, s: int, now: int) -> bool {
        self.bindings[b].order <= now && self.outlives(self.bindings[b].scope as int, s)
    }

    /// The last of the first `n` bindings that is called `name` and visible.
    pub open spec fn resolve_among(self, name: Seq<char>, s: int, now: int, n: int) -> Option<int>
        decreases n,
    {
        if n <= 0 {
            None
        } else if self.bindings[n - 1].name@ == name && self.visible(n - 1, s, now) {
            Some(n - 1)
        } else {
            self.resolve_among(name, s, now, n - 1)
        }
    }

    /// The binding that `name` denotes in scope `s` at statement `now`: the
    /// most recently created visible binding of that name, so that a later
    /// declaration shadows an earlier one.
    pub open spec fn resolve(self, name: Seq<char>, s: int, now: int) -> Option<int> {
        self.resolve_among(name, s, now, self.bindings.len() as int)
    }
}

/// The binding that a parameter gives rise to.
pub open spec fn param_binding(p: Param) -> Binding {
    Binding {
        name: p.name,
        scope: 0,
        ty: p.ty,
        kind: BindingKind::Parameter,
        order: 0,
        location: p.location,
    }
}

/// The binding that the declaration `stmt`, standing in `scope` as
/// statement `k`, gives rise to.
pub open spec fn local_binding(stmt: Stmt, scope: usize, k: int) -> Binding
    recommends
        stmt is Let,
{
    match stmt {
        Stmt::Let { name, ty, init, location } => Binding {
            name,
            scope,
            ty,
            kind: BindingKind::Local,
            order: (k + 1) as usize,
            location,
        },
        _ => arbitrary(),
    }
}

/// The scope that `stmt`, standing in scope `parent`, opens.
pub open spec fn child_scope(stmt: Stmt, parent: usize) -> Scope
    recommends
        stmt is Enter,
{
    match stmt {
        Stmt::Enter { kind, location } => Scope { parent: Some(parent), kind, location },
        _ => arbitrary(),
    }
}

/// Where the builder stands after some prefix of the body.
pub struct BuildState {
    pub tree: ScopeTreeView,
    /// The innermost open scope.
    pub current: usize,
    /// False once an `Exit` had no open block to close.
    pub ok: bool,
}

/// The builder's state before the first statement: the function's scope
/// alone, owning the parameters.
pub open spec fn build_start(f: FunctionAst) -> BuildState {
    BuildState {
        tree: ScopeTreeView {
            scopes: seq![Scope { parent: None, kind: ScopeKind::Function, location: f.location }],
            bindings: f.params@.map_values(|p: Param| param_binding(p)),
            stmt_scopes: Seq::empty(),
        },
        current: 0,
        ok: true,
    }
}

/// The effect of statement `k` on the builder's state. Every statement is
/// recorded as standing in the scope that is current when it is reached. A
/// declaration adds a binding to that scope, `Enter` opens a child of it, and
/// `Exit` returns to its parent.
pub open spec fn build_step(s: BuildState, stmt: Stmt, k: int) -> BuildState {
    let recorded = ScopeTreeView { stmt_scopes: s.tree.stmt_scopes.push(s.current), ..s.tree };
    if !s.ok {
        s
    } else {
        match stmt {
            Stmt::Let { name, ty, init, location } => BuildState {
                tree: ScopeTreeView {
                    bindings: recorded.bindings.push(local_binding(stmt, s.current, k)),
                    ..recorded
                },
                ..s
            },
            Stmt::Enter { kind, location } => BuildState {
                tree: ScopeTreeView {
                    scopes: recorded.scopes.push(child_scope(stmt, s.current)),
                    ..recorded
                },
                current: s.tree.scopes.len() as usize,
                ok: true,
            },
            Stmt::Exit => match s.tree.scopes[s.current as int].parent {
                Some(p) => BuildState { tree: recorded, current: p, ok: true },
                None => BuildState { ok: false, ..s },
            },
            _ => BuildState { tree: recorded, ..s },
        }
    }
}

/// The builder's state after the first `k` statements of `f`.
pub open spec fn build_state(f: FunctionAst, k: int) -> BuildState
    decreases k,
{
    if k <= 0 {
        build_start(f)
    } else {
        build_step(build_state(f, k - 1), f.body@[k - 1], k - 1)
    }
}

/// Every `Exit` closes a block that an earlier `Enter` opened, and no block
/// is left open at the end of the body.
pub open spec fn balanced(f: FunctionAst) -> bool {
    let end = build_state(f, f.body@.len() as int);
    end.ok && end.current == 0
}

/// The scope tree of a function with balanced blocks.
pub open spec fn tree_of(f: FunctionAst) -> ScopeTreeView {
    build_state(f, f.body@.len() as int).tree
}

/// While the builder has not failed, its tree is well formed, it has
/// recorded one scope for each statement seen, and its current scope exists.
pub proof fn lemma_build_state_wf(f: FunctionAst, k: int)
    requires
        0 <= k <= f.body@.len(),
        build_state(f, k).ok,
    ensures
        build_state(f, k).tree.wf(),
        build_state(f, k).tree.covers(f.body@.take(k)),
        build_state(f, k).current < build_state(f, k).tree.scopes.len(),
        k > 0 ==> build_state(f, k - 1).ok,
    decreases k,
{
    if k > 0 {
        let prev = build_state(f, k - 1);
        if !prev.ok {
            assert(build_state(f, k) == prev);
        }
        lemma_build_state_wf(f, k - 1);
        let next = build_state(f, k);
        assert(next == build_step(prev, f.body@[k - 1], k - 1));
        assert(prev.tree.covers(f.body@.take(k - 1)));
        assert(f.body@.take(k).len() == k);
        assert(f.body@.take(k - 1).len() == k - 1);
        assert forall|j: int| 0 <= j < next.tree.stmt_scopes.len() implies (
        #[trigger] next.tree.stmt_scopes[j]) < next.tree.scopes.len() by {
            if j < k - 1 {
                assert(next.tree.stmt_scopes[j] == prev.tree.stmt_scopes[j]);
            }
        }
        assert forall|j: int| 1 <= j < next.tree.scopes.len() implies (
        #[trigger] next.tree.scopes[j]).parent is Some && next.tree.scopes[j].parent->0 < j by {
            if j < prev.tree.scopes.len() {
                assert(next.tree.scopes[j] == prev.tree.scopes[j]);
            }
        }
        assert forall|b: int| 0 <= b < next.tree.bindings.len() implies (
        #[trigger] next.tree.bindings[b]).scope < next.tree.scopes.len() by {
            if b < prev.tree.bindings.len() {
                assert(next.tree.bindings[b] == prev.tree.bindings[b]);
            }
        }
        if f.body@[k - 1] is Exit {
            assert(prev.tree.scopes[prev.current as int].parent is Some);
            assert(prev.current >= 1);
        }
    } else {
        assert(f.body@.take(0).len() == 0);
    }
}

/// The statements of a body can be counted in a `usize`.
pub proof fn lemma_body_is_countable(f: FunctionAst)
    ensures
        f.body@.len() <= usize::MAX,
{
    assert(f.body.len() == f.body@.len());
}

/// Once the builder has failed it stays failed.
pub proof fn lemma_failure_is_final(f: FunctionAst, k: int, n: int)
    requires
        0 <= k <= n,
        !build_state(f, k).ok,
    ensures
        !build_state(f, n).ok,
    decreases n - k,
{
    if k < n {
        lemma_failure_is_final(f, k, n - 1);
    }
}

/// What [`ScopeTreeView::resolve`] finds is a visible binding of the given
/// name, and no binding created after it is one.
pub proof fn lemma_resolve_among(t: ScopeTreeView, name: Seq<char>, s: int, now: int, n: int)
    requires
        0 <= n <= t.bindings.len(),
    ensures
        match t.resolve_among(name, s, now, n) {
            Some(b) => 0 <= b < n && t.bindings[b].name@ == name && t.visible(b, s, now)
                && forall|c: int|
                b < c < n ==> !(#[trigger] t.bindings[c].name@ == name && t.visible(c, s, now)),
            None => forall|c: int|
                0 <= c < n ==> !(#[trigger] t.bindings[c].name@ == name && t.visible(c, s, now)),
        },
    decreases n,
{
    if n > 0 {
        lemma_resolve_among(t, name, s, now, n - 1);
    }
}

impl ScopeTree {
    /// Decides whether scope `a` outlives scope `b`.
    pub fn outlives(&self, a: usize, b: usize) -> (r: bool)
        ensures
            r == self@.outlives(a as int, b as int),
    {
        let mut cur = b;
        loop
            invariant
                self@.outlives(a as int, b as int) == self@.outlives(a as int, cur as int),
            decreases cur,
        {
            if cur == a {
                return true;
            }
            if cur >= self.scopes.len() {
                return false;
            }
            match self.scopes[cur].parent {
                Some(p) => {
                    if p < cur {
                        cur = p;
                    } else {
                        return false;
                    }
                },
                None => {
                    return false;
                },
            }
        }
    }

    /// Checks that the arena is a tree and that every binding names a scope
    /// of it.
    pub fn is_well_formed(&self) -> (r: bool)
        ensures
            r == self@.wf(),
    {
        if self.scopes.len() == 0 {
            return false;
        }
        if self.scopes[0].parent.is_some() {
            return false;
        }
        let mut j: usize = 1;
        while j < self.scopes.len()
            invariant
                1 <= j <= self.scopes.len(),
                forall|i: int|
                    1 <= i < j ==> (#[trigger] self@.scopes[i]).parent is Some
                        && self@.scopes[i].parent->0 < i,
            decreases self.scopes.len() - j,
        {
            match self.scopes[j].parent {
                Some(p) => {
                    if p >= j {
                        return false;
                    }
                },
                None => {
                    return false;
                },
            }
            j = j + 1;
        }
        let mut b: usize = 0;
        while b < self.bindings.len()
            invariant
                b <= self.bindings.len(),
                forall|i: int|
                    0 <= i < b ==> (#[trigger] self@.bindings[i]).scope < self@.scopes.len(),
            decreases self.bindings.len() - b,
        {
            if self.bindings[b].scope >= self.scopes.len() {
                return false;
            }
            b = b + 1;
        }
        true
    }

    /// Checks that the tree records an existing scope for each statement of
    /// `body`.
    pub fn covers(&self, body: &Vec<Stmt>) -> (r: bool)
        ensures
            r == self@.covers(body@),
    {
        if self.stmt_scopes.len() != body.len() {
            return false;
        }
        let mut k: usize = 0;
        while k < self.stmt_scopes.len()
            invariant
                k <= self.stmt_scopes.len(),
                forall|i: int|
                    0 <= i < k ==> (#[trigger] self@.stmt_scopes[i]) < self@.scopes.len(),
            decreases self.stmt_scopes.len() - k,
        {
            if self.stmt_scopes[k] >= self.scopes.len() {
                return false;
            }
            k = k + 1;
        }
        true
    }

    /// Looks `name` up as seen from scope `s` at statement `now`.
    pub fn resolve(&self, name: &String, s: usize, now: usize) -> (r: Option<usize>)
        ensures
            match r {
                Some(b) => b < self.bindings.len() && self@.resolve(name@, s as int, now as int)
                    == Some(b as int),
                None => self@.resolve(name@, s as int, now as int) is None,
            },
    {
        let mut n = self.bindings.len();
        while n > 0
            invariant
                n <= self.bindings.len(),
                self@.resolve(name@, s as int, now as int) == self@.resolve_among(
                    name@,
                    s as int,
                    now as int,
                    n as int,
                ),
            decreases n,
        {
            let b = &self.bindings[n - 1];
            if b.name == *name && b.order <= now && self.outlives(b.scope, s) {
                return Some(n - 1);
            }
            n = n - 1;
        }
        None
    }
}

/// Builds the scope tree of `f`.
///
/// Fails exactly when the blocks of the body are not balanced.
pub fn build_scope_tree(f: &FunctionAst) -> (r: Result<ScopeTree, AnalysisError>)
    ensures
        r is Ok <==> balanced(*f),
        r matches Ok(t) ==> t@ == tree_of(*f) && t@.wf() && t@.covers(f.body@),
        r matches Err(e) ==> e == AnalysisError::MalformedInput,
{
    let mut scopes: Vec<Scope> = Vec::new();
    scopes.push(Scope { parent: None, kind: ScopeKind::Function, location: f.location });
    let mut bindings: Vec<Binding> = Vec::new();
    let mut i: usize = 0;
    while i < f.params.len()
        invariant
            i <= f.params.len(),
            bindings@.len() == i,
            forall|j: int| 0 <= j < i ==> bindings@[j] == param_binding(f.params@[j]),
        decreases f.params.len() - i,
    {
        let p = &f.params[i];
        bindings.push(
            Binding {
                name: p.name.clone(),
                scope: 0,
                ty: p.ty,
                kind: BindingKind::Parameter,
                order: 0,
                location: p.location,
            },
        );
        i = i + 1;
    }
    let mut stmt_scopes: Vec<usize> = Vec::new();
    let mut current: usize = 0;
    let mut k: usize = 0;
    assert(bindings@ =~= build_start(*f).tree.bindings);
    assert(scopes@ =~= build_start(*f).tree.scopes);
    while k < f.body.len()
        invariant
            k <= f.body.len(),
            build_state(*f, k as int).ok,
            build_state(*f, k as int).tree.scopes == scopes@,
            build_state(*f, k as int).tree.bindings == bindings@,
            build_state(*f, k as int).tree.stmt_scopes == stmt_scopes@,
            build_state(*f, k as int).current == current,
        decreases f.body.len() - k,
    {
        proof {
            lemma_build_state_wf(*f, k as int);
        }
        let ghost prev = build_state(*f, k as int);
        let here = current;
        assert(build_state(*f, k + 1) == build_step(prev, f.body@[k as int], k as int));
        match &f.body[k] {
            Stmt::Let { name, ty, init, location } => {
                bindings.push(
                    Binding {
                        name: name.clone(),
                        scope: current,
                        ty: *ty,
                        kind: BindingKind::Local,
                        order: k + 1,
                        location: *location,
                    },
                );
            },
            Stmt::Enter { kind, location } => {
                let id = scopes.len();
                scopes.push(Scope { parent: Some(current), kind: *kind, location: *location });
                current = id;
            },
            Stmt::Exit => {
                match scopes[current].parent {
                    Some(p) => {
                        current = p;
                    },
                    None => {
                        proof {
                            lemma_failure_is_final(*f, k + 1, f.body@.len() as int);
                        }
                        return Err(AnalysisError::MalformedInput);
                    },
                }
            },
            _ => {},
        }
        stmt_scopes.push(here);
        k = k + 1;
    }
    if current != 0 {
        return Err(AnalysisError::MalformedInput);
    }
    let tree = ScopeTree { scopes, bindings, stmt_scopes };
    proof {
        lemma_build_state_wf(*f, k as int);
        assert(f.body@.take(k as int) =~= f.body@);
        assert(tree@.scopes == tree_of(*f).scopes);
    }
    Ok(tree)
}

/// Binding `b` of the tree records the declaration at statement `j`.
pub open spec fn records_declaration(t: ScopeTreeView, body: Seq<Stmt>, b: int, j: int) -> bool {
    &&& 0 <= b < t.bindings.len()
    &&& 0 <= j < body.len()
    &&& j < t.stmt_scopes.len()
    &&& body[j] is Let
    &&& t.bindings[b] == local_binding(body[j], t.stmt_scopes[j], j)
}

/// Scope `c` of the tree records the block that statement `j` opens.
pub open spec fn records_block(t: ScopeTreeView, body: Seq<Stmt>, c: int, j: int) -> bool {
    &&& 1 <= c < t.scopes.len()
    &&& 0 <= j < body.len()
    &&& j < t.stmt_scopes.len()
    &&& body[j] is Enter
    &&& t.scopes[c] == child_scope(body[j], t.stmt_scopes[j])
}

/// What the builder has recorded after `k` statements: the parameters come
/// first, as bindings of the function's own scope; then each declaration
/// seen so far has its binding, in the scope that the declaration stands in;
/// there are no other bindings, and they are in creation order. Likewise
/// each block opened so far has its scope, a child of the scope that the
/// `Enter` stands in, and there are no other scopes but the function's own.
pub proof fn lemma_build_state_records(f: FunctionAst, k: int)
    requires
        0 <= k <= f.body@.len(),
        build_state(f, k).ok,
    ensures
        ({
            let t = build_state(f, k).tree;
            let n = f.params@.len();
            &&& t.stmt_scopes.len() == k
            &&& t.scopes[0] == Scope { parent: None, kind: ScopeKind::Function, location: f.location }
            &&& n <= t.bindings.len()
            &&& forall|i: int| 0 <= i < n ==> #[trigger] t.bindings[i] == param_binding(f.params@[i])
            &&& forall|b: int|
                n <= b < t.bindings.len() ==> 1 <= (#[trigger] t.bindings[b]).order <= k
                    && records_declaration(t, f.body@, b, t.bindings[b].order - 1)
            &&& forall|j: int|
                0 <= j < k && #[trigger] f.body@[j] is Let ==> exists|b: int|
                    n <= b && #[trigger] records_declaration(t, f.body@, b, j)
            &&& forall|a: int, b: int|
                0 <= a <= b < t.bindings.len() ==> (#[trigger] t.bindings[a]).order <= (
                #[trigger] t.bindings[b]).order
            &&& forall|c: int|
                1 <= c < t.scopes.len() ==> (#[trigger] t.scopes[c]).parent is Some && exists|
                    j: int,
                | 0 <= j < k && #[trigger] records_block(t, f.body@, c, j)
            &&& forall|j: int|
                0 <= j < k && #[trigger] f.body@[j] is Enter ==> exists|c: int| #[trigger]
                    records_block(t, f.body@, c, j)
        }),
    decreases k,
{
    let n = f.params@.len();
    lemma_body_is_countable(f);
    if k > 0 {
        lemma_build_state_wf(f, k);
        lemma_build_state_records(f, k - 1);
        let prev = build_state(f, k - 1).tree;
        let t = build_state(f, k).tree;
        let stmt = f.body@[k - 1];
        assert(build_state(f, k) == build_step(build_state(f, k - 1), stmt, k - 1));
        assert forall|b: int| n <= b < t.bindings.len() implies 1 <= (#[trigger] t.bindings[
            b
        ]).order <= k && records_declaration(t, f.body@, b, t.bindings[b].order - 1) by {
            if b < prev.bindings.len() {
                assert(t.bindings[b] == prev.bindings[b]);
                assert(records_declaration(prev, f.body@, b, prev.bindings[b].order - 1));
            }
        }
        assert forall|j: int| 0 <= j < k && #[trigger] f.body@[j] is Let implies exists|b: int|
            n <= b && #[trigger] records_declaration(t, f.body@, b, j) by {
            if j < k - 1 {
                let b = choose|b: int| n <= b && #[trigger] records_declaration(prev, f.body@, b, j);
                assert(t.bindings[b] == prev.bindings[b]);
                assert(records_declaration(t, f.body@, b, j));
            } else {
                assert(records_declaration(t, f.body@, prev.bindings.len() as int, j));
            }
        }
        assert forall|a: int, b: int| 0 <= a <= b < t.bindings.len() implies (
        #[trigger] t.bindings[a]).order <= (#[trigger] t.bindings[b]).order by {
            if b < prev.bindings.len() {
                assert(t.bindings[a] == prev.bindings[a]);
                assert(t.bindings[b] == prev.bindings[b]);
            } else if a < prev.bindings.len() {
                assert(t.bindings[a] == prev.bindings[a]);
                if a >= n {
                    assert(prev.bindings[a].order <= k - 1);
                }
            }
        }
        assert forall|c: int| 1 <= c < t.scopes.len() implies (#[trigger] t.scopes[c]).parent
            is Some && exists|j: int| 0 <= j < k && #[trigger] records_block(t, f.body@, c, j) by {
            if c < prev.scopes.len() {
                let j = choose|j: int| 0 <= j < k - 1 && #[trigger] records_block(prev, f.body@, c, j);
                assert(t.scopes[c] == prev.scopes[c]);
                assert(records_block(t, f.body@, c, j));
            } else {
                assert(records_block(t, f.body@, c, k - 1));
            }
        }
        assert forall|j: int| 0 <= j < k && #[trigger] f.body@[j] is Enter implies exists|c: int|
         #[trigger] records_block(t, f.body@, c, j) by {
            if j < k - 1 {
                let c = choose|c: int| #[trigger] records_block(prev, f.body@, c, j);
                assert(t.scopes[c] == prev.scopes[c]);
                assert(records_block(t, f.body@, c, j));
            } else {
                assert(records_block(t, f.body@, prev.scopes.len() as int, j));
            }
        }
    }
}

/// How many blocks are open before statement `k`: the number of `Enter`s
/// less the number of `Exit`s among the first `k` statements.
pub open spec fn nesting(body: Seq<Stmt>, k: int) -> int
    decreases k,
{
    if k <= 0 {
        0
    } else {
        nesting(body, k - 1) + match body[k - 1] {
            Stmt::Enter { .. } => 1int,
            Stmt::Exit => -1int,
            _ => 0int,
        }
    }
}

/// The depth of a scope does not change when scopes are added to the arena.
proof fn lemma_depth_extends(t: ScopeTreeView, u: ScopeTreeView, s: int)
    requires
        t.scopes.len() <= u.scopes.len(),
        forall|i: int| 0 <= i < t.scopes.len() ==> #[trigger] u.scopes[i] == t.scopes[i],
        0 <= s < t.scopes.len(),
    ensures
        u.depth(s) == t.depth(s),
    decreases s,
{
    if 0 < s && t.scopes[s].parent is Some && t.scopes[s].parent->0 < s {
        lemma_depth_extends(t, u, t.scopes[s].parent->0 as int);
    }
}

/// The builder has not failed after `k` statements exactly if no `Exit`
/// among them came with no block open. Its current scope is then as deep as
/// there are blocks open.
pub proof fn lemma_build_state_nesting(f: FunctionAst, k: int)
    requires
        0 <= k <= f.body@.len(),
    ensures
        build_state(f, k).ok <==> forall|j: int| 0 <= j <= k ==> #[trigger] nesting(f.body@, j) >= 0,
        build_state(f, k).ok ==> build_state(f, k).tree.depth(build_state(f, k).current as int)
            == nesting(f.body@, k),
        1 <= build_state(f, k).tree.scopes.len() <= k + 1,
    decreases k,
{
    lemma_body_is_countable(f);
    if k > 0 {
        lemma_build_state_nesting(f, k - 1);
        let prev = build_state(f, k - 1);
        let next = build_state(f, k);
        let stmt = f.body@[k - 1];
        assert(next == build_step(prev, stmt, k - 1));
        if prev.ok {
            lemma_build_state_wf(f, k - 1);
            let here = prev.current as int;
            match stmt {
                Stmt::Enter { .. } => {
                    let opened = prev.tree.scopes.len() as int;
                    lemma_depth_extends(prev.tree, next.tree, here);
                    assert(next.current == opened);
                    assert(next.tree.scopes[opened].parent == Some(prev.current));
                    assert(next.tree.depth(opened) == 1 + next.tree.depth(here));
                },
                Stmt::Exit => {
                    if here > 0 {
                        assert(prev.tree.scopes[here].parent is Some);
                        let back = prev.tree.scopes[here].parent->0 as int;
                        assert(next.current == back);
                        assert(prev.tree.depth(here) == 1 + prev.tree.depth(back));
                        lemma_depth_extends(prev.tree, next.tree, back);
                    } else {
                        assert(prev.tree.depth(0) == 0);
                        assert(nesting(f.body@, k) < 0);
                    }
                },
                _ => {
                    lemma_depth_extends(prev.tree, next.tree, here);
                },
            }
            if next.ok {
                assert forall|j: int| 0 <= j <= k implies #[trigger] nesting(f.body@, j) >= 0 by {
                    if j == k {
                        assert(next.tree.depth(next.current as int) == nesting(f.body@, k));
                    }
                }
            }
        } else {
            assert(!next.ok);
        }
    } else {
        assert(nesting(f.body@, 0) == 0);
    }
}

/// The blocks of a function are balanced exactly if, going through the
/// body, there are never more `Exit`s than `Enter`s, and as many in the end.
pub proof fn lemma_balanced_is_nesting(f: FunctionAst)
    ensures
        balanced(f) <==> nesting(f.body@, f.body@.len() as int) == 0 && forall|j: int|
            0 <= j <= f.body@.len() ==> #[trigger] nesting(f.body@, j) >= 0,
{
    let n = f.body@.len() as int;
    lemma_build_state_nesting(f, n);
    if build_state(f, n).ok {
        lemma_build_state_wf(f, n);
    }
}

} // verus!
