//! What holds of every analysis: the order on scopes, what having an
//! offender means, and which functions are accepted and which are rejected.
use vstd::prelude::*;
use crate::analysis::{findings_of, well_formed};
use crate::ast::{Expr, FunctionAst, Stmt, Type};
use crate::escape::{EscapeKind, Finding, Marks, Region};
use crate::report::Verdict;
use crate::scope::{lemma_resolve_among, tree_of, ScopeTreeView};

verus! {

/// Every scope outlives itself.
pub proof fn lemma_outlives_reflexive(t: ScopeTreeView, s: int)
    ensures
        t.outlives(s, s),
{
}

/// A scope that outlives another comes no later in the arena, so two
/// scopes that outlive each other are one scope.
pub proof fn lemma_outlives_antisymmetric(t: ScopeTreeView, a: int, b: int)
    requires
        t.outlives(a, b),
    ensures
        a <= b,
        t.outlives(b, a) ==> a == b,
    decreases b,
{
    if a != b {
        lemma_outlives_antisymmetric(t, a, t.scopes[b].parent->0 as int);
        if t.outlives(b, a) {
            lemma_outlives_antisymmetric(t, b, a);
        }
    }
}

/// If `a` outlives `b` and `b` outlives `c`, then `a` outlives `c`.
pub proof fn lemma_outlives_transitive(t: ScopeTreeView, a: int, b: int, c: int)
    requires
        t.outlives(a, b),
        t.outlives(b, c),
    ensures
        t.outlives(a, c),
    decreases c,
{
    if b != c {
        lemma_outlives_transitive(t, a, b, t.scopes[c].parent->0 as int);
    }
}

/// In a well-formed tree the function's own scope outlives every scope.
pub proof fn lemma_root_outlives_all(t: ScopeTreeView, s: int)
    requires
        t.wf(),
        0 <= s < t.scopes.len(),
    ensures
        t.outlives(0, s),
    decreases s,
{
    if s != 0 {
        lemma_root_outlives_all(t, t.scopes[s].parent->0 as int);
    }
}

/// The caller's region outlives every target, and no scope of the function
/// outlives the caller's region.
pub proof fn lemma_caller_region(t: ScopeTreeView, target: Region, s: usize)
    ensures
        t.region_outlives(Region::Caller, target),
        !t.region_outlives(Region::Scope(s), Region::Caller),
{
}

/// The value of `e`, evaluated in scope `s` at statement `now`, or, if
/// `behind` is set, what lies behind it, does no harm in `target`, as long
/// as what `keep` holds does none. Every address in it is of a binding whose
/// scope outlives `target`. Every reference binding that it reads is in
/// `keep`, paired with `behind`. Every reference binding that it looks
/// behind the address of is in `keep`, paired with `false`.
pub open spec fn harmless(
    t: ScopeTreeView,
    e: Expr,
    s: int,
    now: int,
    target: Region,
    behind: bool,
    keep: Set<(int, bool)>,
) -> bool
    decreases e,
{
    match e {
        Expr::AddrOf(name) => t.resolve(name@, s, now) matches Some(b) ==> if behind {
            t.bindings[b].ty == Type::Reference ==> keep.contains((b, false))
        } else {
            t.region_outlives(Region::Scope(t.bindings[b].scope), target)
        },
        Expr::Var(name) => t.resolve(name@, s, now) matches Some(b) ==> t.bindings[b].ty
            == Type::Reference ==> keep.contains((b, behind)),
        Expr::Deref(inner) => harmless(t, *inner, s, now, target, true, keep),
        Expr::Call { callee, args } => forall|i: int|
            0 <= i < args.len() ==> harmless(t, #[trigger] args[i], s, now, target, false, keep),
        _ => true,
    }
}

/// Nothing harmful gets into `keep`: for a binding paired with `false`,
/// whatever any statement puts into it is harmless in `target`; for one
/// paired with `true`, what lies behind that is.
pub open spec fn closed(
    t: ScopeTreeView,
    body: Seq<Stmt>,
    target: Region,
    keep: Set<(int, bool)>,
) -> bool {
    forall|b: int, behind: bool, k: int|
        #![trigger keep.contains((b, behind)), t.source_of(body, k, b)]
        keep.contains((b, behind)) && 0 <= k < body.len() ==> (t.source_of(body, k, b)
            matches Some(e) ==> harmless(t, e, t.stmt_scopes[k] as int, k, target, behind, keep))
}

/// Following a harmless value finds nothing, whatever was followed before.
proof fn lemma_harmless_trace(
    t: ScopeTreeView,
    body: Seq<Stmt>,
    e: Expr,
    s: int,
    now: int,
    target: Region,
    behind: bool,
    keep: Set<(int, bool)>,
    seen: Marks,
    fuel: nat,
)
    requires
        closed(t, body, target, keep),
        harmless(t, e, s, now, target, behind, keep),
    ensures
        t.trace(body, e, s, now, target, behind, seen, fuel).0 is None,
    decreases fuel, 1int, 0int, e, 0int,
{
    match e {
        Expr::AddrOf(name) => {
            if let Some(b) = t.resolve(name@, s, now) {
                if behind {
                    lemma_harmless_follow(t, body, b, target, false, keep, seen, fuel);
                }
            }
        },
        Expr::Var(name) => {
            if let Some(b) = t.resolve(name@, s, now) {
                lemma_harmless_follow(t, body, b, target, behind, keep, seen, fuel);
            }
        },
        Expr::Deref(inner) => {
            lemma_harmless_trace(t, body, *inner, s, now, target, true, keep, seen, fuel);
        },
        Expr::Call { callee, args } => {
            lemma_harmless_args(t, body, args, 0, s, now, target, keep, seen, fuel);
        },
        _ => {},
    }
}

/// The same for what a binding in `keep` holds.
proof fn lemma_harmless_follow(
    t: ScopeTreeView,
    body: Seq<Stmt>,
    b: int,
    target: Region,
    behind: bool,
    keep: Set<(int, bool)>,
    seen: Marks,
    fuel: nat,
)
    requires
        closed(t, body, target, keep),
        t.bindings[b].ty == Type::Reference ==> keep.contains((b, behind)),
    ensures
        t.follow(body, b, target, behind, seen, fuel).0 is None,
    decreases fuel, 0int,
{
    if 0 <= b < t.bindings.len() && t.bindings[b].ty == Type::Reference && fuel > 0 && seen.fits(
        t.bindings.len(),
    ) && !seen.has(b, behind) {
        lemma_harmless_sources(
            t,
            body,
            b,
            0,
            target,
            behind,
            keep,
            seen.with(b, behind),
            (fuel - 1) as nat,
        );
    }
}

/// The same for the arguments of a call, from the `i`-th on.
proof fn lemma_harmless_args(
    t: ScopeTreeView,
    body: Seq<Stmt>,
    args: Vec<Expr>,
    i: int,
    s: int,
    now: int,
    target: Region,
    keep: Set<(int, bool)>,
    seen: Marks,
    fuel: nat,
)
    requires
        closed(t, body, target, keep),
        0 <= i <= args.len(),
        forall|j: int|
            0 <= j < args.len() ==> harmless(t, #[trigger] args[j], s, now, target, false, keep),
    ensures
        t.trace_args(body, args, i, s, now, target, seen, fuel).0 is None,
    decreases fuel, 1int, 0int, args, args.len() - i,
{
    if i < args.len() {
        lemma_harmless_trace(t, body, args[i], s, now, target, false, keep, seen, fuel);
        let first = t.trace(body, args[i], s, now, target, false, seen, fuel);
        lemma_harmless_args(t, body, args, i + 1, s, now, target, keep, first.1, fuel);
    }
}

/// The same for what the statements from the `k`-th on put into a binding
/// in `keep`.
proof fn lemma_harmless_sources(
    t: ScopeTreeView,
    body: Seq<Stmt>,
    b: int,
    k: int,
    target: Region,
    behind: bool,
    keep: Set<(int, bool)>,
    seen: Marks,
    fuel: nat,
)
    requires
        closed(t, body, target, keep),
        keep.contains((b, behind)),
        0 <= k <= body.len(),
    ensures
        t.trace_sources(body, b, k, target, behind, seen, fuel).0 is None,
    decreases fuel, 2int, body.len() - k,
{
    if k < body.len() {
        match t.source_of(body, k, b) {
            Some(e) => {
                let s = t.stmt_scopes[k] as int;
                lemma_harmless_trace(t, body, e, s, k, target, behind, keep, seen, fuel);
                let first = t.trace(body, e, s, k, target, behind, seen, fuel);
                lemma_harmless_sources(t, body, b, k + 1, target, behind, keep, first.1, fuel);
            },
            None => {
                lemma_harmless_sources(t, body, b, k + 1, target, behind, keep, seen, fuel);
            },
        }
    }
}

/// A value is safe to hand to `target` if it is harmless there with respect
/// to a set into which nothing harmful gets: if every reference that it may
/// carry leads back, through declarations, stores and dereferences, to
/// addresses of bindings that outlive `target`, to what the caller passed
/// in, or to nothing at all.
pub proof fn lemma_harmless_has_no_offender(
    t: ScopeTreeView,
    body: Seq<Stmt>,
    e: Expr,
    s: int,
    now: int,
    target: Region,
    keep: Set<(int, bool)>,
)
    requires
        closed(t, body, target, keep),
        harmless(t, e, s, now, target, false, keep),
    ensures
        t.offender(body, e, s, now, target) is None,
{
    lemma_harmless_trace(
        t,
        body,
        e,
        s,
        now,
        target,
        false,
        keep,
        t.unseen(),
        2 * t.bindings.len(),
    );
}

/// A value that is harmless with respect to some set is harmless with
/// respect to a larger one.
proof fn lemma_harmless_grows(
    t: ScopeTreeView,
    e: Expr,
    s: int,
    now: int,
    target: Region,
    behind: bool,
    keep: Set<(int, bool)>,
    more: Set<(int, bool)>,
)
    requires
        harmless(t, e, s, now, target, behind, keep),
        keep.subset_of(more),
    ensures
        harmless(t, e, s, now, target, behind, more),
    decreases e,
{
    match e {
        Expr::Deref(inner) => {
            lemma_harmless_grows(t, *inner, s, now, target, true, keep, more);
        },
        Expr::Call { callee, args } => {
            assert forall|i: int| 0 <= i < args.len() implies harmless(
                t,
                #[trigger] args[i],
                s,
                now,
                target,
                false,
                more,
            ) by {
                lemma_harmless_grows(t, args[i], s, now, target, false, keep, more);
            }
        },
        _ => {},
    }
}

/// What `seen` marks: each binding paired with the mark that is set.
pub open spec fn marked(seen: Marks) -> Set<(int, bool)> {
    Set::new(
        |p: (int, bool)|
            0 <= p.0 && if p.1 {
                p.0 < seen.behind.len() && seen.behind[p.0]
            } else {
                p.0 < seen.plain.len() && seen.plain[p.0]
            },
    )
}

/// How many of the first `n` marks are not set.
pub open spec fn unset(marks: Seq<bool>, n: int) -> nat
    decreases n,
{
    if n <= 0 {
        0
    } else if marks[n - 1] {
        unset(marks, n - 1)
    } else {
        unset(marks, n - 1) + 1
    }
}

/// How many marks of `seen` are not set.
pub open spec fn unmarked(seen: Marks) -> nat {
    unset(seen.plain, seen.plain.len() as int) + unset(seen.behind, seen.behind.len() as int)
}

/// Every mark that is set in `before` is set in `after`.
pub open spec fn grown_in(before: Seq<bool>, after: Seq<bool>) -> bool {
    before.len() == after.len() && forall|b: int|
        0 <= b < before.len() && #[trigger] before[b] ==> after[b]
}

/// `after` marks all that `before` marks.
pub open spec fn grown(before: Marks, after: Marks) -> bool {
    grown_in(before.plain, after.plain) && grown_in(before.behind, after.behind)
}

/// More marks set leave fewer unset.
proof fn lemma_unset_shrinks(before: Seq<bool>, after: Seq<bool>, n: int)
    requires
        grown_in(before, after),
        0 <= n <= before.len(),
    ensures
        unset(after, n) <= unset(before, n) <= n,
    decreases n,
{
    if n > 0 {
        lemma_unset_shrinks(before, after, n - 1);
        if before[n - 1] {
            assert(after[n - 1]);
        }
    }
}

/// Setting a mark leaves one fewer unset.
proof fn lemma_unset_after_mark(marks: Seq<bool>, b: int, n: int)
    requires
        0 <= b < marks.len(),
        !marks[b],
        0 <= n <= marks.len(),
    ensures
        unset(marks.update(b, true), n) + (if b < n {
            1int
        } else {
            0int
        }) == unset(marks, n),
    decreases n,
{
    if n > 0 {
        lemma_unset_after_mark(marks, b, n - 1);
    }
}

/// More marked leaves fewer unmarked.
proof fn lemma_unmarked_shrinks(before: Marks, after: Marks)
    requires
        grown(before, after),
    ensures
        unmarked(after) <= unmarked(before) <= before.plain.len() + before.behind.len(),
{
    lemma_unset_shrinks(before.plain, after.plain, before.plain.len() as int);
    lemma_unset_shrinks(before.behind, after.behind, before.behind.len() as int);
}

/// Whatever any statement puts into a binding that `after` marks and
/// `before` does not is harmless in `target`, as long as what `after` marks
/// is.
pub open spec fn settled(
    t: ScopeTreeView,
    body: Seq<Stmt>,
    target: Region,
    before: Marks,
    after: Marks,
) -> bool {
    forall|b: int, behind: bool, k: int|
        #![trigger after.has(b, behind), t.source_of(body, k, b)]
        0 <= b < t.bindings.len() && after.has(b, behind) && !before.has(b, behind) && 0 <= k
            < body.len() ==> (t.source_of(body, k, b) matches Some(e) ==> harmless(
            t,
            e,
            t.stmt_scopes[k] as int,
            k,
            target,
            behind,
            marked(after),
        ))
}

/// What was settled in one step and what was settled in the next was
/// settled in the two together.
proof fn lemma_settled_in_turn(
    t: ScopeTreeView,
    body: Seq<Stmt>,
    target: Region,
    before: Marks,
    between: Marks,
    after: Marks,
)
    requires
        before.fits(t.bindings.len()),
        grown(before, between),
        grown(between, after),
        settled(t, body, target, before, between),
        settled(t, body, target, between, after),
    ensures
        grown(before, after),
        settled(t, body, target, before, after),
        marked(between).subset_of(marked(after)),
{
    assert forall|b: int| 0 <= b < before.plain.len() && #[trigger] before.plain[b] implies
        after.plain[b] by {
        assert(between.plain[b]);
    }
    assert forall|b: int| 0 <= b < before.behind.len() && #[trigger] before.behind[b] implies
        after.behind[b] by {
        assert(between.behind[b]);
    }
    assert forall|p: (int, bool)| marked(between).contains(p) implies marked(after).contains(p) by {
        if p.1 {
            assert(between.behind[p.0]);
        } else {
            assert(between.plain[p.0]);
        }
    }
    assert forall|b: int, behind: bool, k: int|
        #![trigger after.has(b, behind), t.source_of(body, k, b)]
        0 <= b < t.bindings.len() && after.has(b, behind) && !before.has(b, behind) && 0 <= k
            < body.len() implies (t.source_of(body, k, b) matches Some(e) ==> harmless(
        t,
        e,
        t.stmt_scopes[k] as int,
        k,
        target,
        behind,
        marked(after),
    )) by {
        if let Some(e) = t.source_of(body, k, b) {
            if between.has(b, behind) {
                lemma_harmless_grows(
                    t,
                    e,
                    t.stmt_scopes[k] as int,
                    k,
                    target,
                    behind,
                    marked(between),
                    marked(after),
                );
            }
        }
    }
}

/// Where following a value finds nothing, the value is harmless as long as
/// what is marked by then is, and whatever was marked on the way is settled.
proof fn lemma_trace_settles(
    t: ScopeTreeView,
    body: Seq<Stmt>,
    e: Expr,
    s: int,
    now: int,
    target: Region,
    behind: bool,
    seen: Marks,
    fuel: nat,
)
    requires
        seen.fits(t.bindings.len()),
        fuel >= unmarked(seen),
        t.trace(body, e, s, now, target, behind, seen, fuel).0 is None,
    ensures
        ({
            let after = t.trace(body, e, s, now, target, behind, seen, fuel).1;
            &&& grown(seen, after)
            &&& settled(t, body, target, seen, after)
            &&& harmless(t, e, s, now, target, behind, marked(after))
        }),
    decreases fuel, 1int, 0int, e, 0int,
{
    match e {
        Expr::AddrOf(name) => {
            if let Some(b) = t.resolve(name@, s, now) {
                lemma_resolve_among(t, name@, s, now, t.bindings.len() as int);
                if behind {
                    lemma_follow_settles(t, body, b, target, false, seen, fuel);
                }
            }
        },
        Expr::Var(name) => {
            if let Some(b) = t.resolve(name@, s, now) {
                lemma_resolve_among(t, name@, s, now, t.bindings.len() as int);
                lemma_follow_settles(t, body, b, target, behind, seen, fuel);
            }
        },
        Expr::Deref(inner) => {
            lemma_trace_settles(t, body, *inner, s, now, target, true, seen, fuel);
        },
        Expr::Call { callee, args } => {
            lemma_args_settle(t, body, args, 0, s, now, target, seen, fuel);
        },
        _ => {},
    }
}

/// The same for what a binding holds.
proof fn lemma_follow_settles(
    t: ScopeTreeView,
    body: Seq<Stmt>,
    b: int,
    target: Region,
    behind: bool,
    seen: Marks,
    fuel: nat,
)
    requires
        seen.fits(t.bindings.len()),
        fuel >= unmarked(seen),
        0 <= b < t.bindings.len(),
        t.follow(body, b, target, behind, seen, fuel).0 is None,
    ensures
        ({
            let after = t.follow(body, b, target, behind, seen, fuel).1;
            &&& grown(seen, after)
            &&& settled(t, body, target, seen, after)
            &&& t.bindings[b].ty == Type::Reference ==> marked(after).contains((b, behind))
        }),
    decreases fuel, 0int,
{
    if t.bindings[b].ty == Type::Reference && !seen.has(b, behind) {
        let first = seen.with(b, behind);
        if behind {
            lemma_unset_after_mark(seen.behind, b, seen.behind.len() as int);
        } else {
            lemma_unset_after_mark(seen.plain, b, seen.plain.len() as int);
        }
        assert(fuel > 0);
        lemma_sources_settle(t, body, b, 0, target, behind, first, (fuel - 1) as nat);
        let after = t.trace_sources(body, b, 0, target, behind, first, (fuel - 1) as nat).1;
        assert(first.has(b, behind));
        assert(after.has(b, behind));
        assert forall|c: int| 0 <= c < seen.plain.len() && #[trigger] seen.plain[c] implies
            after.plain[c] by {
            assert(first.plain[c]);
        }
        assert forall|c: int| 0 <= c < seen.behind.len() && #[trigger] seen.behind[c] implies
            after.behind[c] by {
            assert(first.behind[c]);
        }
        assert forall|c: int, deep: bool, k: int|
            #![trigger after.has(c, deep), t.source_of(body, k, c)]
            0 <= c < t.bindings.len() && after.has(c, deep) && !seen.has(c, deep) && 0 <= k
                < body.len() implies (t.source_of(body, k, c) matches Some(e) ==> harmless(
            t,
            e,
            t.stmt_scopes[k] as int,
            k,
            target,
            deep,
            marked(after),
        )) by {
            if !(c == b && deep == behind) {
                assert(!first.has(c, deep));
            }
        }
    }
}

/// The same for the arguments of a call, from the `i`-th on.
proof fn lemma_args_settle(
    t: ScopeTreeView,
    body: Seq<Stmt>,
    args: Vec<Expr>,
    i: int,
    s: int,
    now: int,
    target: Region,
    seen: Marks,
    fuel: nat,
)
    requires
        seen.fits(t.bindings.len()),
        fuel >= unmarked(seen),
        0 <= i <= args.len(),
        t.trace_args(body, args, i, s, now, target, seen, fuel).0 is None,
    ensures
        ({
            let after = t.trace_args(body, args, i, s, now, target, seen, fuel).1;
            &&& grown(seen, after)
            &&& settled(t, body, target, seen, after)
            &&& forall|j: int|
                i <= j < args.len() ==> harmless(
                    t,
                    #[trigger] args[j],
                    s,
                    now,
                    target,
                    false,
                    marked(after),
                )
        }),
    decreases fuel, 1int, 0int, args, args.len() - i,
{
    if i < args.len() {
        let between = t.trace(body, args[i], s, now, target, false, seen, fuel).1;
        lemma_trace_settles(t, body, args[i], s, now, target, false, seen, fuel);
        lemma_unmarked_shrinks(seen, between);
        lemma_args_settle(t, body, args, i + 1, s, now, target, between, fuel);
        let after = t.trace_args(body, args, i + 1, s, now, target, between, fuel).1;
        lemma_settled_in_turn(t, body, target, seen, between, after);
        lemma_harmless_grows(t, args[i], s, now, target, false, marked(between), marked(after));
    }
}

/// The same for what the statements from the `k`-th on put into binding `b`.
proof fn lemma_sources_settle(
    t: ScopeTreeView,
    body: Seq<Stmt>,
    b: int,
    k: int,
    target: Region,
    behind: bool,
    seen: Marks,
    fuel: nat,
)
    requires
        seen.fits(t.bindings.len()),
        fuel >= unmarked(seen),
        0 <= k <= body.len(),
        t.trace_sources(body, b, k, target, behind, seen, fuel).0 is None,
    ensures
        ({
            let after = t.trace_sources(body, b, k, target, behind, seen, fuel).1;
            &&& grown(seen, after)
            &&& settled(t, body, target, seen, after)
            &&& forall|j: int|
                k <= j < body.len() ==> (#[trigger] t.source_of(body, j, b) matches Some(e)
                    ==> harmless(t, e, t.stmt_scopes[j] as int, j, target, behind, marked(after)))
        }),
    decreases fuel, 2int, body.len() - k,
{
    if k < body.len() {
        match t.source_of(body, k, b) {
            Some(e) => {
                let at = t.stmt_scopes[k] as int;
                let between = t.trace(body, e, at, k, target, behind, seen, fuel).1;
                lemma_trace_settles(t, body, e, at, k, target, behind, seen, fuel);
                lemma_unmarked_shrinks(seen, between);
                lemma_sources_settle(t, body, b, k + 1, target, behind, between, fuel);
                let after = t.trace_sources(body, b, k + 1, target, behind, between, fuel).1;
                lemma_settled_in_turn(t, body, target, seen, between, after);
                lemma_harmless_grows(t, e, at, k, target, behind, marked(between), marked(after));
            },
            None => {
                lemma_sources_settle(t, body, b, k + 1, target, behind, seen, fuel);
            },
        }
    }
}

/// No true escape goes unreported: where a value has no offender, there is
/// a set into which nothing harmful gets and with respect to which the
/// value is harmless. Together with [`lemma_harmless_has_no_offender`] this
/// says what having no offender means.
pub proof fn lemma_no_offender_is_harmless(
    t: ScopeTreeView,
    body: Seq<Stmt>,
    e: Expr,
    s: int,
    now: int,
    target: Region,
)
    requires
        t.offender(body, e, s, now, target) is None,
    ensures
        exists|keep: Set<(int, bool)>| #[trigger]
            closed(t, body, target, keep) && harmless(t, e, s, now, target, false, keep),
{
    let fresh = t.unseen();
    let fuel = 2 * t.bindings.len();
    lemma_unmarked_shrinks(fresh, fresh);
    lemma_trace_settles(t, body, e, s, now, target, false, fresh, fuel);
    let after = t.trace(body, e, s, now, target, false, fresh, fuel).1;
    let keep = marked(after);
    assert forall|b: int, behind: bool, k: int|
        #![trigger keep.contains((b, behind)), t.source_of(body, k, b)]
        keep.contains((b, behind)) && 0 <= k < body.len() implies (t.source_of(body, k, b)
        matches Some(e) ==> harmless(t, e, t.stmt_scopes[k] as int, k, target, behind, keep)) by {
        assert(after.has(b, behind));
        assert(!fresh.has(b, behind));
    }
    assert(closed(t, body, target, keep));
}

/// What following a value finds is a binding whose scope does not outlive
/// the target.
proof fn lemma_trace_finds_short_lived(
    t: ScopeTreeView,
    body: Seq<Stmt>,
    e: Expr,
    s: int,
    now: int,
    target: Region,
    behind: bool,
    seen: Marks,
    fuel: nat,
)
    ensures
        t.trace(body, e, s, now, target, behind, seen, fuel).0 matches Some(x) ==> 0 <= x
            < t.bindings.len() && !t.region_outlives(Region::Scope(t.bindings[x].scope), target),
    decreases fuel, 1int, 0int, e, 0int,
{
    match e {
        Expr::AddrOf(name) => {
            lemma_resolve_among(t, name@, s, now, t.bindings.len() as int);
            if let Some(b) = t.resolve(name@, s, now) {
                if behind {
                    lemma_follow_finds_short_lived(t, body, b, target, false, seen, fuel);
                }
            }
        },
        Expr::Var(name) => {
            if let Some(b) = t.resolve(name@, s, now) {
                lemma_follow_finds_short_lived(t, body, b, target, behind, seen, fuel);
            }
        },
        Expr::Deref(inner) => {
            lemma_trace_finds_short_lived(t, body, *inner, s, now, target, true, seen, fuel);
        },
        Expr::Call { callee, args } => {
            lemma_args_find_short_lived(t, body, args, 0, s, now, target, seen, fuel);
        },
        _ => {},
    }
}

/// The same for what a binding holds.
proof fn lemma_follow_finds_short_lived(
    t: ScopeTreeView,
    body: Seq<Stmt>,
    b: int,
    target: Region,
    behind: bool,
    seen: Marks,
    fuel: nat,
)
    ensures
        t.follow(body, b, target, behind, seen, fuel).0 matches Some(x) ==> 0 <= x
            < t.bindings.len() && !t.region_outlives(Region::Scope(t.bindings[x].scope), target),
    decreases fuel, 0int,
{
    if 0 <= b < t.bindings.len() && t.bindings[b].ty == Type::Reference && fuel > 0 && seen.fits(
        t.bindings.len(),
    ) && !seen.has(b, behind) {
        lemma_sources_find_short_lived(
            t,
            body,
            b,
            0,
            target,
            behind,
            seen.with(b, behind),
            (fuel - 1) as nat,
        );
    }
}

/// The same for the arguments of a call, from the `i`-th on.
proof fn lemma_args_find_short_lived(
    t: ScopeTreeView,
    body: Seq<Stmt>,
    args: Vec<Expr>,
    i: int,
    s: int,
    now: int,
    target: Region,
    seen: Marks,
    fuel: nat,
)
    requires
        0 <= i <= args.len(),
    ensures
        t.trace_args(body, args, i, s, now, target, seen, fuel).0 matches Some(x) ==> 0 <= x
            < t.bindings.len() && !t.region_outlives(Region::Scope(t.bindings[x].scope), target),
    decreases fuel, 1int, 0int, args, args.len() - i,
{
    if i < args.len() {
        lemma_trace_finds_short_lived(t, body, args[i], s, now, target, false, seen, fuel);
        let first = t.trace(body, args[i], s, now, target, false, seen, fuel);
        lemma_args_find_short_lived(t, body, args, i + 1, s, now, target, first.1, fuel);
    }
}

/// The same for what the statements from the `k`-th on put into binding `b`.
proof fn lemma_sources_find_short_lived(
    t: ScopeTreeView,
    body: Seq<Stmt>,
    b: int,
    k: int,
    target: Region,
    behind: bool,
    seen: Marks,
    fuel: nat,
)
    requires
        0 <= k <= body.len(),
    ensures
        t.trace_sources(body, b, k, target, behind, seen, fuel).0 matches Some(x) ==> 0 <= x
            < t.bindings.len() && !t.region_outlives(Region::Scope(t.bindings[x].scope), target),
    decreases fuel, 2int, body.len() - k,
{
    if k < body.len() {
        match t.source_of(body, k, b) {
            Some(e) => {
                let at = t.stmt_scopes[k] as int;
                lemma_trace_finds_short_lived(t, body, e, at, k, target, behind, seen, fuel);
                let first = t.trace(body, e, at, k, target, behind, seen, fuel);
                lemma_sources_find_short_lived(t, body, b, k + 1, target, behind, first.1, fuel);
            },
            None => {
                lemma_sources_find_short_lived(t, body, b, k + 1, target, behind, seen, fuel);
            },
        }
    }
}

/// No finding is made up: an offender is a binding of the tree whose scope
/// does not outlive the target.
pub proof fn lemma_offender_does_not_outlive(
    t: ScopeTreeView,
    body: Seq<Stmt>,
    e: Expr,
    s: int,
    now: int,
    target: Region,
)
    ensures
        t.offender(body, e, s, now, target) matches Some(x) ==> 0 <= x < t.bindings.len()
            && !t.region_outlives(Region::Scope(t.bindings[x].scope), target),
{
    lemma_trace_finds_short_lived(
        t,
        body,
        e,
        s,
        now,
        target,
        false,
        t.unseen(),
        2 * t.bindings.len(),
    );
}

/// A statement whose value is harmless where it escapes to, with respect to
/// a set into which nothing harmful gets, gives rise to no finding. Nor
/// does a statement that is no escape point.
pub proof fn lemma_harmless_statement(
    t: ScopeTreeView,
    body: Seq<Stmt>,
    k: int,
    keep: Set<(int, bool)>,
)
    requires
        t.escape_at(body, k) matches Some(point) ==> closed(t, body, point.target, keep)
            && harmless(t, point.value, point.from as int, k, point.target, false, keep),
    ensures
        t.finding_at(body, k) is None,
{
    if let Some(point) = t.escape_at(body, k) {
        lemma_harmless_has_no_offender(
            t,
            body,
            point.value,
            point.from as int,
            k,
            point.target,
            keep,
        );
    }
}

/// Storing the address of a binding into a binding of the same scope is
/// never a finding.
pub proof fn lemma_store_within_scope_is_safe(t: ScopeTreeView, body: Seq<Stmt>, k: int)
    requires
        0 <= k < body.len(),
        body[k] matches Stmt::Assign { target, value: Expr::AddrOf(name), .. } && {
            let s = t.stmt_scopes[k] as int;
            &&& t.resolve(target@, s, k) matches Some(held)
            &&& t.resolve(name@, s, k) matches Some(b)
            &&& t.bindings[b].scope == t.bindings[held].scope
        },
    ensures
        t.finding_at(body, k) is None,
{
}

/// Returning the address of a binding of the function is always a finding:
/// it is of kind `Return`, stands at the `return`, and names that binding
/// and the scope that owns it.
pub proof fn lemma_returned_address_is_found(f: FunctionAst, k: int)
    requires
        well_formed(f),
        0 <= k < f.body@.len(),
        f.body@[k] matches Stmt::Return { value: Some(Expr::AddrOf(_)), .. },
    ensures
        tree_of(f).finding_at(f.body@, k) matches Some(finding) && {
            let t = tree_of(f);
            &&& f.body@[k] matches Stmt::Return { value: Some(Expr::AddrOf(name)), location }
            &&& t.resolve(name@, t.stmt_scopes[k] as int, k) matches Some(b)
            &&& finding.kind == EscapeKind::Return
            &&& finding.location == location
            &&& finding.referent_name@ == name@
            &&& finding.referent_scope_location == t.scopes[t.bindings[b].scope as int].location
        },
{
    let t = tree_of(f);
    assert(t.stmt_resolves(f.body@, k));
    if let Stmt::Return { value: Some(Expr::AddrOf(name)), location } = f.body@[k] {
        lemma_resolve_among(t, name@, t.stmt_scopes[k] as int, k, t.bindings.len() as int);
    }
}

/// A finding, once made, is part of the result: whatever the other
/// statements do, the finding of statement `k` is among the findings of the
/// body, after those of earlier statements and before those of later ones.
pub proof fn lemma_finding_is_kept(t: ScopeTreeView, body: Seq<Stmt>, k: int)
    requires
        0 <= k < body.len(),
        t.finding_at(body, k) is Some,
    ensures
        t.findings(body).len() > t.findings_before(body, k).len(),
        t.findings(body)[t.findings_before(body, k).len() as int] == t.finding_at(body, k)->0,
        t.findings(body).contains(t.finding_at(body, k)->0),
{
    let at = t.findings_before(body, k).len() as int;
    let finding = t.finding_at(body, k)->0;
    assert(t.findings_before(body, k + 1) == t.findings_before(body, k).push(finding));
    assert(t.findings_before(body, k + 1)[at] == finding);
    lemma_findings_grow(t, body, k + 1, body.len() as int);
    assert(t.findings(body)[at] == finding);
}

/// The findings of a prefix of the body are a prefix of the findings of a
/// longer prefix.
pub proof fn lemma_findings_grow(t: ScopeTreeView, body: Seq<Stmt>, m: int, n: int)
    requires
        0 <= m <= n,
    ensures
        t.findings_before(body, m).len() <= t.findings_before(body, n).len(),
        forall|i: int|
            0 <= i < t.findings_before(body, m).len() ==> #[trigger] t.findings_before(body, n)[i]
                == t.findings_before(body, m)[i],
    decreases n - m,
{
    if m < n {
        lemma_findings_grow(t, body, m, n - 1);
    }
}

/// One unsafe statement is enough: a well-formed function with a statement
/// that gives rise to a finding is rejected, and the verdict holds that
/// finding.
pub proof fn lemma_unsafe_statement_rejects(f: FunctionAst, k: int, v: Verdict)
    requires
        0 <= k < f.body@.len(),
        tree_of(f).finding_at(f.body@, k) is Some,
        v.judges(findings_of(f)),
    ensures
        v is Rejected,
        v.findings().contains(tree_of(f).finding_at(f.body@, k)->0),
{
    lemma_finding_is_kept(tree_of(f), f.body@, k);
}

/// If no statement but `k` gives rise to a finding, the findings of the
/// body are the finding of `k` alone, or none.
pub proof fn lemma_findings_of_one_statement(t: ScopeTreeView, body: Seq<Stmt>, k: int, n: int)
    requires
        0 <= n <= body.len(),
        forall|j: int| 0 <= j < body.len() && j != k ==> t.finding_at(body, j) is None,
    ensures
        t.findings_before(body, n) == if 0 <= k < n && t.finding_at(body, k) is Some {
            seq![t.finding_at(body, k)->0]
        } else {
            Seq::empty()
        },
    decreases n,
{
    if n > 0 {
        lemma_findings_of_one_statement(t, body, k, n - 1);
    }
}

/// A well-formed function that lets escape to the caller, by `return` or by
/// a store into a place that outlives the call, only what leads back to what
/// the caller passed in, and whose stores into bindings give rise to no
/// finding, has no finding at all. A value leads back to the caller if it is
/// harmless outside the function with respect to a set into which nothing
/// harmful gets.
pub proof fn lemma_returning_callers_references_is_accepted(f: FunctionAst, keep: Set<(int, bool)>)
    requires
        well_formed(f),
        closed(tree_of(f), f.body@, Region::Caller, keep),
        forall|k: int|
            0 <= k < f.body@.len() ==> (#[trigger] tree_of(f).escape_at(f.body@, k)
                matches Some(point) ==> point.target == Region::Caller ==> harmless(
                tree_of(f),
                point.value,
                point.from as int,
                k,
                Region::Caller,
                false,
                keep,
            )),
        forall|k: int|
            0 <= k < f.body@.len() && #[trigger] f.body@[k] is Assign ==> tree_of(f).finding_at(
                f.body@,
                k,
            ) is None,
    ensures
        findings_of(f).len() == 0,
{
    let t = tree_of(f);
    assert forall|k: int| 0 <= k < f.body@.len() implies t.finding_at(f.body@, k) is None by {
        if let Some(point) = t.escape_at(f.body@, k) {
            if point.target == Region::Caller {
                lemma_harmless_statement(t, f.body@, k, keep);
            } else {
                assert(f.body@[k] is Assign);
            }
        }
    }
    lemma_findings_of_one_statement(t, f.body@, -1, f.body@.len() as int);
}

/// The expression takes no address.
pub open spec fn address_free(e: Expr) -> bool
    decreases e,
{
    match e {
        Expr::Literal(_) => true,
        Expr::Var(_) => true,
        Expr::AddrOf(_) => false,
        Expr::Deref(inner) => address_free(*inner),
        Expr::Add(left, right) => address_free(*left) && address_free(*right),
        Expr::Call { callee, args } => forall|i: int|
            0 <= i < args.len() ==> address_free(#[trigger] args[i]),
    }
}

/// No expression of the statement takes an address.
pub open spec fn stmt_address_free(stmt: Stmt) -> bool {
    match stmt {
        Stmt::Let { init: Some(e), .. } => address_free(e),
        Stmt::Assign { value, .. } => address_free(value),
        Stmt::StoreOut { value, .. } => address_free(value),
        Stmt::Return { value: Some(e), .. } => address_free(e),
        Stmt::Eval { expr, .. } => address_free(expr),
        _ => true,
    }
}

/// An expression that takes no address is harmless everywhere, as long as
/// all bindings are.
proof fn lemma_address_free_is_harmless(
    t: ScopeTreeView,
    e: Expr,
    s: int,
    now: int,
    target: Region,
    behind: bool,
)
    requires
        address_free(e),
    ensures
        harmless(t, e, s, now, target, behind, Set::full()),
    decreases e,
{
    match e {
        Expr::Deref(inner) => {
            lemma_address_free_is_harmless(t, *inner, s, now, target, true);
        },
        Expr::Call { callee, args } => {
            assert forall|i: int| 0 <= i < args.len() implies harmless(
                t,
                #[trigger] args[i],
                s,
                now,
                target,
                false,
                Set::full(),
            ) by {
                lemma_address_free_is_harmless(t, args[i], s, now, target, false);
            }
        },
        _ => {},
    }
}

/// A well-formed function that takes no address has no finding: every
/// reference in it comes from the caller, whatever is declared, stored,
/// looked behind, passed on or returned.
pub proof fn lemma_address_free_is_accepted(f: FunctionAst)
    requires
        well_formed(f),
        forall|j: int| 0 <= j < f.body@.len() ==> stmt_address_free(#[trigger] f.body@[j]),
    ensures
        findings_of(f).len() == 0,
{
    let t = tree_of(f);
    let body = f.body@;
    let all = Set::<(int, bool)>::full();
    assert forall|k: int| 0 <= k < body.len() implies t.finding_at(body, k) is None by {
        if let Some(point) = t.escape_at(body, k) {
            assert(stmt_address_free(body[k]));
            assert forall|b: int, behind: bool, j: int|
                #![trigger all.contains((b, behind)), t.source_of(body, j, b)]
                all.contains((b, behind)) && 0 <= j < body.len() implies (t.source_of(body, j, b)
                matches Some(e) ==> harmless(
                t,
                e,
                t.stmt_scopes[j] as int,
                j,
                point.target,
                behind,
                all,
            )) by {
                if let Some(e) = t.source_of(body, j, b) {
                    assert(stmt_address_free(body[j]));
                    lemma_address_free_is_harmless(
                        t,
                        e,
                        t.stmt_scopes[j] as int,
                        j,
                        point.target,
                        behind,
                    );
                }
            }
            lemma_address_free_is_harmless(t, point.value, point.from as int, k, point.target, false);
            lemma_harmless_statement(t, body, k, all);
        }
    }
    lemma_findings_of_one_statement(t, body, -1, body.len() as int);
}

/// A well-formed function that returns the address of one of its bindings,
/// and in which no other statement gives rise to a finding, has exactly one
/// finding, which names that binding. No other statement gives rise to one
/// if, for instance, none is an escape point.
pub proof fn lemma_returned_address_alone(f: FunctionAst, k: int)
    requires
        well_formed(f),
        0 <= k < f.body@.len(),
        f.body@[k] matches Stmt::Return { value: Some(Expr::AddrOf(_)), .. },
        forall|j: int|
            0 <= j < f.body@.len() && j != k ==> #[trigger] tree_of(f).finding_at(f.body@, j)
                is None,
    ensures
        findings_of(f).len() == 1,
        findings_of(f)[0].kind == EscapeKind::Return,
        f.body@[k] matches Stmt::Return { value: Some(Expr::AddrOf(name)), location }
            && findings_of(f)[0].referent_name@ == name@ && findings_of(f)[0].location == location,
{
    lemma_returned_address_is_found(f, k);
    lemma_findings_of_one_statement(tree_of(f), f.body@, k, f.body@.len() as int);
}

/// The verdict on a sequence of findings is determined by it: two verdicts
/// on the same findings agree.
pub proof fn lemma_verdict_is_determined(v: Verdict, w: Verdict, findings: Seq<Finding>)
    requires
        v.judges(findings),
        w.judges(findings),
    ensures
        v.findings() == w.findings(),
        v is Accepted <==> w is Accepted,
{
}

} // verus!
