//! The reporter: turns findings into a verdict and into messages.
use vstd::prelude::*;
use vstd::string::StringExecFns;
use crate::ast::Location;
use crate::escape::{EscapeKind, Finding};

verus! {

/// The outcome of analysing one function.
#[derive(Debug, PartialEq, Eq)]
pub enum Verdict {
    /// No reference escapes beyond the life of its referent.
    Accepted,
    /// At least one does. The findings are in source order.
    Rejected(Vec<Finding>),
}

impl Verdict {
    /// The findings that the verdict carries.
    pub open spec fn findings(self) -> Seq<Finding> {
        match self {
            Verdict::Accepted => Seq::empty(),
            Verdict::Rejected(found) => found@,
        }
    }

    /// This is the verdict on `findings`: `Accepted` if there are none,
    /// otherwise `Rejected` with all of them, in the same order.
    pub open spec fn judges(self, findings: Seq<Finding>) -> bool {
        self.findings() =~= findings && (self is Accepted <==> findings.len() == 0)
    }

    /// Tells whether the verdict is `Accepted`.
    pub fn is_accepted(&self) -> (r: bool)
        ensures
            r == (self is Accepted),
    {
        match self {
            Verdict::Accepted => true,
            Verdict::Rejected(_) => false,
        }
    }
}

impl Verdict {
    /// Hands out the findings that the verdict carries.
    pub fn into_findings(self) -> (found: Vec<Finding>)
        ensures
            found@ == self.findings(),
    {
        match self {
            Verdict::Accepted => Vec::new(),
            Verdict::Rejected(found) => found,
        }
    }

    /// Joins the verdicts on two functions that were analysed apart into
    /// one: the verdict on the findings of the first followed by those of
    /// the second.
    pub fn merge(self, other: Verdict) -> (v: Verdict)
        ensures
            v.judges(self.findings() + other.findings()),
    {
        let mut all = self.into_findings();
        let mut rest = other.into_findings();
        all.append(&mut rest);
        verdict_of(all)
    }
}

/// Where the analysis of one function stands.
#[derive(Clone, Copy, Debug, PartialEq, Eq, Structural)]
pub enum Phase {
    /// Not looked at yet.
    Pending,
    /// Being analysed.
    Analyzing,
    /// Done, and accepted.
    Accepted,
    /// Done, and rejected.
    Rejected,
}

impl Phase {
    /// The analysis is over.
    pub open spec fn is_terminal(self) -> bool {
        self is Accepted || self is Rejected
    }

    /// The analysis can pass from this phase to `next` in one step: from
    /// `Pending` to `Analyzing`, and from there to either end.
    pub open spec fn leads_to(self, next: Phase) -> bool {
        match self {
            Phase::Pending => next is Analyzing,
            Phase::Analyzing => next.is_terminal(),
            _ => false,
        }
    }

    /// Takes up the analysis. Only a pending one can be taken up.
    pub fn start(self) -> (r: Option<Phase>)
        ensures
            r == if self is Pending {
                Some(Phase::Analyzing)
            } else {
                None::<Phase>
            },
    {
        match self {
            Phase::Pending => Some(Phase::Analyzing),
            _ => None,
        }
    }

    /// Ends the analysis with `verdict`. Only a running one can be ended.
    pub fn finish(self, verdict: &Verdict) -> (r: Option<Phase>)
        ensures
            r == if !(self is Analyzing) {
                None::<Phase>
            } else if verdict is Accepted {
                Some(Phase::Accepted)
            } else {
                Some(Phase::Rejected)
            },
            r matches Some(next) ==> self.leads_to(next) && next.is_terminal(),
    {
        match self {
            Phase::Analyzing => match verdict {
                Verdict::Accepted => Some(Phase::Accepted),
                Verdict::Rejected(_) => Some(Phase::Rejected),
            },
            _ => None,
        }
    }
}

/// There is no way on from the end of an analysis, and none back to its
/// beginning.
pub proof fn lemma_terminal_is_final(phase: Phase, next: Phase)
    ensures
        phase.is_terminal() ==> !phase.leads_to(next),
        !next.leads_to(Phase::Pending),
{
}

/// Passes the verdict on a sequence of findings.
pub fn verdict_of(findings: Vec<Finding>) -> (v: Verdict)
    ensures
        v.judges(findings@),
        findings@.len() > 0 ==> v == Verdict::Rejected(findings),
{
    if findings.len() == 0 {
        Verdict::Accepted
    } else {
        Verdict::Rejected(findings)
    }
}

/// The character for a decimal digit.
pub open spec fn digit_char(d: int) -> char {
    if d == 0 {
        '0'
    } else if d == 1 {
        '1'
    } else if d == 2 {
        '2'
    } else if d == 3 {
        '3'
    } else if d == 4 {
        '4'
    } else if d == 5 {
        '5'
    } else if d == 6 {
        '6'
    } else if d == 7 {
        '7'
    } else if d == 8 {
        '8'
    } else {
        '9'
    }
}

/// The decimal numeral of `n`, without leading zeros.
pub open spec fn decimal(n: nat) -> Seq<char>
    decreases n,
{
    if n < 10 {
        seq![digit_char(n as int)]
    } else {
        decimal(n / 10).push(digit_char((n % 10) as int))
    }
}

/// How a location reads in a message: line, colon, column.
pub open spec fn location_text(l: Location) -> Seq<char> {
    decimal(l.line as nat) + ":"@ + decimal(l.column as nat)
}

/// The words that name the kind of escape.
pub open spec fn kind_text(kind: EscapeKind) -> Seq<char> {
    match kind {
        EscapeKind::Return => "returned"@,
        EscapeKind::OutwardStore => "stored"@,
    }
}

/// The message for a finding. It shows where the reference escapes, how it
/// escapes, where the scope that owns the referent begins, and the
/// referent's name.
pub open spec fn message(finding: Finding) -> Seq<char> {
    location_text(finding.location) + ": error: "@ + kind_text(finding.kind)
        + " reference would dangle: the scope opened at "@ + location_text(
        finding.referent_scope_location,
    ) + " owns "@ + finding.referent_name@
}

/// One decimal digit as text.
fn digit_text(d: u32) -> (r: &'static str)
    requires
        d < 10,
    ensures
        r@ == seq![digit_char(d as int)],
{
    proof {
        reveal_strlit("0");
        reveal_strlit("1");
        reveal_strlit("2");
        reveal_strlit("3");
        reveal_strlit("4");
        reveal_strlit("5");
        reveal_strlit("6");
        reveal_strlit("7");
        reveal_strlit("8");
        reveal_strlit("9");
    }
    let r = if d == 0 {
        "0"
    } else if d == 1 {
        "1"
    } else if d == 2 {
        "2"
    } else if d == 3 {
        "3"
    } else if d == 4 {
        "4"
    } else if d == 5 {
        "5"
    } else if d == 6 {
        "6"
    } else if d == 7 {
        "7"
    } else if d == 8 {
        "8"
    } else {
        "9"
    };
    assert(r@ =~= seq![digit_char(d as int)]);
    r
}

/// Appends the decimal numeral of `n` to `out`.
fn push_decimal(out: &mut String, n: u32)
    ensures
        final(out)@ == old(out)@ + decimal(n as nat),
    decreases n,
{
    if n >= 10 {
        push_decimal(out, n / 10);
    }
    out.append(digit_text(n % 10));
    assert(out@ =~= old(out)@ + decimal(n as nat));
}

/// Appends a location to `out`.
fn push_location(out: &mut String, l: Location)
    ensures
        final(out)@ == old(out)@ + location_text(l),
{
    push_decimal(out, l.line);
    out.append(":");
    push_decimal(out, l.column);
    assert(out@ =~= old(out)@ + location_text(l));
}

/// Renders the message for a finding.
pub fn render(finding: &Finding) -> (r: String)
    ensures
        r@ == message(*finding),
{
    let mut out = String::new();
    push_location(&mut out, finding.location);
    out.append(": error: ");
    match finding.kind {
        EscapeKind::Return => out.append("returned"),
        EscapeKind::OutwardStore => out.append("stored"),
    }
    out.append(" reference would dangle: the scope opened at ");
    push_location(&mut out, finding.referent_scope_location);
    out.append(" owns ");
    out.append(finding.referent_name.as_str());
    assert(out@ =~= message(*finding));
    out
}

/// Renders one message for each finding of a verdict, in order.
pub fn render_all(verdict: &Verdict) -> (r: Vec<String>)
    ensures
        r@.len() == verdict.findings().len(),
        forall|i: int| 0 <= i < r@.len() ==> (#[trigger] r@[i])@ == message(verdict.findings()[i]),
{
    let mut out: Vec<String> = Vec::new();
    match verdict {
        Verdict::Accepted => {},
        Verdict::Rejected(found) => {
            let mut i: usize = 0;
            while i < found.len()
                invariant
                    i <= found.len(),
                    out@.len() == i,
                    forall|j: int| 0 <= j < i ==> (#[trigger] out@[j])@ == message(found@[j]),
                decreases found.len() - i,
            {
                out.push(render(&found[i]));
                i = i + 1;
            }
        },
    }
    out
}

/// The character is a decimal digit.
pub open spec fn is_digit(c: char) -> bool {
    c == '0' || c == '1' || c == '2' || c == '3' || c == '4' || c == '5' || c == '6' || c == '7'
        || c == '8' || c == '9'
}

/// A decimal numeral is made of digits: one for a number below ten, more
/// for any other.
pub proof fn lemma_decimal_digits(n: nat)
    ensures
        n < 10 ==> decimal(n).len() == 1,
        n >= 10 ==> decimal(n).len() >= 2,
        forall|i: int| 0 <= i < decimal(n).len() ==> is_digit(#[trigger] decimal(n)[i]),
    decreases n,
{
    if n >= 10 {
        lemma_decimal_digits(n / 10);
    }
}

/// Different numbers have different numerals.
pub proof fn lemma_decimal_injective(m: nat, n: nat)
    requires
        decimal(m) == decimal(n),
    ensures
        m == n,
    decreases m,
{
    lemma_decimal_digits(m);
    lemma_decimal_digits(n);
    if m < 10 && n < 10 {
        assert(decimal(m)[0] == digit_char(m as int));
        assert(decimal(n)[0] == digit_char(n as int));
    } else if m >= 10 && n >= 10 {
        let a = decimal(m / 10);
        let b = decimal(n / 10);
        assert(a =~= decimal(m).drop_last());
        assert(b =~= decimal(n).drop_last());
        assert(decimal(m).last() == digit_char((m % 10) as int));
        assert(decimal(n).last() == digit_char((n % 10) as int));
        lemma_decimal_injective(m / 10, n / 10);
        assert(m % 10 == n % 10);
        assert(m == 10 * (m / 10) + m % 10);
        assert(n == 10 * (n / 10) + n % 10);
    } else {
        assert(decimal(m).len() == decimal(n).len());
    }
}

/// A numeral followed by text that does not begin with a digit can be read
/// back in one way only.
proof fn lemma_number_prefix(m: nat, n: nat, r1: Seq<char>, r2: Seq<char>)
    requires
        decimal(m) + r1 == decimal(n) + r2,
        r1.len() > 0,
        r2.len() > 0,
        !is_digit(r1[0]),
        !is_digit(r2[0]),
    ensures
        m == n,
        r1 == r2,
{
    let x = decimal(m);
    let y = decimal(n);
    let l = x + r1;
    let r = y + r2;
    lemma_decimal_digits(m);
    lemma_decimal_digits(n);
    if x.len() < y.len() {
        assert(l[x.len() as int] == r1[0]);
        assert(r[x.len() as int] == y[x.len() as int]);
        assert(false);
    }
    if y.len() < x.len() {
        assert(r[y.len() as int] == r2[0]);
        assert(l[y.len() as int] == x[y.len() as int]);
        assert(false);
    }
    assert(x =~= l.subrange(0, x.len() as int));
    assert(y =~= r.subrange(0, y.len() as int));
    lemma_decimal_injective(m, n);
    assert(r1 =~= l.subrange(x.len() as int, l.len() as int));
    assert(r2 =~= r.subrange(y.len() as int, r.len() as int));
}

/// What follows a common beginning is the same if the whole is the same.
proof fn lemma_same_beginning(p: Seq<char>, x: Seq<char>, y: Seq<char>)
    requires
        p + x == p + y,
    ensures
        x == y,
{
    assert(x =~= (p + x).subrange(p.len() as int, (p + x).len() as int));
    assert(y =~= (p + y).subrange(p.len() as int, (p + y).len() as int));
}

/// What a message says after the colon that follows its first number: the
/// column, the kind of escape, the referent's scope and the referent's name.
spec fn after_line(f: Finding) -> Seq<char> {
    decimal(f.location.column as nat) + (": error: "@ + after_error(f))
}

/// What a message says after the word `error`.
spec fn after_error(f: Finding) -> Seq<char> {
    kind_text(f.kind) + (" reference would dangle: the scope opened at "@ + (decimal(
        f.referent_scope_location.line as nat,
    ) + (":"@ + after_scope_line(f))))
}

/// What a message says after the line of the referent's scope.
spec fn after_scope_line(f: Finding) -> Seq<char> {
    decimal(f.referent_scope_location.column as nat) + (" owns "@ + f.referent_name@)
}

/// Joining text is associative.
proof fn lemma_join(a: Seq<char>, b: Seq<char>, c: Seq<char>)
    ensures
        (a + b) + c == a + (b + c),
{
    assert((a + b) + c =~= a + (b + c));
}

/// A message is its parts, one after the other.
proof fn lemma_message_parts(f: Finding)
    ensures
        message(f) == decimal(f.location.line as nat) + (":"@ + after_line(f)),
{
    let line = decimal(f.location.line as nat);
    let column = decimal(f.location.column as nat);
    let colon = ":"@;
    let error = ": error: "@;
    let kind = kind_text(f.kind);
    let opened = " reference would dangle: the scope opened at "@;
    let scope_line = decimal(f.referent_scope_location.line as nat);
    let scope_column = decimal(f.referent_scope_location.column as nat);
    let owns = " owns "@;
    let name = f.referent_name@;
    let place = location_text(f.location);
    let scope_place = location_text(f.referent_scope_location);
    let t1 = owns + name;
    let t2 = scope_column + t1;
    let t3 = colon + t2;
    let t4 = scope_line + t3;
    let t5 = opened + t4;
    let t6 = kind + t5;
    let t7 = error + t6;
    let t8 = column + t7;
    let t9 = colon + t8;
    assert(t2 == after_scope_line(f));
    assert(t6 == after_error(f));
    assert(t8 == after_line(f));
    lemma_join(place + error + kind + opened + scope_place, owns, name);
    lemma_join(place + error + kind + opened, scope_place, t1);
    lemma_join(scope_line + colon, scope_column, t1);
    lemma_join(scope_line, colon, t2);
    assert(scope_place + t1 == t4);
    lemma_join(place + error + kind, opened, t4);
    lemma_join(place + error, kind, t5);
    lemma_join(place, error, t6);
    lemma_join(line + colon, column, t7);
    lemma_join(line, colon, t8);
    assert(place + t7 == line + t9);
}

/// Rendering loses nothing: findings with the same message agree in
/// location, kind, the location of the referent's scope, and the referent's
/// name.
pub proof fn lemma_message_is_lossless(a: Finding, b: Finding)
    requires
        message(a) == message(b),
    ensures
        a.location == b.location,
        a.kind == b.kind,
        a.referent_scope_location == b.referent_scope_location,
        a.referent_name@ == b.referent_name@,
{
    reveal_strlit(":");
    reveal_strlit(": error: ");
    reveal_strlit("returned");
    reveal_strlit("stored");
    reveal_strlit(" reference would dangle: the scope opened at ");
    reveal_strlit(" owns ");
    lemma_message_parts(a);
    lemma_message_parts(b);
    let colon = ":"@;
    // the line
    assert((colon + after_line(a))[0] == ':');
    assert((colon + after_line(b))[0] == ':');
    lemma_number_prefix(
        a.location.line as nat,
        b.location.line as nat,
        colon + after_line(a),
        colon + after_line(b),
    );
    lemma_same_beginning(colon, after_line(a), after_line(b));
    // the column
    let error = ": error: "@;
    assert((error + after_error(a))[0] == ':');
    assert((error + after_error(b))[0] == ':');
    lemma_number_prefix(
        a.location.column as nat,
        b.location.column as nat,
        error + after_error(a),
        error + after_error(b),
    );
    lemma_same_beginning(error, after_error(a), after_error(b));
    // the kind
    assert(after_error(a)[0] == kind_text(a.kind)[0]);
    assert(after_error(b)[0] == kind_text(b.kind)[0]);
    assert(a.kind == b.kind);
    let opened = " reference would dangle: the scope opened at "@;
    let scope_a = decimal(a.referent_scope_location.line as nat) + (colon + after_scope_line(a));
    let scope_b = decimal(b.referent_scope_location.line as nat) + (colon + after_scope_line(b));
    lemma_same_beginning(kind_text(a.kind), opened + scope_a, opened + scope_b);
    lemma_same_beginning(opened, scope_a, scope_b);
    // the scope of the referent
    assert((colon + after_scope_line(a))[0] == ':');
    assert((colon + after_scope_line(b))[0] == ':');
    lemma_number_prefix(
        a.referent_scope_location.line as nat,
        b.referent_scope_location.line as nat,
        colon + after_scope_line(a),
        colon + after_scope_line(b),
    );
    lemma_same_beginning(colon, after_scope_line(a), after_scope_line(b));
    let owns = " owns "@;
    assert((owns + a.referent_name@)[0] == ' ');
    assert((owns + b.referent_name@)[0] == ' ');
    lemma_number_prefix(
        a.referent_scope_location.column as nat,
        b.referent_scope_location.column as nat,
        owns + a.referent_name@,
        owns + b.referent_name@,
    );
    // the name
    lemma_same_beginning(owns, a.referent_name@, b.referent_name@);
}

} // verus!
