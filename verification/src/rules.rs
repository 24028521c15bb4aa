//! The inference rules: each rule declares the shape of the citation
//! arguments it expects and a syntactic predicate over the cited material,
//! and shares the structural validation floor (arity, argument shapes,
//! citation bounds, subproof integrity, accessibility, strictness).

use vstd::prelude::*;

use crate::citation::LineNumber;
use crate::citation::LineNumberType;
use crate::citation::spec_kind_matches;
use crate::fitch::Line;
use crate::fitch::LineV;
use crate::fitch::Proof;
use crate::fitch::ProofV;
use crate::sentence::Sentence;

verus! {

/// All validation failures of a proof, each with its one-based line number.
pub type CheckErrors = Vec<(u16, CheckError)>;

/// An error raised while validating one proof line.
#[derive(Debug, PartialEq, Eq, Structural, Clone, Copy)]
pub enum CheckError {
    /// The cited rule is not installed in the checker.
    NoSuchRule,
    /// The citation has too few or too many arguments for the rule.
    BadLineCount,
    /// A line range stands where a single line was expected, or vice versa.
    BadLineType,
    /// The rule was applied incorrectly.
    BadUsage,
    /// A citation names the current line, a future line, or no line at all.
    BadLine,
    /// A cited line range does not delimit a closed subproof.
    BadRange,
    /// A cited line or subproof is not accessible from the citing line.
    Unavailable,
    /// A strict-only rule was used outside a strict subproof.
    StrictOutside,
    /// A relaxed rule was used on a non-premise line inside a strict
    /// subproof.
    RelaxedInside,
}

impl View for CheckError {
    type V = CheckError;

    open spec fn view(&self) -> CheckError {
        *self
    }
}

impl DeepView for CheckError {
    type V = CheckError;

    open spec fn deep_view(&self) -> CheckError {
        *self
    }
}

/// One inference rule.  The premise rule also serves the placeholder
/// identifier `?`.
#[derive(Debug, PartialEq, Eq, Structural, Clone, Copy)]
pub enum Rule {
    /// Premise (and placeholder): always valid, cites nothing.
    Premise,
    /// `R`: reiteration.
    Reiteration,
    /// `∧I`: conjunction introduction.
    ConjunctionIntr,
    /// `∧E`: conjunction elimination.
    ConjunctionElim,
    /// `∨I`: disjunction introduction.
    DisjunctionIntr,
    /// `∨E`: disjunction elimination.
    DisjunctionElim,
    /// `→I`: conditional introduction.
    ConditionalIntr,
    /// `→E`: conditional elimination (modus ponens).
    ConditionalElim,
    /// `↔I`: biconditional introduction.
    BiconditionalIntr,
    /// `↔E`: biconditional elimination.
    BiconditionalElim,
    /// `¬I`: negation introduction.
    NegationIntr,
    /// `¬E`: negation elimination.
    NegationElim,
    /// `X`: explosion.
    Explosion,
    /// `IP`: indirect proof.
    IndirectProof,
    /// `DS`: disjunctive syllogism.
    DisjunctiveSyllogism,
    /// `MT`: modus tollens.
    ModusTollens,
    /// `DNE`: double-negation elimination.
    Dne,
    /// `LEM`: excluded-middle dispatch.
    Lem,
    /// `DeM`: De Morgan transformation.
    DeMorgan,
    /// `□I`: necessity introduction.
    NecessityIntr,
    /// `□E`: necessity elimination (strict-only).
    NecessityElim,
    /// `Def◇`: the definition of possibility.
    PossibilityDef,
    /// `MC`: modal conversion.
    ModalConversion,
    /// `RT`: the reflexivity rule of the system T.
    RT,
    /// `R4`: the transitivity rule of the system S4 (strict-only).
    R4,
    /// `R5`: the Euclidean rule of the system S5 (strict-only).
    R5,
}

/// The declared argument shapes of each rule, in citation order.
pub open spec fn spec_line_ord(r: Rule) -> Seq<LineNumberType> {
    match r {
        Rule::Premise => seq![],
        Rule::Reiteration => seq![LineNumberType::One],
        Rule::ConjunctionIntr => seq![LineNumberType::One, LineNumberType::One],
        Rule::ConjunctionElim => seq![LineNumberType::One],
        Rule::DisjunctionIntr => seq![LineNumberType::One],
        Rule::DisjunctionElim => seq![
            LineNumberType::One,
            LineNumberType::Many,
            LineNumberType::Many,
        ],
        Rule::ConditionalIntr => seq![LineNumberType::Many],
        Rule::ConditionalElim => seq![LineNumberType::One, LineNumberType::One],
        Rule::BiconditionalIntr => seq![LineNumberType::Many, LineNumberType::Many],
        Rule::BiconditionalElim => seq![LineNumberType::One, LineNumberType::One],
        Rule::NegationIntr => seq![LineNumberType::Many],
        Rule::NegationElim => seq![LineNumberType::One, LineNumberType::One],
        Rule::Explosion => seq![LineNumberType::One],
        Rule::IndirectProof => seq![LineNumberType::Many],
        Rule::DisjunctiveSyllogism => seq![LineNumberType::One, LineNumberType::One],
        Rule::ModusTollens => seq![LineNumberType::One, LineNumberType::One],
        Rule::Dne => seq![LineNumberType::One],
        Rule::Lem => seq![LineNumberType::Many, LineNumberType::Many],
        Rule::DeMorgan => seq![LineNumberType::One],
        Rule::NecessityIntr => seq![LineNumberType::Many],
        Rule::NecessityElim => seq![LineNumberType::One],
        Rule::PossibilityDef => seq![LineNumberType::One],
        Rule::ModalConversion => seq![LineNumberType::One],
        Rule::RT => seq![LineNumberType::One],
        Rule::R4 => seq![LineNumberType::One],
        Rule::R5 => seq![LineNumberType::One],
    }
}

/// Whether the rule may be used only inside a strict subproof.
pub open spec fn spec_strict_only(r: Rule) -> bool {
    r == Rule::NecessityElim || r == Rule::R4 || r == Rule::R5
}

/// The sentence cited by argument `j` (a single-line argument).
pub open spec fn cited_sent(p: ProofV, l: LineV, j: int) -> Sentence {
    p.line_at(l.c.l[j]->One_0 as int).s
}

/// The assumption of the subproof cited by argument `j` (a range argument).
pub open spec fn cited_assumption(p: ProofV, l: LineV, j: int) -> Sentence {
    p.line_at(l.c.l[j]->Many_0 as int).s
}

/// The conclusion of the subproof cited by argument `j` (a range argument).
pub open spec fn cited_conclusion(p: ProofV, l: LineV, j: int) -> Sentence {
    p.line_at(l.c.l[j]->Many_1 as int).s
}

/// The citation has as many arguments as the rule declares.
pub open spec fn arity_ok(r: Rule, l: LineV) -> bool {
    spec_line_ord(r).len() == l.c.l.len()
}

/// Every argument has the declared shape.
pub open spec fn kinds_ok(r: Rule, l: LineV) -> bool {
    forall|j: int|
        0 <= j < l.c.l.len() ==> spec_kind_matches(spec_line_ord(r)[j], #[trigger] l.c.l[j])
}

/// Every citation points strictly into the past: a single line `n` satisfies
/// `1 <= n < l.n`; a range `s-e` satisfies `s >= 1`, `e >= 2` and `e < l.n`.
pub open spec fn bounds_ok(l: LineV) -> bool {
    forall|j: int|
        0 <= j < l.c.l.len() ==> match #[trigger] l.c.l[j] {
            LineNumber::One(n) => 1 <= n < l.n,
            LineNumber::Many(s, e) => s >= 1 && e >= 2 && e < l.n,
        }
}

/// The cited range `[s, e]` delimits a closed subproof: both ends sit at the
/// same positive depth, no interior line is shallower, and the line after
/// the end either leaves the subproof or opens a new one as a premise.
pub open spec fn subproof_ok(p: ProofV, s: int, e: int) -> bool {
    let sd = p.line_at(s).d;
    let ed = p.line_at(e).d;
    &&& sd >= 1
    &&& ed >= 1
    &&& sd == ed
    &&& forall|m: int| s <= m <= e ==> (#[trigger] p.line_at(m).d) >= sd
    &&& {
        let next = p.line_at(e + 1);
        !(next.d >= ed && !next.spec_is_premise())
    }
}

/// Every range argument delimits a closed subproof.
pub open spec fn ranges_ok(p: ProofV, l: LineV) -> bool {
    forall|j: int|
        0 <= j < l.c.l.len() ==> match #[trigger] l.c.l[j] {
            LineNumber::One(_) => true,
            LineNumber::Many(s, e) => subproof_ok(p, s as int, e as int),
        }
}

/// The accessibility ceiling just before the backward scan from line
/// `hi - 1` examines line `n`: the scan starts at the citing line's depth
/// `d0`, and drops by one whenever it crosses a line shallower than the
/// current ceiling.
pub open spec fn ceil_before(p: ProofV, d0: u16, hi: int, n: int) -> u16
    decreases hi - n,
{
    if n >= hi - 1 {
        d0
    } else {
        let c = ceil_before(p, d0, hi, n + 1);
        if p.line_at(n + 1).d < c {
            (c - 1) as u16
        } else {
            c
        }
    }
}

/// Line `n` is accessible as a sentence from line `l`: walking backward its
/// depth does not exceed the running ceiling.
pub open spec fn sent_accessible(p: ProofV, l: LineV, n: int) -> bool {
    &&& 1 <= n < l.n as int
    &&& p.line_at(n).d <= ceil_before(p, l.d, l.n as int, n)
}

/// The subproof opening at line `n` is accessible from line `l`: the opening
/// line is a premise exactly one level below the running ceiling.
pub open spec fn subp_accessible(p: ProofV, l: LineV, n: int) -> bool {
    &&& 1 <= n < l.n as int
    &&& p.line_at(n).d == ceil_before(p, l.d, l.n as int, n) + 1
    &&& p.line_at(n).spec_is_premise()
}

/// Every cited line and subproof is accessible.
pub open spec fn access_ok(p: ProofV, l: LineV) -> bool {
    forall|j: int|
        0 <= j < l.c.l.len() ==> match #[trigger] l.c.l[j] {
            LineNumber::One(n) => sent_accessible(p, l, n as int),
            LineNumber::Many(s, _) => subp_accessible(p, l, s as int),
        }
}

/// Whether line `l` lies inside a strict zone.
pub open spec fn in_strict_zone(p: ProofV, l: LineV) -> bool {
    p.strict_zones[l.n as int - 1]
}

/// The line a citation argument reaches first: the cited line itself, or the
/// opening line of the cited subproof.
pub open spec fn arg_start(a: LineNumber) -> u16 {
    match a {
        LineNumber::One(n) => n,
        LineNumber::Many(s, _) => s,
    }
}

/// A relaxed rule on a non-premise line inside a strict zone may only cite
/// material that also lies inside a strict zone; the strict-only rules are
/// the sole way to reach through the zone boundary.
pub open spec fn zone_access_ok(r: Rule, p: ProofV, l: LineV) -> bool {
    (!spec_strict_only(r) && !l.spec_is_premise() && in_strict_zone(p, l)) ==> forall|j: int|
        0 <= j < l.c.l.len() ==> p.strict_zones[arg_start(#[trigger] l.c.l[j]) as int - 1]
}

/// The number of strict subproofs left open by the lines `n .. e`
/// (exclusive of `e`), starting from the given previous depth and nesting.
pub open spec fn nest_scan(p: ProofV, n: int, e: int, depth: u16, nest: u16) -> u16
    decreases e - n,
{
    if n < 0 || n >= e {
        nest
    } else {
        let l = p.line_at(n);
        let nest2: u16 = if l.s == Sentence::Signal('□') {
            (nest + 1) as u16
        } else if l.d < depth {
            if nest == 0 {
                0u16
            } else {
                (nest - 1) as u16
            }
        } else {
            nest
        };
        nest_scan(p, n + 1, e, l.d, nest2)
    }
}

/// At most one strict-subproof descent lies open between the cited line `s`
/// and the citing line `e`.
pub open spec fn strict_nest_ok(p: ProofV, s: int, e: int) -> bool {
    nest_scan(p, s, e, 0u16, 0u16) <= 1
}

/// The rule-specific syntactic predicate: whether the cited material fits
/// the current sentence under the given rule.
pub open spec fn spec_is_right(r: Rule, p: ProofV, l: LineV) -> bool {
    match r {
        Rule::Premise => true,
        Rule::Reiteration => cited_sent(p, l, 0) == l.s,
        Rule::ConjunctionIntr => {
            let a = cited_sent(p, l, 0);
            let b = cited_sent(p, l, 1);
            &&& l.s matches Sentence::Con(lhs, rhs)
            &&& (*lhs == a || *lhs == b)
            &&& (*rhs == a || *rhs == b)
        },
        Rule::ConjunctionElim => {
            let a = cited_sent(p, l, 0);
            a matches Sentence::Con(lhs, rhs) && (l.s == *lhs || l.s == *rhs)
        },
        Rule::DisjunctionIntr => {
            let a = cited_sent(p, l, 0);
            l.s matches Sentence::Dis(lhs, rhs) && (*lhs == a || *rhs == a)
        },
        Rule::DisjunctionElim => {
            let a = cited_sent(p, l, 0);
            let p1 = cited_assumption(p, l, 1);
            let c1 = cited_conclusion(p, l, 1);
            let p2 = cited_assumption(p, l, 2);
            let c2 = cited_conclusion(p, l, 2);
            &&& a matches Sentence::Dis(lhs, rhs)
            &&& c1 == l.s
            &&& c2 == l.s
            &&& ((p1 == *lhs && p2 == *rhs) || (p1 == *rhs && p2 == *lhs))
        },
        Rule::ConditionalIntr => {
            let p1 = cited_assumption(p, l, 0);
            let c1 = cited_conclusion(p, l, 0);
            l.s matches Sentence::Imp(lhs, rhs) && *lhs == p1 && *rhs == c1
        },
        Rule::ConditionalElim => {
            let a = cited_sent(p, l, 0);
            let b = cited_sent(p, l, 1);
            ||| (a matches Sentence::Imp(lhs, rhs) && *lhs == b && *rhs == l.s)
            ||| (b matches Sentence::Imp(lhs, rhs) && *lhs == a && *rhs == l.s)
        },
        Rule::BiconditionalIntr => {
            let p1 = cited_assumption(p, l, 0);
            let c1 = cited_conclusion(p, l, 0);
            let p2 = cited_assumption(p, l, 1);
            let c2 = cited_conclusion(p, l, 1);
            &&& l.s matches Sentence::Bic(lhs, rhs)
            &&& {
                ||| (*lhs == p1 && *rhs == p2 && *lhs == c2 && *rhs == c1)
                ||| (*lhs == p2 && *rhs == p1 && *lhs == c1 && *rhs == c2)
            }
        },
        Rule::BiconditionalElim => {
            let a = cited_sent(p, l, 0);
            let b = cited_sent(p, l, 1);
            &&& a matches Sentence::Bic(lhs, rhs)
            &&& ((*lhs == b && *rhs == l.s) || (*rhs == b && *lhs == l.s))
        },
        Rule::NegationIntr => {
            let p1 = cited_assumption(p, l, 0);
            let c1 = cited_conclusion(p, l, 0);
            &&& c1 == Sentence::Signal('⊥')
            &&& l.s matches Sentence::Neg(x)
            &&& *x == p1
        },
        Rule::NegationElim => {
            let a = cited_sent(p, l, 0);
            let b = cited_sent(p, l, 1);
            &&& l.s == Sentence::Signal('⊥')
            &&& {
                ||| (a matches Sentence::Neg(x) && *x == b)
                ||| (b matches Sentence::Neg(y) && *y == a)
            }
        },
        Rule::Explosion => cited_sent(p, l, 0) == Sentence::Signal('⊥'),
        Rule::IndirectProof => {
            let p1 = cited_assumption(p, l, 0);
            let c1 = cited_conclusion(p, l, 0);
            &&& p1 matches Sentence::Neg(x)
            &&& c1 == Sentence::Signal('⊥')
            &&& *x == l.s
        },
        Rule::DisjunctiveSyllogism => {
            let a = cited_sent(p, l, 0);
            let b = cited_sent(p, l, 1);
            match a {
                Sentence::Dis(lhs, rhs) => {
                    &&& b matches Sentence::Neg(x)
                    &&& ((*x == *lhs && l.s == *rhs) || (*x == *rhs && l.s == *lhs))
                },
                _ => {
                    &&& b matches Sentence::Dis(lhs, rhs)
                    &&& a matches Sentence::Neg(x)
                    &&& ((*x == *lhs && l.s == *rhs) || (*x == *rhs && l.s == *lhs))
                },
            }
        },
        Rule::ModusTollens => {
            let a = cited_sent(p, l, 0);
            let b = cited_sent(p, l, 1);
            &&& l.s matches Sentence::Neg(s)
            &&& match a {
                Sentence::Imp(lhs, rhs) => {
                    &&& b matches Sentence::Neg(x)
                    &&& *s == *lhs
                    &&& *x == *rhs
                },
                _ => {
                    &&& b matches Sentence::Imp(lhs, rhs)
                    &&& a matches Sentence::Neg(x)
                    &&& *s == *lhs
                    &&& *x == *rhs
                },
            }
        },
        Rule::Dne => {
            let a = cited_sent(p, l, 0);
            &&& a matches Sentence::Neg(x)
            &&& *x matches Sentence::Neg(y)
            &&& *y == l.s
        },
        Rule::Lem => {
            let p1 = cited_assumption(p, l, 0);
            let c1 = cited_conclusion(p, l, 0);
            let p2 = cited_assumption(p, l, 1);
            let c2 = cited_conclusion(p, l, 1);
            &&& c1 == c2
            &&& (Sentence::Neg(Box::new(p1)) == p2 || Sentence::Neg(Box::new(p2)) == p1)
            &&& l.s == c1
        },
        Rule::DeMorgan => {
            let a = cited_sent(p, l, 0);
            match a {
                Sentence::Neg(inner) => match *inner {
                    Sentence::Con(x, y) => l.s == Sentence::Dis(
                        Box::new(Sentence::Neg(x)),
                        Box::new(Sentence::Neg(y)),
                    ),
                    Sentence::Dis(x, y) => l.s == Sentence::Con(
                        Box::new(Sentence::Neg(x)),
                        Box::new(Sentence::Neg(y)),
                    ),
                    _ => false,
                },
                Sentence::Con(x, y) => {
                    &&& *x matches Sentence::Neg(xi)
                    &&& *y matches Sentence::Neg(yi)
                    &&& l.s == Sentence::Neg(Box::new(Sentence::Dis(xi, yi)))
                },
                Sentence::Dis(x, y) => {
                    &&& *x matches Sentence::Neg(xi)
                    &&& *y matches Sentence::Neg(yi)
                    &&& l.s == Sentence::Neg(Box::new(Sentence::Con(xi, yi)))
                },
                _ => false,
            }
        },
        Rule::NecessityIntr => {
            let p1 = cited_assumption(p, l, 0);
            let c1 = cited_conclusion(p, l, 0);
            &&& p1 == Sentence::Signal('□')
            &&& l.s matches Sentence::Nec(x)
            &&& *x == c1
        },
        Rule::NecessityElim => {
            let n = l.c.l[0]->One_0;
            let a = cited_sent(p, l, 0);
            &&& a matches Sentence::Nec(x)
            &&& strict_nest_ok(p, n as int, l.n as int)
            &&& *x == l.s
        },
        Rule::PossibilityDef => {
            let a = cited_sent(p, l, 0);
            match a {
                Sentence::Pos(inner) => {
                    &&& l.s matches Sentence::Neg(b1)
                    &&& *b1 matches Sentence::Nec(b2)
                    &&& *b2 matches Sentence::Neg(b3)
                    &&& *inner == *b3
                },
                Sentence::Neg(inner) => {
                    &&& *inner matches Sentence::Nec(i2)
                    &&& *i2 matches Sentence::Neg(i3)
                    &&& l.s matches Sentence::Pos(x)
                    &&& *i3 == *x
                },
                _ => false,
            }
        },
        Rule::ModalConversion => {
            let a = cited_sent(p, l, 0);
            match a {
                Sentence::Neg(inner) => match *inner {
                    Sentence::Nec(i2) => {
                        &&& l.s matches Sentence::Pos(x)
                        &&& *x matches Sentence::Neg(y)
                        &&& i2 == y
                    },
                    Sentence::Pos(i2) => {
                        &&& l.s matches Sentence::Nec(x)
                        &&& *x matches Sentence::Neg(y)
                        &&& i2 == y
                    },
                    _ => false,
                },
                Sentence::Pos(inner) => {
                    &&& *inner matches Sentence::Neg(i2)
                    &&& l.s matches Sentence::Neg(x)
                    &&& *x matches Sentence::Nec(y)
                    &&& i2 == y
                },
                Sentence::Nec(inner) => {
                    &&& *inner matches Sentence::Neg(i2)
                    &&& l.s matches Sentence::Neg(x)
                    &&& *x matches Sentence::Pos(y)
                    &&& i2 == y
                },
                _ => false,
            }
        },
        Rule::RT => {
            let a = cited_sent(p, l, 0);
            a matches Sentence::Nec(x) && *x == l.s
        },
        Rule::R4 => {
            let n = l.c.l[0]->One_0;
            let a = cited_sent(p, l, 0);
            &&& strict_nest_ok(p, n as int, l.n as int)
            &&& a == l.s
        },
        Rule::R5 => {
            let n = l.c.l[0]->One_0;
            let a = cited_sent(p, l, 0);
            &&& a matches Sentence::Neg(inner)
            &&& *inner matches Sentence::Nec(y)
            &&& strict_nest_ok(p, n as int, l.n as int)
            &&& a == l.s
        },
    }
}

/// The shared validation of one line under one rule: the structural floor
/// in order, then the rule's own predicate; `None` means the line is
/// justified.
pub open spec fn spec_validate(r: Rule, p: ProofV, l: LineV) -> Option<CheckError> {
    if !arity_ok(r, l) {
        Some(CheckError::BadLineCount)
    } else if !kinds_ok(r, l) {
        Some(CheckError::BadLineType)
    } else if !bounds_ok(l) {
        Some(CheckError::BadLine)
    } else if !ranges_ok(p, l) {
        Some(CheckError::BadRange)
    } else if !access_ok(p, l) {
        Some(CheckError::Unavailable)
    } else if !zone_access_ok(r, p, l) {
        Some(CheckError::Unavailable)
    } else if spec_strict_only(r) && !in_strict_zone(p, l) {
        Some(CheckError::StrictOutside)
    } else if !spec_is_right(r, p, l) {
        Some(CheckError::BadUsage)
    } else {
        None
    }
}

/// Whether an executable validation outcome carries the verdict the
/// specification gives.
pub open spec fn validate_result_matches(r: Result<(), CheckError>, s: Option<CheckError>) -> bool {
    match s {
        None => r is Ok,
        Some(e) => r == Err::<(), CheckError>(e),
    }
}

/// A line belongs to the proof at its own number.
pub open spec fn line_in_proof(p: ProofV, l: LineV) -> bool {
    1 <= l.n as int <= p.lines.len() && p.line_at(l.n as int) == l
}

/// The context every rule predicate may assume: the proof is well-formed,
/// the line belongs to it, and the structural floor up to the bounds stage
/// has passed.
pub open spec fn rule_context(r: Rule, p: ProofV, l: LineV) -> bool {
    &&& p.wf()
    &&& line_in_proof(p, l)
    &&& arity_ok(r, l)
    &&& kinds_ok(r, l)
    &&& bounds_ok(l)
}

/// Counts the strict-subproof descents left open between line `s` and line
/// `e` (exclusive); more than one such descent is a misuse.
pub fn check_strict_nesting(p: &Proof, s: u16, e: u16) -> (r: Result<(), CheckError>)
    requires
        p@.wf(),
        1 <= s,
        e as int <= p@.lines.len() + 1,
    ensures
        match r {
            Ok(u) => strict_nest_ok(p@, s as int, e as int),
            Err(er) => !strict_nest_ok(p@, s as int, e as int) && er == CheckError::BadUsage,
        },
{
    let mut depth: u16 = 0;
    let mut nest: u16 = 0;
    let mut n: u16 = s;
    if s >= e {
        return Ok(());
    }
    while n < e
        invariant
            p@.wf(),
            1 <= s,
            s <= n <= e,
            e as int <= p@.lines.len() + 1,
            nest as int <= n as int - s as int,
            nest_scan(p@, s as int, e as int, 0u16, 0u16) == nest_scan(
                p@,
                n as int,
                e as int,
                depth,
                nest,
            ),
        decreases e - n,
    {
        let line = &p.lines[n as usize - 1];
        proof {
            assert(p@.lines[n - 1] == line@);
        }
        if line.s.is_nec_signal() {
            nest = nest + 1;
        } else if line.d < depth {
            if nest > 0 {
                nest = nest - 1;
            }
        }
        depth = line.d;
        n = n + 1;
    }
    if nest > 1 {
        Err(CheckError::BadUsage)
    } else {
        Ok(())
    }
}

/// Computes the accessibility ceiling in force just before the backward
/// scan from line `hi - 1` reaches line `n`.
fn ceiling_before(p: &Proof, d0: u16, hi: u16, n: u16) -> (c: u16)
    requires
        p@.wf(),
        1 <= n < hi,
        hi as int <= p@.lines.len() + 1,
    ensures
        c == ceil_before(p@, d0, hi as int, n as int),
{
    let mut c: u16 = d0;
    let mut m: u16 = hi - 1;
    while m > n
        invariant
            p@.wf(),
            n <= m <= hi - 1,
            hi as int <= p@.lines.len() + 1,
            c == ceil_before(p@, d0, hi as int, m as int),
        decreases m,
    {
        let d = p.lines[m as usize - 1].d;
        proof {
            assert(p@.line_at(m as int).d == d);
        }
        if d < c {
            c = c - 1;
        }
        m = m - 1;
    }
    c
}

/// Whether the cited range `[s, e]` delimits a closed subproof.
fn subproof_check(p: &Proof, s: u16, e: u16) -> (r: bool)
    requires
        p@.wf(),
        1 <= s,
        s < e,
        e as int + 1 <= p@.lines.len(),
    ensures
        r == subproof_ok(p@, s as int, e as int),
{
    let sd = p.lines[s as usize - 1].d;
    let ed = p.lines[e as usize - 1].d;
    proof {
        assert(p@.line_at(s as int).d == sd);
        assert(p@.line_at(e as int).d == ed);
    }
    if sd < 1 || ed < 1 || sd != ed {
        return false;
    }
    let mut m: u16 = s;
    while m <= e
        invariant
            p@.wf(),
            1 <= s,
            s <= m,
            m as int <= e as int + 1,
            e as int + 1 <= p@.lines.len(),
            sd == p@.line_at(s as int).d,
            forall|k: int| s as int <= k < m as int ==> (#[trigger] p@.line_at(k).d) >= sd,
        decreases e + 1 - m,
    {
        let d = p.lines[m as usize - 1].d;
        proof {
            assert(p@.line_at(m as int).d == d);
        }
        if d < sd {
            return false;
        }
        m = m + 1;
    }
    let next = &p.lines[e as usize];
    proof {
        assert(p@.line_at(e as int + 1) == next@);
    }
    if next.d >= ed && !next.is_premise() {
        return false;
    }
    true
}

impl Rule {
    /// The required sequence of argument shapes for this rule.
    pub fn line_ord(&self) -> (r: Vec<LineNumberType>)
        ensures
            r@ == spec_line_ord(*self),
    {
        let mut v: Vec<LineNumberType> = Vec::new();
        match self {
            Rule::Premise => {},
            Rule::Reiteration => {
                v.push(LineNumberType::One);
            },
            Rule::ConjunctionIntr => {
                v.push(LineNumberType::One);
                v.push(LineNumberType::One);
            },
            Rule::ConjunctionElim => {
                v.push(LineNumberType::One);
            },
            Rule::DisjunctionIntr => {
                v.push(LineNumberType::One);
            },
            Rule::DisjunctionElim => {
                v.push(LineNumberType::One);
                v.push(LineNumberType::Many);
                v.push(LineNumberType::Many);
            },
            Rule::ConditionalIntr => {
                v.push(LineNumberType::Many);
            },
            Rule::ConditionalElim => {
                v.push(LineNumberType::One);
                v.push(LineNumberType::One);
            },
            Rule::BiconditionalIntr => {
                v.push(LineNumberType::Many);
                v.push(LineNumberType::Many);
            },
            Rule::BiconditionalElim => {
                v.push(LineNumberType::One);
                v.push(LineNumberType::One);
            },
            Rule::NegationIntr => {
                v.push(LineNumberType::Many);
            },
            Rule::NegationElim => {
                v.push(LineNumberType::One);
                v.push(LineNumberType::One);
            },
            Rule::Explosion => {
                v.push(LineNumberType::One);
            },
            Rule::IndirectProof => {
                v.push(LineNumberType::Many);
            },
            Rule::DisjunctiveSyllogism => {
                v.push(LineNumberType::One);
                v.push(LineNumberType::One);
            },
            Rule::ModusTollens => {
                v.push(LineNumberType::One);
                v.push(LineNumberType::One);
            },
            Rule::Dne => {
                v.push(LineNumberType::One);
            },
            Rule::Lem => {
                v.push(LineNumberType::Many);
                v.push(LineNumberType::Many);
            },
            Rule::DeMorgan => {
                v.push(LineNumberType::One);
            },
            Rule::NecessityIntr => {
                v.push(LineNumberType::Many);
            },
            Rule::NecessityElim => {
                v.push(LineNumberType::One);
            },
            Rule::PossibilityDef => {
                v.push(LineNumberType::One);
            },
            Rule::ModalConversion => {
                v.push(LineNumberType::One);
            },
            Rule::RT => {
                v.push(LineNumberType::One);
            },
            Rule::R4 => {
                v.push(LineNumberType::One);
            },
            Rule::R5 => {
                v.push(LineNumberType::One);
            },
        }
        proof {
            assert(v@ =~= spec_line_ord(*self));
        }
        v
    }

    /// Whether the rule is only usable inside a strict subproof.
    pub fn strict_only(&self) -> (r: bool)
        ensures
            r == spec_strict_only(*self),
    {
        match self {
            Rule::NecessityElim => true,
            Rule::R4 => true,
            Rule::R5 => true,
            _ => false,
        }
    }

    /// The rule-specific syntactic check, run after the structural floor.
    pub fn is_right(&self, p: &Proof, l: &Line) -> (r: Result<(), CheckError>)
        requires
            rule_context(*self, p@, l@),
        ensures
            match r {
                Ok(u) => spec_is_right(*self, p@, l@),
                Err(e) => !spec_is_right(*self, p@, l@) && e == CheckError::BadUsage,
            },
    {
        let ok = match self {
            Rule::Premise => true,
            Rule::Reiteration => right_reiteration(p, l),
            Rule::ConjunctionIntr => right_conjunction_intr(p, l),
            Rule::ConjunctionElim => right_conjunction_elim(p, l),
            Rule::DisjunctionIntr => right_disjunction_intr(p, l),
            Rule::DisjunctionElim => right_disjunction_elim(p, l),
            Rule::ConditionalIntr => right_conditional_intr(p, l),
            Rule::ConditionalElim => right_conditional_elim(p, l),
            Rule::BiconditionalIntr => right_biconditional_intr(p, l),
            Rule::BiconditionalElim => right_biconditional_elim(p, l),
            Rule::NegationIntr => right_negation_intr(p, l),
            Rule::NegationElim => right_negation_elim(p, l),
            Rule::Explosion => right_explosion(p, l),
            Rule::IndirectProof => right_indirect_proof(p, l),
            Rule::DisjunctiveSyllogism => right_disjunctive_syllogism(p, l),
            Rule::ModusTollens => right_modus_tollens(p, l),
            Rule::Dne => right_dne(p, l),
            Rule::Lem => right_lem(p, l),
            Rule::DeMorgan => right_de_morgan(p, l),
            Rule::NecessityIntr => right_necessity_intr(p, l),
            Rule::NecessityElim => right_necessity_elim(p, l),
            Rule::PossibilityDef => right_possibility_def(p, l),
            Rule::ModalConversion => right_modal_conversion(p, l),
            Rule::RT => right_rt(p, l),
            Rule::R4 => right_r4(p, l),
            Rule::R5 => right_r5(p, l),
        };
        if ok {
            Ok(())
        } else {
            Err(CheckError::BadUsage)
        }
    }

    /// Validates the use of this rule to justify `line`: the structural
    /// floor in order (arity, argument shapes, bounds, subproof integrity,
    /// accessibility, strictness), then the rule's own predicate.
    #[verifier::loop_isolation(false)]
    pub fn validate(&self, p: &Proof, line: &Line) -> (r: Result<(), CheckError>)
        requires
            p@.wf(),
            line_in_proof(p@, line@),
        ensures
            validate_result_matches(r, spec_validate(*self, p@, line@)),
    {
        let ord = self.line_ord();
        let args = line.cited_lines();
        let argc = args.len();
        if ord.len() != argc {
            return Err(CheckError::BadLineCount);
        }
        let mut j: usize = 0;
        while j < argc
            invariant
                j <= argc,
                forall|k: int|
                    0 <= k < j ==> spec_kind_matches(spec_line_ord(*self)[k], #[trigger] line@.c.l[k]),
            decreases argc - j,
        {
            let o = ord[j];
            let a = args[j];
            if !o.matches(&a) {
                return Err(CheckError::BadLineType);
            }
            j += 1;
        }
        let mut j: usize = 0;
        while j < argc
            invariant
                j <= argc,
                forall|k: int|
                    0 <= k < j ==> match #[trigger] line@.c.l[k] {
                        LineNumber::One(n) => 1 <= n < line@.n,
                        LineNumber::Many(s, e) => s >= 1 && e >= 2 && e < line@.n,
                    },
            decreases argc - j,
        {
            let a = args[j];
            match a {
                LineNumber::One(n) => {
                    if n >= line.n || n < 1 {
                        return Err(CheckError::BadLine);
                    }
                },
                LineNumber::Many(s, e) => {
                    if s < 1 || e < 2 || e >= line.n {
                        return Err(CheckError::BadLine);
                    }
                },
            }
            j += 1;
        }
        proof {
            lemma_line_ranges(p@, line@);
        }
        let mut j: usize = 0;
        while j < argc
            invariant
                j <= argc,
                forall|k: int|
                    0 <= k < j ==> match #[trigger] line@.c.l[k] {
                        LineNumber::One(_) => true,
                        LineNumber::Many(s, e) => subproof_ok(p@, s as int, e as int),
                    },
            decreases argc - j,
        {
            let a = args[j];
            if let LineNumber::Many(s, e) = a {
                if !subproof_check(p, s, e) {
                    return Err(CheckError::BadRange);
                }
            }
            j += 1;
        }
        let mut j: usize = 0;
        while j < argc
            invariant
                j <= argc,
                forall|k: int|
                    0 <= k < j ==> match #[trigger] line@.c.l[k] {
                        LineNumber::One(n) => sent_accessible(p@, line@, n as int),
                        LineNumber::Many(s, _) => subp_accessible(p@, line@, s as int),
                    },
            decreases argc - j,
        {
            let a = args[j];
            match a {
                LineNumber::One(n) => {
                    let c = ceiling_before(p, line.d, line.n, n);
                    let d = p.lines[n as usize - 1].d;
                    proof {
                        assert(p@.line_at(n as int).d == d);
                    }
                    if d > c {
                        return Err(CheckError::Unavailable);
                    }
                },
                LineNumber::Many(s, _) => {
                    let c = ceiling_before(p, line.d, line.n, s);
                    let opener = &p.lines[s as usize - 1];
                    proof {
                        assert(p@.line_at(s as int) == opener@);
                    }
                    let good = c < 0xFFFFu16 && opener.d == c + 1 && opener.is_premise();
                    if !good {
                        return Err(CheckError::Unavailable);
                    }
                },
            }
            j += 1;
        }
        let zone = p.strict_zones[line.n as usize - 1];
        if !self.strict_only() && !line.is_premise() && zone {
            let mut j: usize = 0;
            while j < argc
                invariant
                    j <= argc,
                    forall|k: int|
                        0 <= k < j ==> p@.strict_zones[arg_start(#[trigger] line@.c.l[k]) as int
                            - 1],
                decreases argc - j,
            {
                let a = args[j];
                let start = match a {
                    LineNumber::One(n) => n,
                    LineNumber::Many(s, _) => s,
                };
                if !p.strict_zones[start as usize - 1] {
                    return Err(CheckError::Unavailable);
                }
                j += 1;
            }
        }
        if self.strict_only() && !zone {
            return Err(CheckError::StrictOutside);
        }
        self.is_right(p, line)
    }
}

/// Every range argument of a line of a well-formed proof runs forward.
proof fn lemma_line_ranges(p: ProofV, l: LineV)
    requires
        p.wf(),
        line_in_proof(p, l),
    ensures
        forall|j: int|
            0 <= j < l.c.l.len() ==> match #[trigger] l.c.l[j] {
                LineNumber::One(_) => true,
                LineNumber::Many(s, e) => s < e,
            },
{
    assert forall|j: int| 0 <= j < l.c.l.len() implies match #[trigger] l.c.l[j] {
        LineNumber::One(_) => true,
        LineNumber::Many(s, e) => s < e,
    } by {
        assert(p.lines[l.n as int - 1] == l);
        assert(p.lines[l.n as int - 1].c.l[j] == l.c.l[j]);
    }
}

fn right_reiteration(p: &Proof, l: &Line) -> (r: bool)
    requires
        rule_context(Rule::Reiteration, p@, l@),
    ensures
        r == spec_is_right(Rule::Reiteration, p@, l@),
{
    let source = l.cited_sentence(p, 0);
    source.eq_sentence(&l.s)
}

fn right_conjunction_intr(p: &Proof, l: &Line) -> (r: bool)
    requires
        rule_context(Rule::ConjunctionIntr, p@, l@),
    ensures
        r == spec_is_right(Rule::ConjunctionIntr, p@, l@),
{
    let a = l.cited_sentence(p, 0);
    let b = l.cited_sentence(p, 1);
    match &l.s {
        Sentence::Con(lhs, rhs) => {
            (lhs.eq_sentence(a) || lhs.eq_sentence(b)) && (rhs.eq_sentence(a) || rhs.eq_sentence(b))
        },
        _ => false,
    }
}

fn right_conjunction_elim(p: &Proof, l: &Line) -> (r: bool)
    requires
        rule_context(Rule::ConjunctionElim, p@, l@),
    ensures
        r == spec_is_right(Rule::ConjunctionElim, p@, l@),
{
    let a = l.cited_sentence(p, 0);
    match a {
        Sentence::Con(lhs, rhs) => l.s.eq_sentence(lhs) || l.s.eq_sentence(rhs),
        _ => false,
    }
}

fn right_disjunction_intr(p: &Proof, l: &Line) -> (r: bool)
    requires
        rule_context(Rule::DisjunctionIntr, p@, l@),
    ensures
        r == spec_is_right(Rule::DisjunctionIntr, p@, l@),
{
    let a = l.cited_sentence(p, 0);
    match &l.s {
        Sentence::Dis(lhs, rhs) => lhs.eq_sentence(a) || rhs.eq_sentence(a),
        _ => false,
    }
}

fn right_disjunction_elim(p: &Proof, l: &Line) -> (r: bool)
    requires
        rule_context(Rule::DisjunctionElim, p@, l@),
    ensures
        r == spec_is_right(Rule::DisjunctionElim, p@, l@),
{
    proof {
        lemma_line_ranges(p@, l@);
    }
    let a = l.cited_sentence(p, 0);
    let (p1, c1) = l.cited_subproof(p, 1);
    let (p2, c2) = l.cited_subproof(p, 2);
    match a {
        Sentence::Dis(lhs, rhs) => {
            c1.eq_sentence(&l.s) && c2.eq_sentence(&l.s) && ((p1.eq_sentence(lhs)
                && p2.eq_sentence(rhs)) || (p1.eq_sentence(rhs) && p2.eq_sentence(lhs)))
        },
        _ => false,
    }
}

fn right_conditional_intr(p: &Proof, l: &Line) -> (r: bool)
    requires
        rule_context(Rule::ConditionalIntr, p@, l@),
    ensures
        r == spec_is_right(Rule::ConditionalIntr, p@, l@),
{
    proof {
        lemma_line_ranges(p@, l@);
    }
    let (p1, c1) = l.cited_subproof(p, 0);
    match &l.s {
        Sentence::Imp(lhs, rhs) => lhs.eq_sentence(p1) && rhs.eq_sentence(c1),
        _ => false,
    }
}

fn right_conditional_elim(p: &Proof, l: &Line) -> (r: bool)
    requires
        rule_context(Rule::ConditionalElim, p@, l@),
    ensures
        r == spec_is_right(Rule::ConditionalElim, p@, l@),
{
    let a = l.cited_sentence(p, 0);
    let b = l.cited_sentence(p, 1);
    let first = match a {
        Sentence::Imp(lhs, rhs) => lhs.eq_sentence(b) && rhs.eq_sentence(&l.s),
        _ => false,
    };
    if first {
        return true;
    }
    match b {
        Sentence::Imp(lhs, rhs) => lhs.eq_sentence(a) && rhs.eq_sentence(&l.s),
        _ => false,
    }
}

fn right_biconditional_intr(p: &Proof, l: &Line) -> (r: bool)
    requires
        rule_context(Rule::BiconditionalIntr, p@, l@),
    ensures
        r == spec_is_right(Rule::BiconditionalIntr, p@, l@),
{
    proof {
        lemma_line_ranges(p@, l@);
    }
    let (p1, c1) = l.cited_subproof(p, 0);
    let (p2, c2) = l.cited_subproof(p, 1);
    match &l.s {
        Sentence::Bic(lhs, rhs) => {
            (lhs.eq_sentence(p1) && rhs.eq_sentence(p2) && lhs.eq_sentence(c2) && rhs.eq_sentence(
                c1,
            )) || (lhs.eq_sentence(p2) && rhs.eq_sentence(p1) && lhs.eq_sentence(c1)
                && rhs.eq_sentence(c2))
        },
        _ => false,
    }
}

fn right_biconditional_elim(p: &Proof, l: &Line) -> (r: bool)
    requires
        rule_context(Rule::BiconditionalElim, p@, l@),
    ensures
        r == spec_is_right(Rule::BiconditionalElim, p@, l@),
{
    let a = l.cited_sentence(p, 0);
    let b = l.cited_sentence(p, 1);
    match a {
        Sentence::Bic(lhs, rhs) => {
            (lhs.eq_sentence(b) && rhs.eq_sentence(&l.s)) || (rhs.eq_sentence(b) && lhs.eq_sentence(
                &l.s,
            ))
        },
        _ => false,
    }
}

fn right_negation_intr(p: &Proof, l: &Line) -> (r: bool)
    requires
        rule_context(Rule::NegationIntr, p@, l@),
    ensures
        r == spec_is_right(Rule::NegationIntr, p@, l@),
{
    proof {
        lemma_line_ranges(p@, l@);
    }
    let (p1, c1) = l.cited_subproof(p, 0);
    if !c1.is_bot_signal() {
        return false;
    }
    match &l.s {
        Sentence::Neg(x) => x.eq_sentence(p1),
        _ => false,
    }
}

fn right_negation_elim(p: &Proof, l: &Line) -> (r: bool)
    requires
        rule_context(Rule::NegationElim, p@, l@),
    ensures
        r == spec_is_right(Rule::NegationElim, p@, l@),
{
    let a = l.cited_sentence(p, 0);
    let b = l.cited_sentence(p, 1);
    if !l.s.is_bot_signal() {
        return false;
    }
    let first = match a {
        Sentence::Neg(x) => x.eq_sentence(b),
        _ => false,
    };
    if first {
        return true;
    }
    match b {
        Sentence::Neg(y) => y.eq_sentence(a),
        _ => false,
    }
}

fn right_explosion(p: &Proof, l: &Line) -> (r: bool)
    requires
        rule_context(Rule::Explosion, p@, l@),
    ensures
        r == spec_is_right(Rule::Explosion, p@, l@),
{
    let a = l.cited_sentence(p, 0);
    a.is_bot_signal()
}

fn right_indirect_proof(p: &Proof, l: &Line) -> (r: bool)
    requires
        rule_context(Rule::IndirectProof, p@, l@),
    ensures
        r == spec_is_right(Rule::IndirectProof, p@, l@),
{
    proof {
        lemma_line_ranges(p@, l@);
    }
    let (p1, c1) = l.cited_subproof(p, 0);
    match p1 {
        Sentence::Neg(x) => c1.is_bot_signal() && x.eq_sentence(&l.s),
        _ => false,
    }
}

fn right_disjunctive_syllogism(p: &Proof, l: &Line) -> (r: bool)
    requires
        rule_context(Rule::DisjunctiveSyllogism, p@, l@),
    ensures
        r == spec_is_right(Rule::DisjunctiveSyllogism, p@, l@),
{
    let a = l.cited_sentence(p, 0);
    let b = l.cited_sentence(p, 1);
    match a {
        Sentence::Dis(lhs, rhs) => match b {
            Sentence::Neg(x) => {
                (x.eq_sentence(lhs) && l.s.eq_sentence(rhs)) || (x.eq_sentence(rhs)
                    && l.s.eq_sentence(lhs))
            },
            _ => false,
        },
        _ => match b {
            Sentence::Dis(lhs, rhs) => match a {
                Sentence::Neg(x) => {
                    (x.eq_sentence(lhs) && l.s.eq_sentence(rhs)) || (x.eq_sentence(rhs)
                        && l.s.eq_sentence(lhs))
                },
                _ => false,
            },
            _ => false,
        },
    }
}

fn right_modus_tollens(p: &Proof, l: &Line) -> (r: bool)
    requires
        rule_context(Rule::ModusTollens, p@, l@),
    ensures
        r == spec_is_right(Rule::ModusTollens, p@, l@),
{
    let a = l.cited_sentence(p, 0);
    let b = l.cited_sentence(p, 1);
    let s = match &l.s {
        Sentence::Neg(s) => s,
        _ => {
            return false;
        },
    };
    match a {
        Sentence::Imp(lhs, rhs) => match b {
            Sentence::Neg(x) => s.eq_sentence(lhs) && x.eq_sentence(rhs),
            _ => false,
        },
        _ => match b {
            Sentence::Imp(lhs, rhs) => match a {
                Sentence::Neg(x) => s.eq_sentence(lhs) && x.eq_sentence(rhs),
                _ => false,
            },
            _ => false,
        },
    }
}

fn right_dne(p: &Proof, l: &Line) -> (r: bool)
    requires
        rule_context(Rule::Dne, p@, l@),
    ensures
        r == spec_is_right(Rule::Dne, p@, l@),
{
    let a = l.cited_sentence(p, 0);
    match a {
        Sentence::Neg(x) => match &**x {
            Sentence::Neg(y) => y.eq_sentence(&l.s),
            _ => false,
        },
        _ => false,
    }
}

fn right_lem(p: &Proof, l: &Line) -> (r: bool)
    requires
        rule_context(Rule::Lem, p@, l@),
    ensures
        r == spec_is_right(Rule::Lem, p@, l@),
{
    proof {
        lemma_line_ranges(p@, l@);
    }
    let (p1, c1) = l.cited_subproof(p, 0);
    let (p2, c2) = l.cited_subproof(p, 1);
    if !c1.eq_sentence(c2) {
        return false;
    }
    let n1 = p1.negated();
    let n2 = p2.negated();
    if !n1.eq_sentence(p2) && !n2.eq_sentence(p1) {
        return false;
    }
    l.s.eq_sentence(c1)
}

fn right_de_morgan(p: &Proof, l: &Line) -> (r: bool)
    requires
        rule_context(Rule::DeMorgan, p@, l@),
    ensures
        r == spec_is_right(Rule::DeMorgan, p@, l@),
{
    let a = l.cited_sentence(p, 0);
    match a {
        Sentence::Neg(inner) => match &**inner {
            Sentence::Con(x, y) => {
                let built = Sentence::Dis(x.negated().box_up(), y.negated().box_up());
                l.s.eq_sentence(&built)
            },
            Sentence::Dis(x, y) => {
                let built = Sentence::Con(x.negated().box_up(), y.negated().box_up());
                l.s.eq_sentence(&built)
            },
            _ => false,
        },
        Sentence::Con(x, y) => match (&**x, &**y) {
            (Sentence::Neg(xi), Sentence::Neg(yi)) => {
                let built = Sentence::Dis(xi.deep_clone().box_up(), yi.deep_clone().box_up())
                    .negated();
                l.s.eq_sentence(&built)
            },
            _ => false,
        },
        Sentence::Dis(x, y) => match (&**x, &**y) {
            (Sentence::Neg(xi), Sentence::Neg(yi)) => {
                let built = Sentence::Con(xi.deep_clone().box_up(), yi.deep_clone().box_up())
                    .negated();
                l.s.eq_sentence(&built)
            },
            _ => false,
        },
        _ => false,
    }
}

fn right_necessity_intr(p: &Proof, l: &Line) -> (r: bool)
    requires
        rule_context(Rule::NecessityIntr, p@, l@),
    ensures
        r == spec_is_right(Rule::NecessityIntr, p@, l@),
{
    proof {
        lemma_line_ranges(p@, l@);
    }
    let (p1, c1) = l.cited_subproof(p, 0);
    if !p1.is_nec_signal() {
        return false;
    }
    match &l.s {
        Sentence::Nec(x) => x.eq_sentence(c1),
        _ => false,
    }
}

fn right_necessity_elim(p: &Proof, l: &Line) -> (r: bool)
    requires
        rule_context(Rule::NecessityElim, p@, l@),
    ensures
        r == spec_is_right(Rule::NecessityElim, p@, l@),
{
    let n = l.cited_lines()[0].as_one();
    let a = l.cited_sentence(p, 0);
    match a {
        Sentence::Nec(x) => {
            match check_strict_nesting(p, n, l.n) {
                Ok(u) => x.eq_sentence(&l.s),
                Err(e) => false,
            }
        },
        _ => false,
    }
}

fn right_possibility_def(p: &Proof, l: &Line) -> (r: bool)
    requires
        rule_context(Rule::PossibilityDef, p@, l@),
    ensures
        r == spec_is_right(Rule::PossibilityDef, p@, l@),
{
    let a = l.cited_sentence(p, 0);
    match a {
        Sentence::Pos(inner) => match &l.s {
            Sentence::Neg(b1) => match &**b1 {
                Sentence::Nec(b2) => match &**b2 {
                    Sentence::Neg(b3) => inner.eq_sentence(b3),
                    _ => false,
                },
                _ => false,
            },
            _ => false,
        },
        Sentence::Neg(inner) => match &**inner {
            Sentence::Nec(i2) => match &**i2 {
                Sentence::Neg(i3) => match &l.s {
                    Sentence::Pos(x) => i3.eq_sentence(x),
                    _ => false,
                },
                _ => false,
            },
            _ => false,
        },
        _ => false,
    }
}

fn right_modal_conversion(p: &Proof, l: &Line) -> (r: bool)
    requires
        rule_context(Rule::ModalConversion, p@, l@),
    ensures
        r == spec_is_right(Rule::ModalConversion, p@, l@),
{
    let a = l.cited_sentence(p, 0);
    match a {
        Sentence::Neg(inner) => match &**inner {
            Sentence::Nec(i2) => match &l.s {
                Sentence::Pos(x) => match &**x {
                    Sentence::Neg(y) => i2.eq_sentence(y),
                    _ => false,
                },
                _ => false,
            },
            Sentence::Pos(i2) => match &l.s {
                Sentence::Nec(x) => match &**x {
                    Sentence::Neg(y) => i2.eq_sentence(y),
                    _ => false,
                },
                _ => false,
            },
            _ => false,
        },
        Sentence::Pos(inner) => match &**inner {
            Sentence::Neg(i2) => match &l.s {
                Sentence::Neg(x) => match &**x {
                    Sentence::Nec(y) => i2.eq_sentence(y),
                    _ => false,
                },
                _ => false,
            },
            _ => false,
        },
        Sentence::Nec(inner) => match &**inner {
            Sentence::Neg(i2) => match &l.s {
                Sentence::Neg(x) => match &**x {
                    Sentence::Pos(y) => i2.eq_sentence(y),
                    _ => false,
                },
                _ => false,
            },
            _ => false,
        },
        _ => false,
    }
}

fn right_rt(p: &Proof, l: &Line) -> (r: bool)
    requires
        rule_context(Rule::RT, p@, l@),
    ensures
        r == spec_is_right(Rule::RT, p@, l@),
{
    let a = l.cited_sentence(p, 0);
    match a {
        Sentence::Nec(x) => x.eq_sentence(&l.s),
        _ => false,
    }
}

fn right_r4(p: &Proof, l: &Line) -> (r: bool)
    requires
        rule_context(Rule::R4, p@, l@),
    ensures
        r == spec_is_right(Rule::R4, p@, l@),
{
    let n = l.cited_lines()[0].as_one();
    let a = l.cited_sentence(p, 0);
    match check_strict_nesting(p, n, l.n) {
        Ok(u) => a.eq_sentence(&l.s),
        Err(e) => false,
    }
}

fn right_r5(p: &Proof, l: &Line) -> (r: bool)
    requires
        rule_context(Rule::R5, p@, l@),
    ensures
        r == spec_is_right(Rule::R5, p@, l@),
{
    let n = l.cited_lines()[0].as_one();
    let a = l.cited_sentence(p, 0);
    match a {
        Sentence::Neg(inner) => match &**inner {
            Sentence::Nec(y) => {
                match check_strict_nesting(p, n, l.n) {
                    Ok(u) => a.eq_sentence(&l.s),
                    Err(e) => false,
                }
            },
            _ => false,
        },
        _ => false,
    }
}

} // verus!

