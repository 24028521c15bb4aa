//! The checker: a registry from rule identifiers to rules, and the
//! validation of a whole proof against it.

use vstd::prelude::*;
use vstd::string::StringExecFns;

use crate::error::strings_equal;
use crate::fitch::Proof;
use crate::fitch::ProofV;
use crate::fitch::LineV;
use crate::rules::CheckError;
use crate::rules::CheckErrors;
use crate::rules::Rule;
use crate::rules::spec_validate;

verus! {

/// A set of rules to install or remove, as `(identifier, rule)` pairs.
pub type Ruleset = Vec<(String, Rule)>;

/// The identifier-to-rule pairs of a ruleset, by character content.
pub open spec fn entries_view(rs: Seq<(String, Rule)>) -> Seq<(Seq<char>, Rule)> {
    rs.map_values(|pr: (String, Rule)| (pr.0@, pr.1))
}

/// The registry that a sequence of entries denotes: later entries override
/// earlier ones.
pub open spec fn entries_map(es: Seq<(Seq<char>, Rule)>) -> Map<Seq<char>, Rule>
    decreases es.len(),
{
    if es.len() == 0 {
        Map::<Seq<char>, Rule>::empty()
    } else {
        entries_map(es.drop_last()).insert(es.last().0, es.last().1)
    }
}

/// Installing entries on top of a registry, in order.
pub open spec fn add_entries(m: Map<Seq<char>, Rule>, es: Seq<(Seq<char>, Rule)>) -> Map<
    Seq<char>,
    Rule,
>
    decreases es.len(),
{
    if es.len() == 0 {
        m
    } else {
        add_entries(m, es.drop_last()).insert(es.last().0, es.last().1)
    }
}

/// Removing the identifiers of `es` from a registry.
pub open spec fn del_entries(m: Map<Seq<char>, Rule>, es: Seq<(Seq<char>, Rule)>) -> Map<
    Seq<char>,
    Rule,
>
    decreases es.len(),
{
    if es.len() == 0 {
        m
    } else {
        del_entries(m, es.drop_last()).remove(es.last().0)
    }
}

/// The verdict on one line: the cited rule must exist and its validation
/// must pass.
pub open spec fn spec_line_check(m: Map<Seq<char>, Rule>, p: ProofV, l: LineV) -> Option<
    CheckError,
> {
    if !m.contains_key(l.c.r) {
        Some(CheckError::NoSuchRule)
    } else {
        spec_validate(m[l.c.r], p, l)
    }
}

/// The check errors of the lines from `i` on, each with its line number, in
/// line order.
pub open spec fn check_errors_from(m: Map<Seq<char>, Rule>, p: ProofV, i: int) -> Seq<
    (u16, CheckError),
>
    decreases p.lines.len() - i,
{
    if i < 0 || i >= p.lines.len() {
        Seq::<(u16, CheckError)>::empty()
    } else {
        (match spec_line_check(m, p, p.lines[i]) {
            Some(e) => seq![(p.lines[i].n, e)],
            None => Seq::<(u16, CheckError)>::empty(),
        }) + check_errors_from(m, p, i + 1)
    }
}

/// All check errors of a proof under a registry, in line order.
pub open spec fn spec_check_errors(m: Map<Seq<char>, Rule>, p: ProofV) -> Seq<(u16, CheckError)> {
    check_errors_from(m, p, 0)
}

/// The checker: owns the installed rules, keyed by their citation
/// identifiers.
pub struct Checker {
    rules: Vec<(String, Rule)>,
}

impl View for Checker {
    type V = Map<Seq<char>, Rule>;

    closed spec fn view(&self) -> Map<Seq<char>, Rule> {
        entries_map(entries_view(self.rules@))
    }
}

/// A backward scan finding a key resolves exactly as the registry map does.
proof fn lemma_entries_lookup(es: Seq<(Seq<char>, Rule)>, k: Seq<char>, i: int)
    requires
        0 <= i < es.len(),
        es[i].0 == k,
        forall|j: int| i < j < es.len() ==> (#[trigger] es[j]).0 != k,
    ensures
        entries_map(es).contains_key(k),
        entries_map(es)[k] == es[i].1,
    decreases es.len(),
{
    if i == es.len() - 1 {
    } else {
        assert(es.last().0 != k);
        lemma_entries_lookup(es.drop_last(), k, i);
    }
}

/// A key no entry carries is not in the registry map.
proof fn lemma_entries_absent(es: Seq<(Seq<char>, Rule)>, k: Seq<char>)
    requires
        forall|j: int| 0 <= j < es.len() ==> (#[trigger] es[j]).0 != k,
    ensures
        !entries_map(es).contains_key(k),
    decreases es.len(),
{
    if es.len() > 0 {
        lemma_entries_absent(es.drop_last(), k);
    }
}

/// Filtering out one key from the entries removes it from the registry map.
proof fn lemma_entries_filtered(
    es: Seq<(Seq<char>, Rule)>,
    fs: Seq<(Seq<char>, Rule)>,
    k: Seq<char>,
)
    requires
        fs == es.filter(|pr: (Seq<char>, Rule)| pr.0 != k),
    ensures
        entries_map(fs) == entries_map(es).remove(k),
    decreases es.len(),
{
    reveal(Seq::filter);
    if es.len() == 0 {
        assert(entries_map(fs) =~= entries_map(es).remove(k));
    } else {
        let pred = |pr: (Seq<char>, Rule)| pr.0 != k;
        lemma_entries_filtered(es.drop_last(), es.drop_last().filter(pred), k);
        if pred(es.last()) {
            assert(fs == es.drop_last().filter(pred).push(es.last()));
            assert(fs.drop_last() == es.drop_last().filter(pred));
            assert(entries_map(fs) =~= entries_map(es).remove(k));
        } else {
            assert(fs == es.drop_last().filter(pred));
            assert(entries_map(fs) =~= entries_map(es).remove(k));
        }
    }
}

impl Checker {
    /// A fresh checker holding only the premise rule, under the premise
    /// identifier and the placeholder identifier.
    pub fn new() -> (r: Checker)
        ensures
            r@ == Map::<Seq<char>, Rule>::empty().insert(
                crate::fitch::premise_id(),
                Rule::Premise,
            ).insert(crate::fitch::placeholder_id(), Rule::Premise),
    {
        let mut rules: Vec<(String, Rule)> = Vec::new();
        rules.push((String::from_str("PR"), Rule::Premise));
        rules.push((String::from_str("?"), Rule::Premise));
        let r = Checker { rules };
        proof {
            let es = entries_view(r.rules@);
            assert(es.len() == 2);
            assert(es.drop_last().drop_last() =~= Seq::<(Seq<char>, Rule)>::empty());
            assert(es.drop_last().last() == ("PR"@, Rule::Premise));
            assert(es.last() == ("?"@, Rule::Premise));
            assert(entries_map(es.drop_last().drop_last()) =~= Map::<Seq<char>, Rule>::empty());
            assert(entries_map(es.drop_last()) =~= Map::<Seq<char>, Rule>::empty().insert(
                "PR"@,
                Rule::Premise,
            ));
            assert(r@ =~= Map::<Seq<char>, Rule>::empty().insert(
                crate::fitch::premise_id(),
                Rule::Premise,
            ).insert(crate::fitch::placeholder_id(), Rule::Premise));
        }
        r
    }

    /// Installs every rule of the set, later entries overriding earlier
    /// ones.
    pub fn add_ruleset(&mut self, ruleset: &Ruleset)
        ensures
            final(self)@ == add_entries(old(self)@, entries_view(ruleset@)),
    {
        let count = ruleset.len();
        let mut k: usize = 0;
        while k < count
            invariant
                count == ruleset@.len(),
                k <= count,
                self@ == add_entries(old(self)@, entries_view(ruleset@).take(k as int)),
            decreases count - k,
        {
            let id = ruleset[k].0.clone();
            let rule = ruleset[k].1;
            let ghost pre = entries_view(self.rules@);
            self.rules.push((id, rule));
            proof {
                let es = entries_view(self.rules@);
                assert(es.drop_last() =~= pre);
                assert(es.last() == (ruleset@[k as int].0@, ruleset@[k as int].1));
                assert(entries_view(ruleset@).take(k + 1 as int).drop_last() =~= entries_view(
                    ruleset@,
                ).take(k as int));
                assert(entries_view(ruleset@).take(k + 1 as int).last() == (
                    ruleset@[k as int].0@,
                    ruleset@[k as int].1,
                ));
            }
            k += 1;
        }
        proof {
            assert(entries_view(ruleset@).take(count as int) =~= entries_view(ruleset@));
        }
    }

    /// Removes every identifier of the set from the registry.
    pub fn del_ruleset(&mut self, ruleset: &Ruleset)
        ensures
            final(self)@ == del_entries(old(self)@, entries_view(ruleset@)),
    {
        let count = ruleset.len();
        let mut k: usize = 0;
        while k < count
            invariant
                count == ruleset@.len(),
                k <= count,
                self@ == del_entries(old(self)@, entries_view(ruleset@).take(k as int)),
            decreases count - k,
        {
            let ghost pre = entries_view(self.rules@);
            let id = &ruleset[k].0;
            let ghost kk = id@;
            let n = self.rules.len();
            let mut kept: Vec<(String, Rule)> = Vec::new();
            let mut m: usize = 0;
            while m < n
                invariant
                    n == self.rules@.len(),
                    m <= n,
                    pre == entries_view(self.rules@),
                    kk == id@,
                    entries_view(kept@) == entries_view(self.rules@.take(m as int)).filter(
                        |pr: (Seq<char>, Rule)| pr.0 != kk,
                    ),
                decreases n - m,
            {
                proof {
                    reveal(Seq::filter);
                }
                let ghost kpre = entries_view(kept@);
                let keep = !strings_equal(&self.rules[m].0, id);
                proof {
                    assert(entries_view(self.rules@.take(m + 1 as int)).drop_last() =~=
                        entries_view(self.rules@.take(m as int)));
                    assert(entries_view(self.rules@.take(m + 1 as int)).last() == (
                        self.rules@[m as int].0@,
                        self.rules@[m as int].1,
                    ));
                }
                if keep {
                    let entry_id = self.rules[m].0.clone();
                    let entry_rule = self.rules[m].1;
                    kept.push((entry_id, entry_rule));
                    proof {
                        assert(entries_view(kept@).drop_last() =~= kpre);
                        assert(entries_view(kept@).last() == (
                            self.rules@[m as int].0@,
                            self.rules@[m as int].1,
                        ));
                        assert(entries_view(kept@) =~= kpre.push(
                            (self.rules@[m as int].0@, self.rules@[m as int].1),
                        ));
                        assert(entries_view(kept@) =~= entries_view(
                            self.rules@.take(m + 1 as int),
                        ).filter(|pr: (Seq<char>, Rule)| pr.0 != kk));
                    }
                } else {
                    proof {
                        assert(entries_view(kept@) =~= entries_view(
                            self.rules@.take(m + 1 as int),
                        ).filter(|pr: (Seq<char>, Rule)| pr.0 != kk));
                    }
                }
                m += 1;
            }
            proof {
                assert(self.rules@.take(n as int) =~= self.rules@);
                assert(entries_view(kept@) == pre.filter(|pr: (Seq<char>, Rule)| pr.0 != kk));
            }
            self.rules = kept;
            proof {
                lemma_entries_filtered(pre, entries_view(self.rules@), kk);
                assert(kk == entries_view(ruleset@)[k as int].0);
                assert(entries_view(ruleset@).take(k + 1 as int).drop_last() =~= entries_view(
                    ruleset@,
                ).take(k as int));
                assert(entries_view(ruleset@).take(k + 1 as int).last() == (
                    ruleset@[k as int].0@,
                    ruleset@[k as int].1,
                ));
            }
            k += 1;
        }
        proof {
            assert(entries_view(ruleset@).take(count as int) =~= entries_view(ruleset@));
        }
    }

    /// Looks up a rule by its identifier; the last installed entry wins.
    fn lookup(&self, id: &String) -> (r: Option<Rule>)
        ensures
            match r {
                Some(rule) => self@.contains_key(id@) && self@[id@] == rule,
                None => !self@.contains_key(id@),
            },
    {
        let n = self.rules.len();
        let mut m: usize = n;
        while m > 0
            invariant
                n == self.rules@.len(),
                m <= n,
                forall|j: int|
                    m <= j < n ==> (#[trigger] entries_view(self.rules@)[j]).0 != id@,
            decreases m,
        {
            m -= 1;
            if strings_equal(&self.rules[m].0, id) {
                proof {
                    assert(entries_view(self.rules@)[m as int].0 == id@);
                    lemma_entries_lookup(entries_view(self.rules@), id@, m as int);
                }
                return Some(self.rules[m].1);
            }
            proof {
                assert(entries_view(self.rules@)[m as int].0 != id@);
            }
        }
        proof {
            lemma_entries_absent(entries_view(self.rules@), id@);
        }
        None
    }

    /// Checks every line of the proof in order, collecting the verdicts;
    /// success means every line is justified.
    #[verifier::loop_isolation(false)]
    pub fn check_proof(&self, p: &Proof) -> (r: Result<(), CheckErrors>)
        requires
            p@.wf(),
        ensures
            match r {
                Ok(u) => spec_check_errors(self@, p@).len() == 0,
                Err(e) => e.deep_view() == spec_check_errors(self@, p@) && e.deep_view().len() > 0,
            },
    {
        let mut errors: Vec<(u16, CheckError)> = Vec::new();
        let count = p.lines.len();
        let mut i: usize = 0;
        while i < count
            invariant
                i <= count,
                errors.deep_view() + check_errors_from(self@, p@, i as int) == spec_check_errors(
                    self@,
                    p@,
                ),
            decreases count - i,
        {
            let ghost pre = errors.deep_view();
            let line = &p.lines[i];
            proof {
                assert(p@.lines[i as int] == line@);
            }
            match self.lookup(&line.c.r) {
                None => {
                    errors.push((line.n, CheckError::NoSuchRule));
                    proof {
                        assert(errors.deep_view() =~= pre.push((line@.n, CheckError::NoSuchRule)));
                        assert(pre + (seq![(line@.n, CheckError::NoSuchRule)] + check_errors_from(
                            self@,
                            p@,
                            i + 1 as int,
                        )) =~= errors.deep_view() + check_errors_from(self@, p@, i + 1 as int));
                    }
                },
                Some(rule) => {
                    match rule.validate(p, line) {
                        Ok(u) => {
                            proof {
                                assert(check_errors_from(self@, p@, i as int) == check_errors_from(
                                    self@,
                                    p@,
                                    i + 1 as int,
                                ));
                            }
                        },
                        Err(e) => {
                            errors.push((line.n, e));
                            proof {
                                assert(errors.deep_view() =~= pre.push((line@.n, e)));
                                assert(pre + (seq![(line@.n, e)] + check_errors_from(
                                    self@,
                                    p@,
                                    i + 1 as int,
                                )) =~= errors.deep_view() + check_errors_from(
                                    self@,
                                    p@,
                                    i + 1 as int,
                                ));
                            }
                        },
                    }
                },
            }
            i += 1;
        }
        proof {
            assert(errors.deep_view() + check_errors_from(self@, p@, count as int) =~=
                errors.deep_view());
            assert(errors.deep_view().len() == errors@.len());
        }
        if errors.len() > 0 {
            Err(errors)
        } else {
            Ok(())
        }
    }
}

proof fn lemma_check_ok_lines(m: Map<Seq<char>, Rule>, p: ProofV, i: int)
    requires
        0 <= i <= p.lines.len(),
        check_errors_from(m, p, i).len() == 0,
    ensures
        forall|k: int|
            i <= k < p.lines.len() ==> spec_line_check(m, p, #[trigger] p.lines[k]) is None,
    decreases p.lines.len() - i,
{
    if i < p.lines.len() {
        assert(check_errors_from(m, p, i).len() >= check_errors_from(m, p, i + 1).len());
        lemma_check_ok_lines(m, p, i + 1);
    }
}

/// When a whole proof checks, every line that a strict-only rule justifies
/// lies inside a strict zone.
pub proof fn lemma_check_ok_strictness(m: Map<Seq<char>, Rule>, p: ProofV)
    requires
        spec_check_errors(m, p).len() == 0,
    ensures
        forall|k: int|
            0 <= k < p.lines.len() ==> m.contains_key((#[trigger] p.lines[k]).c.r)
                && (crate::rules::spec_strict_only(m[p.lines[k].c.r])
                ==> crate::rules::in_strict_zone(p, p.lines[k])),
{
    lemma_check_ok_lines(m, p, 0);
}

/// When a whole proof checks, every citation points strictly before its
/// citing line and into that line's accessibility cone: cited sentences are
/// accessible, and cited subproofs open accessibly.
pub proof fn lemma_check_ok_citations(m: Map<Seq<char>, Rule>, p: ProofV)
    requires
        spec_check_errors(m, p).len() == 0,
    ensures
        forall|k: int, j: int|
            0 <= k < p.lines.len() && 0 <= j < p.lines[k].c.l.len()
                ==> match #[trigger] p.lines[k].c.l[j] {
                crate::citation::LineNumber::One(n) => 1 <= n < p.lines[k].n
                    && crate::rules::sent_accessible(p, p.lines[k], n as int),
                crate::citation::LineNumber::Many(s, e) => 1 <= s && 2 <= e && e < p.lines[k].n
                    && crate::rules::subp_accessible(p, p.lines[k], s as int),
            },
{
    lemma_check_ok_lines(m, p, 0);
    assert forall|k: int, j: int|
        0 <= k < p.lines.len() && 0 <= j < p.lines[k].c.l.len() implies match #[trigger] p.lines[k].c.l[j] {
        crate::citation::LineNumber::One(n) => 1 <= n < p.lines[k].n
            && crate::rules::sent_accessible(p, p.lines[k], n as int),
        crate::citation::LineNumber::Many(s, e) => 1 <= s && 2 <= e && e < p.lines[k].n
            && crate::rules::subp_accessible(p, p.lines[k], s as int),
    } by {
        let l = p.lines[k];
        assert(spec_line_check(m, p, l) is None);
        let rule = m[l.c.r];
        assert(spec_validate(rule, p, l) is None);
        assert(crate::rules::bounds_ok(l));
        assert(crate::rules::access_ok(p, l));
    }
}

impl Default for Checker {
    /// The same registry as [`Checker::new`].
    fn default() -> (r: Checker)
        ensures
            r@ == Map::<Seq<char>, Rule>::empty().insert(
                crate::fitch::premise_id(),
                Rule::Premise,
            ).insert(crate::fitch::placeholder_id(), Rule::Premise),
    {
        Checker::new()
    }
}

} // verus!
