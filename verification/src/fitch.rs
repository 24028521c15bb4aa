//! Proof assembly: rows of `(depth, sentence, citation)` text become an
//! ordered vector of parsed lines, together with the strict-zone marking
//! that modal rules consult.

use vstd::prelude::*;
use vstd::string::StringExecFns;

use crate::citation::Citation;
use crate::citation::CitationV;
use crate::citation::LineNumber;
use crate::citation::spec_parse_citation;
use crate::error::ParseError;
use crate::error::ParseErrorV;
use crate::error::strings_equal;
use crate::sentence::Sentence;
use crate::sentence::spec_parse_sentence;

verus! {

/// All parse failures of a proof, each with its one-based line number.
pub type ParseErrors = Vec<(u16, ParseError)>;

/// One proof line: its sentence, its justifying citation, its one-based
/// number, and the nesting depth of its subproof.
#[derive(Debug)]
pub struct Line {
    /// The sentence asserted on this line.
    pub s: Sentence,
    /// The citation justifying the sentence.
    pub c: Citation,
    /// The one-based position of this line in the proof.
    pub n: u16,
    /// The nesting depth of the enclosing subproof (zero at top level).
    pub d: u16,
}

/// The specification-level value of a [`Line`].
pub struct LineV {
    pub s: Sentence,
    pub c: CitationV,
    pub n: u16,
    pub d: u16,
}

impl View for Line {
    type V = LineV;

    open spec fn view(&self) -> LineV {
        LineV { s: self.s, c: self.c@, n: self.n, d: self.d }
    }
}

/// The rule identifier of the premise rule.
pub open spec fn premise_id() -> Seq<char> {
    "PR"@
}

/// The rule identifier of the placeholder rule.
pub open spec fn placeholder_id() -> Seq<char> {
    "?"@
}

impl LineV {
    /// Whether this line is a premise.
    pub open spec fn spec_is_premise(self) -> bool {
        self.c.r == premise_id()
    }
}

/// A whole proof: its lines in order, and one strictness bit per line.
#[derive(Debug)]
pub struct Proof {
    /// For each line, whether it lies inside a strict (modal) subproof.
    pub strict_zones: Vec<bool>,
    /// The proof lines, in order.
    pub lines: Vec<Line>,
}

/// The specification-level value of a [`Proof`].
pub struct ProofV {
    pub strict_zones: Seq<bool>,
    pub lines: Seq<LineV>,
}

/// The views of a vector of lines.
pub open spec fn lines_view(ls: Seq<Line>) -> Seq<LineV> {
    ls.map_values(|l: Line| l@)
}

impl View for Proof {
    type V = ProofV;

    open spec fn view(&self) -> ProofV {
        ProofV { strict_zones: self.strict_zones@, lines: lines_view(self.lines@) }
    }
}

impl ProofV {
    /// The line numbered `n` (one-based).
    pub open spec fn line_at(self, n: int) -> LineV {
        self.lines[n - 1]
    }

    /// Structural well-formedness: the zone vector matches the line count,
    /// every line carries its own position, and every range argument runs
    /// forward.
    pub open spec fn wf(self) -> bool {
        &&& self.strict_zones.len() == self.lines.len()
        &&& self.lines.len() <= 0xFFFF
        &&& forall|k: int| 0 <= k < self.lines.len() ==> (#[trigger] self.lines[k].n) == k + 1
        &&& forall|k: int, j: int|
            0 <= k < self.lines.len() && 0 <= j < self.lines[k].c.l.len()
                ==> match #[trigger] self.lines[k].c.l[j] {
                LineNumber::One(_) => true,
                LineNumber::Many(s, e) => s < e,
            }
    }
}

/// The strict-zone bits of `lines` from position `i` on, given the previous
/// line's depth and the number of strict subproofs currently open.
pub open spec fn zones_acc(lines: Seq<LineV>, i: int, depth: u16, nest: u16) -> Seq<bool>
    decreases lines.len() - i,
{
    if i < 0 || i >= lines.len() {
        Seq::<bool>::empty()
    } else {
        let l = lines[i];
        let nest2: u16 = if l.s == Sentence::Signal('□') {
            (nest + 1) as u16
        } else if l.d < depth {
            if nest == 0 {
                0u16
            } else {
                (nest - 1) as u16
            }
        } else {
            nest
        };
        seq![nest2 > 0] + zones_acc(lines, i + 1, l.d, nest2)
    }
}

/// The strict-zone bits of a whole proof.
pub open spec fn spec_strict_zones(lines: Seq<LineV>) -> Seq<bool> {
    zones_acc(lines, 0, 0u16, 0u16)
}

/// The view of one parse row.
pub open spec fn rows_view(rows: Seq<(u16, &str, &str)>) -> Seq<(u16, Seq<char>, Seq<char>)> {
    rows.map_values(|r: (u16, &str, &str)| (r.0, r.1@, r.2@))
}

/// Whether a successfully parsed row is rejected for carrying the necessity
/// signal outside a premise.
pub open spec fn row_bad_necessity(s: Sentence, c: CitationV) -> bool {
    s == Sentence::Signal('□') && c.r != premise_id()
}

/// The parse errors of the rows from `i` on, each with its one-based row
/// number, in row order.
pub open spec fn rows_errors(rv: Seq<(u16, Seq<char>, Seq<char>)>, i: int) -> Seq<
    (u16, ParseErrorV),
>
    decreases rv.len() - i,
{
    if i < 0 || i >= rv.len() {
        Seq::<(u16, ParseErrorV)>::empty()
    } else {
        let n = (i + 1) as u16;
        let s = spec_parse_sentence(rv[i].1);
        let c = spec_parse_citation(rv[i].2);
        let here: Seq<(u16, ParseErrorV)> = if s is Ok && c is Ok {
            if row_bad_necessity(s->Ok_0, c->Ok_0) {
                seq![(n, ParseErrorV::BadNecessity)]
            } else {
                Seq::<(u16, ParseErrorV)>::empty()
            }
        } else {
            (if s is Err {
                seq![(n, s->Err_0)]
            } else {
                Seq::<(u16, ParseErrorV)>::empty()
            }) + (if c is Err {
                seq![(n, c->Err_0)]
            } else {
                Seq::<(u16, ParseErrorV)>::empty()
            })
        };
        here + rows_errors(rv, i + 1)
    }
}

/// The lines assembled from the rows from `i` on: every row whose sentence
/// and citation parse and that does not misuse the necessity signal.
pub open spec fn rows_lines(rv: Seq<(u16, Seq<char>, Seq<char>)>, i: int) -> Seq<LineV>
    decreases rv.len() - i,
{
    if i < 0 || i >= rv.len() {
        Seq::<LineV>::empty()
    } else {
        let s = spec_parse_sentence(rv[i].1);
        let c = spec_parse_citation(rv[i].2);
        let here: Seq<LineV> = if s is Ok && c is Ok && !row_bad_necessity(s->Ok_0, c->Ok_0) {
            seq![LineV { s: s->Ok_0, c: c->Ok_0, n: (i + 1) as u16, d: rv[i].0 }]
        } else {
            Seq::<LineV>::empty()
        };
        here + rows_lines(rv, i + 1)
    }
}

/// The meaning of [`Proof::parse`]: all rows are parsed, all errors are
/// collected; with no errors the proof is the parsed lines together with
/// their strict-zone bits.
pub open spec fn spec_proof_parse(rv: Seq<(u16, Seq<char>, Seq<char>)>) -> Result<
    ProofV,
    Seq<(u16, ParseErrorV)>,
> {
    let errs = rows_errors(rv, 0);
    if errs.len() > 0 {
        Err(errs)
    } else {
        let lines = rows_lines(rv, 0);
        Ok(ProofV { strict_zones: spec_strict_zones(lines), lines: lines })
    }
}

/// Whether an executable proof parse outcome carries the value the
/// specification gives.
pub open spec fn proof_result_matches(
    r: Result<Proof, ParseErrors>,
    s: Result<ProofV, Seq<(u16, ParseErrorV)>>,
) -> bool {
    match (r, s) {
        (Ok(a), Ok(b)) => a@ == b,
        (Err(a), Err(b)) => a.deep_view() == b,
        _ => false,
    }
}

impl Line {
    /// The citation arguments of this line.
    pub fn cited_lines(&self) -> (r: &Vec<LineNumber>)
        ensures
            r@ == self@.c.l,
    {
        &self.c.l
    }

    /// Whether this line is a premise.
    pub fn is_premise(&self) -> (r: bool)
        ensures
            r == self@.spec_is_premise(),
    {
        let pr = String::from_str("PR");
        strings_equal(&self.c.r, &pr)
    }

    /// The sentence cited by argument `n`, which must be a single line in
    /// bounds.
    pub fn cited_sentence<'p>(&self, p: &'p Proof, n: usize) -> (r: &'p Sentence)
        requires
            n < self@.c.l.len(),
            self@.c.l[n as int] matches LineNumber::One(ln) && 1 <= ln <= p@.lines.len(),
        ensures
            *r == p@.line_at(self@.c.l[n as int]->One_0 as int).s,
    {
        let ln = self.c.l[n].as_one();
        &p.lines[ln as usize - 1].s
    }

    /// The assumption and conclusion sentences of the subproof cited by
    /// argument `n`, which must be a range in bounds.
    pub fn cited_subproof<'p>(&self, p: &'p Proof, n: usize) -> (r: (&'p Sentence, &'p Sentence))
        requires
            n < self@.c.l.len(),
            self@.c.l[n as int] matches LineNumber::Many(s, e) && 1 <= s && s <= p@.lines.len()
                && 1 <= e && e <= p@.lines.len(),
        ensures
            *r.0 == p@.line_at(self@.c.l[n as int]->Many_0 as int).s,
            *r.1 == p@.line_at(self@.c.l[n as int]->Many_1 as int).s,
    {
        let (s, e) = self.c.l[n].as_many();
        (&p.lines[s as usize - 1].s, &p.lines[e as usize - 1].s)
    }
}

impl Proof {
    /// The number of lines in the proof.
    pub fn len(&self) -> (r: usize)
        ensures
            r == self@.lines.len(),
    {
        self.lines.len()
    }

    /// The line numbered `n` (one-based), if it exists.
    pub fn line(&self, n: u16) -> (r: Option<&Line>)
        ensures
            match r {
                Some(l) => 1 <= n <= self@.lines.len() && l@ == self@.line_at(n as int),
                None => n == 0 || n > self@.lines.len(),
            },
    {
        if n == 0 {
            return None;
        }
        let idx = n as usize - 1;
        if idx < self.lines.len() {
            Some(&self.lines[idx])
        } else {
            None
        }
    }

    /// Whether any line is justified by the placeholder rule `?`.
    pub fn contains_placeholders(&self) -> (r: bool)
        ensures
            r == exists|k: int|
                0 <= k < self@.lines.len() && (#[trigger] self@.lines[k].c.r) == placeholder_id(),
    {
        let q = String::from_str("?");
        let len = self.lines.len();
        let mut k: usize = 0;
        while k < len
            invariant
                len == self.lines@.len(),
                k <= len,
                q@ == placeholder_id(),
                forall|j: int| 0 <= j < k ==> (#[trigger] self@.lines[j].c.r) != placeholder_id(),
            decreases len - k,
        {
            let hit = strings_equal(&self.lines[k].c.r, &q);
            proof {
                assert(self@.lines[k as int] == self.lines@[k as int]@);
                assert(self@.lines[k as int].c.r == self.lines@[k as int].c.r@);
            }
            if hit {
                return true;
            }
            k += 1;
        }
        false
    }

    /// Parses a whole proof from `(depth, sentence, citation)` rows: parses
    /// every row, gathers all errors, and on success computes the
    /// strict-zone bits.  At most 65535 rows are accepted, since line
    /// numbers are sixteen-bit.
    #[verifier::loop_isolation(false)]
    #[verifier::rlimit(50)]
    pub fn parse<'a>(rows: &Vec<(u16, &'a str, &'a str)>) -> (r: Result<Proof, ParseErrors>)
        requires
            rows@.len() <= 0xFFFF,
        ensures
            proof_result_matches(r, spec_proof_parse(rows_view(rows@))),
            r matches Ok(p) ==> p@.wf() && p@.lines.len() == rows@.len(),
    {
        let ghost rv = rows_view(rows@);
        let count = rows.len();
        let mut lines: Vec<Line> = Vec::new();
        let mut errors: Vec<(u16, ParseError)> = Vec::new();
        let pr = String::from_str("PR");
        let mut i: usize = 0;
        proof {
            assert(rv.len() == rows@.len());
        }
        while i < count
            invariant
                i <= count,
                errors.deep_view() + rows_errors(rv, i as int) == rows_errors(rv, 0),
                lines_view(lines@) + rows_lines(rv, i as int) == rows_lines(rv, 0),
            decreases count - i,
        {
            let ghost pre_errs = errors.deep_view();
            let ghost pre_lines = lines_view(lines@);
            proof {
                assert(rv[i as int] == (rows@[i as int].0, rows@[i as int].1@, rows@[i as int].2@));
            }
            let row = &rows[i];
            let n: u16 = (i + 1) as u16;
            let s = Sentence::parse(row.1);
            let c = Citation::parse(row.2);
            let ghost ss = spec_parse_sentence(rv[i as int].1);
            let ghost cs = spec_parse_citation(rv[i as int].2);
            match (s, c) {
                (Ok(s), Ok(c)) => {
                    if s.is_nec_signal() && !strings_equal(&c.r, &pr) {
                        errors.push((n, ParseError::BadNecessity));
                        proof {
                            assert(errors.deep_view() =~~= pre_errs.push(
                                (n, ParseErrorV::BadNecessity),
                            ));
                            assert(rows_errors(rv, i as int) == seq![(n, ParseErrorV::BadNecessity)]
                                + rows_errors(rv, i + 1 as int));
                            assert(pre_errs + (seq![(n, ParseErrorV::BadNecessity)] + rows_errors(
                                rv,
                                i + 1 as int,
                            )) =~= errors.deep_view() + rows_errors(rv, i + 1 as int));
                            assert(rows_lines(rv, i as int) == rows_lines(rv, i + 1 as int));
                        }
                    } else {
                        let ghost lv = LineV { s: s, c: c@, n: n, d: rows@[i as int].0 };
                        lines.push(Line { s, c, n, d: row.0 });
                        proof {
                            assert(lines_view(lines@) =~= pre_lines.push(lv));
                            assert(rows_lines(rv, i as int) == seq![lv] + rows_lines(
                                rv,
                                i + 1 as int,
                            ));
                            assert(pre_lines + (seq![lv] + rows_lines(rv, i + 1 as int)) =~=
                                lines_view(lines@) + rows_lines(rv, i + 1 as int));
                            assert(rows_errors(rv, i as int) == rows_errors(rv, i + 1 as int));
                        }
                    }
                },
                (s, c) => {
                    let ghost here = (if ss is Err {
                        seq![(n, ss->Err_0)]
                    } else {
                        Seq::<(u16, ParseErrorV)>::empty()
                    }) + (if cs is Err {
                        seq![(n, cs->Err_0)]
                    } else {
                        Seq::<(u16, ParseErrorV)>::empty()
                    });
                    if let Err(e) = s {
                        errors.push((n, e));
                    }
                    if let Err(e) = c {
                        errors.push((n, e));
                    }
                    proof {
                        assert(rows_errors(rv, i as int) == here + rows_errors(rv, i + 1 as int));
                        assert(errors.deep_view() =~= pre_errs + here);
                        assert(pre_errs + (here + rows_errors(rv, i + 1 as int)) =~=
                            (pre_errs + here) + rows_errors(rv, i + 1 as int));
                        assert(rows_lines(rv, i as int) == rows_lines(rv, i + 1 as int));
                    }
                },
            }
            i += 1;
        }
        proof {
            assert(errors.deep_view() + rows_errors(rv, count as int) =~= errors.deep_view());
            assert(lines_view(lines@) + rows_lines(rv, count as int) =~= lines_view(lines@));
            assert(errors.deep_view().len() == errors@.len());
        }
        if errors.len() > 0 {
            return Err(errors);
        }

        let ghost all_lines = lines_view(lines@);
        let line_count = lines.len();
        proof {
            lemma_rows_lines_numbering(rv, 0);
            assert(all_lines.len() <= rv.len());
        }
        let mut zones: Vec<bool> = Vec::new();
        let mut depth: u16 = 0;
        let mut nest: u16 = 0;
        let mut k: usize = 0;
        while k < line_count
            invariant
                k <= line_count,
                zones@.len() == k,
                nest <= k,
                spec_strict_zones(all_lines) == zones@ + zones_acc(
                    all_lines,
                    k as int,
                    depth,
                    nest,
                ),
            decreases line_count - k,
        {
            let ghost pre = zones@;
            let l = &lines[k];
            proof {
                assert(all_lines[k as int] == l@);
            }
            if l.s.is_nec_signal() {
                nest = nest + 1;
            } else if l.d < depth {
                if nest > 0 {
                    nest = nest - 1;
                }
            }
            zones.push(nest > 0);
            depth = l.d;
            proof {
                assert(pre + (seq![nest > 0] + zones_acc(all_lines, k + 1 as int, depth, nest)) =~=
                    zones@ + zones_acc(all_lines, k + 1 as int, depth, nest));
            }
            k += 1;
        }
        proof {
            assert(zones@ + zones_acc(all_lines, line_count as int, depth, nest) =~= zones@);
        }
        let p = Proof { lines, strict_zones: zones };
        proof {
            assert(p@.lines =~= all_lines);
            assert(p@.wf());
        }
        Ok(p)
    }
}

/// When no row fails, the assembled lines are in one-to-one correspondence
/// with the rows, and each carries its one-based row number.
pub proof fn lemma_rows_lines_numbering(rv: Seq<(u16, Seq<char>, Seq<char>)>, i: int)
    requires
        0 <= i <= rv.len(),
        rv.len() <= 0xFFFF,
        rows_errors(rv, i).len() == 0,
    ensures
        rows_lines(rv, i).len() == rv.len() - i,
        forall|j: int|
            0 <= j < rv.len() - i ==> (#[trigger] rows_lines(rv, i)[j]).n == i + j + 1
                && rows_lines(rv, i)[j].d == rv[i + j].0,
        forall|j: int, a: int|
            0 <= j < rv.len() - i && 0 <= a < rows_lines(rv, i)[j].c.l.len()
                ==> match #[trigger] rows_lines(rv, i)[j].c.l[a] {
                LineNumber::One(_) => true,
                LineNumber::Many(s, e) => s < e,
            },
    decreases rv.len() - i,
{
    if i >= rv.len() {
    } else {
        let s = spec_parse_sentence(rv[i].1);
        let c = spec_parse_citation(rv[i].2);
        assert(rows_errors(rv, i).len() >= rows_errors(rv, i + 1).len());
        lemma_rows_lines_numbering(rv, i + 1);
        assert(s is Ok && c is Ok && !row_bad_necessity(s->Ok_0, c->Ok_0));
        lemma_citation_ranges_forward(rv[i].2);
        let lv = LineV { s: s->Ok_0, c: c->Ok_0, n: (i + 1) as u16, d: rv[i].0 };
        let cur = rows_lines(rv, i);
        let tail = rows_lines(rv, i + 1);
        assert(cur == seq![lv] + tail);
        assert forall|j: int| 0 <= j < rv.len() - i implies (#[trigger] cur[j]).n == i + j + 1
            && cur[j].d == rv[i + j].0 by {
            if j == 0 {
                assert(cur[0] == lv);
            } else {
                assert(cur[j] == tail[j - 1]);
            }
        }
        assert forall|j: int, a: int|
            0 <= j < rv.len() - i && 0 <= a < cur[j].c.l.len() implies match #[trigger] cur[j].c.l[a] {
            LineNumber::One(_) => true,
            LineNumber::Many(st, en) => st < en,
        } by {
            if j == 0 {
                assert(cur[0] == lv);
            } else {
                assert(cur[j] == tail[j - 1]);
            }
        }
    }
}

/// Every necessity-signal line of a successfully parsed proof is justified
/// by the premise identifier — so its citation is `PR` (or the placeholder
/// `?`, which the parser also accepts nowhere else for such a line).
pub proof fn lemma_nec_signal_lines(rv: Seq<(u16, Seq<char>, Seq<char>)>)
    requires
        spec_proof_parse(rv) is Ok,
    ensures
        forall|k: int|
            0 <= k < spec_proof_parse(rv)->Ok_0.lines.len() ==> ((#[trigger] spec_proof_parse(
                rv,
            )->Ok_0.lines[k]).s == Sentence::Signal('□') ==> (spec_proof_parse(rv)->Ok_0.lines[k].c.r
                == premise_id() || spec_proof_parse(rv)->Ok_0.lines[k].c.r == placeholder_id())),
{
    lemma_rows_lines_signals(rv, 0);
}

proof fn lemma_rows_lines_signals(rv: Seq<(u16, Seq<char>, Seq<char>)>, i: int)
    requires
        0 <= i <= rv.len(),
        rows_errors(rv, i).len() == 0,
    ensures
        forall|j: int|
            0 <= j < rows_lines(rv, i).len() ==> ((#[trigger] rows_lines(rv, i)[j]).s
                == Sentence::Signal('□') ==> rows_lines(rv, i)[j].c.r == premise_id()),
    decreases rv.len() - i,
{
    if i >= rv.len() {
    } else {
        let s = spec_parse_sentence(rv[i].1);
        let c = spec_parse_citation(rv[i].2);
        assert(rows_errors(rv, i).len() >= rows_errors(rv, i + 1).len());
        lemma_rows_lines_signals(rv, i + 1);
        assert(s is Ok && c is Ok && !row_bad_necessity(s->Ok_0, c->Ok_0));
        let lv = LineV { s: s->Ok_0, c: c->Ok_0, n: (i + 1) as u16, d: rv[i].0 };
        let cur = rows_lines(rv, i);
        let tail = rows_lines(rv, i + 1);
        assert(cur == seq![lv] + tail);
        assert forall|j: int|
            0 <= j < cur.len() && (#[trigger] cur[j]).s == Sentence::Signal('□') implies cur[j].c.r
            == premise_id() by {
            if j == 0 {
                assert(cur[0] == lv);
            } else {
                assert(cur[j] == tail[j - 1]);
            }
        }
    }
}

/// Every range argument of a successfully parsed citation runs forward.
pub proof fn lemma_citation_ranges_forward(raw: Seq<char>)
    requires
        spec_parse_citation(raw) is Ok,
    ensures
        forall|a: int|
            0 <= a < spec_parse_citation(raw)->Ok_0.l.len() ==> match #[trigger] spec_parse_citation(
                raw,
            )->Ok_0.l[a] {
                LineNumber::One(_) => true,
                LineNumber::Many(s, e) => s < e,
            },
{
    let t = crate::sentence::spec_trim(raw);
    let pieces = crate::citation::spec_split_commas(
        crate::citation::spec_collapse_seps(crate::normalize::spec_normalize_ops(t)),
    );
    if pieces.len() == 1 {
    } else {
        lemma_args_ranges_forward(pieces, 1);
    }
}

proof fn lemma_args_ranges_forward(pieces: Seq<Seq<char>>, k: int)
    requires
        crate::citation::spec_parse_args(pieces, k) is Ok,
    ensures
        forall|a: int|
            0 <= a < crate::citation::spec_parse_args(pieces, k)->Ok_0.len()
                ==> match #[trigger] crate::citation::spec_parse_args(pieces, k)->Ok_0[a] {
                LineNumber::One(_) => true,
                LineNumber::Many(s, e) => s < e,
            },
    decreases pieces.len() - k,
{
    if k < 0 || k >= pieces.len() {
    } else {
        lemma_args_ranges_forward(pieces, k + 1);
    }
}

} // verus!
