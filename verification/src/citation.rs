//! Citations: a rule identifier followed by line-number arguments, each a
//! single line or a closed range.

use vstd::prelude::*;

use crate::error::ParseError;
use crate::error::ParseErrorV;
use crate::normalize::spec_normalize_ops;
use crate::normalize::str_to_chars;
use crate::normalize::chars_to_string;
use crate::normalize::normalize_ops_chars;
use crate::sentence::spec_trim;
use crate::sentence::spec_is_space;

verus! {

/// A citation argument: one line, or a closed range of lines.
#[derive(Debug, PartialEq, Eq, Structural, Clone, Copy)]
pub enum LineNumber {
    One(u16),
    Many(u16, u16),
}

/// The shape of a citation argument, as declared by a rule.
#[derive(Debug, PartialEq, Eq, Structural, Clone, Copy)]
pub enum LineNumberType {
    One,
    Many,
}

impl LineNumberType {
    /// Whether an actual argument has this declared shape.
    pub fn matches(&self, other: &LineNumber) -> (r: bool)
        ensures
            r == spec_kind_matches(*self, *other),
    {
        match (self, other) {
            (LineNumberType::One, LineNumber::One(_)) => true,
            (LineNumberType::Many, LineNumber::Many(_, _)) => true,
            _ => false,
        }
    }
}

/// Whether an argument has the declared shape.
pub open spec fn spec_kind_matches(t: LineNumberType, n: LineNumber) -> bool {
    match (t, n) {
        (LineNumberType::One, LineNumber::One(_)) => true,
        (LineNumberType::Many, LineNumber::Many(_, _)) => true,
        _ => false,
    }
}

/// A parsed citation: the rule identifier and the cited lines, in citation
/// order.
#[derive(Debug, Eq)]
pub struct Citation {
    /// The rule identifier used for dispatch.
    pub r: String,
    /// The cited line numbers and ranges.
    pub l: Vec<LineNumber>,
}

/// The specification-level value of a [`Citation`].
pub struct CitationV {
    pub r: Seq<char>,
    pub l: Seq<LineNumber>,
}

impl View for Citation {
    type V = CitationV;

    open spec fn view(&self) -> CitationV {
        CitationV { r: self.r@, l: self.l@ }
    }
}

impl PartialEq for Citation {
    fn eq(&self, other: &Citation) -> (r: bool) {
        if !crate::error::strings_equal(&self.r, &other.r) {
            return false;
        }
        let n = self.l.len();
        if n != other.l.len() {
            return false;
        }
        let mut i: usize = 0;
        while i < n
            invariant
                n == self.l@.len(),
                n == other.l@.len(),
                forall|j: int| 0 <= j < i ==> self.l@[j] == other.l@[j],
                i <= n,
            decreases n - i,
        {
            let a = self.l[i];
            let b = other.l[i];
            let same = match (a, b) {
                (LineNumber::One(x), LineNumber::One(y)) => x == y,
                (LineNumber::Many(xs, xe), LineNumber::Many(ys, ye)) => xs == ys && xe == ye,
                _ => false,
            };
            if !same {
                proof {
                    assert(self.l@[i as int] != other.l@[i as int]);
                }
                return false;
            }
            i += 1;
        }
        proof {
            assert(self.l@ =~= other.l@);
        }
        true
    }
}

impl vstd::std_specs::cmp::PartialEqSpecImpl for Citation {
    open spec fn obeys_eq_spec() -> bool {
        true
    }

    open spec fn eq_spec(&self, other: &Citation) -> bool {
        self@ == other@
    }
}

/// A decimal digit.
pub open spec fn spec_is_digit(c: char) -> bool {
    '0' as u32 <= c as u32 && c as u32 <= '9' as u32
}

/// The maximal runs of consecutive digits in `s` from position `i` on, with
/// `cur` the run in progress.
pub open spec fn digit_runs_acc(s: Seq<char>, i: int, cur: Seq<char>) -> Seq<Seq<char>>
    decreases s.len() - i,
{
    if i < 0 || i >= s.len() {
        if cur.len() > 0 {
            seq![cur]
        } else {
            Seq::<Seq<char>>::empty()
        }
    } else if spec_is_digit(s[i]) {
        digit_runs_acc(s, i + 1, cur.push(s[i]))
    } else {
        let flushed: Seq<Seq<char>> = if cur.len() > 0 {
            seq![cur]
        } else {
            Seq::<Seq<char>>::empty()
        };
        flushed + digit_runs_acc(s, i + 1, Seq::<char>::empty())
    }
}

/// The maximal digit runs of `s`, in order.
pub open spec fn spec_digit_runs(s: Seq<char>) -> Seq<Seq<char>> {
    digit_runs_acc(s, 0, Seq::<char>::empty())
}

/// The numeric value of a digit string.
pub open spec fn digits_val(s: Seq<char>) -> nat
    decreases s.len(),
{
    if s.len() == 0 {
        0nat
    } else {
        digits_val(s.drop_last()) * 10 + (s.last() as u32 - '0' as u32) as nat
    }
}

/// The meaning of [`LineNumber::parse`]: trim, find the digit runs, and
/// build a single line or a range.
pub open spec fn spec_parse_line_number(raw: Seq<char>) -> Result<LineNumber, ParseErrorV> {
    let t = spec_trim(raw);
    let rs = spec_digit_runs(t);
    if rs.len() == 0 || rs.len() >= 3 {
        Err(ParseErrorV::BadLineNumber)
    } else if rs.len() == 1 {
        if digits_val(rs[0]) > 65535 {
            Err(ParseErrorV::OversizeValue)
        } else {
            Ok(LineNumber::One(digits_val(rs[0]) as u16))
        }
    } else {
        if digits_val(rs[0]) > 65535 {
            Err(ParseErrorV::OversizeValue)
        } else if digits_val(rs[1]) > 65535 {
            Err(ParseErrorV::OversizeValue)
        } else if digits_val(rs[1]) <= digits_val(rs[0]) {
            Err(ParseErrorV::BadLineRange)
        } else {
            Ok(LineNumber::Many(digits_val(rs[0]) as u16, digits_val(rs[1]) as u16))
        }
    }
}

/// Whether an executable line-number parse outcome carries the value the
/// specification gives.
pub open spec fn line_number_result_matches(
    r: Result<LineNumber, ParseError>,
    s: Result<LineNumber, ParseErrorV>,
) -> bool {
    match (r, s) {
        (Ok(a), Ok(b)) => a == b,
        (Err(a), Err(b)) => a@ == b,
        _ => false,
    }
}

/// A digit value accumulator: either the exact value so far (at most 65535),
/// or the 65536 marker meaning "already too large".
spec fn val_tracks(val: u32, cur: Seq<char>) -> bool {
    ||| (val <= 65535 && val as nat == digits_val(cur))
    ||| (val == 65536 && digits_val(cur) > 65535)
}

/// Scans the digit runs of `t`, returning for each run its value capped at
/// 65536 (the cap marks an oversize value).
fn digit_run_vals(t: &Vec<char>) -> (r: Vec<u32>)
    ensures
        r@.len() == spec_digit_runs(t@).len(),
        forall|k: int| 0 <= k < r@.len() ==> val_tracks(#[trigger] r@[k], spec_digit_runs(t@)[k]),
{
    let len = t.len();
    let mut vals: Vec<u32> = Vec::new();
    let ghost mut rb: Seq<Seq<char>> = Seq::empty();
    let ghost mut cur: Seq<char> = Seq::empty();
    let mut val: u32 = 0;
    let mut has: bool = false;
    let mut i: usize = 0;
    while i < len
        invariant
            len == t@.len(),
            i <= len,
            spec_digit_runs(t@) == rb + digit_runs_acc(t@, i as int, cur),
            vals@.len() == rb.len(),
            forall|k: int| 0 <= k < rb.len() ==> val_tracks(#[trigger] vals@[k], rb[k]),
            has == (cur.len() > 0),
            has ==> val_tracks(val, cur),
            (!has) ==> val == 0,
        decreases len - i,
    {
        let c = t[i];
        let u = c as u32;
        if '0' as u32 <= u && u <= '9' as u32 {
            let d = u - '0' as u32;
            if val > 65535 {
                val = 65536;
            } else {
                let next = val * 10 + d;
                if next > 65535 {
                    val = 65536;
                } else {
                    val = next;
                }
            }
            has = true;
            proof {
                let pushed = cur.push(t@[i as int]);
                assert(pushed.drop_last() =~= cur);
                assert(digits_val(pushed) == digits_val(cur) * 10 + d);
                cur = pushed;
            }
        } else {
            if has {
                vals.push(val);
                proof {
                    let flushed: Seq<Seq<char>> = seq![cur];
                    let tail = digit_runs_acc(t@, i + 1 as int, Seq::<char>::empty());
                    assert(digit_runs_acc(t@, i as int, cur) == flushed + tail);
                    assert(rb + (flushed + tail) =~= (rb + flushed) + tail);
                    assert((rb + flushed)[rb.len() as int] == cur);
                    rb = rb + flushed;
                    cur = Seq::empty();
                }
                val = 0;
                has = false;
            } else {
                proof {
                    let tail = digit_runs_acc(t@, i + 1 as int, Seq::<char>::empty());
                    assert(cur =~= Seq::<char>::empty());
                    assert(digit_runs_acc(t@, i as int, cur) == Seq::<Seq<char>>::empty() + tail);
                    assert(rb + (Seq::<Seq<char>>::empty() + tail) =~= rb + tail);
                }
            }
        }
        i += 1;
    }
    if has {
        vals.push(val);
        proof {
            assert(digit_runs_acc(t@, len as int, cur) == seq![cur]);
            assert((rb + seq![cur])[rb.len() as int] == cur);
            rb = rb + seq![cur];
            assert(spec_digit_runs(t@) =~= rb);
        }
    } else {
        proof {
            assert(cur =~= Seq::<char>::empty());
            assert(digit_runs_acc(t@, len as int, cur) =~= Seq::<Seq<char>>::empty());
            assert(rb + Seq::<Seq<char>>::empty() =~= rb);
            assert(spec_digit_runs(t@) =~= rb);
        }
    }
    vals
}

impl LineNumber {
    /// Parses one citation argument: one or two decimal numbers anywhere in
    /// the token.
    pub fn parse(i: &str) -> (r: Result<LineNumber, ParseError>)
        ensures
            line_number_result_matches(r, spec_parse_line_number(i@)),
    {
        let v = str_to_chars(i);
        line_number_chars(&v)
    }

    /// The single line this argument cites.
    pub fn as_one(&self) -> (r: u16)
        requires
            *self matches LineNumber::One(_),
        ensures
            *self == LineNumber::One(r),
    {
        match self {
            LineNumber::One(v) => *v,
            LineNumber::Many(s, _) => *s,
        }
    }

    /// The closed range of lines this argument cites.
    pub fn as_many(&self) -> (r: (u16, u16))
        requires
            *self matches LineNumber::Many(_, _),
        ensures
            *self == LineNumber::Many(r.0, r.1),
    {
        match self {
            LineNumber::One(v) => (*v, *v),
            LineNumber::Many(s, e) => (*s, *e),
        }
    }
}

/// Parses one citation argument given as characters.
fn line_number_chars(v: &Vec<char>) -> (r: Result<LineNumber, ParseError>)
    ensures
        line_number_result_matches(r, spec_parse_line_number(v@)),
{
    let t = crate::sentence::trim_chars(v);
    let vals = digit_run_vals(&t);
    if vals.len() == 0 || vals.len() >= 3 {
        Err(ParseError::BadLineNumber)
    } else if vals.len() == 1 {
        let a = vals[0];
        if a > 65535 {
            Err(ParseError::OversizeValue)
        } else {
            Ok(LineNumber::One(a as u16))
        }
    } else {
        let a = vals[0];
        let b = vals[1];
        if a > 65535 {
            Err(ParseError::OversizeValue)
        } else if b > 65535 {
            Err(ParseError::OversizeValue)
        } else if b <= a {
            Err(ParseError::BadLineRange)
        } else {
            Ok(LineNumber::Many(a as u16, b as u16))
        }
    }
}

/// A separator character in a citation: a comma, a semicolon, or whitespace.
pub open spec fn spec_is_sep(c: char) -> bool {
    c == ';' || c == ',' || spec_is_space(c)
}

/// Collapses each run of separator characters into a single comma, keeping
/// all other characters.
pub open spec fn collapse_acc(s: Seq<char>, i: int, in_sep: bool) -> Seq<char>
    decreases s.len() - i,
{
    if i < 0 || i >= s.len() {
        Seq::<char>::empty()
    } else if spec_is_sep(s[i]) {
        if in_sep {
            collapse_acc(s, i + 1, true)
        } else {
            seq![','] + collapse_acc(s, i + 1, true)
        }
    } else {
        seq![s[i]] + collapse_acc(s, i + 1, false)
    }
}

/// The separator-collapsed form of `s`.
pub open spec fn spec_collapse_seps(s: Seq<char>) -> Seq<char> {
    collapse_acc(s, 0, false)
}

/// The pieces of `s` split at commas; splitting an empty string gives one
/// empty piece.
pub open spec fn split_acc(s: Seq<char>, i: int, cur: Seq<char>) -> Seq<Seq<char>>
    decreases s.len() - i,
{
    if i < 0 || i >= s.len() {
        seq![cur]
    } else if s[i] == ',' {
        seq![cur] + split_acc(s, i + 1, Seq::<char>::empty())
    } else {
        split_acc(s, i + 1, cur.push(s[i]))
    }
}

/// The comma-separated pieces of `s`.
pub open spec fn spec_split_commas(s: Seq<char>) -> Seq<Seq<char>> {
    split_acc(s, 0, Seq::<char>::empty())
}

/// The arguments of a citation: each piece from `k` on parsed as a line
/// number; the first failure wins.
pub open spec fn spec_parse_args(pieces: Seq<Seq<char>>, k: int) -> Result<
    Seq<LineNumber>,
    ParseErrorV,
>
    decreases pieces.len() - k,
{
    if k < 0 || k >= pieces.len() {
        Ok(Seq::<LineNumber>::empty())
    } else {
        match spec_parse_line_number(pieces[k]) {
            Err(e) => Err(e),
            Ok(ln) => match spec_parse_args(pieces, k + 1) {
                Err(e) => Err(e),
                Ok(rest) => Ok(seq![ln] + rest),
            },
        }
    }
}

/// The meaning of [`Citation::parse`]: trim, normalize aliases, collapse
/// separators, split at commas; the first piece is the rule identifier and
/// the rest are arguments.
pub open spec fn spec_parse_citation(raw: Seq<char>) -> Result<CitationV, ParseErrorV> {
    let t = spec_trim(raw);
    if t.len() == 0 {
        Err(ParseErrorV::EmptyCitation)
    } else {
        let pieces = spec_split_commas(spec_collapse_seps(spec_normalize_ops(t)));
        if pieces.len() == 1 {
            Ok(CitationV { r: pieces[0], l: Seq::<LineNumber>::empty() })
        } else {
            match spec_parse_args(pieces, 1) {
                Err(e) => Err(e),
                Ok(args) => Ok(CitationV { r: pieces[0], l: args }),
            }
        }
    }
}

/// Whether an executable citation parse outcome carries the value the
/// specification gives.
pub open spec fn citation_result_matches(
    r: Result<Citation, ParseError>,
    s: Result<CitationV, ParseErrorV>,
) -> bool {
    match (r, s) {
        (Ok(a), Ok(b)) => a@ == b,
        (Err(a), Err(b)) => a@ == b,
        _ => false,
    }
}

/// Collapses separator runs into single commas.
fn collapse_seps(v: &Vec<char>) -> (r: Vec<char>)
    ensures
        r@ == spec_collapse_seps(v@),
{
    let len = v.len();
    let mut out: Vec<char> = Vec::new();
    let mut in_sep: bool = false;
    let mut i: usize = 0;
    while i < len
        invariant
            len == v@.len(),
            i <= len,
            spec_collapse_seps(v@) == out@ + collapse_acc(v@, i as int, in_sep),
        decreases len - i,
    {
        let ghost pre = out@;
        let c = v[i];
        let sep = c == ';' || c == ',' || crate::sentence::is_space(c);
        if sep {
            if !in_sep {
                out.push(',');
                proof {
                    assert(pre + (seq![','] + collapse_acc(v@, i + 1 as int, true)) =~= out@
                        + collapse_acc(v@, i + 1 as int, true));
                }
            }
            in_sep = true;
        } else {
            out.push(c);
            in_sep = false;
            proof {
                assert(pre + (seq![c] + collapse_acc(v@, i + 1 as int, false)) =~= out@
                    + collapse_acc(v@, i + 1 as int, false));
            }
        }
        i += 1;
    }
    proof {
        assert(out@ + collapse_acc(v@, len as int, in_sep) =~= out@);
    }
    out
}

/// Splits at commas into pieces.
fn split_commas(v: &Vec<char>) -> (r: Vec<Vec<char>>)
    ensures
        r.deep_view() == spec_split_commas(v@),
        r@.len() >= 1,
{
    let len = v.len();
    let mut pieces: Vec<Vec<char>> = Vec::new();
    let mut piece: Vec<char> = Vec::new();
    let mut i: usize = 0;
    while i < len
        invariant
            len == v@.len(),
            i <= len,
            spec_split_commas(v@) == pieces.deep_view() + split_acc(v@, i as int, piece@),
        decreases len - i,
    {
        let ghost pre = pieces.deep_view();
        let ghost prepiece = piece@;
        let c = v[i];
        if c == ',' {
            pieces.push(piece);
            piece = Vec::new();
            proof {
                assert(pieces.deep_view() =~~= pre.push(prepiece));
                assert(pre + (seq![prepiece] + split_acc(v@, i + 1 as int, Seq::<char>::empty()))
                    =~= pieces.deep_view() + split_acc(v@, i + 1 as int, Seq::<char>::empty()));
            }
        } else {
            piece.push(c);
        }
        i += 1;
    }
    pieces.push(piece);
    proof {
        assert(pieces.deep_view() =~~= spec_split_commas(v@));
    }
    pieces
}

impl Citation {
    /// Parses a citation: the rule identifier up to the first separator,
    /// then one line number or range per token.
    #[verifier::loop_isolation(false)]
    pub fn parse(i: &str) -> (r: Result<Citation, ParseError>)
        ensures
            citation_result_matches(r, spec_parse_citation(i@)),
    {
        let v = str_to_chars(i);
        let t = crate::sentence::trim_chars(&v);
        if t.len() == 0 {
            return Err(ParseError::EmptyCitation);
        }
        let n = normalize_ops_chars(t);
        let collapsed = collapse_seps(&n);
        let pieces = split_commas(&collapsed);
        let ghost dv = pieces.deep_view();
        let rule = chars_to_string(&pieces[0]);
        proof {
            assert(dv[0] == pieces@[0]@);
        }
        if pieces.len() == 1 {
            return Ok(Citation { r: rule, l: Vec::new() });
        }
        let count = pieces.len();
        let mut args: Vec<LineNumber> = Vec::new();
        let mut k: usize = 1;
        while k < count
            invariant
                count == pieces@.len(),
                1 <= k <= count,
                dv == pieces.deep_view(),
                spec_parse_args(dv, 1) == match spec_parse_args(dv, k as int) {
                    Ok(rest) => Ok::<Seq<LineNumber>, ParseErrorV>(args@ + rest),
                    Err(e) => Err(e),
                },
            decreases count - k,
        {
            let ghost pre = args@;
            proof {
                assert(dv[k as int] == pieces@[k as int]@);
            }
            match line_number_chars(&pieces[k]) {
                Err(e) => {
                    proof {
                        assert(spec_parse_args(dv, k as int) == Err::<Seq<LineNumber>, ParseErrorV>(
                            e@,
                        ));
                        assert(spec_parse_args(dv, 1) == Err::<Seq<LineNumber>, ParseErrorV>(e@));
                    }
                    return Err(e);
                },
                Ok(ln) => {
                    args.push(ln);
                    proof {
                        if spec_parse_args(dv, k + 1 as int) is Ok {
                            let rest = spec_parse_args(dv, k + 1 as int)->Ok_0;
                            assert(pre + (seq![ln] + rest) =~= args@ + rest);
                        }
                    }
                },
            }
            k += 1;
        }
        proof {
            assert(spec_parse_args(dv, count as int) == Ok::<Seq<LineNumber>, ParseErrorV>(
                Seq::<LineNumber>::empty(),
            ));
            assert(args@ + Seq::<LineNumber>::empty() =~= args@);
        }
        Ok(Citation { r: rule, l: args })
    }
}

} // verus!
