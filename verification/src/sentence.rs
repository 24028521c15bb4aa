//! The sentence language: an abstract syntax tree for classical and modal
//! propositional sentences, and a recursive-descent parser that locates the
//! main operator of a normalized sentence string.
//!
//! Parentheses are mandatory around every binary composition; there is no
//! operator precedence.

use vstd::prelude::*;

use crate::error::ParseError;
use crate::error::ParseErrorV;
use crate::normalize::spec_normalize_ops;
use crate::normalize::spec_replace;
use crate::normalize::first_match;
use crate::normalize::lemma_first_match_some;
use crate::normalize::pats_wf;
use crate::normalize::str_to_chars;
use crate::normalize::chars_to_string;

verus! {

/// A logical sentence: an immutable recursive tree with one variant per
/// logical constructor.
#[derive(Debug, Hash)]
pub enum Sentence {
    /// An atomic predicate (`A`-`Z`, capitals only).
    Atomic(char),
    /// A "signal" operator: a lone contradiction `⊥` or necessity `□`.
    Signal(char),
    /// Negation.
    Neg(Box<Sentence>),
    /// Necessity.
    Nec(Box<Sentence>),
    /// Possibility.
    Pos(Box<Sentence>),
    /// Conjunction.
    Con(Box<Sentence>, Box<Sentence>),
    /// Disjunction.
    Dis(Box<Sentence>, Box<Sentence>),
    /// Conditional implication.
    Imp(Box<Sentence>, Box<Sentence>),
    /// Biconditional implication.
    Bic(Box<Sentence>, Box<Sentence>),
}

impl Sentence {
    /// Structural equality over the whole tree.
    pub fn eq_sentence(&self, other: &Sentence) -> (r: bool)
        ensures
            r == (self == other),
        decreases self,
    {
        match (self, other) {
            (Sentence::Atomic(a), Sentence::Atomic(b)) => a == b,
            (Sentence::Signal(a), Sentence::Signal(b)) => a == b,
            (Sentence::Neg(a), Sentence::Neg(b)) => a.eq_sentence(b),
            (Sentence::Nec(a), Sentence::Nec(b)) => a.eq_sentence(b),
            (Sentence::Pos(a), Sentence::Pos(b)) => a.eq_sentence(b),
            (Sentence::Con(al, ar), Sentence::Con(bl, br)) => {
                al.eq_sentence(bl) && ar.eq_sentence(br)
            },
            (Sentence::Dis(al, ar), Sentence::Dis(bl, br)) => {
                al.eq_sentence(bl) && ar.eq_sentence(br)
            },
            (Sentence::Imp(al, ar), Sentence::Imp(bl, br)) => {
                al.eq_sentence(bl) && ar.eq_sentence(br)
            },
            (Sentence::Bic(al, ar), Sentence::Bic(bl, br)) => {
                al.eq_sentence(bl) && ar.eq_sentence(br)
            },
            _ => false,
        }
    }

    /// A structurally equal copy of the tree.
    pub fn deep_clone(&self) -> (r: Sentence)
        ensures
            r == *self,
        decreases self,
    {
        match self {
            Sentence::Atomic(c) => Sentence::Atomic(*c),
            Sentence::Signal(c) => Sentence::Signal(*c),
            Sentence::Neg(x) => Sentence::Neg(Box::new(x.deep_clone())),
            Sentence::Nec(x) => Sentence::Nec(Box::new(x.deep_clone())),
            Sentence::Pos(x) => Sentence::Pos(Box::new(x.deep_clone())),
            Sentence::Con(l, r) => Sentence::Con(
                Box::new(l.deep_clone()),
                Box::new(r.deep_clone()),
            ),
            Sentence::Dis(l, r) => Sentence::Dis(
                Box::new(l.deep_clone()),
                Box::new(r.deep_clone()),
            ),
            Sentence::Imp(l, r) => Sentence::Imp(
                Box::new(l.deep_clone()),
                Box::new(r.deep_clone()),
            ),
            Sentence::Bic(l, r) => Sentence::Bic(
                Box::new(l.deep_clone()),
                Box::new(r.deep_clone()),
            ),
        }
    }

    /// The negation of this sentence.
    pub fn negated(&self) -> (r: Sentence)
        ensures
            r == Sentence::Neg(Box::new(*self)),
    {
        Sentence::Neg(Box::new(self.deep_clone()))
    }

    /// Moves the sentence to the heap.
    pub fn box_up(self) -> (r: Box<Sentence>)
        ensures
            *r == self,
    {
        Box::new(self)
    }

    /// Whether this sentence is the lone necessity signal `□`.
    pub fn is_nec_signal(&self) -> (r: bool)
        ensures
            r == (*self == Sentence::Signal('□')),
    {
        match self {
            Sentence::Signal(c) => *c == '□',
            _ => false,
        }
    }

    /// Whether this sentence is the lone contradiction signal `⊥`.
    pub fn is_bot_signal(&self) -> (r: bool)
        ensures
            r == (*self == Sentence::Signal('⊥')),
    {
        match self {
            Sentence::Signal(c) => *c == '⊥',
            _ => false,
        }
    }
}

impl PartialEq for Sentence {
    fn eq(&self, other: &Sentence) -> (r: bool) {
        self.eq_sentence(other)
    }
}

impl Eq for Sentence {}

impl vstd::std_specs::cmp::PartialEqSpecImpl for Sentence {
    open spec fn obeys_eq_spec() -> bool {
        true
    }

    open spec fn eq_spec(&self, other: &Sentence) -> bool {
        self == other
    }
}

impl Clone for Sentence {
    fn clone(&self) -> (r: Sentence)
        ensures
            r == *self,
    {
        self.deep_clone()
    }
}

/// Whether `c` carries the Unicode `White_Space` property; this is the set
/// that trimming and the sentence alphabet treat as blank.
pub open spec fn spec_is_space(c: char) -> bool {
    ||| (0x09 <= c as u32 && c as u32 <= 0x0D)
    ||| c == ' '
    ||| c as u32 == 0x85
    ||| c as u32 == 0xA0
    ||| c as u32 == 0x1680
    ||| (0x2000 <= c as u32 && c as u32 <= 0x200A)
    ||| c as u32 == 0x2028
    ||| c as u32 == 0x2029
    ||| c as u32 == 0x202F
    ||| c as u32 == 0x205F
    ||| c as u32 == 0x3000
}

/// `s` without its leading whitespace.
pub open spec fn spec_trim_start(s: Seq<char>) -> Seq<char>
    decreases s.len(),
{
    if s.len() == 0 {
        s
    } else if spec_is_space(s[0]) {
        spec_trim_start(s.drop_first())
    } else {
        s
    }
}

/// `s` without its trailing whitespace.
pub open spec fn spec_trim_end(s: Seq<char>) -> Seq<char>
    decreases s.len(),
{
    if s.len() == 0 {
        s
    } else if spec_is_space(s.last()) {
        spec_trim_end(s.drop_last())
    } else {
        s
    }
}

/// `s` without leading and trailing whitespace.
pub open spec fn spec_trim(s: Seq<char>) -> Seq<char> {
    spec_trim_end(spec_trim_start(s))
}

/// Bracket shapes `[ { ] }` rewritten to plain parentheses.
pub open spec fn spec_normalize_braces(s: Seq<char>) -> Seq<char> {
    let s1 = spec_replace(s, open_brace_pats(), '(');
    spec_replace(s1, close_brace_pats(), ')')
}

pub open spec fn open_brace_pats() -> Seq<Seq<char>> {
    seq![seq!['['], seq!['{']]
}

pub open spec fn close_brace_pats() -> Seq<Seq<char>> {
    seq![seq![']'], seq!['}']]
}

/// The full normalization a sentence undergoes before parsing.
pub open spec fn spec_sentence_normal(s: Seq<char>) -> Seq<char> {
    spec_normalize_braces(spec_normalize_ops(s))
}

/// The parenthesis depth after reading character `i`, with saturating
/// sixteen-bit arithmetic.
pub open spec fn spec_next_depth(d: u16, c: char) -> u16 {
    if c == '(' {
        if d == 0xFFFFu16 {
            d
        } else {
            (d + 1) as u16
        }
    } else if c == ')' {
        if d == 0u16 {
            0u16
        } else {
            (d - 1) as u16
        }
    } else {
        d
    }
}

/// The running parenthesis depth of `s` after position `i` (`-1` stands for
/// the initial depth of zero).
pub open spec fn spec_depth_after(s: Seq<char>, i: int) -> u16
    decreases i + 1,
{
    if i < 0 || i >= s.len() {
        0u16
    } else {
        spec_next_depth(spec_depth_after(s, i - 1), s[i])
    }
}

/// Whether the parentheses of `s` balance back to depth zero at the end.
pub open spec fn spec_balanced(s: Seq<char>) -> bool {
    spec_depth_after(s, s.len() - 1) == 0
}

/// Whether `s` is wrapped in one redundant outer pair of parentheses: the
/// first character drives the depth to one and the depth stays positive
/// throughout the interior.
pub open spec fn spec_strippable(s: Seq<char>) -> bool {
    &&& s.len() > 0
    &&& spec_depth_after(s, 0) == 1
    &&& forall|n: int| 1 <= n < s.len() - 1 ==> #[trigger] spec_depth_after(s, n) > 0
}

/// The sentence alphabet: capital letters, the operator symbols, whitespace,
/// and every bracket shape.
pub open spec fn spec_is_valid_char(c: char) -> bool {
    ||| ('A' as u32 <= c as u32 && c as u32 <= 'Z' as u32)
    ||| c == '¬' || c == '∨' || c == '∧' || c == '↔' || c == '→'
    ||| c == '⊥' || c == '□' || c == '◇'
    ||| spec_is_space(c)
    ||| c == '(' || c == ')' || c == '[' || c == ']' || c == '{' || c == '}'
}

/// The invalid characters of `s` from position `i` on, in order, each as a
/// one-character substring.
pub open spec fn spec_invalid_from(s: Seq<char>, i: int) -> Seq<Seq<char>>
    decreases s.len() - i,
{
    if i < 0 || i >= s.len() {
        Seq::<Seq<char>>::empty()
    } else {
        let rest = spec_invalid_from(s, i + 1);
        if !spec_is_valid_char(s[i]) {
            seq![seq![s[i]]] + rest
        } else {
            rest
        }
    }
}

/// The invalid characters of `s`, in order, each as a one-character
/// substring.
pub open spec fn spec_invalid_list(s: Seq<char>) -> Seq<Seq<char>> {
    spec_invalid_from(s, 0)
}

/// An operator character as the main-operator scan sees it.
pub open spec fn spec_is_op_char(c: char) -> bool {
    c == '¬' || c == '∧' || c == '∨' || c == '↔' || c == '→' || c == '⊥' || c == '□' || c == '◇'
}

/// Binary connectives.
pub open spec fn spec_is_bin_op(c: char) -> bool {
    c == '∧' || c == '∨' || c == '↔' || c == '→'
}

/// Unary operators (the signals count as unary for the scan).
pub open spec fn spec_is_una_op(c: char) -> bool {
    c == '¬' || c == '⊥' || c == '□' || c == '◇'
}

/// The main-operator scan from position `i` with current candidate `cur`:
/// walks the depth-zero operators left to right; a second binary operator is
/// ambiguous; a binary operator displaces a unary candidate.  `Err(())`
/// stands for ambiguity.
pub open spec fn spec_find_main(s: Seq<char>, i: int, cur: Option<(char, int)>) -> Result<
    Option<(char, int)>,
    (),
>
    decreases s.len() - i,
{
    if i < 0 || i >= s.len() {
        Ok(cur)
    } else if spec_is_op_char(s[i]) && spec_depth_after(s, i) == 0 {
        match cur {
            None => spec_find_main(s, i + 1, Some((s[i], i))),
            Some((m, mp)) => {
                if spec_is_bin_op(m) && spec_is_bin_op(s[i]) {
                    Err(())
                } else if spec_is_una_op(m) && spec_is_bin_op(s[i]) {
                    spec_find_main(s, i + 1, Some((s[i], i)))
                } else {
                    spec_find_main(s, i + 1, cur)
                }
            },
        }
    } else {
        spec_find_main(s, i + 1, cur)
    }
}

/// A successful scan yields a candidate that was seen in the string, within
/// bounds, at its own position.
pub proof fn lemma_find_main_bounds(s: Seq<char>, i: int, cur: Option<(char, int)>)
    requires
        0 <= i,
        match cur {
            Some((m, mp)) => 0 <= mp < i && mp < s.len() && s[mp] == m && spec_is_op_char(m),
            None => true,
        },
        spec_find_main(s, i, cur) matches Ok(Some(_)),
    ensures
        match spec_find_main(s, i, cur) {
            Ok(Some((c, p))) => 0 <= p < s.len() && s[p] == c && spec_is_op_char(c),
            _ => false,
        },
    decreases s.len() - i,
{
    if i >= s.len() {
    } else if spec_is_op_char(s[i]) && spec_depth_after(s, i) == 0 {
        match cur {
            None => lemma_find_main_bounds(s, i + 1, Some((s[i], i))),
            Some((m, mp)) => {
                if spec_is_bin_op(m) && spec_is_bin_op(s[i]) {
                } else if spec_is_una_op(m) && spec_is_bin_op(s[i]) {
                    lemma_find_main_bounds(s, i + 1, Some((s[i], i)));
                } else {
                    lemma_find_main_bounds(s, i + 1, cur);
                }
            },
        }
    } else {
        lemma_find_main_bounds(s, i + 1, cur);
    }
}

/// Parses a normalized-and-checked sentence string.  This is the meaning of
/// `Sentence::parse`: trimming, normalization, the structural checks, and
/// recursion on the parts around the main operator.
pub open spec fn spec_parse_sentence(raw: Seq<char>) -> Result<Sentence, ParseErrorV>
    decreases raw.len(),
    via spec_parse_sentence_decreases
{
    let t = spec_trim(raw);
    if t.len() == 0 {
        Err(ParseErrorV::EmptySentence)
    } else {
        let i = spec_sentence_normal(t);
        if !spec_balanced(i) {
            Err(ParseErrorV::UnbalancedParentheses)
        } else if spec_strippable(i) {
            spec_parse_sentence(i.subrange(1, i.len() - 1))
        } else if spec_invalid_list(i).len() > 0 {
            Err(ParseErrorV::InvalidCharacter(spec_invalid_list(i)))
        } else if i.len() == 1 && (i[0] == '⊥' || i[0] == '□') {
            Ok(Sentence::Signal(i[0]))
        } else if i.contains('⊥') {
            Err(ParseErrorV::BadContradiction)
        } else if i.len() == 1 && 'A' as u32 <= i[0] as u32 && i[0] as u32 <= 'Z' as u32 {
            Ok(Sentence::Atomic(i[0]))
        } else {
            match spec_find_main(i, 0, None) {
                Err(_) => Err(ParseErrorV::Ambiguous),
                Ok(None) => Err(ParseErrorV::MissingOp),
                Ok(Some((c, p))) => {
                    if c == '¬' || c == '□' || c == '◇' {
                        if p != 0 {
                            Err(ParseErrorV::BadUnary)
                        } else {
                            match spec_parse_sentence(i.skip(1)) {
                                Ok(x) => Ok(
                                    if c == '¬' {
                                        Sentence::Neg(Box::new(x))
                                    } else if c == '□' {
                                        Sentence::Nec(Box::new(x))
                                    } else {
                                        Sentence::Pos(Box::new(x))
                                    },
                                ),
                                Err(e) => Err(e),
                            }
                        }
                    } else {
                        match spec_parse_sentence(i.take(p)) {
                            Err(e) => Err(e),
                            Ok(l) => match spec_parse_sentence(i.skip(p + 1)) {
                                Err(e) => Err(e),
                                Ok(r) => Ok(
                                    if c == '∧' {
                                        Sentence::Con(Box::new(l), Box::new(r))
                                    } else if c == '∨' {
                                        Sentence::Dis(Box::new(l), Box::new(r))
                                    } else if c == '→' {
                                        Sentence::Imp(Box::new(l), Box::new(r))
                                    } else {
                                        Sentence::Bic(Box::new(l), Box::new(r))
                                    },
                                ),
                            },
                        }
                    }
                },
            }
        }
    }
}

#[via_fn]
proof fn spec_parse_sentence_decreases(raw: Seq<char>) {
    let t = spec_trim(raw);
    if t.len() != 0 {
        lemma_trim_len(raw);
        let i = spec_sentence_normal(t);
        lemma_sentence_normal_len(t);
        assert(i.len() <= raw.len());
        if spec_balanced(i) {
            if spec_strippable(i) {
            } else if spec_invalid_list(i).len() > 0 {
            } else {
                match spec_find_main(i, 0, None) {
                    Ok(Some((c, p))) => {
                        lemma_find_main_bounds(i, 0, None);
                        assert(0 <= p < i.len());
                    },
                    _ => {},
                }
            }
        }
    }
}

/// Whether an executable parse outcome carries the value that the
/// specification-level parse gives.
pub open spec fn sentence_result_matches(
    r: Result<Sentence, ParseError>,
    s: Result<Sentence, ParseErrorV>,
) -> bool {
    match (r, s) {
        (Ok(a), Ok(b)) => a == b,
        (Err(a), Err(b)) => a@ == b,
        _ => false,
    }
}

/// Whether `c` carries the Unicode `White_Space` property.
pub fn is_space(c: char) -> (r: bool)
    ensures
        r == spec_is_space(c),
{
    let u = c as u32;
    (0x09 <= u && u <= 0x0D) || u == 0x20 || u == 0x85 || u == 0xA0 || u == 0x1680 || (0x2000 <= u
        && u <= 0x200A) || u == 0x2028 || u == 0x2029 || u == 0x202F || u == 0x205F || u == 0x3000
}

/// Whether `c` belongs to the sentence alphabet.
fn is_valid_char(c: char) -> (r: bool)
    ensures
        r == spec_is_valid_char(c),
{
    let u = c as u32;
    ('A' as u32 <= u && u <= 'Z' as u32) || c == '¬' || c == '∨' || c == '∧' || c == '↔'
        || c == '→' || c == '⊥' || c == '□' || c == '◇' || is_space(c) || c == '(' || c == ')'
        || c == '[' || c == ']' || c == '{' || c == '}'
}

/// Whether `c` is an operator character.
fn is_op_char(c: char) -> (r: bool)
    ensures
        r == spec_is_op_char(c),
{
    c == '¬' || c == '∧' || c == '∨' || c == '↔' || c == '→' || c == '⊥' || c == '□' || c == '◇'
}

/// Whether `c` is a unary operator (the signals count as unary).
pub fn is_una_op(c: char) -> (r: bool)
    ensures
        r == spec_is_una_op(c),
{
    c == '¬' || c == '⊥' || c == '□' || c == '◇'
}

/// Whether `c` is a binary connective.
pub fn is_bin_op(c: char) -> (r: bool)
    ensures
        r == spec_is_bin_op(c),
{
    c == '∧' || c == '∨' || c == '↔' || c == '→'
}

/// Copies `v[from..to]` into a fresh vector.
fn sub_chars(v: &Vec<char>, from: usize, to: usize) -> (r: Vec<char>)
    requires
        from <= to,
        to <= v@.len(),
    ensures
        r@ == v@.subrange(from as int, to as int),
{
    let mut r: Vec<char> = Vec::new();
    let mut j: usize = from;
    while j < to
        invariant
            from <= j <= to,
            to <= v@.len(),
            r@ == v@.subrange(from as int, j as int),
        decreases to - j,
    {
        let c = v[j];
        r.push(c);
        proof {
            assert(r@ =~= v@.subrange(from as int, j + 1 as int));
        }
        j += 1;
    }
    r
}

proof fn lemma_trim_start_at(s: Seq<char>, a: int)
    requires
        0 <= a <= s.len(),
        forall|j: int| 0 <= j < a ==> spec_is_space(s[j]),
        a < s.len() ==> !spec_is_space(s[a]),
    ensures
        spec_trim_start(s) == s.skip(a),
    decreases a,
{
    if a == 0 {
        assert(s.skip(0) =~= s);
    } else {
        assert(spec_is_space(s[0]));
        lemma_trim_start_at(s.drop_first(), a - 1);
        assert(s.drop_first().skip(a - 1) =~= s.skip(a));
    }
}

proof fn lemma_trim_end_at(u: Seq<char>, b: int)
    requires
        0 <= b <= u.len(),
        forall|j: int| b <= j < u.len() ==> spec_is_space(u[j]),
        b > 0 ==> !spec_is_space(u[b - 1]),
    ensures
        spec_trim_end(u) == u.take(b),
    decreases u.len(),
{
    if b == u.len() {
        if u.len() == 0 {
            assert(u.take(b) =~= u);
        } else {
            assert(!spec_is_space(u.last()));
            assert(u.take(b) =~= u);
        }
    } else {
        assert(spec_is_space(u.last()));
        lemma_trim_end_at(u.drop_last(), b);
        assert(u.drop_last().take(b) =~= u.take(b));
    }
}

/// Removes leading and trailing whitespace.
pub(crate) fn trim_chars(v: &Vec<char>) -> (r: Vec<char>)
    ensures
        r@ == spec_trim(v@),
{
    let len = v.len();
    let mut a: usize = 0;
    while a < len && is_space(v[a])
        invariant
            len == v@.len(),
            a <= len,
            forall|j: int| 0 <= j < a ==> spec_is_space(v@[j]),
        decreases len - a,
    {
        a += 1;
    }
    let mut b: usize = len;
    while b > a && is_space(v[b - 1])
        invariant
            len == v@.len(),
            a <= b <= len,
            forall|j: int| b <= j < len ==> spec_is_space(v@[j]),
        decreases b,
    {
        b -= 1;
    }
    proof {
        lemma_trim_start_at(v@, a as int);
        let u = v@.skip(a as int);
        lemma_trim_end_at(u, b - a);
        assert(u.take(b - a) =~= v@.subrange(a as int, b as int));
    }
    sub_chars(v, a, b)
}

/// Rewrites bracket shapes to plain parentheses.
fn normalize_braces_chars(v: Vec<char>) -> (r: Vec<char>)
    ensures
        r@ == spec_normalize_braces(v@),
{
    let mut open_pats: Vec<Vec<char>> = Vec::new();
    crate::normalize::push_pat(&mut open_pats, vec!['[']);
    crate::normalize::push_pat(&mut open_pats, vec!['{']);
    proof {
        assert(open_pats.deep_view() =~~= open_brace_pats());
    }
    let s1 = crate::normalize::replace_chars(&v, &open_pats, '(');

    let mut close_pats: Vec<Vec<char>> = Vec::new();
    crate::normalize::push_pat(&mut close_pats, vec![']']);
    crate::normalize::push_pat(&mut close_pats, vec!['}']);
    proof {
        assert(close_pats.deep_view() =~~= close_brace_pats());
    }
    crate::normalize::replace_chars(&s1, &close_pats, ')')
}

/// Computes the running parenthesis depth at every character, failing when
/// the string does not balance back to depth zero.
pub fn compute_depths(i: &Vec<char>) -> (r: Result<Vec<u16>, ParseError>)
    ensures
        match r {
            Ok(d) => spec_balanced(i@) && d@.len() == i@.len() && forall|k: int|
                0 <= k < i@.len() ==> d@[k] == spec_depth_after(i@, k),
            Err(e) => !spec_balanced(i@) && e@ == ParseErrorV::UnbalancedParentheses,
        },
{
    let mut d: Vec<u16> = Vec::new();
    let mut cur: u16 = 0;
    let mut k: usize = 0;
    let len = i.len();
    while k < len
        invariant
            len == i@.len(),
            k <= len,
            d@.len() == k,
            cur == spec_depth_after(i@, k - 1),
            forall|m: int| 0 <= m < k ==> d@[m] == spec_depth_after(i@, m),
        decreases len - k,
    {
        let c = i[k];
        if c == '(' {
            if cur != 0xFFFFu16 {
                cur = cur + 1;
            }
        } else if c == ')' {
            if cur != 0u16 {
                cur = cur - 1;
            }
        }
        d.push(cur);
        k += 1;
    }
    if cur != 0 {
        return Err(ParseError::UnbalancedParentheses);
    }
    Ok(d)
}

/// Whether the whole string sits inside one redundant pair of parentheses.
fn strippable(i: &Vec<char>, d: &Vec<u16>) -> (r: bool)
    requires
        d@.len() == i@.len(),
        forall|k: int| 0 <= k < i@.len() ==> d@[k] == spec_depth_after(i@, k),
    ensures
        r == spec_strippable(i@),
{
    let len = i.len();
    if len == 0 {
        return false;
    }
    if d[0] != 1 {
        return false;
    }
    let mut n: usize = 1;
    while n < len - 1
        invariant
            len == i@.len(),
            len >= 1,
            1 <= n,
            n <= len,
            d@.len() == len,
            forall|k: int| 0 <= k < i@.len() ==> d@[k] == spec_depth_after(i@, k),
            spec_depth_after(i@, 0) == 1,
            forall|m: int| 1 <= m < n ==> #[trigger] spec_depth_after(i@, m) > 0,
        decreases len - n,
    {
        if d[n] == 0 {
            return false;
        }
        n += 1;
    }
    true
}

/// Collects the invalid characters of `v`, in order.
fn invalid_chars(v: &Vec<char>) -> (r: Result<(), ParseError>)
    ensures
        match r {
            Ok(u) => spec_invalid_list(v@).len() == 0,
            Err(e) => spec_invalid_list(v@).len() > 0 && e@ == ParseErrorV::InvalidCharacter(
                spec_invalid_list(v@),
            ),
        },
{
    let mut caps: Vec<String> = Vec::new();
    let mut k: usize = 0;
    let len = v.len();
    while k < len
        invariant
            len == v@.len(),
            k <= len,
            caps.deep_view() + spec_invalid_from(v@, k as int) == spec_invalid_from(v@, 0),
        decreases len - k,
    {
        let ghost pre = caps.deep_view();
        let c = v[k];
        if !is_valid_char(c) {
            push_cap(&mut caps, c);
            proof {
                assert(spec_invalid_from(v@, k as int) == seq![seq![v@[k as int]]]
                    + spec_invalid_from(v@, k + 1 as int));
                assert(pre + (seq![seq![c]] + spec_invalid_from(v@, k + 1 as int)) =~= caps.deep_view()
                    + spec_invalid_from(v@, k + 1 as int));
            }
        }
        k += 1;
    }
    proof {
        assert(caps.deep_view() + spec_invalid_from(v@, len as int) =~= caps.deep_view());
    }
    if caps.len() > 0 {
        proof {
            assert(caps.deep_view().len() == caps@.len());
        }
        Err(ParseError::InvalidCharacter(caps))
    } else {
        proof {
            assert(caps.deep_view().len() == caps@.len());
        }
        Ok(())
    }
}

/// Appends the one-character substring for `c` to the capture list.
fn push_cap(caps: &mut Vec<String>, c: char)
    ensures
        final(caps).deep_view() == old(caps).deep_view().push(seq![c]),
{
    let mut one: Vec<char> = Vec::new();
    one.push(c);
    proof {
        assert(one@ =~= seq![c]);
    }
    let s = chars_to_string(&one);
    caps.push(s);
    proof {
        assert(caps.deep_view() =~~= old(caps).deep_view().push(seq![c]));
    }
}

/// Whether `v` contains the character `c`.
fn contains_char(v: &Vec<char>, c: char) -> (r: bool)
    ensures
        r == v@.contains(c),
{
    let len = v.len();
    let mut k: usize = 0;
    while k < len
        invariant
            len == v@.len(),
            k <= len,
            forall|j: int| 0 <= j < k ==> v@[j] != c,
        decreases len - k,
    {
        if v[k] == c {
            return true;
        }
        k += 1;
    }
    false
}

/// The view of the scan accumulator.
pub open spec fn cur_view(c: Option<(char, usize)>) -> Option<(char, int)> {
    match c {
        Some((m, p)) => Some((m, p as int)),
        None => None,
    }
}

/// Locates the main operator of `v` at parenthesis depth zero.
fn find_main_chars(v: &Vec<char>, d: &Vec<u16>) -> (r: Result<Option<(char, usize)>, ParseError>)
    requires
        d@.len() == v@.len(),
        forall|k: int| 0 <= k < v@.len() ==> d@[k] == spec_depth_after(v@, k),
    ensures
        match r {
            Ok(cur) => spec_find_main(v@, 0, None) == Ok::<Option<(char, int)>, ()>(cur_view(cur))
                && (cur matches Some((c, p)) ==> p < v@.len() && v@[p as int] == c),
            Err(e) => spec_find_main(v@, 0, None) == Err::<Option<(char, int)>, ()>(()) && e@
                == ParseErrorV::Ambiguous,
        },
{
    let len = v.len();
    let mut cur: Option<(char, usize)> = None;
    let mut k: usize = 0;
    while k < len
        invariant
            len == v@.len(),
            k <= len,
            d@.len() == v@.len(),
            forall|m: int| 0 <= m < v@.len() ==> d@[m] == spec_depth_after(v@, m),
            spec_find_main(v@, 0, None) == spec_find_main(v@, k as int, cur_view(cur)),
            cur matches Some((c, p)) ==> p < k && v@[p as int] == c,
        decreases len - k,
    {
        let ghost old_cur = cur;
        let c = v[k];
        if is_op_char(c) && d[k] == 0 {
            match cur {
                None => {
                    cur = Some((c, k));
                },
                Some((m, mp)) => {
                    if is_bin_op(m) && is_bin_op(c) {
                        return Err(ParseError::Ambiguous);
                    } else if is_una_op(m) && is_bin_op(c) {
                        cur = Some((c, k));
                    }
                },
            }
        }
        proof {
            assert(spec_find_main(v@, k as int, cur_view(old_cur)) == spec_find_main(
                v@,
                k + 1 as int,
                cur_view(cur),
            ));
        }
        k += 1;
    }
    Ok(cur)
}

/// Parses one sentence, given as a character vector.
fn parse_chars(v: &Vec<char>) -> (r: Result<Sentence, ParseError>)
    ensures
        sentence_result_matches(r, spec_parse_sentence(v@)),
    decreases v@.len(),
{
    let t = trim_chars(v);
    if t.len() == 0 {
        return Err(ParseError::EmptySentence);
    }
    proof {
        lemma_trim_len(v@);
        lemma_sentence_normal_len(t@);
    }
    let i = normalize_braces_chars(crate::normalize::normalize_ops_chars(t));
    let ilen = i.len();
    let d = match compute_depths(&i) {
        Ok(d) => d,
        Err(e) => {
            return Err(e);
        },
    };
    if strippable(&i, &d) {
        proof {
            assert(spec_depth_after(i@, ilen - 1) == 0);
            assert(spec_depth_after(i@, 0) == 1);
            assert(ilen >= 2);
        }
        let inner = sub_chars(&i, 1, ilen - 1);
        return parse_chars(&inner);
    }
    match invalid_chars(&i) {
        Err(e) => {
            return Err(e);
        },
        Ok(u) => {},
    }
    if ilen == 1 {
        let c = i[0];
        if c == '⊥' || c == '□' {
            return Ok(Sentence::Signal(c));
        }
    }
    if contains_char(&i, '⊥') {
        return Err(ParseError::BadContradiction);
    }
    if ilen == 1 {
        let c = i[0];
        let u = c as u32;
        if 'A' as u32 <= u && u <= 'Z' as u32 {
            return Ok(Sentence::Atomic(c));
        }
    }
    match find_main_chars(&i, &d) {
        Err(e) => Err(e),
        Ok(None) => Err(ParseError::MissingOp),
        Ok(Some((c, p))) => {
            if c == '¬' || c == '□' || c == '◇' {
                if p != 0 {
                    return Err(ParseError::BadUnary);
                }
                let rest = sub_chars(&i, 1, ilen);
                proof {
                    assert(rest@ =~= i@.skip(1));
                }
                match parse_chars(&rest) {
                    Ok(x) => Ok(
                        if c == '¬' {
                            Sentence::Neg(Box::new(x))
                        } else if c == '□' {
                            Sentence::Nec(Box::new(x))
                        } else {
                            Sentence::Pos(Box::new(x))
                        },
                    ),
                    Err(e) => Err(e),
                }
            } else {
                let l = sub_chars(&i, 0, p);
                let r = sub_chars(&i, p + 1, ilen);
                proof {
                    assert(l@ =~= i@.take(p as int));
                    assert(r@ =~= i@.skip(p + 1));
                }
                match parse_chars(&l) {
                    Err(e) => Err(e),
                    Ok(lv) => match parse_chars(&r) {
                        Err(e) => Err(e),
                        Ok(rv) => Ok(
                            if c == '∧' {
                                Sentence::Con(Box::new(lv), Box::new(rv))
                            } else if c == '∨' {
                                Sentence::Dis(Box::new(lv), Box::new(rv))
                            } else if c == '→' {
                                Sentence::Imp(Box::new(lv), Box::new(rv))
                            } else {
                                Sentence::Bic(Box::new(lv), Box::new(rv))
                            },
                        ),
                    },
                }
            }
        },
    }
}

impl Sentence {
    /// Parses a sentence from text: trims, normalizes aliases and brackets,
    /// checks balance and alphabet, and descends on the main operator.
    pub fn parse(i: &str) -> (r: Result<Sentence, ParseError>)
        ensures
            sentence_result_matches(r, spec_parse_sentence(i@)),
    {
        let v = str_to_chars(i);
        parse_chars(&v)
    }
}

/// Trimming never lengthens a string.
pub proof fn lemma_trim_len(s: Seq<char>)
    ensures
        spec_trim(s).len() <= s.len(),
{
    lemma_trim_start_len(s);
    lemma_trim_end_len(spec_trim_start(s));
}

proof fn lemma_trim_start_len(s: Seq<char>)
    ensures
        spec_trim_start(s).len() <= s.len(),
    decreases s.len(),
{
    if s.len() > 0 && spec_is_space(s[0]) {
        lemma_trim_start_len(s.drop_first());
    }
}

proof fn lemma_trim_end_len(s: Seq<char>)
    ensures
        spec_trim_end(s).len() <= s.len(),
    decreases s.len(),
{
    if s.len() > 0 && spec_is_space(s.last()) {
        lemma_trim_end_len(s.drop_last());
    }
}

/// A rewrite pass never lengthens a string, and never empties a non-empty
/// one.
pub proof fn lemma_replace_len(s: Seq<char>, pats: Seq<Seq<char>>, to: char)
    ensures
        spec_replace(s, pats, to).len() <= s.len(),
        s.len() > 0 ==> spec_replace(s, pats, to).len() >= 1,
    decreases s.len(),
{
    if s.len() == 0 {
    } else {
        match first_match(pats, s) {
            Some(p) => {
                let k = if crate::normalize::step_len(p) <= s.len() {
                    crate::normalize::step_len(p)
                } else {
                    s.len() as int
                };
                lemma_replace_len(s.skip(k), pats, to);
            },
            None => {
                lemma_replace_len(s.skip(1), pats, to);
            },
        }
    }
}

/// Normalization never lengthens a string, and never empties a non-empty
/// one.
pub proof fn lemma_sentence_normal_len(s: Seq<char>)
    ensures
        spec_sentence_normal(s).len() <= s.len(),
        s.len() > 0 ==> spec_sentence_normal(s).len() >= 1,
{
    lemma_normalize_ops_len(s);
    let s8 = spec_normalize_ops(s);
    lemma_replace_len(s8, open_brace_pats(), '(');
    let b1 = spec_replace(s8, open_brace_pats(), '(');
    lemma_replace_len(b1, close_brace_pats(), ')');
}

/// A sentence wrapped in one pair of outer parentheses.
pub open spec fn wrap_parens(s: Seq<char>) -> Seq<char> {
    seq!['('] + s + seq![')']
}

/// Every closing parenthesis has a matching opener before it: the running
/// depth never tries to fall below zero.
pub open spec fn no_dip(s: Seq<char>) -> bool {
    forall|i: int|
        0 <= i < s.len() ==> ((#[trigger] s[i]) == ')' ==> spec_depth_after(s, i - 1) >= 1)
}

/// Proper nesting: the parentheses balance, every closing parenthesis has a
/// matching opener before it, and the depth stays clear of the saturation
/// ceiling.
pub open spec fn properly_nested(s: Seq<char>) -> bool {
    &&& spec_balanced(s)
    &&& forall|i: int| 0 <= i < s.len() ==> (#[trigger] spec_depth_after(s, i)) < 0xFFFE
    &&& no_dip(s)
}

/// The brace patterns are nonempty and mention no plain parenthesis.
proof fn lemma_brace_pats_facts()
    ensures
        pats_wf(open_brace_pats()),
        pats_wf(close_brace_pats()),
        forall|k: int|
            0 <= k < open_brace_pats().len() ==> crate::normalize::paren_free(
                #[trigger] open_brace_pats()[k],
            ),
        forall|k: int|
            0 <= k < close_brace_pats().len() ==> crate::normalize::paren_free(
                #[trigger] close_brace_pats()[k],
            ),
{
    assert forall|k: int| 0 <= k < open_brace_pats().len() implies crate::normalize::paren_free(
        #[trigger] open_brace_pats()[k],
    ) by {
        assert forall|x: int| 0 <= x < open_brace_pats()[k].len() implies open_brace_pats()[k][x]
            != '(' && open_brace_pats()[k][x] != ')' by {}
    }
    assert forall|k: int| 0 <= k < close_brace_pats().len() implies crate::normalize::paren_free(
        #[trigger] close_brace_pats()[k],
    ) by {
        assert forall|x: int| 0 <= x < close_brace_pats()[k].len() implies close_brace_pats()[k][x]
            != '(' && close_brace_pats()[k][x] != ')' by {}
    }
}

/// With patterns that avoid `c`, `first_match` ignores a trailing `c`.
proof fn lemma_first_match_suffix_char(pats: Seq<Seq<char>>, s: Seq<char>, c: char)
    requires
        crate::normalize::pats_avoid_char(pats, c),
    ensures
        first_match(pats, s + seq![c]) == first_match(pats, s),
    decreases pats.len(),
{
    if pats.len() > 0 {
        let p = pats[0];
        let w = s + seq![c];
        if p.is_prefix_of(w) {
            if p.len() > s.len() {
                assert(p.len() == s.len() + 1);
                assert(p[p.len() - 1] == w.subrange(0, p.len() as int)[p.len() - 1]);
                assert(p[p.len() - 1] == c);
                assert(p.contains(c));
                assert(false);
            } else {
                assert forall|x: int| 0 <= x < p.len() implies p[x] == s[x] by {
                    assert(p[x] == w.subrange(0, p.len() as int)[x]);
                }
                assert(p =~= s.subrange(0, p.len() as int));
                assert(p.is_prefix_of(s));
            }
        } else {
            if p.is_prefix_of(s) {
                assert forall|x: int| 0 <= x < p.len() implies p[x] == w[x] by {
                    assert(p[x] == s.subrange(0, p.len() as int)[x]);
                }
                assert(p =~= w.subrange(0, p.len() as int));
                assert(p.is_prefix_of(w));
                assert(false);
            }
        }
        assert forall|k: int| 0 <= k < pats.drop_first().len() implies !(#[trigger] pats.drop_first()[k]).contains(c) by {
            assert(pats.drop_first()[k] == pats[k + 1]);
        }
        lemma_first_match_suffix_char(pats.drop_first(), s, c);
    }
}

/// With patterns that avoid `c`, a rewrite pass carries a trailing `c`
/// through unchanged.
proof fn lemma_replace_suffix_char(s: Seq<char>, pats: Seq<Seq<char>>, to: char, c: char)
    requires
        pats_wf(pats),
        crate::normalize::pats_avoid_char(pats, c),
    ensures
        spec_replace(s + seq![c], pats, to) == spec_replace(s, pats, to) + seq![c],
    decreases s.len(),
{
    let w = s + seq![c];
    lemma_first_match_suffix_char(pats, s, c);
    if s.len() == 0 {
        assert(w =~= seq![c]);
        match first_match(pats, w) {
            Some(p) => {
                lemma_first_match_some(pats, w, p);
                assert(p[0] == w.subrange(0, p.len() as int)[0]);
                assert(p[0] == c);
                assert(p.contains(c));
                assert(false);
            },
            None => {
                assert(w.skip(1) =~= Seq::<char>::empty());
                assert(spec_replace(w, pats, to) == seq![c] + spec_replace(
                    Seq::<char>::empty(),
                    pats,
                    to,
                ));
                assert(spec_replace(w, pats, to) =~= spec_replace(s, pats, to) + seq![c]);
            },
        }
    } else {
        match first_match(pats, s) {
            Some(p) => {
                lemma_first_match_some(pats, s, p);
                let k = crate::normalize::step_len(p);
                assert(1 <= k <= s.len());
                assert(w.skip(k) =~= s.skip(k) + seq![c]);
                lemma_replace_suffix_char(s.skip(k), pats, to, c);
                assert((seq![to] + (spec_replace(s.skip(k), pats, to) + seq![c])) =~= (seq![to]
                    + spec_replace(s.skip(k), pats, to)) + seq![c]);
            },
            None => {
                assert(w[0] == s[0]);
                assert(w.skip(1) =~= s.skip(1) + seq![c]);
                lemma_replace_suffix_char(s.skip(1), pats, to, c);
                assert((seq![s[0]] + (spec_replace(s.skip(1), pats, to) + seq![c])) =~= (seq![
                    s[0],
                ] + spec_replace(s.skip(1), pats, to)) + seq![c]);
            },
        }
    }
}

/// With patterns that avoid `c`, a rewrite pass carries a leading `c`
/// through unchanged.
proof fn lemma_replace_prefix_char(s: Seq<char>, pats: Seq<Seq<char>>, to: char, c: char)
    requires
        pats_wf(pats),
        crate::normalize::pats_avoid_char(pats, c),
    ensures
        spec_replace(seq![c] + s, pats, to) == seq![c] + spec_replace(s, pats, to),
{
    let w = seq![c] + s;
    match first_match(pats, w) {
        Some(p) => {
            lemma_first_match_some(pats, w, p);
            assert(p[0] == w.subrange(0, p.len() as int)[0]);
            assert(p[0] == c);
            assert(p.contains(c));
            assert(false);
        },
        None => {
            assert(w[0] == c);
            assert(w.skip(1) =~= s);
        },
    }
}

/// With parenthesis-free patterns, a rewrite pass distributes over a wrap in
/// outer parentheses.
proof fn lemma_replace_wrap(s: Seq<char>, pats: Seq<Seq<char>>, to: char)
    requires
        pats_wf(pats),
        forall|k: int| 0 <= k < pats.len() ==> crate::normalize::paren_free(#[trigger] pats[k]),
    ensures
        spec_replace(wrap_parens(s), pats, to) == wrap_parens(spec_replace(s, pats, to)),
{
    assert(crate::normalize::pats_avoid_char(pats, '(')) by {
        assert forall|k: int| 0 <= k < pats.len() implies !(#[trigger] pats[k]).contains('(') by {
            assert(crate::normalize::paren_free(pats[k]));
        }
    }
    assert(crate::normalize::pats_avoid_char(pats, ')')) by {
        assert forall|k: int| 0 <= k < pats.len() implies !(#[trigger] pats[k]).contains(')') by {
            assert(crate::normalize::paren_free(pats[k]));
        }
    }
    assert(wrap_parens(s) =~= seq!['('] + (s + seq![')']));
    lemma_replace_prefix_char(s + seq![')'], pats, to, '(');
    lemma_replace_suffix_char(s, pats, to, ')');
    assert(seq!['('] + (spec_replace(s, pats, to) + seq![')']) =~= wrap_parens(
        spec_replace(s, pats, to),
    ));
}

/// Normalization distributes over a wrap in outer parentheses.
pub proof fn lemma_normal_wrap(s: Seq<char>)
    ensures
        spec_sentence_normal(wrap_parens(s)) == wrap_parens(spec_sentence_normal(s)),
{
    crate::normalize::lemma_all_pats_facts();
    lemma_brace_pats_facts();
    let a = crate::normalize::all_pats();
    assert forall|k: int| 0 <= k < a.len() implies #[trigger] a[k].len() >= 1 by {
        assert(crate::normalize::avoids_canonicals(a[k]));
    }
    assert(pats_wf(crate::normalize::bic_pats()));
    assert(pats_wf(crate::normalize::imp_pats()));
    assert(pats_wf(crate::normalize::con_pats()));
    assert(pats_wf(crate::normalize::dis_pats()));
    assert(pats_wf(crate::normalize::neg_pats()));
    assert(pats_wf(crate::normalize::bot_pats()));
    assert(pats_wf(crate::normalize::nec_pats()));
    assert(pats_wf(crate::normalize::pos_pats()));
    let t1 = spec_replace(s, crate::normalize::bic_pats(), '↔');
    let t2 = spec_replace(t1, crate::normalize::imp_pats(), '→');
    let t3 = spec_replace(t2, crate::normalize::con_pats(), '∧');
    let t4 = spec_replace(t3, crate::normalize::dis_pats(), '∨');
    let t5 = spec_replace(t4, crate::normalize::neg_pats(), '¬');
    let t6 = spec_replace(t5, crate::normalize::bot_pats(), '⊥');
    let t7 = spec_replace(t6, crate::normalize::nec_pats(), '□');
    let t8 = spec_replace(t7, crate::normalize::pos_pats(), '◇');
    let b1 = spec_replace(t8, open_brace_pats(), '(');
    lemma_replace_wrap(s, crate::normalize::bic_pats(), '↔');
    lemma_replace_wrap(t1, crate::normalize::imp_pats(), '→');
    lemma_replace_wrap(t2, crate::normalize::con_pats(), '∧');
    lemma_replace_wrap(t3, crate::normalize::dis_pats(), '∨');
    lemma_replace_wrap(t4, crate::normalize::neg_pats(), '¬');
    lemma_replace_wrap(t5, crate::normalize::bot_pats(), '⊥');
    lemma_replace_wrap(t6, crate::normalize::nec_pats(), '□');
    lemma_replace_wrap(t7, crate::normalize::pos_pats(), '◇');
    lemma_replace_wrap(t8, open_brace_pats(), '(');
    lemma_replace_wrap(b1, close_brace_pats(), ')');
}

/// A rewrite pass with a non-blank replacement character keeps the first
/// character of a non-blank-edged text non-blank, and likewise the last.
proof fn lemma_replace_edges(s: Seq<char>, pats: Seq<Seq<char>>, to: char)
    requires
        s.len() > 0,
        !spec_is_space(s[0]),
        !spec_is_space(s.last()),
        !spec_is_space(to),
    ensures
        spec_replace(s, pats, to).len() > 0,
        !spec_is_space(spec_replace(s, pats, to)[0]),
        !spec_is_space(spec_replace(s, pats, to).last()),
    decreases s.len(),
{
    let out = spec_replace(s, pats, to);
    match first_match(pats, s) {
        Some(p) => {
            let k = if crate::normalize::step_len(p) <= s.len() {
                crate::normalize::step_len(p)
            } else {
                s.len() as int
            };
            let rest = spec_replace(s.skip(k), pats, to);
            assert(out == seq![to] + rest);
            assert(out[0] == to);
            if k == s.len() {
                assert(s.skip(k) =~= Seq::<char>::empty());
                assert(rest.len() == 0);
                assert(out.last() == to);
            } else {
                assert(s.skip(k).last() == s.last());
                assert(s.skip(k)[0] == s[k]);
                lemma_replace_last(s.skip(k), pats, to);
                assert(out.last() == rest.last());
            }
        },
        None => {
            let rest = spec_replace(s.skip(1), pats, to);
            assert(out == seq![s[0]] + rest);
            assert(out[0] == s[0]);
            if s.len() == 1 {
                assert(s.skip(1) =~= Seq::<char>::empty());
                assert(out.last() == s[0]);
            } else {
                assert(s.skip(1).last() == s.last());
                lemma_replace_last(s.skip(1), pats, to);
                assert(out.last() == rest.last());
            }
        },
    }
}

/// A rewrite pass with a non-blank replacement character keeps the last
/// character of a text with a non-blank last character non-blank.
proof fn lemma_replace_last(s: Seq<char>, pats: Seq<Seq<char>>, to: char)
    requires
        s.len() > 0,
        !spec_is_space(s.last()),
        !spec_is_space(to),
    ensures
        spec_replace(s, pats, to).len() > 0,
        !spec_is_space(spec_replace(s, pats, to).last()),
    decreases s.len(),
{
    let out = spec_replace(s, pats, to);
    match first_match(pats, s) {
        Some(p) => {
            let k = if crate::normalize::step_len(p) <= s.len() {
                crate::normalize::step_len(p)
            } else {
                s.len() as int
            };
            let rest = spec_replace(s.skip(k), pats, to);
            assert(out == seq![to] + rest);
            if k == s.len() {
                assert(s.skip(k) =~= Seq::<char>::empty());
                assert(out.last() == to);
            } else {
                assert(s.skip(k).last() == s.last());
                lemma_replace_last(s.skip(k), pats, to);
                assert(out.last() == rest.last());
            }
        },
        None => {
            let rest = spec_replace(s.skip(1), pats, to);
            assert(out == seq![s[0]] + rest);
            if s.len() == 1 {
                assert(s.skip(1) =~= Seq::<char>::empty());
                assert(out.last() == s[0]);
            } else {
                assert(s.skip(1).last() == s.last());
                lemma_replace_last(s.skip(1), pats, to);
                assert(out.last() == rest.last());
            }
        },
    }
}

/// A text whose edges are non-blank is already trimmed.
proof fn lemma_trimmed_of_edges(s: Seq<char>)
    requires
        s.len() > 0,
        !spec_is_space(s[0]),
        !spec_is_space(s.last()),
    ensures
        spec_trim(s) == s,
{
    assert(spec_trim_start(s) == s);
    assert(spec_trim_end(s) == s);
}

/// Normalizing a trimmed, non-empty sentence keeps it trimmed and
/// non-empty.
pub proof fn lemma_normal_trimmed(s: Seq<char>)
    requires
        s.len() > 0,
        spec_trim(s) == s,
    ensures
        spec_sentence_normal(s).len() > 0,
        spec_trim(spec_sentence_normal(s)) == spec_sentence_normal(s),
{
    assert(spec_trim_end(spec_trim_start(s)) == s);
    assert(!spec_is_space(s[0])) by {
        if spec_is_space(s[0]) {
            lemma_trim_start_len(s.drop_first());
            lemma_trim_end_len(spec_trim_start(s.drop_first()));
            assert(spec_trim(s).len() <= s.drop_first().len());
        }
    }
    assert(!spec_is_space(s.last())) by {
        if spec_is_space(s.last()) {
            assert(spec_trim_start(s) == s);
            assert(spec_trim_end(s) == spec_trim_end(s.drop_last()));
            lemma_trim_end_len(s.drop_last());
        }
    }
    let t1 = spec_replace(s, crate::normalize::bic_pats(), '↔');
    let t2 = spec_replace(t1, crate::normalize::imp_pats(), '→');
    let t3 = spec_replace(t2, crate::normalize::con_pats(), '∧');
    let t4 = spec_replace(t3, crate::normalize::dis_pats(), '∨');
    let t5 = spec_replace(t4, crate::normalize::neg_pats(), '¬');
    let t6 = spec_replace(t5, crate::normalize::bot_pats(), '⊥');
    let t7 = spec_replace(t6, crate::normalize::nec_pats(), '□');
    let t8 = spec_replace(t7, crate::normalize::pos_pats(), '◇');
    let b1 = spec_replace(t8, open_brace_pats(), '(');
    let b2 = spec_replace(b1, close_brace_pats(), ')');
    lemma_replace_edges(s, crate::normalize::bic_pats(), '↔');
    lemma_replace_edges(t1, crate::normalize::imp_pats(), '→');
    lemma_replace_edges(t2, crate::normalize::con_pats(), '∧');
    lemma_replace_edges(t3, crate::normalize::dis_pats(), '∨');
    lemma_replace_edges(t4, crate::normalize::neg_pats(), '¬');
    lemma_replace_edges(t5, crate::normalize::bot_pats(), '⊥');
    lemma_replace_edges(t6, crate::normalize::nec_pats(), '□');
    lemma_replace_edges(t7, crate::normalize::pos_pats(), '◇');
    lemma_replace_edges(t8, open_brace_pats(), '(');
    lemma_replace_edges(b1, close_brace_pats(), ')');
    lemma_trimmed_of_edges(b2);
}

/// No alias pattern and no brace pattern occurs in a normalized sentence.
pub proof fn lemma_sentence_normal_clean(s: Seq<char>)
    ensures
        forall|k: int|
            0 <= k < crate::normalize::all_pats().len() ==> !crate::normalize::occurs(
                spec_sentence_normal(s),
                #[trigger] crate::normalize::all_pats()[k],
            ),
        forall|k: int|
            0 <= k < open_brace_pats().len() ==> !crate::normalize::occurs(
                spec_sentence_normal(s),
                #[trigger] open_brace_pats()[k],
            ),
        forall|k: int|
            0 <= k < close_brace_pats().len() ==> !crate::normalize::occurs(
                spec_sentence_normal(s),
                #[trigger] close_brace_pats()[k],
            ),
{
    crate::normalize::lemma_all_pats_facts();
    crate::normalize::lemma_normalize_ops_clean(s);
    lemma_brace_pats_facts();
    let a = crate::normalize::all_pats();
    assert forall|k: int| 0 <= k < a.len() implies #[trigger] a[k].len() >= 1 && !a[k].contains(
        '(',
    ) && !a[k].contains(')') by {
        assert(crate::normalize::avoids_canonicals(a[k]));
        assert(crate::normalize::paren_free(a[k]));
    }
    let u = spec_normalize_ops(s);
    let b1 = spec_replace(u, open_brace_pats(), '(');
    let v = spec_replace(b1, close_brace_pats(), ')');
    assert(spec_sentence_normal(s) == v);
    // The alias patterns stay absent through both brace passes.
    crate::normalize::lemma_pass_clean(u, open_brace_pats(), '(', a);
    crate::normalize::lemma_pass_clean(b1, close_brace_pats(), ')', a);
    // The brace patterns are eliminated and stay absent.
    crate::normalize::lemma_pass_clean(u, open_brace_pats(), '(', open_brace_pats());
    crate::normalize::lemma_pass_clean(b1, close_brace_pats(), ')', open_brace_pats());
    crate::normalize::lemma_pass_clean(b1, close_brace_pats(), ')', close_brace_pats());
}

/// A text free of every alias and brace pattern normalizes to itself.
pub proof fn lemma_sentence_normal_identity(v: Seq<char>)
    requires
        forall|k: int|
            0 <= k < crate::normalize::all_pats().len() ==> !crate::normalize::occurs(
                v,
                #[trigger] crate::normalize::all_pats()[k],
            ),
        forall|k: int|
            0 <= k < open_brace_pats().len() ==> !crate::normalize::occurs(
                v,
                #[trigger] open_brace_pats()[k],
            ),
        forall|k: int|
            0 <= k < close_brace_pats().len() ==> !crate::normalize::occurs(
                v,
                #[trigger] close_brace_pats()[k],
            ),
    ensures
        spec_sentence_normal(v) == v,
        spec_normalize_ops(v) == v,
{
    crate::normalize::lemma_all_pats_facts();
    lemma_brace_pats_facts();
    let a = crate::normalize::all_pats();
    assert forall|k: int| 0 <= k < a.len() implies #[trigger] a[k].len() >= 1 by {
        assert(crate::normalize::avoids_canonicals(a[k]));
    }
    crate::normalize::lemma_replace_identity(v, crate::normalize::bic_pats(), '↔');
    crate::normalize::lemma_replace_identity(v, crate::normalize::imp_pats(), '→');
    crate::normalize::lemma_replace_identity(v, crate::normalize::con_pats(), '∧');
    crate::normalize::lemma_replace_identity(v, crate::normalize::dis_pats(), '∨');
    crate::normalize::lemma_replace_identity(v, crate::normalize::neg_pats(), '¬');
    crate::normalize::lemma_replace_identity(v, crate::normalize::bot_pats(), '⊥');
    crate::normalize::lemma_replace_identity(v, crate::normalize::nec_pats(), '□');
    crate::normalize::lemma_replace_identity(v, crate::normalize::pos_pats(), '◇');
    assert(spec_normalize_ops(v) == v);
    crate::normalize::lemma_replace_identity(v, open_brace_pats(), '(');
    crate::normalize::lemma_replace_identity(v, close_brace_pats(), ')');
}

/// The whole sentence normalization is idempotent.
pub proof fn lemma_sentence_normal_idempotent(s: Seq<char>)
    ensures
        spec_sentence_normal(spec_sentence_normal(s)) == spec_sentence_normal(s),
{
    lemma_sentence_normal_clean(s);
    lemma_sentence_normal_identity(spec_sentence_normal(s));
}

proof fn lemma_wrap_depth_at(s: Seq<char>, i: int)
    requires
        forall|x: int| 0 <= x < s.len() ==> (#[trigger] spec_depth_after(s, x)) < 0xFFFE,
        forall|x: int| 0 <= x < s.len() ==> ((#[trigger] s[x]) == ')' ==> spec_depth_after(s, x - 1)
            >= 1),
        0 <= i <= s.len(),
    ensures
        spec_depth_after(wrap_parens(s), i) == spec_depth_after(s, i - 1) + 1,
    decreases i,
{
    let w = wrap_parens(s);
    if i == 0 {
        assert(w[0] == '(');
        assert(w.len() == s.len() + 2);
        assert(spec_depth_after(w, -1) == 0);
        assert(spec_depth_after(s, -1) == 0);
        assert(spec_depth_after(w, 0) == spec_next_depth(0u16, '('));
    } else {
        lemma_wrap_depth_at(s, i - 1);
        assert(w[i] == s[i - 1]);
        let c = s[i - 1];
        let prev = spec_depth_after(s, i - 2);
        let dw = spec_depth_after(w, i - 1);
        assert(dw == prev + 1);
        assert(spec_depth_after(w, i) == spec_next_depth(dw, c));
        assert(spec_depth_after(s, i - 1) == spec_next_depth(prev, c));
        if c == '(' {
            assert(prev < 0xFFFE) by {
                if i >= 2 {
                    assert(spec_depth_after(s, i - 2) < 0xFFFE);
                }
            }
            assert(spec_next_depth(dw, c) == dw + 1);
            assert(spec_next_depth(prev, c) == prev + 1);
        } else if c == ')' {
            assert(prev >= 1);
            assert(spec_next_depth(dw, c) == dw - 1);
            assert(spec_next_depth(prev, c) == prev - 1);
        } else {
            assert(spec_next_depth(dw, c) == dw);
            assert(spec_next_depth(prev, c) == prev);
        }
    }
}

/// Wrapping a trimmed sentence whose normalized form nests properly in one
/// extra pair of outer parentheses does not change its parse: the parser
/// strips the redundant pair and recurses.  Because equality is preserved at
/// every removal, repeatedly removing outer redundant parentheses is
/// idempotent.
pub proof fn lemma_parse_parenthesized(s: Seq<char>)
    requires
        s.len() > 0,
        spec_trim(s) == s,
        properly_nested(spec_sentence_normal(s)),
    ensures
        spec_parse_sentence(wrap_parens(s)) == spec_parse_sentence(s),
{
    let t = spec_sentence_normal(s);
    lemma_normal_trimmed(s);
    lemma_sentence_normal_idempotent(s);
    let w = wrap_parens(s);
    assert(w.len() == s.len() + 2);
    assert(w[0] == '(');
    assert(w[w.len() - 1] == ')');
    assert(!spec_is_space('(')) by {
        assert('(' as u32 == 40);
    }
    assert(!spec_is_space(')')) by {
        assert(')' as u32 == 41);
    }
    assert(spec_trim_start(w) == w);
    assert(w.last() == ')');
    assert(spec_trim_end(w) == w);
    assert(spec_trim(w) == w);
    lemma_normal_wrap(s);
    let wt = wrap_parens(t);
    assert(spec_sentence_normal(w) == wt);
    assert forall|i: int| 0 <= i <= t.len() implies spec_depth_after(wt, i) == spec_depth_after(
        t,
        i - 1,
    ) + 1 by {
        lemma_wrap_depth_at(t, i);
    }
    assert(wt.len() == t.len() + 2);
    assert(wt[wt.len() - 1] == ')');
    assert(spec_depth_after(wt, wt.len() - 1) == spec_next_depth(
        spec_depth_after(wt, t.len() as int),
        ')',
    ));
    assert(spec_depth_after(wt, t.len() as int) == spec_depth_after(t, t.len() - 1) + 1);
    assert(spec_depth_after(t, t.len() - 1) == 0);
    assert(spec_depth_after(wt, wt.len() - 1) == 0);
    assert(spec_balanced(wt));
    assert(spec_depth_after(wt, 0) == 1);
    assert forall|n: int| 1 <= n < wt.len() - 1 implies #[trigger] spec_depth_after(wt, n) > 0 by {
        assert(spec_depth_after(wt, n) == spec_depth_after(t, n - 1) + 1);
    }
    assert(spec_strippable(wt));
    assert(wt.subrange(1, wt.len() - 1) =~= t);
    // The wrapped parse strips down to the normalized sentence.
    assert(spec_parse_sentence(w) == spec_parse_sentence(t));
    // The plain parse agrees with the parse of its own normalized form,
    // because both proceed from the same normalized text.
    assert(spec_trim(t) == t);
    assert(spec_sentence_normal(t) == t);
    assert(spec_parse_sentence(s) == spec_parse_sentence(t));
}

/// A sentence that parses is, in its normalized form, balanced and free of
/// depth dips: every closing parenthesis has a matching opener.
#[verifier::rlimit(100)]
pub proof fn lemma_parse_ok_nested(raw: Seq<char>)
    requires
        spec_parse_sentence(raw) is Ok,
    ensures
        spec_trim(raw).len() > 0,
        spec_balanced(spec_sentence_normal(spec_trim(raw))),
        no_dip(spec_sentence_normal(spec_trim(raw))),
    decreases raw.len(),
{
    let t = spec_trim(raw);
    let i = spec_sentence_normal(t);
    lemma_trim_len(raw);
    lemma_sentence_normal_len(t);
    assert(spec_depth_after(i, -1) == 0);
    if spec_strippable(i) {
        assert(spec_depth_after(i, 0) == 1);
        assert(i[0] == '(') by {
            if i[0] != '(' {
                assert(spec_depth_after(i, 0) == spec_next_depth(0u16, i[0]));
            }
        }
        assert forall|x: int| 0 <= x < i.len() && (#[trigger] i[x]) == ')' implies
            spec_depth_after(i, x - 1) >= 1 by {
            assert(x != 0);
            if x - 1 == 0 {
                assert(spec_depth_after(i, 0) == 1);
            } else {
                assert(1 <= x - 1 < i.len() - 1);
                assert(spec_depth_after(i, x - 1) > 0);
            }
        }
    } else if spec_invalid_list(i).len() > 0 {
        assert(false);
    } else if i.len() == 1 && (i[0] == '⊥' || i[0] == '□') {
        assert forall|x: int| 0 <= x < i.len() implies (#[trigger] i[x]) != ')' by {}
    } else if i.contains('⊥') {
        assert(false);
    } else if i.len() == 1 && 'A' as u32 <= i[0] as u32 && i[0] as u32 <= 'Z' as u32 {
        assert forall|x: int| 0 <= x < i.len() implies (#[trigger] i[x]) != ')' by {
            assert(')' as u32 == 41);
        }
    } else {
        match spec_find_main(i, 0, None) {
            Err(e) => {
                assert(false);
            },
            Ok(None) => {
                assert(false);
            },
            Ok(Some((c, p))) => {
                lemma_find_main_bounds(i, 0, None);
                assert(0 <= p < i.len() && i[p] == c && spec_is_op_char(c));
                assert(c != '(' && c != ')');
                if c == '¬' || c == '□' || c == '◇' {
                    assert(p == 0);
                    let rest = i.skip(1);
                    assert(spec_parse_sentence(rest) is Ok);
                    lemma_parse_ok_nested(rest);
                    lemma_trim_decompose(rest);
                    let lo = rest.len() - spec_trim_start(rest).len();
                    let hi = lo + spec_trim(rest).len();
                    assert(rest.subrange(lo as int, hi as int) =~= i.subrange(
                        1 + lo,
                        1 + hi,
                    ));
                    lemma_normal_subrange_identity(t, 1 + lo, 1 + hi);
                    assert(spec_sentence_normal(spec_trim(rest)) == spec_trim(rest));
                    lemma_pad_no_dip(rest);
                    assert(i =~= seq![i[0]] + rest);
                    assert(no_dip(seq![i[0]])) by {
                        assert(seq![i[0]][0] == c);
                    }
                    assert(spec_depth_after(seq![i[0]], -1) == 0);
                    assert(spec_depth_after(seq![i[0]], 0) == spec_next_depth(0u16, c));
                    lemma_no_dip_concat(seq![i[0]], rest);
                } else {
                    assert(c != '⊥') by {
                        if c == '⊥' {
                            assert(i.contains('⊥'));
                        }
                    }
                    let l = i.take(p as int);
                    let r = i.skip(p + 1);
                    assert(spec_parse_sentence(l) is Ok);
                    assert(spec_parse_sentence(r) is Ok);
                    lemma_parse_ok_nested(l);
                    lemma_parse_ok_nested(r);
                    lemma_trim_decompose(l);
                    let llo = l.len() - spec_trim_start(l).len();
                    let lhi = llo + spec_trim(l).len();
                    assert(l.subrange(llo as int, lhi as int) =~= i.subrange(
                        llo as int,
                        lhi as int,
                    ));
                    lemma_normal_subrange_identity(t, llo as int, lhi as int);
                    assert(spec_sentence_normal(spec_trim(l)) == spec_trim(l));
                    lemma_trim_decompose(r);
                    let rlo = r.len() - spec_trim_start(r).len();
                    let rhi = rlo + spec_trim(r).len();
                    assert(r.subrange(rlo as int, rhi as int) =~= i.subrange(
                        p + 1 + rlo,
                        p + 1 + rhi,
                    ));
                    lemma_normal_subrange_identity(t, p + 1 + rlo, p + 1 + rhi);
                    assert(spec_sentence_normal(spec_trim(r)) == spec_trim(r));
                    lemma_pad_no_dip(l);
                    lemma_pad_no_dip(r);
                    let al = l + seq![c];
                    assert(no_dip(seq![c]));
                    lemma_no_dip_concat(l, seq![c]);
                    assert(spec_depth_after(seq![c], -1) == 0);
                    assert(spec_depth_after(seq![c], 0) == spec_next_depth(0u16, c));
                    lemma_depth_concat_zero(l, seq![c], 0);
                    assert(spec_depth_after(al, al.len() - 1) == 0);
                    lemma_no_dip_concat(al, r);
                    assert(i =~= al + r);
                }
            },
        }
    }
}

/// Wrapping any sentence that parses in one extra pair of outer parentheses
/// preserves the parse, provided the sentence keeps clear of the sixteen-bit
/// depth saturation ceiling (at 65535 nested parentheses the depth counter
/// saturates and the wrapped text genuinely parses differently).  Equality
/// is preserved at every removal of a redundant outer pair, so repeated
/// removal is idempotent.
#[verifier::rlimit(60)]
pub proof fn lemma_parse_ok_parenthesized(s: Seq<char>)
    requires
        spec_parse_sentence(s) is Ok,
        forall|x: int|
            0 <= x < spec_sentence_normal(spec_trim(s)).len() ==> (#[trigger] spec_depth_after(
                spec_sentence_normal(spec_trim(s)),
                x,
            )) < 0xFFFE,
    ensures
        spec_parse_sentence(wrap_parens(s)) == spec_parse_sentence(s),
{
    lemma_parse_ok_nested(s);
    let t = spec_trim(s);
    let nt = spec_sentence_normal(t);
    lemma_trim_trimmed(s);
    lemma_normal_trimmed(t);
    lemma_sentence_normal_idempotent(t);
    lemma_trim_decompose(s);
    let lo = s.len() - spec_trim_start(s).len();
    let hi = lo + t.len();
    let wa = s.subrange(0, lo as int);
    let wb = s.subrange(hi as int, s.len() as int);
    assert(s =~= wa + t + wb);
    assert forall|x: int| 0 <= x < wa.len() implies spec_is_space(#[trigger] wa[x]) by {
        assert(wa[x] == s[x]);
    }
    assert forall|x: int| 0 <= x < wb.len() implies spec_is_space(#[trigger] wb[x]) by {
        assert(wb[x] == s[hi + x]);
    }
    lemma_normal_pad(t, wa, wb);
    let ns = spec_sentence_normal(s);
    assert(ns == wa + nt + wb);
    lemma_trim_pad(nt, wa, wb);
    assert(spec_trim(ns) == nt);
    lemma_pad_no_dip(ns);
    assert(no_dip(ns));
    assert(ns.len() > 0);
    assert(spec_balanced(ns));
    assert(wa + nt + wb =~= wa + (nt + wb));
    assert forall|x: int|
        0 <= x < ns.len() implies (#[trigger] spec_depth_after(ns, x)) < 0xFFFE by {
        if x < wa.len() {
            lemma_depth_prefix(wa, nt + wb, x);
            lemma_depth_blank(wa, x);
        } else {
            if wa.len() > 0 {
                lemma_depth_blank(wa, wa.len() - 1);
            }
            lemma_depth_concat_zero(wa, nt + wb, x - wa.len());
            let j = x - wa.len();
            if j < nt.len() {
                lemma_depth_prefix(nt, wb, j);
            } else {
                lemma_depth_concat_zero(nt, wb, j - nt.len());
                lemma_depth_blank(wb, j - nt.len());
            }
        }
    }
    let w = wrap_parens(s);
    assert(w.len() == s.len() + 2);
    assert(w[0] == '(');
    assert(w[w.len() - 1] == ')');
    assert(!spec_is_space('(')) by {
        assert('(' as u32 == 40);
    }
    assert(!spec_is_space(')')) by {
        assert(')' as u32 == 41);
    }
    assert(spec_trim_start(w) == w);
    assert(w.last() == ')');
    assert(spec_trim_end(w) == w);
    assert(spec_trim(w) == w);
    lemma_normal_wrap(s);
    let wn = wrap_parens(ns);
    assert(spec_sentence_normal(w) == wn);
    assert forall|i: int|
        0 <= i <= ns.len() implies spec_depth_after(wn, i) == spec_depth_after(ns, i - 1) + 1 by {
        lemma_wrap_depth_at(ns, i);
    }
    assert(wn.len() == ns.len() + 2);
    assert(wn[wn.len() - 1] == ')');
    assert(spec_depth_after(wn, wn.len() - 1) == spec_next_depth(
        spec_depth_after(wn, ns.len() as int),
        ')',
    ));
    assert(spec_depth_after(wn, ns.len() as int) == spec_depth_after(ns, ns.len() - 1) + 1);
    assert(spec_depth_after(ns, ns.len() - 1) == 0);
    assert(spec_depth_after(wn, wn.len() - 1) == 0);
    assert(spec_balanced(wn));
    assert(spec_depth_after(wn, 0) == 1);
    assert forall|n: int| 1 <= n < wn.len() - 1 implies #[trigger] spec_depth_after(wn, n) > 0 by {
        assert(spec_depth_after(wn, n) == spec_depth_after(ns, n - 1) + 1);
    }
    assert(spec_strippable(wn));
    assert(wn.subrange(1, wn.len() - 1) =~= ns);
    assert(spec_parse_sentence(w) == spec_parse_sentence(ns));
    assert(spec_sentence_normal(nt) == nt);
    assert(nt.len() > 0);
    assert(spec_parse_sentence(ns) == spec_parse_sentence(s));
}

proof fn lemma_trim_start_suffix(u: Seq<char>)
    ensures
        spec_trim_start(u).len() <= u.len(),
        spec_trim_start(u) == u.skip(u.len() - spec_trim_start(u).len()),
        forall|j: int| 0 <= j < u.len() - spec_trim_start(u).len() ==> spec_is_space(
            #[trigger] u[j],
        ),
    decreases u.len(),
{
    if u.len() == 0 {
        assert(u.skip(0) =~= u);
    } else if spec_is_space(u[0]) {
        lemma_trim_start_suffix(u.drop_first());
        let k = u.drop_first().len() - spec_trim_start(u.drop_first()).len();
        assert(u.drop_first().skip(k as int) =~= u.skip(k + 1));
        assert forall|j: int| 0 <= j < k + 1 implies spec_is_space(#[trigger] u[j]) by {
            if j >= 1 {
                assert(u.drop_first()[j - 1] == u[j]);
            }
        }
    } else {
        assert(u.skip(0) =~= u);
    }
}

proof fn lemma_trim_end_prefix(u: Seq<char>)
    ensures
        spec_trim_end(u).len() <= u.len(),
        spec_trim_end(u) == u.take(spec_trim_end(u).len() as int),
        forall|j: int| spec_trim_end(u).len() <= j < u.len() ==> spec_is_space(#[trigger] u[j]),
    decreases u.len(),
{
    if u.len() == 0 {
        assert(u.take(0) =~= u);
    } else if spec_is_space(u.last()) {
        lemma_trim_end_prefix(u.drop_last());
        let m = spec_trim_end(u.drop_last()).len();
        assert(u.drop_last().take(m as int) =~= u.take(m as int));
        assert forall|j: int| m <= j < u.len() implies spec_is_space(#[trigger] u[j]) by {
            if j < u.len() - 1 {
                assert(u.drop_last()[j] == u[j]);
            }
        }
    } else {
        assert(u.take(u.len() as int) =~= u);
    }
}

/// A text splits as leading blanks, its trimmed core, and trailing blanks.
pub proof fn lemma_trim_decompose(u: Seq<char>)
    ensures
        ({
            let lo = u.len() - spec_trim_start(u).len();
            let hi = lo + spec_trim(u).len();
            &&& 0 <= lo <= hi <= u.len()
            &&& spec_trim(u) == u.subrange(lo as int, hi as int)
            &&& forall|j: int| 0 <= j < lo ==> spec_is_space(#[trigger] u[j])
            &&& forall|j: int| hi <= j < u.len() ==> spec_is_space(#[trigger] u[j])
        }),
{
    lemma_trim_start_suffix(u);
    let ts = spec_trim_start(u);
    let lo = u.len() - ts.len();
    lemma_trim_end_prefix(ts);
    let m = spec_trim_end(ts).len();
    assert(ts.take(m as int) =~= u.subrange(lo as int, lo + m));
    assert forall|j: int| lo + m <= j < u.len() implies spec_is_space(#[trigger] u[j]) by {
        assert(ts[j - lo] == u[j]);
    }
}

proof fn lemma_depth_prefix(a: Seq<char>, b: Seq<char>, i: int)
    requires
        -1 <= i < a.len(),
    ensures
        spec_depth_after(a + b, i) == spec_depth_after(a, i),
    decreases i + 1,
{
    if i >= 0 {
        lemma_depth_prefix(a, b, i - 1);
        assert((a + b)[i] == a[i]);
    }
}

proof fn lemma_depth_concat_zero(a: Seq<char>, b: Seq<char>, j: int)
    requires
        a.len() == 0 || spec_depth_after(a, a.len() - 1) == 0,
        -1 <= j < b.len(),
    ensures
        spec_depth_after(a + b, a.len() + j) == spec_depth_after(b, j),
    decreases j + 1,
{
    if j == -1 {
        if a.len() > 0 {
            lemma_depth_prefix(a, b, a.len() - 1);
        }
    } else {
        lemma_depth_concat_zero(a, b, j - 1);
        assert((a + b)[a.len() + j] == b[j]);
    }
}

proof fn lemma_no_dip_concat(a: Seq<char>, b: Seq<char>)
    requires
        no_dip(a),
        no_dip(b),
        a.len() == 0 || spec_depth_after(a, a.len() - 1) == 0,
    ensures
        no_dip(a + b),
{
    assert forall|x: int| 0 <= x < (a + b).len() && (#[trigger] (a + b)[x]) == ')' implies
        spec_depth_after(a + b, x - 1) >= 1 by {
        if x < a.len() {
            assert((a + b)[x] == a[x]);
            lemma_depth_prefix(a, b, x - 1);
        } else {
            assert((a + b)[x] == b[x - a.len()]);
            lemma_depth_concat_zero(a, b, x - a.len() - 1);
        }
    }
}

proof fn lemma_depth_blank(w: Seq<char>, i: int)
    requires
        forall|x: int| 0 <= x < w.len() ==> spec_is_space(#[trigger] w[x]),
        -1 <= i < w.len(),
    ensures
        spec_depth_after(w, i) == 0,
    decreases i + 1,
{
    if i >= 0 {
        lemma_depth_blank(w, i - 1);
        assert(spec_is_space(w[i]));
        assert(w[i] != '(' && w[i] != ')');
    }
}

/// Padding a dip-free, balanced core with its surrounding blanks keeps the
/// text dip-free and brings its final depth back to zero.
proof fn lemma_pad_no_dip(u: Seq<char>)
    requires
        no_dip(spec_trim(u)),
        spec_balanced(spec_trim(u)),
    ensures
        no_dip(u),
        u.len() == 0 || spec_depth_after(u, u.len() - 1) == 0,
{
    lemma_trim_decompose(u);
    let core = spec_trim(u);
    let lo = u.len() - spec_trim_start(u).len();
    let hi = lo + core.len();
    let wa = u.subrange(0, lo as int);
    let wb = u.subrange(hi as int, u.len() as int);
    assert(u =~= (wa + core) + wb);
    assert forall|x: int| 0 <= x < wa.len() implies spec_is_space(#[trigger] wa[x]) by {
        assert(wa[x] == u[x]);
    }
    assert forall|x: int| 0 <= x < wb.len() implies spec_is_space(#[trigger] wb[x]) by {
        assert(wb[x] == u[hi + x]);
    }
    assert(no_dip(wa)) by {
        assert forall|x: int| 0 <= x < wa.len() implies (#[trigger] wa[x]) != ')' by {
            assert(spec_is_space(wa[x]));
        }
    }
    assert(no_dip(wb)) by {
        assert forall|x: int| 0 <= x < wb.len() implies (#[trigger] wb[x]) != ')' by {
            assert(spec_is_space(wb[x]));
        }
    }
    if wa.len() > 0 {
        lemma_depth_blank(wa, wa.len() - 1);
    }
    lemma_no_dip_concat(wa, core);
    let ac = wa + core;
    assert(ac.len() == 0 || spec_depth_after(ac, ac.len() - 1) == 0) by {
        if ac.len() > 0 {
            if core.len() > 0 {
                lemma_depth_concat_zero(wa, core, core.len() - 1);
            } else {
                assert(ac =~= wa);
                lemma_depth_blank(wa, wa.len() - 1);
            }
        }
    }
    lemma_no_dip_concat(ac, wb);
    assert(no_dip(u));
    if u.len() > 0 {
        if wb.len() > 0 {
            lemma_depth_concat_zero(ac, wb, wb.len() - 1);
            lemma_depth_blank(wb, wb.len() - 1);
        } else {
            assert(u =~= ac);
        }
    }
}

proof fn lemma_replace_prefix_seq(s: Seq<char>, pats: Seq<Seq<char>>, to: char, wa: Seq<char>)
    requires
        pats_wf(pats),
        forall|x: int|
            0 <= x < wa.len() ==> crate::normalize::pats_avoid_char(pats, #[trigger] wa[x]),
    ensures
        spec_replace(wa + s, pats, to) == wa + spec_replace(s, pats, to),
    decreases wa.len(),
{
    if wa.len() == 0 {
        assert(wa + s =~= s);
        assert(wa + spec_replace(s, pats, to) =~= spec_replace(s, pats, to));
    } else {
        let tail = wa.drop_first();
        assert(wa + s =~= seq![wa[0]] + (tail + s));
        lemma_replace_prefix_char(tail + s, pats, to, wa[0]);
        assert forall|x: int|
            0 <= x < tail.len() implies crate::normalize::pats_avoid_char(
            pats,
            #[trigger] tail[x],
        ) by {
            assert(tail[x] == wa[x + 1]);
        }
        lemma_replace_prefix_seq(s, pats, to, tail);
        assert(seq![wa[0]] + (tail + spec_replace(s, pats, to)) =~= wa + spec_replace(
            s,
            pats,
            to,
        ));
    }
}

proof fn lemma_replace_suffix_seq(s: Seq<char>, pats: Seq<Seq<char>>, to: char, wb: Seq<char>)
    requires
        pats_wf(pats),
        forall|x: int|
            0 <= x < wb.len() ==> crate::normalize::pats_avoid_char(pats, #[trigger] wb[x]),
    ensures
        spec_replace(s + wb, pats, to) == spec_replace(s, pats, to) + wb,
    decreases wb.len(),
{
    if wb.len() == 0 {
        assert(s + wb =~= s);
        assert(spec_replace(s, pats, to) + wb =~= spec_replace(s, pats, to));
    } else {
        let head = wb.drop_last();
        assert(s + wb =~= (s + head) + seq![wb.last()]);
        lemma_replace_suffix_char(s + head, pats, to, wb.last());
        assert forall|x: int|
            0 <= x < head.len() implies crate::normalize::pats_avoid_char(
            pats,
            #[trigger] head[x],
        ) by {
            assert(head[x] == wb[x]);
        }
        lemma_replace_suffix_seq(s, pats, to, head);
        assert((spec_replace(s, pats, to) + head) + seq![wb.last()] =~= spec_replace(s, pats, to)
            + wb);
    }
}

/// Every alias and brace pattern avoids every blank character.
proof fn lemma_pass_sets_avoid_blank(c: char)
    requires
        spec_is_space(c),
    ensures
        crate::normalize::pats_avoid_char(crate::normalize::bic_pats(), c),
        crate::normalize::pats_avoid_char(crate::normalize::imp_pats(), c),
        crate::normalize::pats_avoid_char(crate::normalize::con_pats(), c),
        crate::normalize::pats_avoid_char(crate::normalize::dis_pats(), c),
        crate::normalize::pats_avoid_char(crate::normalize::neg_pats(), c),
        crate::normalize::pats_avoid_char(crate::normalize::bot_pats(), c),
        crate::normalize::pats_avoid_char(crate::normalize::nec_pats(), c),
        crate::normalize::pats_avoid_char(crate::normalize::pos_pats(), c),
        crate::normalize::pats_avoid_char(open_brace_pats(), c),
        crate::normalize::pats_avoid_char(close_brace_pats(), c),
{
    crate::normalize::lemma_all_pats_facts();
    crate::normalize::lemma_all_pats_avoid_blank(c);
    let a = crate::normalize::all_pats();
    assert(crate::normalize::bic_pats() == a.subrange(0, 2));
    assert forall|k: int|
        0 <= k < crate::normalize::bic_pats().len() implies !(
    #[trigger] crate::normalize::bic_pats()[k]).contains(c) by {
        assert(a.subrange(0, 2)[k] == a[k]);
    }
    assert forall|k: int|
        0 <= k < crate::normalize::imp_pats().len() implies !(
    #[trigger] crate::normalize::imp_pats()[k]).contains(c) by {
        assert(a.subrange(2, 5)[k] == a[k + 2]);
    }
    assert forall|k: int|
        0 <= k < crate::normalize::con_pats().len() implies !(
    #[trigger] crate::normalize::con_pats()[k]).contains(c) by {
        assert(a.subrange(5, 10)[k] == a[k + 5]);
    }
    assert forall|k: int|
        0 <= k < crate::normalize::dis_pats().len() implies !(
    #[trigger] crate::normalize::dis_pats()[k]).contains(c) by {
        assert(a.subrange(10, 11)[k] == a[k + 10]);
    }
    assert forall|k: int|
        0 <= k < crate::normalize::neg_pats().len() implies !(
    #[trigger] crate::normalize::neg_pats()[k]).contains(c) by {
        assert(a.subrange(11, 15)[k] == a[k + 11]);
    }
    assert forall|k: int|
        0 <= k < crate::normalize::bot_pats().len() implies !(
    #[trigger] crate::normalize::bot_pats()[k]).contains(c) by {
        assert(a.subrange(15, 17)[k] == a[k + 15]);
    }
    assert forall|k: int|
        0 <= k < crate::normalize::nec_pats().len() implies !(
    #[trigger] crate::normalize::nec_pats()[k]).contains(c) by {
        assert(a.subrange(17, 18)[k] == a[k + 17]);
    }
    assert forall|k: int|
        0 <= k < crate::normalize::pos_pats().len() implies !(
    #[trigger] crate::normalize::pos_pats()[k]).contains(c) by {
        assert(a.subrange(18, 19)[k] == a[k + 18]);
    }
    assert forall|k: int|
        0 <= k < open_brace_pats().len() implies !(#[trigger] open_brace_pats()[k]).contains(
        c,
    ) by {
        assert forall|x: int|
            0 <= x < open_brace_pats()[k].len() implies open_brace_pats()[k][x] != c by {}
    }
    assert forall|k: int|
        0 <= k < close_brace_pats().len() implies !(#[trigger] close_brace_pats()[k]).contains(
        c,
    ) by {
        assert forall|x: int|
            0 <= x < close_brace_pats()[k].len() implies close_brace_pats()[k][x] != c by {}
    }
}

/// Normalization carries surrounding blanks through unchanged.
#[verifier::rlimit(100)]
proof fn lemma_normal_pad(t: Seq<char>, wa: Seq<char>, wb: Seq<char>)
    requires
        forall|x: int| 0 <= x < wa.len() ==> spec_is_space(#[trigger] wa[x]),
        forall|x: int| 0 <= x < wb.len() ==> spec_is_space(#[trigger] wb[x]),
    ensures
        spec_sentence_normal(wa + t + wb) == wa + spec_sentence_normal(t) + wb,
{
    crate::normalize::lemma_all_pats_facts();
    lemma_brace_pats_facts();
    let a = crate::normalize::all_pats();
    assert forall|k: int| 0 <= k < a.len() implies #[trigger] a[k].len() >= 1 by {
        assert(crate::normalize::avoids_canonicals(a[k]));
    }
    assert forall|x: int|
        0 <= x < wa.len() implies (crate::normalize::pats_avoid_char(
        crate::normalize::bic_pats(),
        #[trigger] wa[x],
    ) && crate::normalize::pats_avoid_char(crate::normalize::imp_pats(), wa[x])
        && crate::normalize::pats_avoid_char(crate::normalize::con_pats(), wa[x])
        && crate::normalize::pats_avoid_char(crate::normalize::dis_pats(), wa[x])
        && crate::normalize::pats_avoid_char(crate::normalize::neg_pats(), wa[x])
        && crate::normalize::pats_avoid_char(crate::normalize::bot_pats(), wa[x])
        && crate::normalize::pats_avoid_char(crate::normalize::nec_pats(), wa[x])
        && crate::normalize::pats_avoid_char(crate::normalize::pos_pats(), wa[x])
        && crate::normalize::pats_avoid_char(open_brace_pats(), wa[x])
        && crate::normalize::pats_avoid_char(close_brace_pats(), wa[x])) by {
        lemma_pass_sets_avoid_blank(wa[x]);
    }
    assert forall|x: int|
        0 <= x < wb.len() implies (crate::normalize::pats_avoid_char(
        crate::normalize::bic_pats(),
        #[trigger] wb[x],
    ) && crate::normalize::pats_avoid_char(crate::normalize::imp_pats(), wb[x])
        && crate::normalize::pats_avoid_char(crate::normalize::con_pats(), wb[x])
        && crate::normalize::pats_avoid_char(crate::normalize::dis_pats(), wb[x])
        && crate::normalize::pats_avoid_char(crate::normalize::neg_pats(), wb[x])
        && crate::normalize::pats_avoid_char(crate::normalize::bot_pats(), wb[x])
        && crate::normalize::pats_avoid_char(crate::normalize::nec_pats(), wb[x])
        && crate::normalize::pats_avoid_char(crate::normalize::pos_pats(), wb[x])
        && crate::normalize::pats_avoid_char(open_brace_pats(), wb[x])
        && crate::normalize::pats_avoid_char(close_brace_pats(), wb[x])) by {
        lemma_pass_sets_avoid_blank(wb[x]);
    }
    let t1 = spec_replace(t, crate::normalize::bic_pats(), '↔');
    let t2 = spec_replace(t1, crate::normalize::imp_pats(), '→');
    let t3 = spec_replace(t2, crate::normalize::con_pats(), '∧');
    let t4 = spec_replace(t3, crate::normalize::dis_pats(), '∨');
    let t5 = spec_replace(t4, crate::normalize::neg_pats(), '¬');
    let t6 = spec_replace(t5, crate::normalize::bot_pats(), '⊥');
    let t7 = spec_replace(t6, crate::normalize::nec_pats(), '□');
    let t8 = spec_replace(t7, crate::normalize::pos_pats(), '◇');
    let b1 = spec_replace(t8, open_brace_pats(), '(');
    let b2 = spec_replace(b1, close_brace_pats(), ')');
    assert(wa + t + wb =~= wa + (t + wb));
    lemma_replace_suffix_seq(t, crate::normalize::bic_pats(), '↔', wb);
    lemma_replace_prefix_seq(t + wb, crate::normalize::bic_pats(), '↔', wa);
    assert(wa + (t1 + wb) =~= (wa + t1) + wb);
    assert((wa + t1) + wb =~= wa + (t1 + wb));
    lemma_replace_suffix_seq(t1, crate::normalize::imp_pats(), '→', wb);
    lemma_replace_prefix_seq(t1 + wb, crate::normalize::imp_pats(), '→', wa);
    lemma_replace_suffix_seq(t2, crate::normalize::con_pats(), '∧', wb);
    lemma_replace_prefix_seq(t2 + wb, crate::normalize::con_pats(), '∧', wa);
    assert((wa + t2) + wb =~= wa + (t2 + wb));
    lemma_replace_suffix_seq(t3, crate::normalize::dis_pats(), '∨', wb);
    lemma_replace_prefix_seq(t3 + wb, crate::normalize::dis_pats(), '∨', wa);
    assert((wa + t3) + wb =~= wa + (t3 + wb));
    lemma_replace_suffix_seq(t4, crate::normalize::neg_pats(), '¬', wb);
    lemma_replace_prefix_seq(t4 + wb, crate::normalize::neg_pats(), '¬', wa);
    assert((wa + t4) + wb =~= wa + (t4 + wb));
    lemma_replace_suffix_seq(t5, crate::normalize::bot_pats(), '⊥', wb);
    lemma_replace_prefix_seq(t5 + wb, crate::normalize::bot_pats(), '⊥', wa);
    assert((wa + t5) + wb =~= wa + (t5 + wb));
    lemma_replace_suffix_seq(t6, crate::normalize::nec_pats(), '□', wb);
    lemma_replace_prefix_seq(t6 + wb, crate::normalize::nec_pats(), '□', wa);
    assert((wa + t6) + wb =~= wa + (t6 + wb));
    lemma_replace_suffix_seq(t7, crate::normalize::pos_pats(), '◇', wb);
    lemma_replace_prefix_seq(t7 + wb, crate::normalize::pos_pats(), '◇', wa);
    assert((wa + t7) + wb =~= wa + (t7 + wb));
    lemma_replace_suffix_seq(t8, open_brace_pats(), '(', wb);
    lemma_replace_prefix_seq(t8 + wb, open_brace_pats(), '(', wa);
    assert((wa + t8) + wb =~= wa + (t8 + wb));
    lemma_replace_suffix_seq(b1, close_brace_pats(), ')', wb);
    lemma_replace_prefix_seq(b1 + wb, close_brace_pats(), ')', wa);
    assert((wa + b1) + wb =~= wa + (b1 + wb));
    assert(spec_sentence_normal(wa + t + wb) == wa + b2 + wb) by {
        assert(wa + (b2 + wb) =~= wa + b2 + wb);
    }
}

proof fn lemma_trim_start_first(u: Seq<char>)
    ensures
        spec_trim_start(u).len() == 0 || !spec_is_space(spec_trim_start(u)[0]),
    decreases u.len(),
{
    if u.len() > 0 && spec_is_space(u[0]) {
        lemma_trim_start_first(u.drop_first());
    }
}

proof fn lemma_trim_end_last(u: Seq<char>)
    ensures
        spec_trim_end(u).len() == 0 || !spec_is_space(spec_trim_end(u).last()),
    decreases u.len(),
{
    if u.len() > 0 && spec_is_space(u.last()) {
        lemma_trim_end_last(u.drop_last());
    }
}

/// A non-empty trimmed text has non-blank edges, and is its own trim.
pub proof fn lemma_trim_trimmed(u: Seq<char>)
    requires
        spec_trim(u).len() > 0,
    ensures
        !spec_is_space(spec_trim(u)[0]),
        !spec_is_space(spec_trim(u).last()),
        spec_trim(spec_trim(u)) == spec_trim(u),
{
    let ts = spec_trim_start(u);
    let t = spec_trim(u);
    lemma_trim_start_first(u);
    lemma_trim_end_prefix(ts);
    assert(t[0] == ts[0]);
    lemma_trim_end_last(ts);
    lemma_trimmed_of_edges(t);
}

proof fn lemma_trim_start_pad(x: Seq<char>, wa: Seq<char>)
    requires
        forall|j: int| 0 <= j < wa.len() ==> spec_is_space(#[trigger] wa[j]),
        x.len() > 0,
        !spec_is_space(x[0]),
    ensures
        spec_trim_start(wa + x) == x,
    decreases wa.len(),
{
    if wa.len() == 0 {
        assert(wa + x =~= x);
    } else {
        assert((wa + x)[0] == wa[0]);
        assert((wa + x).drop_first() =~= wa.drop_first() + x);
        assert forall|j: int|
            0 <= j < wa.drop_first().len() implies spec_is_space(#[trigger] wa.drop_first()[j]) by {
            assert(wa.drop_first()[j] == wa[j + 1]);
        }
        lemma_trim_start_pad(x, wa.drop_first());
    }
}

proof fn lemma_trim_end_pad(x: Seq<char>, wb: Seq<char>)
    requires
        forall|j: int| 0 <= j < wb.len() ==> spec_is_space(#[trigger] wb[j]),
        x.len() > 0,
        !spec_is_space(x.last()),
    ensures
        spec_trim_end(x + wb) == x,
    decreases wb.len(),
{
    if wb.len() == 0 {
        assert(x + wb =~= x);
    } else {
        assert((x + wb).last() == wb.last());
        assert((x + wb).drop_last() =~= x + wb.drop_last());
        assert forall|j: int|
            0 <= j < wb.drop_last().len() implies spec_is_space(#[trigger] wb.drop_last()[j]) by {
            assert(wb.drop_last()[j] == wb[j]);
        }
        lemma_trim_end_pad(x, wb.drop_last());
    }
}

/// Trimming strips exactly the surrounding blanks of a trimmed core.
proof fn lemma_trim_pad(x: Seq<char>, wa: Seq<char>, wb: Seq<char>)
    requires
        forall|j: int| 0 <= j < wa.len() ==> spec_is_space(#[trigger] wa[j]),
        forall|j: int| 0 <= j < wb.len() ==> spec_is_space(#[trigger] wb[j]),
        x.len() > 0,
        spec_trim(x) == x,
    ensures
        spec_trim(wa + x + wb) == x,
{
    lemma_trim_trimmed(x);
    assert(wa + x + wb =~= wa + (x + wb));
    assert((x + wb)[0] == x[0]);
    lemma_trim_start_pad(x + wb, wa);
    lemma_trim_end_pad(x, wb);
}

/// Any contiguous part of a normalized sentence normalizes to itself.
proof fn lemma_normal_subrange_identity(s: Seq<char>, a: int, b: int)
    requires
        0 <= a <= b <= spec_sentence_normal(s).len(),
    ensures
        spec_sentence_normal(spec_sentence_normal(s).subrange(a, b)) == spec_sentence_normal(
            s,
        ).subrange(a, b),
{
    lemma_sentence_normal_clean(s);
    let i = spec_sentence_normal(s);
    let u = i.subrange(a, b);
    assert forall|k: int|
        0 <= k < crate::normalize::all_pats().len() implies !crate::normalize::occurs(
        u,
        #[trigger] crate::normalize::all_pats()[k],
    ) by {
        if crate::normalize::occurs(u, crate::normalize::all_pats()[k]) {
            crate::normalize::lemma_occurs_subrange(i, crate::normalize::all_pats()[k], a, b);
        }
    }
    assert forall|k: int|
        0 <= k < open_brace_pats().len() implies !crate::normalize::occurs(
        u,
        #[trigger] open_brace_pats()[k],
    ) by {
        if crate::normalize::occurs(u, open_brace_pats()[k]) {
            crate::normalize::lemma_occurs_subrange(i, open_brace_pats()[k], a, b);
        }
    }
    assert forall|k: int|
        0 <= k < close_brace_pats().len() implies !crate::normalize::occurs(
        u,
        #[trigger] close_brace_pats()[k],
    ) by {
        if crate::normalize::occurs(u, close_brace_pats()[k]) {
            crate::normalize::lemma_occurs_subrange(i, close_brace_pats()[k], a, b);
        }
    }
    lemma_sentence_normal_identity(u);
}

/// The operator rewrite never lengthens a string, and never empties a
/// non-empty one.
pub proof fn lemma_normalize_ops_len(s: Seq<char>)
    ensures
        spec_normalize_ops(s).len() <= s.len(),
        s.len() > 0 ==> spec_normalize_ops(s).len() >= 1,
{
    let s1 = spec_replace(s, crate::normalize::bic_pats(), '↔');
    let s2 = spec_replace(s1, crate::normalize::imp_pats(), '→');
    let s3 = spec_replace(s2, crate::normalize::con_pats(), '∧');
    let s4 = spec_replace(s3, crate::normalize::dis_pats(), '∨');
    let s5 = spec_replace(s4, crate::normalize::neg_pats(), '¬');
    let s6 = spec_replace(s5, crate::normalize::bot_pats(), '⊥');
    let s7 = spec_replace(s6, crate::normalize::nec_pats(), '□');
    lemma_replace_len(s, crate::normalize::bic_pats(), '↔');
    lemma_replace_len(s1, crate::normalize::imp_pats(), '→');
    lemma_replace_len(s2, crate::normalize::con_pats(), '∧');
    lemma_replace_len(s3, crate::normalize::dis_pats(), '∨');
    lemma_replace_len(s4, crate::normalize::neg_pats(), '¬');
    lemma_replace_len(s5, crate::normalize::bot_pats(), '⊥');
    lemma_replace_len(s6, crate::normalize::nec_pats(), '□');
    lemma_replace_len(s7, crate::normalize::pos_pats(), '◇');
}

} // verus!
