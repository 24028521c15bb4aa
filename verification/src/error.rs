//! Errors reported by the sentence, citation and proof parsers.

use vstd::prelude::*;

verus! {

/// The specification-level value of a [`ParseError`]: identical except that
/// the offending substrings of `InvalidCharacter` appear as character
/// sequences.
pub enum ParseErrorV {
    EmptySentence,
    UnbalancedParentheses,
    InvalidCharacter(Seq<Seq<char>>),
    Ambiguous,
    MissingOp,
    BadUnary,
    BadContradiction,
    BadNecessity,
    EmptyCitation,
    MissingRule,
    BadLineNumber,
    BadLineRange,
    OversizeValue,
}

/// An error raised while parsing a sentence, a citation, or a whole proof.
#[derive(Debug, Eq)]
pub enum ParseError {
    /// The sentence text is empty after trimming.
    EmptySentence,
    /// The parentheses of the sentence do not balance.
    UnbalancedParentheses,
    /// Characters outside the sentence alphabet, one substring per character.
    InvalidCharacter(Vec<String>),
    /// Two binary operators compete at the same depth.
    Ambiguous,
    /// No connective was found where one is required.
    MissingOp,
    /// A unary operator appears away from the front of its operand.
    BadUnary,
    /// The contradiction symbol appears inside a larger sentence.
    BadContradiction,
    /// The necessity signal appears on a non-premise line.
    BadNecessity,
    /// The citation text is empty.
    EmptyCitation,
    /// The citation does not cite a rule.
    MissingRule,
    /// A citation argument holds no number or too many numbers.
    BadLineNumber,
    /// A cited line range ends at or before its start.
    BadLineRange,
    /// A cited line number does not fit in sixteen bits.
    OversizeValue,
}

impl View for ParseError {
    type V = ParseErrorV;

    open spec fn view(&self) -> ParseErrorV {
        match self {
            ParseError::EmptySentence => ParseErrorV::EmptySentence,
            ParseError::UnbalancedParentheses => ParseErrorV::UnbalancedParentheses,
            ParseError::InvalidCharacter(v) => ParseErrorV::InvalidCharacter(v.deep_view()),
            ParseError::Ambiguous => ParseErrorV::Ambiguous,
            ParseError::MissingOp => ParseErrorV::MissingOp,
            ParseError::BadUnary => ParseErrorV::BadUnary,
            ParseError::BadContradiction => ParseErrorV::BadContradiction,
            ParseError::BadNecessity => ParseErrorV::BadNecessity,
            ParseError::EmptyCitation => ParseErrorV::EmptyCitation,
            ParseError::MissingRule => ParseErrorV::MissingRule,
            ParseError::BadLineNumber => ParseErrorV::BadLineNumber,
            ParseError::BadLineRange => ParseErrorV::BadLineRange,
            ParseError::OversizeValue => ParseErrorV::OversizeValue,
        }
    }
}

impl DeepView for ParseError {
    type V = ParseErrorV;

    open spec fn deep_view(&self) -> ParseErrorV {
        self@
    }
}

impl PartialEq for ParseError {
    /// Structural comparison; invalid-character lists compare element by
    /// element.
    fn eq(&self, other: &ParseError) -> (r: bool) {
        match (self, other) {
            (ParseError::EmptySentence, ParseError::EmptySentence) => true,
            (ParseError::UnbalancedParentheses, ParseError::UnbalancedParentheses) => true,
            (ParseError::InvalidCharacter(a), ParseError::InvalidCharacter(b)) => {
                string_lists_equal(a, b)
            },
            (ParseError::Ambiguous, ParseError::Ambiguous) => true,
            (ParseError::MissingOp, ParseError::MissingOp) => true,
            (ParseError::BadUnary, ParseError::BadUnary) => true,
            (ParseError::BadContradiction, ParseError::BadContradiction) => true,
            (ParseError::BadNecessity, ParseError::BadNecessity) => true,
            (ParseError::EmptyCitation, ParseError::EmptyCitation) => true,
            (ParseError::MissingRule, ParseError::MissingRule) => true,
            (ParseError::BadLineNumber, ParseError::BadLineNumber) => true,
            (ParseError::BadLineRange, ParseError::BadLineRange) => true,
            (ParseError::OversizeValue, ParseError::OversizeValue) => true,
            _ => false,
        }
    }
}

impl vstd::std_specs::cmp::PartialEqSpecImpl for ParseError {
    open spec fn obeys_eq_spec() -> bool {
        true
    }

    open spec fn eq_spec(&self, other: &ParseError) -> bool {
        self@ == other@
    }
}

/// Compares two lists of strings by their character contents.
fn string_lists_equal(a: &Vec<String>, b: &Vec<String>) -> (r: bool)
    ensures
        r == (a.deep_view() == b.deep_view()),
{
    let n = a.len();
    if n != b.len() {
        proof {
            assert(a.deep_view().len() == a@.len());
            assert(b.deep_view().len() == b@.len());
        }
        return false;
    }
    let mut i: usize = 0;
    while i < n
        invariant
            n == a@.len(),
            n == b@.len(),
            i <= n,
            forall|j: int| 0 <= j < i ==> a@[j]@ == b@[j]@,
        decreases n - i,
    {
        if !strings_equal(&a[i], &b[i]) {
            proof {
                assert(a.deep_view()[i as int] == a@[i as int]@);
                assert(b.deep_view()[i as int] == b@[i as int]@);
                assert(a.deep_view() != b.deep_view());
            }
            return false;
        }
        i += 1;
    }
    proof {
        assert(a.deep_view() =~= b.deep_view());
    }
    true
}

/// Compares two strings character by character.
pub fn strings_equal(a: &String, b: &String) -> (r: bool)
    ensures
        r == (a@ == b@),
{
    a.eq(b)
}

} // verus!
