use deduct::normalize_ops;
use deduct::Checker;
use deduct::CheckError;
use deduct::Citation;
use deduct::LineNumber;
use deduct::ParseError;
use deduct::Proof;
use deduct::Sentence;

#[test]
fn normalize_is_idempotent_on_samples() {
    let samples = [
        "A ^ B",
        "A <-> B -> C",
        "~[]<>A v #",
        "XX & [{A}]",
        "<-><->",
        "A ⊃ B ≡ C",
        "-- ∼∼ ·*",
        "<<>>",
        "XXX",
        "",
    ];
    for s in samples {
        let once = normalize_ops(s);
        let twice = normalize_ops(&once);
        assert_eq!(once, twice);
    }
}

#[test]
fn normalize_rewrites_exactly() {
    assert_eq!(normalize_ops("A -> B"), "A → B");
    assert_eq!(normalize_ops("A <-> B"), "A ↔ B");
    assert_eq!(normalize_ops("A ^ B"), "A ∧ B");
    assert_eq!(normalize_ops("A v B"), "A ∨ B");
    assert_eq!(normalize_ops("~A"), "¬A");
    assert_eq!(normalize_ops("XX"), "⊥");
    assert_eq!(normalize_ops("#"), "⊥");
    assert_eq!(normalize_ops("[]A"), "□A");
    assert_eq!(normalize_ops("<>A"), "◇A");
    assert_eq!(normalize_ops("XXX"), "⊥X");
    assert_eq!(normalize_ops("A . B & C"), "A ∧ B ∧ C");
}

#[test]
fn parenthesized_parse_is_equal() {
    assert_eq!(Sentence::parse("(A ^ B)"), Sentence::parse("A ^ B"));
    assert_eq!(Sentence::parse("((A ^ B))"), Sentence::parse("A ^ B"));
    assert_eq!(Sentence::parse("(((~A)))"), Sentence::parse("~A"));
    assert_eq!(Sentence::parse("( A v B )"), Sentence::parse("A v B"));
    assert_eq!(Sentence::parse("( A ^ B )"), Sentence::parse(" A ^ B "));
}

#[test]
fn bad_contradiction() {
    assert_eq!(
        Sentence::parse("A ^ #").unwrap_err(),
        ParseError::BadContradiction
    );
}

#[test]
fn line_number_ranges() {
    assert_eq!(LineNumber::parse("2-3").unwrap(), LineNumber::Many(2, 3));
    assert_eq!(
        LineNumber::parse("3-3").unwrap_err(),
        ParseError::BadLineRange
    );
    assert_eq!(
        LineNumber::parse("5-3").unwrap_err(),
        ParseError::BadLineRange
    );
    assert_eq!(
        LineNumber::parse("abc").unwrap_err(),
        ParseError::BadLineNumber
    );
    assert_eq!(
        LineNumber::parse("1-2-3").unwrap_err(),
        ParseError::BadLineNumber
    );
    assert_eq!(
        LineNumber::parse("99999").unwrap_err(),
        ParseError::OversizeValue
    );
    assert_eq!(LineNumber::parse("65535").unwrap(), LineNumber::One(65535));
    assert_eq!(LineNumber::parse("007").unwrap(), LineNumber::One(7));
}

#[test]
fn empty_citation() {
    assert_eq!(
        Citation::parse("  ").unwrap_err(),
        ParseError::EmptyCitation
    );
}

#[test]
fn citation_rule_only() {
    let c = Citation::parse("PR").unwrap();
    assert_eq!(c.r, "PR");
    assert_eq!(c.l, vec![]);
}

#[test]
fn bad_necessity_outside_premise() {
    let rows = vec![(0, "A", "PR"), (0, "[]", "R 1")];
    let errs = Proof::parse(&rows).unwrap_err();
    assert_eq!(errs.len(), 1);
    assert_eq!(errs[0].0, 2);
    assert_eq!(errs[0].1, ParseError::BadNecessity);
}

#[test]
fn placeholder_marks_incomplete() {
    let rows = vec![(0, "A", "PR"), (0, "B", "?")];
    let p = Proof::parse(&rows).unwrap();
    assert!(p.contains_placeholders());

    let c = Checker::new();
    c.check_proof(&p).unwrap();

    let rows = vec![(0, "A", "PR")];
    let p = Proof::parse(&rows).unwrap();
    assert!(!p.contains_placeholders());
}

#[test]
fn placeholder_validates_for_nec_premise() {
    let rows = vec![(0, "[]A", "PR"), (1, "[]", "PR"), (1, "B", "?")];
    let p = Proof::parse(&rows).unwrap();
    let c = Checker::new();
    c.check_proof(&p).unwrap();
    assert!(p.contains_placeholders());
}

#[test]
fn no_such_rule() {
    let rows = vec![(0, "A", "PR"), (0, "A", "FOO 1")];
    let p = Proof::parse(&rows).unwrap();
    let c = Checker::new();
    let errs = c.check_proof(&p).unwrap_err();
    assert_eq!(errs, vec![(2, CheckError::NoSuchRule)]);
}

#[test]
fn bad_line_count() {
    let rows = vec![(0, "A", "PR"), (0, "A", "R")];
    let p = Proof::parse(&rows).unwrap();
    let mut c = Checker::new();
    c.add_ruleset(&deduct::tfl_basic());
    let errs = c.check_proof(&p).unwrap_err();
    assert_eq!(errs, vec![(2, CheckError::BadLineCount)]);
}

#[test]
fn bad_line_type() {
    let rows = vec![(0, "A", "PR"), (0, "B", "PR"), (0, "A", "R 1-2")];
    let p = Proof::parse(&rows).unwrap();
    let mut c = Checker::new();
    c.add_ruleset(&deduct::tfl_basic());
    let errs = c.check_proof(&p).unwrap_err();
    assert_eq!(errs, vec![(3, CheckError::BadLineType)]);
}

#[test]
fn bad_line_future_and_self() {
    let rows = vec![(0, "A", "PR"), (0, "A", "R 2"), (0, "A", "R 9")];
    let p = Proof::parse(&rows).unwrap();
    let mut c = Checker::new();
    c.add_ruleset(&deduct::tfl_basic());
    let errs = c.check_proof(&p).unwrap_err();
    assert_eq!(
        errs,
        vec![(2, CheckError::BadLine), (3, CheckError::BadLine)]
    );
}

#[test]
fn bad_range_not_a_subproof() {
    let rows = vec![
        (0, "A", "PR"),
        (0, "B", "PR"),
        (0, "A -> B", "->I 1-2"),
    ];
    let p = Proof::parse(&rows).unwrap();
    let mut c = Checker::new();
    c.add_ruleset(&deduct::tfl_basic());
    let errs = c.check_proof(&p).unwrap_err();
    assert_eq!(errs, vec![(3, CheckError::BadRange)]);
}

#[test]
fn strict_outside_zone() {
    let rows = vec![(0, "[]A", "PR"), (0, "A", "[]E 1")];
    let p = Proof::parse(&rows).unwrap();
    let mut c = Checker::new();
    c.add_ruleset(&deduct::system_k());
    let errs = c.check_proof(&p).unwrap_err();
    assert_eq!(errs, vec![(2, CheckError::StrictOutside)]);
}

#[test]
fn unavailable_closed_subproof() {
    let rows = vec![
        (0, "B", "PR"),
        (1, "A", "PR"),
        (1, "B", "R 1"),
        (0, "A -> B", "->I 2-3"),
        (0, "A", "R 2"),
    ];
    let p = Proof::parse(&rows).unwrap();
    let mut c = Checker::new();
    c.add_ruleset(&deduct::tfl_basic());
    let errs = c.check_proof(&p).unwrap_err();
    assert_eq!(errs, vec![(5, CheckError::Unavailable)]);
}

#[test]
fn del_ruleset_removes_rules() {
    let rows = vec![(0, "A", "PR"), (0, "A", "R 1")];
    let p = Proof::parse(&rows).unwrap();
    let mut c = Checker::new();
    c.add_ruleset(&deduct::tfl_basic());
    c.check_proof(&p).unwrap();
    c.del_ruleset(&deduct::tfl_basic());
    let errs = c.check_proof(&p).unwrap_err();
    assert_eq!(errs, vec![(2, CheckError::NoSuchRule)]);
}

#[test]
fn empty_proof_checks() {
    let rows: Vec<(u16, &str, &str)> = vec![];
    let p = Proof::parse(&rows).unwrap();
    assert_eq!(p.len(), 0);
    let c = Checker::new();
    c.check_proof(&p).unwrap();
}

#[test]
fn proof_accessors() {
    let rows = vec![(0, "A", "PR"), (1, "B", "PR")];
    let p = Proof::parse(&rows).unwrap();
    assert_eq!(p.len(), 2);
    let l1 = p.line(1).unwrap();
    assert!(l1.is_premise());
    assert_eq!(l1.n, 1);
    assert_eq!(l1.d, 0);
    assert_eq!(l1.s, Sentence::Atomic('A'));
    assert!(p.line(0).is_none());
    assert!(p.line(3).is_none());
}

#[test]
fn sentence_helpers() {
    let a = Sentence::parse("A").unwrap();
    assert_eq!(a.negated(), Sentence::parse("~A").unwrap());
    assert!(Sentence::parse("#").unwrap().is_bot_signal());
    assert!(Sentence::parse("[]").unwrap().is_nec_signal());
    assert!(!a.is_bot_signal());
    let b = a.clone();
    assert_eq!(a, b);
}

#[test]
fn whitespace_only_sentence_is_empty() {
    assert_eq!(
        Sentence::parse("   \t ").unwrap_err(),
        ParseError::EmptySentence
    );
}

#[test]
fn de_morgan_rejects_mismatch() {
    let rows = vec![(0, "~(A v B)", "PR"), (0, "~A ^ ~C", "DeM 1")];
    let p = Proof::parse(&rows).unwrap();
    let mut c = Checker::new();
    c.add_ruleset(&deduct::tfl_derived());
    let errs = c.check_proof(&p).unwrap_err();
    assert_eq!(errs, vec![(2, CheckError::BadUsage)]);
}

#[test]
fn citation_aliases_are_normalized() {
    let c = Citation::parse("^I 1 2").unwrap();
    assert_eq!(c.r, "∧I");
    let c = Citation::parse("Def<> 1").unwrap();
    assert_eq!(c.r, "Def◇");
    let c = Citation::parse("vE 1 3-4 5-6").unwrap();
    assert_eq!(c.r, "∨E");
    assert_eq!(
        c.l,
        vec![
            LineNumber::One(1),
            LineNumber::Many(3, 4),
            LineNumber::Many(5, 6)
        ]
    );
}

#[test]
fn paren_wrapping_needs_proper_nesting() {
    // ")(" balances back to a nonzero final depth and is rejected outright,
    // while its parenthesized form "()()"  balances but has no operator, so
    // wrapping is not equality-preserving for improperly nested text.
    assert_eq!(
        Sentence::parse(")(").unwrap_err(),
        ParseError::UnbalancedParentheses
    );
    assert_eq!(Sentence::parse("()()").unwrap_err(), ParseError::MissingOp);
}

#[test]
fn deep_range_passes_range_stage() {
    // A cited range whose depth is not below the citing line's number is
    // still a closed subproof; the citation fails only on accessibility.
    let rows = vec![(3, "A", "PR"), (3, "B", "PR"), (0, "A -> B", "->I 1-2")];
    let p = Proof::parse(&rows).unwrap();
    let mut c = Checker::new();
    c.add_ruleset(&deduct::tfl_basic());
    let errs = c.check_proof(&p).unwrap_err();
    assert_eq!(errs, vec![(3, CheckError::Unavailable)]);
}
