use deduct::ParseError;
use deduct::Sentence;

#[test]
fn empty_sentence() {
    assert_eq!(Sentence::parse("").unwrap_err(), ParseError::EmptySentence,);
}

#[test]
fn unbalanced() {
    assert_eq!(
        Sentence::parse("(A ^ B").unwrap_err(),
        ParseError::UnbalancedParentheses
    );
}

#[test]
fn invalid_char() {
    assert_eq!(
        Sentence::parse("(Aa ^ Bb)!").unwrap_err(),
        ParseError::InvalidCharacter(vec!["a".to_owned(), "b".to_owned(), "!".to_owned()])
    );
}

#[test]
fn ambiguity() {
    assert_eq!(Sentence::parse("A ^^ B").unwrap_err(), ParseError::Ambiguous);
}

#[test]
fn missing_op() {
    assert_eq!(Sentence::parse("A B").unwrap_err(), ParseError::MissingOp);
}

#[test]
fn bad_unary() {
    assert_eq!(Sentence::parse("A¬B").unwrap_err(), ParseError::BadUnary);

    assert_eq!(Sentence::parse("A□B").unwrap_err(), ParseError::BadUnary);

    assert_eq!(Sentence::parse("A◇B").unwrap_err(), ParseError::BadUnary);
}

#[test]
fn atomic() {
    let s = Sentence::parse("A").unwrap();

    assert_eq!(s, Sentence::Atomic('A'));
}

#[test]
fn signal() {
    let bot = Sentence::parse("#").unwrap();
    let pos = Sentence::parse("[]").unwrap();

    assert_eq!(bot, Sentence::Signal('⊥'));

    assert_eq!(pos, Sentence::Signal('□'));
}

#[test]
fn neg() {
    let neg = Sentence::parse("~A").unwrap();

    assert_eq!(neg, Sentence::Neg(Sentence::Atomic('A').box_up()));

    let neg = Sentence::parse("~~A").unwrap();

    assert_eq!(
        neg,
        Sentence::Neg(Sentence::Neg(Sentence::Atomic('A').box_up()).box_up())
    );
}

#[test]
fn nec() {
    let nec = Sentence::parse("□A").unwrap();

    assert_eq!(nec, Sentence::Nec(Sentence::Atomic('A').box_up()));

    let nec = Sentence::parse("□□A").unwrap();

    assert_eq!(
        nec,
        Sentence::Nec(Sentence::Nec(Sentence::Atomic('A').box_up()).box_up())
    );
}

#[test]
fn pos() {
    let pos = Sentence::parse("◇A").unwrap();

    assert_eq!(pos, Sentence::Pos(Sentence::Atomic('A').box_up()));

    let pos = Sentence::parse("◇◇A").unwrap();

    assert_eq!(
        pos,
        Sentence::Pos(Sentence::Pos(Sentence::Atomic('A').box_up()).box_up())
    );
}

#[test]
fn con() {
    let con = Sentence::parse("A ^ B").unwrap();

    assert_eq!(
        con,
        Sentence::Con(Sentence::Atomic('A').box_up(), Sentence::Atomic('B').box_up())
    );
}

#[test]
fn dis() {
    let dis = Sentence::parse("A v B").unwrap();

    assert_eq!(
        dis,
        Sentence::Dis(Sentence::Atomic('A').box_up(), Sentence::Atomic('B').box_up())
    );
}

#[test]
fn imp() {
    let imp = Sentence::parse("A -> B").unwrap();

    assert_eq!(
        imp,
        Sentence::Imp(Sentence::Atomic('A').box_up(), Sentence::Atomic('B').box_up())
    );
}

#[test]
fn bic() {
    let bic = Sentence::parse("A <-> B").unwrap();

    assert_eq!(
        bic,
        Sentence::Bic(Sentence::Atomic('A').box_up(), Sentence::Atomic('B').box_up())
    );
}
