use deduct::Citation;
use deduct::LineNumber;

#[test]
fn parse() {
    let citation = Citation::parse("R4 1, 2-3 4").unwrap();

    assert_eq!(
        citation,
        Citation {
            r: String::from("R4"),
            l: vec![LineNumber::One(1), LineNumber::Many(2, 3), LineNumber::One(4)]
        }
    )
}
