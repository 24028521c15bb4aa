use deduct::CheckError;
use deduct::Checker;
use deduct::Proof;
use deduct::Ruleset;

fn run(rulesets: Vec<Ruleset>, rows: Vec<(u16, &str, &str)>) {
    let p = Proof::parse(&rows).expect("Failed to parse test proof");

    let mut c = Checker::new();

    for ruleset in &rulesets {
        c.add_ruleset(ruleset);
    }

    c.check_proof(&p).unwrap();
}

fn run_bad(rulesets: Vec<Ruleset>, expected: Vec<(u16, CheckError)>, rows: Vec<(u16, &str, &str)>) {
    let p = Proof::parse(&rows).expect("Failed to parse test proof");

    let mut c = Checker::new();

    for ruleset in &rulesets {
        c.add_ruleset(ruleset);
    }

    let errs = c.check_proof(&p).unwrap_err();

    for (a, e) in errs.iter().zip(expected.iter()) {
        if a != e {
            panic!("Error mismatch!\nExpected {e:?}\nGot:{a:?}")
        }
    }
}

#[test]
fn reiteration() {
    run(
        vec![deduct::tfl_basic()],
        vec![(0, "A", "PR"), (0, "A", "R 1")],
    );
}

#[test]
fn conjunction_intr() {
    run(
        vec![deduct::tfl_basic()],
        vec![
            (0, "A", "PR"),
            (0, "B", "PR"),
            (0, "A ^ B", "^I 1 2"),
            (0, "B ^ A", "^I 1 2"),
        ],
    );
}

#[test]
fn conjunction_elim() {
    run(
        vec![deduct::tfl_basic()],
        vec![(0, "A ^ B", "PR"), (0, "A", "^E 1"), (0, "B", "^E 1")],
    );
}

#[test]
fn disjunction_intr() {
    run(
        vec![deduct::tfl_basic()],
        vec![(0, "A", "PR"), (0, "A v B", "vI 1"), (0, "B v A", "vI 1")],
    );
}

#[test]
fn disjunction_elim() {
    run(
        vec![deduct::tfl_basic()],
        vec![
            (0, "A v B", "PR"),
            (0, "C", "PR"),
            (1, "A", "PR"),
            (1, "C", "R 2"),
            (1, "B", "PR"),
            (1, "C", "R 2"),
            (0, "C", "vE 1 3-4 5-6"),
            (0, "C", "vE 1 5-6 3-4"),
        ],
    );
}

#[test]
fn conditional_intr() {
    run(
        vec![deduct::tfl_basic()],
        vec![
            (0, "B", "PR"),
            (1, "A", "PR"),
            (1, "B", "R 1"),
            (0, "A -> B", "->I 2-3"),
        ],
    );
}

#[test]
fn conditional_elim() {
    run(
        vec![deduct::tfl_basic()],
        vec![
            (0, "A -> B", "PR"),
            (0, "A", "PR"),
            (0, "B", "->E 1 2"),
            (0, "B", "->E 2 1"),
        ],
    );
}

#[test]
fn biconditional_intr() {
    run(
        vec![deduct::tfl_basic()],
        vec![
            (0, "A", "PR"),
            (0, "B", "PR"),
            (1, "A", "PR"),
            (1, "B", "R 2"),
            (1, "B", "PR"),
            (1, "A", "R 1"),
            (0, "A <-> B", "<->I 3-4 5-6"),
            (0, "B <-> A", "<->I 3-4 5-6"),
            (0, "A <-> B", "<->I 5-6 3-4"),
            (0, "B <-> A", "<->I 5-6 3-4"),
        ],
    );
}

#[test]
fn biconditional_elim() {
    run(
        vec![deduct::tfl_basic()],
        vec![
            (0, "A <-> B", "PR"),
            (0, "A", "PR"),
            (0, "B", "PR"),
            (0, "B", "<->E 1 2"),
            (0, "A", "<->E 1 3"),
        ],
    );
}

#[test]
fn negation_intr() {
    run(
        vec![deduct::tfl_basic()],
        vec![
            (0, "~A", "PR"),
            (1, "A", "PR"),
            (1, "#", "~E 1 2"),
            (1, "#", "~E 2 1"),
            (0, "~A", "~I 2-4"),
        ],
    );
}

#[test]
fn negation_elim() {
    run(
        vec![deduct::tfl_basic()],
        vec![
            (0, "A", "PR"),
            (0, "~A", "PR"),
            (0, "#", "~E 1 2"),
            (0, "#", "~E 2 1"),
        ],
    );

    run(
        vec![deduct::tfl_basic()],
        vec![
            (0, "~A", "PR"),
            (0, "~~A", "PR"),
            (0, "#", "~E 1 2"),
            (0, "#", "~E 2 1"),
        ],
    );

    run(
        vec![deduct::tfl_basic()],
        vec![
            (0, "~~~~~A", "PR"),
            (0, "~~~~~~A", "PR"),
            (0, "#", "~E 1 2"),
            (0, "#", "~E 2 1"),
        ],
    );
}

#[test]
fn indirect_proof() {
    run(
        vec![deduct::tfl_basic()],
        vec![
            (0, "A", "PR"),
            (1, "~A", "PR"),
            (1, "#", "~E 1 2"),
            (0, "A", "IP 2-3"),
        ],
    );

    run(
        vec![deduct::tfl_basic()],
        vec![
            (0, "~A", "PR"),
            (1, "~~A", "PR"),
            (1, "#", "~E 1 2"),
            (0, "~A", "IP 2-3"),
        ],
    );
}

#[test]
fn explosion() {
    run(
        vec![deduct::tfl_basic()],
        vec![
            (0, "A", "PR"),
            (0, "~A", "PR"),
            (0, "#", "~E 1 2"),
            (0, "(B ^ O) ^ (O ^ M)", "X 3"),
        ],
    );
}

#[test]
fn complex_tfl_basic() {
    run(
        vec![deduct::tfl_basic()],
        vec![
            (0, "~(B <-> A)", "PR"),
            (0, "A", "PR"),
            (1, "B", "PR"),
            (2, "A", "PR"),
            (2, "B", "R 3"),
            (2, "B", "PR"),
            (2, "A", "R 2"),
            (1, "B <-> A", "<->I 4-5, 6-7"),
            (1, "#", "~E 1 8"),
            (0, "~B", "~I 3-9"),
        ],
    );

    run(
        vec![deduct::tfl_basic()],
        vec![
            (0, "A -> (B v C)", "PR"),
            (0, "B <-> C", "PR"),
            (1, "~B", "PR"),
            (2, "A", "PR"),
            (2, "B v C", "->E 1 4"),
            (3, "B", "PR"),
            (3, "B", "R 6"),
            (3, "C", "PR"),
            (3, "B", "<->E 2 8"),
            (2, "B", "vE 5 6-7 8-9"),
        ],
    );

    run(
        vec![deduct::tfl_basic()],
        vec![
            (1, "C", "PR"),
            (2, "(D ^ A) v B", "PR"),
            (2, "C", "R 1"),
            (1, "((D ^ A) v B) -> C", "->I 2-3"),
            (0, "C -> ([(D ^ A) v B] -> C)", "->I 1-4"),
        ],
    );

    run(
        vec![deduct::tfl_basic()],
        vec![
            (0, "(A ^ B) ^ C", "PR"),
            (0, "A ^ B", "^E 1"),
            (0, "A", "^E 2"),
            (0, "B", "^E 2"),
            (0, "C", "^E 1"),
            (0, "(B ^ C)", "^I 4 5"),
            (0, "A ^ (B ^ C)", "^I 3 6"),
        ],
    );

    run(
        vec![deduct::tfl_basic()],
        vec![
            (0, "(A v B) v C", "PR"),
            (1, "A v B", "PR"),
            (2, "A", "PR"),
            (2, "A v (B v C)", "vI 3"),
            (2, "B", "PR"),
            (2, "B v C", "vI 5"),
            (2, "A v (B v C)", "vI 6"),
            (1, "A v (B v C)", "vE 2 3-4 5-7"),
            (1, "C", "PR"),
            (1, "B v C", "vI 9"),
            (1, "A v (B v C)", "vI 10"),
            (0, "A v (B v C)", "vE 1 2-8 9-11"),
        ],
    );
}

#[test]
fn disjunctive_syllogism() {
    run(
        vec![deduct::tfl_basic(), deduct::tfl_derived()],
        vec![
            (0, "A v B", "PR"),
            (0, "~A", "PR"),
            (0, "~B", "PR"),
            (0, "A", "DS 1 3"),
            (0, "B", "DS 1 2"),
            (0, "A", "DS 3 1"),
            (0, "B", "DS 2 1"),
        ],
    );
}

#[test]
fn modus_tollens() {
    run(
        vec![deduct::tfl_basic(), deduct::tfl_derived()],
        vec![
            (0, "A -> B", "PR"),
            (0, "~B", "PR"),
            (0, "~A", "MT 1 2"),
            (0, "~A", "MT 2 1"),
        ],
    );

    run(
        vec![deduct::tfl_basic(), deduct::tfl_derived()],
        vec![
            (0, "A -> ~B", "PR"),
            (0, "~~B", "PR"),
            (0, "~A", "MT 1 2"),
            (0, "~A", "MT 2 1"),
        ],
    );
}

#[test]
fn dne() {
    run(
        vec![deduct::tfl_basic(), deduct::tfl_derived()],
        vec![
            (0, "~~A", "PR"),
            (0, "~~~B", "PR"),
            (0, "A", "DNE 1"),
            (0, "~B", "DNE 2"),
        ],
    );
}

#[test]
fn lem() {
    run(
        vec![deduct::tfl_basic(), deduct::tfl_derived()],
        vec![
            (0, "B", "PR"),
            (1, "A", "PR"),
            (1, "B", "R 1"),
            (1, "~A", "PR"),
            (1, "B", "R 1"),
            (0, "B", "LEM 2-3 4-5"),
            (0, "B", "LEM 4-5 2-3"),
        ],
    );
}

#[test]
fn de_morgan() {
    run(
        vec![deduct::tfl_basic(), deduct::tfl_derived()],
        vec![(0, "~(A v B)", "PR"), (0, "~A ^ ~B", "DeM 1")],
    );

    run(
        vec![deduct::tfl_basic(), deduct::tfl_derived()],
        vec![(0, "~A ^ ~B", "PR"), (0, "~(A v B)", "DeM 1")],
    );

    run(
        vec![deduct::tfl_basic(), deduct::tfl_derived()],
        vec![(0, "~(A ^ B)", "PR"), (0, "~A v ~B", "DeM 1")],
    );

    run(
        vec![deduct::tfl_basic(), deduct::tfl_derived()],
        vec![(0, "~A v ~B", "PR"), (0, "~(A ^ B)", "DeM 1")],
    );
}

#[test]
fn complex_tfl_derived() {}

#[test]
fn necessity_intr() {
    run(
        vec![deduct::tfl_basic(), deduct::system_k()],
        vec![
            (0, "[]A", "PR"),
            (1, "[]", "PR"),
            (1, "A", "[]E 1"),
            (0, "[]A", "[]I 2-3"),
        ],
    );
}

#[test]
fn necessity_elim() {
    run(
        vec![deduct::system_k()],
        vec![(0, "[]A", "PR"), (1, "[]", "PR"), (1, "A", "[]E 1")],
    );

    run_bad(
        vec![deduct::tfl_basic(), deduct::system_k()],
        vec![(4, CheckError::BadUsage)],
        vec![
            (0, "[]A", "PR"),
            (1, "[]", "PR"),
            (2, "[]", "PR"),
            (2, "A", "[]E 1"),
        ],
    );
}

#[test]
fn possibility_def() {
    run(
        vec![deduct::system_k()],
        vec![(0, "~[]~A", "PR"), (0, "<>A", "Def<> 1")],
    );

    run(
        vec![deduct::system_k()],
        vec![(0, "<>A", "PR"), (0, "~[]~A", "Def<> 1")],
    );
}

#[test]
fn modal_conversion() {
    run(
        vec![deduct::system_k()],
        vec![(0, "~[]A", "PR"), (0, "<>~A", "MC 1"), (0, "~[]A", "MC 2")],
    );

    run(
        vec![deduct::system_k()],
        vec![(0, "~<>A", "PR"), (0, "[]~A", "MC 1"), (0, "~<>A", "MC 2")],
    );
}

#[test]
fn rule_t() {
    run(
        vec![deduct::system_t()],
        vec![(0, "[]A", "PR"), (0, "A", "RT 1")],
    );

    run_bad(
        vec![deduct::system_t()],
        vec![(3, CheckError::Unavailable)],
        vec![(0, "[]A", "PR"), (1, "[]", "PR"), (1, "[]A", "RT 1")],
    );
}

#[test]
fn rule_four() {
    run(
        vec![deduct::system_s4()],
        vec![(0, "[]A", "PR"), (1, "[]", "PR"), (1, "[]A", "R4 1")],
    );

    run_bad(
        vec![deduct::system_s4()],
        vec![(4, CheckError::BadUsage)],
        vec![
            (0, "[]A", "PR"),
            (1, "[]", "PR"),
            (2, "[]", "PR"),
            (2, "[]A", "R4 1"),
        ],
    );
}

#[test]
fn rule_five() {
    run(
        vec![deduct::system_s5()],
        vec![(0, "~[]A", "PR"), (1, "[]", "PR"), (1, "~[]A", "R5 1")],
    );

    run_bad(
        vec![deduct::system_s5()],
        vec![(4, CheckError::BadUsage)],
        vec![
            (0, "~[]A", "PR"),
            (1, "[]", "PR"),
            (2, "[]", "PR"),
            (2, "~[]A", "R5 1"),
        ],
    );
}

#[test]
fn complex_modal() {
    run(
        vec![deduct::tfl_basic(), deduct::system_k()],
        vec![
            (0, "[]P", "PR"),
            (1, "[]", "PR"),
            (1, "P", "[]E 1"),
            (1, "P v R", "vI 3"),
            (0, "[](P v R)", "[]I 2-4"),
        ],
    );

    run(
        vec![deduct::tfl_basic(), deduct::system_k()],
        vec![
            (0, "[](P -> Q)", "PR"),
            (0, "[](Q -> R)", "PR"),
            (1, "[]", "PR"),
            (1, "P -> Q", "[]E 1"),
            (1, "Q -> R", "[]E 2"),
            (2, "P", "PR"),
            (2, "Q", "->E 4 6"),
            (2, "R", "->E 5 7"),
            (1, "P -> R", "->I 6-8"),
            (0, "[](P -> R)", "[]I 3-9"),
        ],
    );

    run(
        vec![deduct::tfl_basic(), deduct::system_k()],
        vec![
            (0, "[](P -> Q)", "PR"),
            (0, "[]~Q", "PR"),
            (1, "[]", "PR"),
            (1, "P -> Q", "[]E 1"),
            (1, "~Q", "[]E 2"),
            (2, "P", "PR"),
            (2, "Q", "->E 4 6"),
            (2, "#", "~E 5 7"),
            (1, "~P", "~I 6-8"),
            (0, "[]~P", "[]I 3-9"),
            (0, "~<>P", "MC 10"),
        ],
    );
}
