//! The named rule sets a driver can install: classical basics, classical
//! derived rules, and the modal systems K, T, S4 and S5.

use vstd::prelude::*;
use vstd::string::StringExecFns;

use crate::checker::Ruleset;
use crate::checker::entries_view;
use crate::rules::Rule;

verus! {

/// The entries of the classical basic ruleset.
pub open spec fn tfl_basic_entries() -> Seq<(Seq<char>, Rule)> {
    seq![
        ("R"@, Rule::Reiteration),
        ("∧I"@, Rule::ConjunctionIntr),
        ("∧E"@, Rule::ConjunctionElim),
        ("∨I"@, Rule::DisjunctionIntr),
        ("∨E"@, Rule::DisjunctionElim),
        ("→I"@, Rule::ConditionalIntr),
        ("→E"@, Rule::ConditionalElim),
        ("↔I"@, Rule::BiconditionalIntr),
        ("↔E"@, Rule::BiconditionalElim),
        ("¬I"@, Rule::NegationIntr),
        ("¬E"@, Rule::NegationElim),
        ("IP"@, Rule::IndirectProof),
        ("X"@, Rule::Explosion),
    ]
}

/// The entries of the classical derived ruleset.
pub open spec fn tfl_derived_entries() -> Seq<(Seq<char>, Rule)> {
    seq![
        ("DS"@, Rule::DisjunctiveSyllogism),
        ("MT"@, Rule::ModusTollens),
        ("DNE"@, Rule::Dne),
        ("LEM"@, Rule::Lem),
        ("DeM"@, Rule::DeMorgan),
        ("DEM"@, Rule::DeMorgan),
    ]
}

/// The entries of the modal base system K.
pub open spec fn system_k_entries() -> Seq<(Seq<char>, Rule)> {
    seq![
        ("□I"@, Rule::NecessityIntr),
        ("□E"@, Rule::NecessityElim),
        ("Def◇"@, Rule::PossibilityDef),
        ("MC"@, Rule::ModalConversion),
    ]
}

/// The entry of the system T.
pub open spec fn system_t_entries() -> Seq<(Seq<char>, Rule)> {
    seq![("RT"@, Rule::RT)]
}

/// The entry of the system S4.
pub open spec fn system_s4_entries() -> Seq<(Seq<char>, Rule)> {
    seq![("R4"@, Rule::R4)]
}

/// The entry of the system S5.
pub open spec fn system_s5_entries() -> Seq<(Seq<char>, Rule)> {
    seq![("R5"@, Rule::R5)]
}

/// The classical basic rules: reiteration and the introduction and
/// elimination rules of every classical connective.
pub fn tfl_basic() -> (r: Ruleset)
    ensures
        entries_view(r@) == tfl_basic_entries(),
{
    let mut v: Ruleset = Vec::new();
    v.push((String::from_str("R"), Rule::Reiteration));
    v.push((String::from_str("∧I"), Rule::ConjunctionIntr));
    v.push((String::from_str("∧E"), Rule::ConjunctionElim));
    v.push((String::from_str("∨I"), Rule::DisjunctionIntr));
    v.push((String::from_str("∨E"), Rule::DisjunctionElim));
    v.push((String::from_str("→I"), Rule::ConditionalIntr));
    v.push((String::from_str("→E"), Rule::ConditionalElim));
    v.push((String::from_str("↔I"), Rule::BiconditionalIntr));
    v.push((String::from_str("↔E"), Rule::BiconditionalElim));
    v.push((String::from_str("¬I"), Rule::NegationIntr));
    v.push((String::from_str("¬E"), Rule::NegationElim));
    v.push((String::from_str("IP"), Rule::IndirectProof));
    v.push((String::from_str("X"), Rule::Explosion));
    proof {
        assert(entries_view(v@) =~= tfl_basic_entries());
    }
    v
}

/// The classical derived rules.
pub fn tfl_derived() -> (r: Ruleset)
    ensures
        entries_view(r@) == tfl_derived_entries(),
{
    let mut v: Ruleset = Vec::new();
    v.push((String::from_str("DS"), Rule::DisjunctiveSyllogism));
    v.push((String::from_str("MT"), Rule::ModusTollens));
    v.push((String::from_str("DNE"), Rule::Dne));
    v.push((String::from_str("LEM"), Rule::Lem));
    v.push((String::from_str("DeM"), Rule::DeMorgan));
    v.push((String::from_str("DEM"), Rule::DeMorgan));
    proof {
        assert(entries_view(v@) =~= tfl_derived_entries());
    }
    v
}

/// The modal base system K.
pub fn system_k() -> (r: Ruleset)
    ensures
        entries_view(r@) == system_k_entries(),
{
    let mut v: Ruleset = Vec::new();
    v.push((String::from_str("□I"), Rule::NecessityIntr));
    v.push((String::from_str("□E"), Rule::NecessityElim));
    v.push((String::from_str("Def◇"), Rule::PossibilityDef));
    v.push((String::from_str("MC"), Rule::ModalConversion));
    proof {
        assert(entries_view(v@) =~= system_k_entries());
    }
    v
}

/// The system T.
pub fn system_t() -> (r: Ruleset)
    ensures
        entries_view(r@) == system_t_entries(),
{
    let mut v: Ruleset = Vec::new();
    v.push((String::from_str("RT"), Rule::RT));
    proof {
        assert(entries_view(v@) =~= system_t_entries());
    }
    v
}

/// The system S4.
pub fn system_s4() -> (r: Ruleset)
    ensures
        entries_view(r@) == system_s4_entries(),
{
    let mut v: Ruleset = Vec::new();
    v.push((String::from_str("R4"), Rule::R4));
    proof {
        assert(entries_view(v@) =~= system_s4_entries());
    }
    v
}

/// The system S5.
pub fn system_s5() -> (r: Ruleset)
    ensures
        entries_view(r@) == system_s5_entries(),
{
    let mut v: Ruleset = Vec::new();
    v.push((String::from_str("R5"), Rule::R5));
    proof {
        assert(entries_view(v@) =~= system_s5_entries());
    }
    v
}

} // verus!
