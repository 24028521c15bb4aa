//! A Fitch-style natural-deduction proof checker for classical and modal
//! propositional logic.
//!
//! The crate parses logical sentences and rule citations, assembles proofs
//! from `(depth, sentence, citation)` rows, and validates every line against
//! a table of inference rules.

pub mod error;
pub mod normalize;
pub mod sentence;
pub mod citation;
pub mod fitch;
pub mod rules;
pub mod checker;
pub mod rulesets;

pub use normalize::normalize_ops;
pub use error::ParseError;
pub use sentence::Sentence;
pub use citation::Citation;
pub use citation::LineNumber;
pub use citation::LineNumberType;
pub use fitch::Line;
pub use fitch::Proof;
pub use fitch::ParseErrors;
pub use rules::Rule;
pub use rules::CheckError;
pub use rules::CheckErrors;
pub use checker::Checker;
pub use checker::Ruleset;
pub use rulesets::tfl_basic;
pub use rulesets::tfl_derived;
pub use rulesets::system_k;
pub use rulesets::system_t;
pub use rulesets::system_s4;
pub use rulesets::system_s5;
