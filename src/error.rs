use vstd::prelude::*;

verus! {

/// Errors surfaced by the masking engine.
#[derive(Debug)]
pub enum MaskerError {
    /// A structural rule could not be parsed or compiled.
    RuleParseError(String),
    /// A category token was not recognised, or a similarity query had nothing to rank.
    SimilarityError(String),
}

pub type MResult<T> = Result<T, MaskerError>;

} // verus!
