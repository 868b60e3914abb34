//! The error type of the crate.

use vstd::prelude::*;

use crate::text::{decimal, decimal_text, joined};

verus! {

/// Crate-level error type.
#[derive(Debug)]
pub enum PrimdError {
    /// An embedding, or a matrix for embeddings, is not of the size that is
    /// wanted.
    InvalidDimension { expected: usize, got: usize },
    /// What was read is no array of signatures.
    InvalidSignatureFile(String),
    /// The projection matrix is missing or too short to hold its header.
    PcaMatrixMissing,
    /// The embedder refused or failed.
    Embedder(String),
}

impl PrimdError {
    /// The message for users.
    pub open spec fn text(&self) -> Seq<char> {
        match self {
            PrimdError::InvalidDimension { expected, got } => {
                "invalid embedding dimension: expected "@ + decimal_text(*expected as nat)
                    + ", got "@ + decimal_text(*got as nat)
            },
            PrimdError::InvalidSignatureFile(why) => "invalid signature file: "@ + why@,
            PrimdError::PcaMatrixMissing => "PCA matrix file not found or invalid"@,
            PrimdError::Embedder(why) => "embedder error: "@ + why@,
        }
    }

    /// The message for users.
    pub fn message(&self) -> (s: String)
        ensures
            s@ == self.text(),
    {
        match self {
            PrimdError::InvalidDimension { expected, got } => {
                let mut s = joined(
                    "invalid embedding dimension: expected ",
                    decimal(*expected as u64).as_str(),
                );
                s.append(", got ");
                s.append(decimal(*got as u64).as_str());
                s
            },
            PrimdError::InvalidSignatureFile(why) => joined(
                "invalid signature file: ",
                why.as_str(),
            ),
            PrimdError::PcaMatrixMissing => "PCA matrix file not found or invalid".to_owned(),
            PrimdError::Embedder(why) => joined("embedder error: ", why.as_str()),
        }
    }
}

} // verus!
