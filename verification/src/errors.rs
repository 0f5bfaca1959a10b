//! The merge engine's error taxonomy. Every stage failure aborts the
//! whole merge; the variant says which stage failed and, where it
//! applies, which input.

use vstd::prelude::*;

verus! {

/// Why a merge failed.
#[derive(Clone, Copy, PartialEq, Eq, Structural, Debug)]
pub enum MergeError {
    /// An input could not be read or parsed into a document.
    Load { input: usize },
    /// Text extraction failed during duplicate detection on an input.
    Extract { input: usize },
    /// No catalog object was found in the combined graph.
    MissingCatalog,
    /// No pages-root object was found in the combined graph.
    MissingPages,
    /// The output could not be written.
    Save,
}

impl MergeError {
    /// The description each failed stage reads as.
    pub open spec fn spec_describe(self) -> Seq<char> {
        match self {
            MergeError::Load { .. } => "input could not be loaded"@,
            MergeError::Extract { .. } => "text extraction failed"@,
            MergeError::MissingCatalog => "no catalog object found"@,
            MergeError::MissingPages => "no pages root found"@,
            MergeError::Save => "output could not be saved"@,
        }
    }

    /// A short description of the failed stage.
    pub fn describe(&self) -> (r: &'static str)
        ensures
            r@ == self.spec_describe(),
    {
        match self {
            MergeError::Load { .. } => "input could not be loaded",
            MergeError::Extract { .. } => "text extraction failed",
            MergeError::MissingCatalog => "no catalog object found",
            MergeError::MissingPages => "no pages root found",
            MergeError::Save => "output could not be saved",
        }
    }
}

} // verus!
