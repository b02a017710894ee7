//! Findings reported on a chapter.
use vstd::prelude::*;

verus! {

/// One finding: a code such as `html::broken-link` and a message.
#[derive(Debug)]
pub struct Diagnostic {
    pub code: &'static str,
    pub message: String,
}

impl DeepView for Diagnostic {
    type V = (Seq<char>, Seq<char>);

    open spec fn deep_view(&self) -> (Seq<char>, Seq<char>) {
        (self.code@, self.message@)
    }
}

} // verus!
