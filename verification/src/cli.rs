//! The commands the tool understands.
use vstd::prelude::*;

verus! {

/// A command line: the command and whether to log verbosely.
pub struct Cli {
    /// The command to run.
    pub command: Commands,
    /// Whether to print debugging output.
    pub verbose: bool,
}

/// The commands.
pub enum Commands {
    /// Index the documents of a folder.
    Init {
        /// The document folder.
        doc_path: String,
    },
    /// Answer a question from the index.
    Ask {
        /// The question.
        question: String,
    },
    /// Record a standard answer to a question.
    AddFqa {
        /// The question.
        question: String,
        /// Its answer.
        answer: String,
    },
    /// Remove all data.
    Clear,
}

} // verus!
