use vstd::prelude::*;

use crate::text::join3;

verus! {

/// A ParsingError means that the syntax or format of the provided grammar is invalid.
#[derive(Debug)]
pub struct ParsingError {
    pub path: String,
    pub msg: String,
}

impl ParsingError {
    pub fn new(path: String, msg: String) -> (r: ParsingError)
        ensures
            r.path@ == path@,
            r.msg@ == msg@,
    {
        ParsingError { path, msg }
    }

    /// The error as one line of text.
    pub fn message(&self) -> (r: String)
        ensures
            r@ == "ParsingError in "@ + self.path@ + ": "@ + self.msg@,
    {
        let mut s = join3("ParsingError in ", self.path.as_str(), ": ");
        s.append(self.msg.as_str());
        s
    }
}

/// A GrammarError represents an error with the content of a grammar.
#[derive(Debug)]
pub enum GrammarError {
    /// The grammar does not contain rules to expand the entrypoint
    MissingEntrypoint(String),
    /// The grammar is referencing a non-terminal that has no rules to expand.
    MissingNonTerminal(String),
    /// Some non-terminals can only ever expand into each other, or lead
    /// every derivation back to themselves.
    ContainsCycles,
    /// Two grammars define the same non-terminal.
    MergeConflict(String),
    /// A grammar file does not have the expected structure.
    InvalidFormat(String),
}

impl GrammarError {
    /// The error as one line of text.
    pub fn message(&self) -> (r: String)
        ensures
            self matches GrammarError::MissingEntrypoint(e) ==> r@ == "The grammar does not contain an explicit entrypoint: "@ + e@ + ""@,
            self matches GrammarError::MissingNonTerminal(n) ==> r@ == "The non-terminal '"@ + n@ + "' is referenced but never defined"@,
            self matches GrammarError::ContainsCycles ==> r@ == "The grammar contains cycles"@ + ""@ + ""@,
            self matches GrammarError::MergeConflict(k) ==> r@ == "Two grammars use the same key: "@ + k@ + ""@,
            self matches GrammarError::InvalidFormat(m) ==> r@ == "Invalid grammar: "@ + m@ + ""@,
    {
        match self {
            GrammarError::MissingEntrypoint(e) => join3(
                "The grammar does not contain an explicit entrypoint: ",
                e.as_str(),
                "",
            ),
            GrammarError::MissingNonTerminal(n) => join3(
                "The non-terminal '",
                n.as_str(),
                "' is referenced but never defined",
            ),
            GrammarError::ContainsCycles => join3("The grammar contains cycles", "", ""),
            GrammarError::MergeConflict(k) => join3("Two grammars use the same key: ", k.as_str(), ""),
            GrammarError::InvalidFormat(m) => join3("Invalid grammar: ", m.as_str(), ""),
        }
    }
}

} // verus!
