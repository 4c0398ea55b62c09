use vstd::prelude::*;

verus! {

/// Why a read failed. Every error ends the traversal.
#[derive(Debug)]
pub enum XmlError {
    /// The token stream ended while more tokens were expected.
    UnexpectedEof,
    /// A token came that is not valid where it stands.
    UnexpectedToken { token: String },
    /// A close tag named another element than the one expected.
    TagMismatch { expected: String, found: String },
    /// An `&` in a text run has no `;` after it.
    UnterminatedEntity { entity: String },
    /// A character reference is not one of the known forms.
    UnrecognizedSymbol { symbol: String },
    /// The tokenizer reported a lexical error.
    Parser(xmlparser::Error),
}

pub type XmlResult<T> = Result<T, XmlError>;

} // verus!
