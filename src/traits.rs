//! What every element of a line can do: be escaped for writing, be unescaped
//! after reading, and be read from the text of a token.

use vstd::prelude::*;

use crate::error::SetError;

verus! {

/// Escaping of the characters that would otherwise end an element.
pub trait Format: Sized + View {
    /// The escaped form of a value.
    spec fn escape_view(v: Self::V) -> Self::V;

    /// The unescaped form of a value.
    spec fn unescape_view(v: Self::V) -> Self::V;

    /// Unescaping undoes escaping, whatever the value holds.
    proof fn lemma_unescape_escape(v: Self::V)
        ensures
            Self::unescape_view(Self::escape_view(v)) == v,
    ;

    /// Escapes the characters that are special in this element.
    fn escape(&self) -> (r: Self)
        ensures
            r@ == Self::escape_view(self@),
    ;

    /// Undoes [`Format::escape`].
    fn unescape(&self) -> (r: Self)
        ensures
            r@ == Self::unescape_view(self@),
    ;
}

/// Reading an element from the text of one token.
pub trait Convert: Sized + View {
    /// What a token reads as, or why it cannot be read.
    spec fn convert_view(s: Seq<char>) -> Result<Self::V, SetError>;

    /// Reads the element from the token `from`.
    fn parse_from(from: &str) -> (r: Result<Self, SetError>)
        ensures
            match Self::convert_view(from@) {
                Ok(v) => r is Ok && r->Ok_0@ == v,
                Err(e) => r is Err && r->Err_0 == e,
            },
    ;
}

} // verus!
