//! Tokens and the trivia predicate that parsing is parameterised by.

use vstd::prelude::*;

verus! {

/// A token, a pair of kind and text. The text is borrowed from the caller's
/// input buffer; the parser never mutates or copies it.
#[derive(Debug, Clone, Copy)]
pub struct Token<'a, K> {
    /// The kind of token.
    pub kind: K,
    /// The text of the token.
    pub text: &'a str,
}

/// The mathematical value of a [`Token`]: its kind and its text as a
/// sequence of characters.
pub ghost struct TokView<K> {
    /// The kind of the token.
    pub kind: K,
    /// The characters of the token's text.
    pub text: Seq<char>,
}

impl<'a, K: Copy> View for Token<'a, K> {
    type V = TokView<K>;

    open spec fn view(&self) -> TokView<K> {
        TokView { kind: self.kind, text: self.text@ }
    }
}

/// Types whose values can report whether they are trivia or not.
pub trait Triviable: Sized {
    /// Whether this kind is trivia, as a mathematical predicate.
    spec fn is_trivia_spec(&self) -> bool;

    /// Returns whether this is trivia.
    fn is_trivia(&self) -> (r: bool)
        ensures
            r == self.is_trivia_spec(),
    ;
}

} // verus!
