//! The consumer of the replayed event stream.

use vstd::prelude::*;
use crate::event::msg_view;
use crate::token::Token;
use crate::token::TokView;

verus! {

/// One call received by a [`Sink`], as a mathematical value.
pub ghost enum SinkEvent<K> {
    /// `enter(kind)` was called.
    Enter(K),
    /// `token(token)` was called.
    Token(TokView<K>),
    /// `exit()` was called.
    Exit,
    /// `error(expected, message)` was called.
    Error(Seq<K>, Option<Seq<char>>),
}

/// Types which can construct a syntax tree from well-nested
/// enter/token/exit/error calls.
///
/// A sink's whole observable history is its log, the sequence of calls it
/// has received; each operation appends exactly one entry to it.
pub trait Sink<K: Copy>: Sized {
    /// The calls received so far, oldest first.
    spec fn log(&self) -> Seq<SinkEvent<K>>;

    /// Enters a syntax construct with the given kind.
    fn enter(&mut self, kind: K)
        ensures
            final(self).log() == old(self).log().push(SinkEvent::Enter(kind)),
    ;

    /// Adds a token to the given syntax construct.
    fn token(&mut self, token: Token<'_, K>)
        ensures
            final(self).log() == old(self).log().push(SinkEvent::Token(token@)),
    ;

    /// Exits a syntax construct.
    fn exit(&mut self)
        ensures
            final(self).log() == old(self).log().push(SinkEvent::Exit),
    ;

    /// Reports an error.
    fn error(&mut self, expected: Vec<K>, message: Option<String>)
        ensures
            final(self).log() == old(self).log().push(
                SinkEvent::Error(expected@, msg_view(message)),
            ),
    ;
}

} // verus!
