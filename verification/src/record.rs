//! A recording sink and a simple syntax kind, for tests and for checking
//! grammars against the emitted call stream.

use vstd::prelude::*;
use crate::event::msg_view;
use crate::sink::Sink;
use crate::sink::SinkEvent;
use crate::token::TokView;
use crate::token::Token;
use crate::token::Triviable;

verus! {

/// A syntax kind for tests and simple languages: a numeric code and a
/// trivia flag.
#[derive(Debug, Clone, Copy, Eq, Hash)]
pub struct RawKind {
    /// The code that tells kinds apart.
    pub code: u16,
    /// Whether this kind is trivia.
    pub trivia: bool,
}

impl PartialEq for RawKind {
    fn eq(&self, other: &RawKind) -> (r: bool) {
        self.code == other.code && self.trivia == other.trivia
    }
}

impl vstd::std_specs::cmp::PartialEqSpecImpl for RawKind {
    open spec fn obeys_eq_spec() -> bool {
        true
    }

    open spec fn eq_spec(&self, other: &RawKind) -> bool {
        self.code == other.code && self.trivia == other.trivia
    }
}

impl Triviable for RawKind {
    open spec fn is_trivia_spec(&self) -> bool {
        self.trivia
    }

    fn is_trivia(&self) -> (r: bool) {
        self.trivia
    }
}

/// One recorded sink call.
#[derive(Debug, PartialEq)]
pub enum SinkCall<K> {
    /// An `enter(kind)` call.
    Enter(K),
    /// A `token(token)` call, with the token's kind and text.
    Token(K, String),
    /// An `exit()` call.
    Exit,
    /// An `error(expected, message)` call.
    Error(Vec<K>, Option<String>),
}

/// The view of one recorded call.
pub open spec fn call_view<K: Copy>(c: SinkCall<K>) -> SinkEvent<K> {
    match c {
        SinkCall::Enter(k) => SinkEvent::Enter(k),
        SinkCall::Token(k, s) => SinkEvent::Token(TokView { kind: k, text: s@ }),
        SinkCall::Exit => SinkEvent::Exit,
        SinkCall::Error(e, m) => SinkEvent::Error(e@, msg_view(m)),
    }
}

/// A sink that keeps every call it receives, in order.
#[derive(Debug)]
pub struct RecordSink<K> {
    /// The calls received so far.
    pub calls: Vec<SinkCall<K>>,
}

impl<K: Copy> RecordSink<K> {
    /// Returns a sink that has received nothing.
    pub fn new() -> (r: Self)
        ensures
            r.log() == Seq::<SinkEvent<K>>::empty(),
    {
        let r = RecordSink { calls: Vec::new() };
        proof {
            assert(r.log() =~= Seq::<SinkEvent<K>>::empty());
        }
        r
    }
}

impl<K: Copy> Sink<K> for RecordSink<K> {
    open spec fn log(&self) -> Seq<SinkEvent<K>> {
        Seq::new(self.calls@.len(), |i: int| call_view(self.calls@[i]))
    }

    fn enter(&mut self, kind: K) {
        self.calls.push(SinkCall::Enter(kind));
        proof {
            assert(self.log() =~= old(self).log().push(SinkEvent::Enter(kind)));
        }
    }

    fn token(&mut self, token: Token<'_, K>) {
        let text = token.text.to_owned();
        self.calls.push(SinkCall::Token(token.kind, text));
        proof {
            assert(self.log() =~= old(self).log().push(SinkEvent::Token(token@)));
        }
    }

    fn exit(&mut self) {
        self.calls.push(SinkCall::Exit);
        proof {
            assert(self.log() =~= old(self).log().push(SinkEvent::Exit));
        }
    }

    fn error(&mut self, expected: Vec<K>, message: Option<String>) {
        let ghost e = expected@;
        let ghost m = msg_view(message);
        self.calls.push(SinkCall::Error(expected, message));
        proof {
            assert(self.log() =~= old(self).log().push(SinkEvent::Error(e, m)));
        }
    }
}

} // verus!
