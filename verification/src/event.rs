//! The parser's event log and its mathematical view.

use vstd::prelude::*;

verus! {

/// One recorded parsing event. The log is a vector of `Option<Event<K>>`;
/// a `None` slot is an abandoned (or not yet written) construct.
#[derive(Debug)]
pub enum Event<K> {
    /// Begins a node of the given kind. The second field is an optional
    /// forward parent: the index of a later `Enter` that becomes this
    /// node's parent in the emitted tree.
    Enter(K, Option<usize>),
    /// Consumes one non-trivia token at the cursor.
    Token,
    /// Closes the most recently opened node.
    Exit,
    /// A diagnostic: the kinds expected at the failing position, and an
    /// optional message.
    Error(Vec<K>, Option<String>),
}

/// The mathematical value of an [`Event`].
pub ghost enum Ev<K> {
    /// Begins a node; the second field is the forward-parent index.
    Enter(K, Option<int>),
    /// Consumes one non-trivia token.
    Token,
    /// Closes the most recently opened node.
    Exit,
    /// A diagnostic with its expected kinds and optional message.
    Error(Seq<K>, Option<Seq<char>>),
}

/// The view of an optional message.
pub open spec fn msg_view(m: Option<String>) -> Option<Seq<char>> {
    match m {
        Some(s) => Some(s@),
        None => None,
    }
}

/// The view of a forward-parent index.
pub open spec fn fp_view(fp: Option<usize>) -> Option<int> {
    match fp {
        Some(i) => Some(i as int),
        None => None,
    }
}

/// The view of one event.
pub open spec fn event_view<K>(e: Event<K>) -> Ev<K> {
    match e {
        Event::Enter(k, fp) => Ev::Enter(k, fp_view(fp)),
        Event::Token => Ev::Token,
        Event::Exit => Ev::Exit,
        Event::Error(expected, msg) => Ev::Error(expected@, msg_view(msg)),
    }
}

/// The view of one slot of the event log.
pub open spec fn slot_view<K>(s: Option<Event<K>>) -> Option<Ev<K>> {
    match s {
        Some(e) => Some(event_view(e)),
        None => None,
    }
}

/// The view of a whole event log.
pub open spec fn log_view<K>(events: Seq<Option<Event<K>>>) -> Seq<Option<Ev<K>>> {
    Seq::new(events.len(), |i: int| slot_view(events[i]))
}

} // verus!
