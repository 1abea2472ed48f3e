//! The meaning of an event log: a deterministic replay against a sink.
//!
//! [`replay`] interprets a finished event log over the input tokens and
//! yields the exact sequence of sink calls that [`crate::parse::Parser::finish`]
//! makes, together with an `ok` flag. `ok` is false exactly on the logs on
//! which the replay would be a programmer error (an unbalanced log, a
//! forward parent that does not refer to an `Enter`, more `Token` events
//! than non-trivia tokens).

use vstd::prelude::*;
use crate::event::Ev;
use crate::sink::SinkEvent;
use crate::token::TokView;
use crate::token::Triviable;

verus! {

/// The index of the first non-trivia token at or after `c`, or the length
/// of `tokens` if there is none.
pub open spec fn skip_trivia<K: Triviable>(tokens: Seq<TokView<K>>, c: int) -> int
    decreases tokens.len() - c,
{
    if c < tokens.len() && tokens[c].kind.is_trivia_spec() {
        skip_trivia(tokens, c + 1)
    } else {
        c
    }
}

/// The cursor only moves forward over trivia, and never past the end of
/// the tokens unless it already was.
pub proof fn lemma_skip_trivia_bounds<K: Triviable>(tokens: Seq<TokView<K>>, c: int)
    ensures
        c <= skip_trivia(tokens, c),
        c <= tokens.len() ==> skip_trivia(tokens, c) <= tokens.len(),
        skip_trivia(tokens, c) < tokens.len() ==> !tokens[skip_trivia(
            tokens,
            c,
        )].kind.is_trivia_spec(),
    decreases tokens.len() - c,
{
    if c < tokens.len() && tokens[c].kind.is_trivia_spec() {
        lemma_skip_trivia_bounds(tokens, c + 1);
    }
}

/// The sink calls that deliver the run of trivia tokens starting at `c`.
pub open spec fn trivia_out<K: Triviable>(tokens: Seq<TokView<K>>, c: int) -> Seq<SinkEvent<K>>
    decreases tokens.len() - c,
{
    if c < tokens.len() && tokens[c].kind.is_trivia_spec() {
        seq![SinkEvent::Token(tokens[c])] + trivia_out(tokens, c + 1)
    } else {
        Seq::empty()
    }
}

/// The position of the `n`th non-trivia token at or after `c`: the current
/// token for `n == 0`, and for each further step the first non-trivia
/// position past the previous one.
pub open spec fn nth_pos<K: Triviable>(tokens: Seq<TokView<K>>, c: int, n: nat) -> int
    decreases n,
{
    if n == 0 {
        skip_trivia(tokens, c)
    } else {
        skip_trivia(tokens, nth_pos(tokens, c, (n - 1) as nat) + 1)
    }
}

/// The outcome of walking a forward-parent chain.
pub ghost struct Walk<K> {
    /// Whether every link of the chain referred strictly forward to an
    /// `Enter`.
    pub ok: bool,
    /// The kinds collected along the chain, innermost first.
    pub kinds: Seq<K>,
    /// The slots the chain visited.
    pub visited: Set<int>,
}

/// Walks the forward-parent chain starting at slot `p`, collecting kinds
/// onto `kinds` and the visited slots onto `visited`.
pub open spec fn walk<K>(
    events: Seq<Option<Ev<K>>>,
    p: int,
    kinds: Seq<K>,
    visited: Set<int>,
) -> Walk<K>
    decreases events.len() - p,
{
    if 0 <= p < events.len() {
        match events[p] {
            Some(Ev::Enter(k, fp)) => {
                let kinds2 = kinds.push(k);
                let visited2 = visited.insert(p);
                match fp {
                    None => Walk { ok: true, kinds: kinds2, visited: visited2 },
                    Some(q) => if p < q && q < events.len() {
                        walk(events, q, kinds2, visited2)
                    } else {
                        Walk { ok: false, kinds: kinds2, visited: visited2 }
                    },
                }
            }
            _ => Walk { ok: false, kinds, visited },
        }
    } else {
        Walk { ok: false, kinds, visited }
    }
}

/// The log with every slot in `visited` emptied.
pub open spec fn clear<K>(events: Seq<Option<Ev<K>>>, visited: Set<int>) -> Seq<Option<Ev<K>>> {
    Seq::new(
        events.len(),
        |i: int|
            if visited.contains(i) {
                None
            } else {
                events[i]
            },
    )
}

/// The outcome of emitting a collected group of enters.
pub ghost struct Enters<K> {
    /// The sink calls made so far.
    pub out: Seq<SinkEvent<K>>,
    /// The token cursor afterwards.
    pub cursor: int,
    /// The count of open nodes afterwards.
    pub levels: int,
}

/// Emits the collected kinds outermost (last of `kinds`) first. Before
/// every enter except one at the root, the pending trivia is flushed:
/// leading trivia stays outside the outermost node entered at the root.
pub open spec fn emit_enters<K: Triviable>(
    tokens: Seq<TokView<K>>,
    kinds: Seq<K>,
    cursor: int,
    levels: int,
    out: Seq<SinkEvent<K>>,
) -> Enters<K>
    decreases kinds.len(),
{
    if kinds.len() == 0 {
        Enters { out, cursor, levels }
    } else {
        let k = kinds.last();
        let rest = kinds.drop_last();
        if levels != 0 {
            emit_enters(
                tokens,
                rest,
                skip_trivia(tokens, cursor),
                levels + 1,
                out + trivia_out(tokens, cursor) + seq![SinkEvent::Enter(k)],
            )
        } else {
            emit_enters(tokens, rest, cursor, levels + 1, out.push(SinkEvent::Enter(k)))
        }
    }
}

/// Entering a group of kinds opens exactly one node per kind.
pub proof fn lemma_emit_enters_levels<K: Triviable>(
    tokens: Seq<TokView<K>>,
    kinds: Seq<K>,
    cursor: int,
    levels: int,
    out: Seq<SinkEvent<K>>,
)
    ensures
        emit_enters(tokens, kinds, cursor, levels, out).levels == levels + kinds.len(),
    decreases kinds.len(),
{
    if kinds.len() > 0 {
        let rest = kinds.drop_last();
        if levels != 0 {
            lemma_emit_enters_levels(
                tokens,
                rest,
                skip_trivia(tokens, cursor),
                levels + 1,
                out + trivia_out(tokens, cursor) + seq![SinkEvent::Enter(kinds.last())],
            );
        } else {
            lemma_emit_enters_levels(
                tokens,
                rest,
                cursor,
                levels + 1,
                out.push(SinkEvent::Enter(kinds.last())),
            );
        }
    }
}

/// On a log whose replay is defined, the count of open nodes never exceeds
/// the number of remaining slots: every open node still owes an `Exit`.
pub proof fn lemma_replay_ok_levels<K: Triviable>(
    tokens: Seq<TokView<K>>,
    events: Seq<Option<Ev<K>>>,
    i: int,
    cursor: int,
    levels: int,
)
    requires
        0 <= i <= events.len(),
        replay_from(tokens, events, i, cursor, levels).ok,
    ensures
        levels <= events.len() - i,
    decreases events.len() - i,
{
    if i < events.len() {
        let events1 = events.update(i, None);
        match events[i] {
            None => {
                lemma_replay_ok_levels(tokens, events1, i + 1, cursor, levels);
            }
            Some(Ev::Enter(k, fp)) => {
                let w = match fp {
                    None => Walk { ok: true, kinds: seq![k], visited: Set::empty() },
                    Some(q) => walk(events1, q, seq![k], Set::empty()),
                };
                let events2 = clear(events1, w.visited);
                let e = emit_enters(tokens, w.kinds, cursor, levels, Seq::empty());
                lemma_emit_enters_levels(tokens, w.kinds, cursor, levels, Seq::empty());
                lemma_replay_ok_levels(tokens, events2, i + 1, e.cursor, e.levels);
            }
            Some(Ev::Token) => {
                let c = skip_trivia(tokens, cursor);
                lemma_replay_ok_levels(tokens, events1, i + 1, c + 1, levels);
            }
            Some(Ev::Exit) => {
                if levels == 2 {
                    lemma_replay_ok_levels(
                        tokens,
                        events1,
                        i + 1,
                        skip_trivia(tokens, cursor),
                        1,
                    );
                } else {
                    lemma_replay_ok_levels(tokens, events1, i + 1, cursor, levels - 1);
                }
            }
            Some(Ev::Error(expected, msg)) => {
                lemma_replay_ok_levels(tokens, events1, i + 1, cursor, levels);
            }
        }
    }
}

/// The outcome of replaying an event log.
pub ghost struct Replay<K> {
    /// Whether the replay is defined: false exactly where the replay of a
    /// malformed log would be a programmer error.
    pub ok: bool,
    /// The sink calls made, oldest first.
    pub out: Seq<SinkEvent<K>>,
    /// The log afterwards: every processed slot emptied.
    pub events: Seq<Option<Ev<K>>>,
    /// The token cursor afterwards.
    pub cursor: int,
    /// The count of open nodes afterwards.
    pub levels: int,
}

/// Replays the events from slot `i` on, with the given cursor and count of
/// open nodes. Each slot is emptied as it is processed; an `Enter` first
/// has its forward-parent chain walked and emptied, then the collected
/// kinds are entered outermost first. An `Exit` that brings the count of
/// open nodes back to one flushes the pending trivia, which keeps trivia
/// between top-level items outside of them.
pub open spec fn replay_from<K: Triviable>(
    tokens: Seq<TokView<K>>,
    events: Seq<Option<Ev<K>>>,
    i: int,
    cursor: int,
    levels: int,
) -> Replay<K>
    decreases events.len() - i,
{
    if !(0 <= i < events.len()) {
        Replay { ok: i == events.len() && levels == 0, out: Seq::empty(), events, cursor, levels }
    } else {
        let ev = events[i];
        let events1 = events.update(i, None);
        match ev {
            None => replay_from(tokens, events1, i + 1, cursor, levels),
            Some(Ev::Enter(k, fp)) => {
                let w = match fp {
                    None => Walk { ok: true, kinds: seq![k], visited: Set::empty() },
                    Some(q) => walk(events1, q, seq![k], Set::empty()),
                };
                let events2 = clear(events1, w.visited);
                if !w.ok {
                    Replay { ok: false, out: Seq::empty(), events: events2, cursor, levels }
                } else {
                    let e = emit_enters(tokens, w.kinds, cursor, levels, Seq::empty());
                    let r = replay_from(tokens, events2, i + 1, e.cursor, e.levels);
                    Replay { ok: r.ok, out: e.out + r.out, events: r.events, cursor: r.cursor, levels: r.levels }
                }
            }
            Some(Ev::Token) => {
                let c = skip_trivia(tokens, cursor);
                if c < tokens.len() {
                    let r = replay_from(tokens, events1, i + 1, c + 1, levels);
                    Replay {
                        ok: r.ok,
                        out: trivia_out(tokens, cursor) + seq![SinkEvent::Token(tokens[c])] + r.out,
                        events: r.events,
                        cursor: r.cursor,
                        levels: r.levels,
                    }
                } else {
                    Replay { ok: false, out: Seq::empty(), events: events1, cursor, levels }
                }
            }
            Some(Ev::Exit) => {
                if levels >= 1 {
                    if levels == 2 {
                        let r = replay_from(tokens, events1, i + 1, skip_trivia(tokens, cursor), 1);
                        Replay {
                            ok: r.ok,
                            out: seq![SinkEvent::Exit] + trivia_out(tokens, cursor) + r.out,
                            events: r.events,
                            cursor: r.cursor,
                            levels: r.levels,
                        }
                    } else {
                        let r = replay_from(tokens, events1, i + 1, cursor, levels - 1);
                        Replay {
                            ok: r.ok,
                            out: seq![SinkEvent::Exit] + r.out,
                            events: r.events,
                            cursor: r.cursor,
                            levels: r.levels,
                        }
                    }
                } else {
                    Replay { ok: false, out: Seq::empty(), events: events1, cursor, levels }
                }
            }
            Some(Ev::Error(expected, msg)) => {
                let r = replay_from(tokens, events1, i + 1, cursor, levels);
                Replay {
                    ok: r.ok,
                    out: seq![SinkEvent::Error(expected, msg)] + r.out,
                    events: r.events,
                    cursor: r.cursor,
                    levels: r.levels,
                }
            }
        }
    }
}

/// Replays a whole event log from the first token and the root level.
pub open spec fn replay<K: Triviable>(
    tokens: Seq<TokView<K>>,
    events: Seq<Option<Ev<K>>>,
) -> Replay<K> {
    replay_from(tokens, events, 0, 0, 0)
}

} // verus!
