//! The event-based parser: a token cursor, an event log, and the set of
//! kinds expected since the last accepted token.

use vstd::prelude::*;
use vstd::std_specs::cmp::PartialEqSpec;
use crate::event::Ev;
use crate::event::Event;
use crate::event::fp_view;
use crate::event::log_view;
use crate::event::slot_view;
use crate::event::msg_view;
use crate::replay::clear;
use crate::replay::emit_enters;
use crate::replay::lemma_emit_enters_levels;
use crate::replay::lemma_replay_ok_levels;
use crate::replay::lemma_skip_trivia_bounds;
use crate::replay::nth_pos;
use crate::replay::replay;
use crate::replay::replay_from;
use crate::replay::skip_trivia;
use crate::replay::trivia_out;
use crate::replay::walk;
use crate::replay::Replay;
use crate::replay::Walk;
use crate::sink::Sink;
use crate::sink::SinkEvent;
use crate::token::TokView;
use crate::token::Token;
use crate::token::Triviable;

verus! {

/// An event-based parser over a borrowed slice of tokens.
#[derive(Debug)]
pub struct Parser<'input, K> {
    tokens: &'input [Token<'input, K>],
    idx: usize,
    expected: Vec<K>,
    events: Vec<Option<Event<K>>>,
}

/// A marker for a syntax construct that is mid-parse. If this is not
/// consumed by [`Parser::exit`] or [`Parser::abandon`], it panics when
/// dropped.
#[derive(Debug)]
pub struct Entered {
    bomb: drop_bomb::DropBomb,
    idx: usize,
}

/// A marker for a syntax construct that has been fully parsed.
#[derive(Debug)]
pub struct Exited {
    idx: usize,
}

/// The saved state of the parser: cursor, log length, and expected kinds.
#[derive(Debug)]
pub struct Save<K> {
    idx: usize,
    events_len: usize,
    expected: Vec<K>,
}

#[verifier::external_type_specification]
#[verifier::external_body]
pub struct ExDropBomb(drop_bomb::DropBomb);

/// Relies on `drop_bomb::DropBomb::new`: returns an armed bomb, a value
/// whose destructor panics with the given message unless `defuse` was
/// called on it first.
#[verifier::external_body]
fn new_bomb(msg: &'static str) -> drop_bomb::DropBomb {
    drop_bomb::DropBomb::new(msg)
}

/// Relies on `drop_bomb::DropBomb::defuse`: disarms the bomb, so that
/// dropping it afterwards does nothing.
pub assume_specification[ drop_bomb::DropBomb::defuse ](bomb: &mut drop_bomb::DropBomb);

impl Entered {
    /// The event-log slot this marker reserved.
    pub closed spec fn index(&self) -> int {
        self.idx as int
    }
}

impl Exited {
    /// The event-log slot holding this construct's `Enter`.
    pub closed spec fn index(&self) -> int {
        self.idx as int
    }
}

impl<K> Save<K> {
    /// The saved token cursor.
    pub closed spec fn cursor(&self) -> int {
        self.idx as int
    }

    /// The saved event-log length.
    pub closed spec fn events_len(&self) -> int {
        self.events_len as int
    }

    /// The saved expected kinds.
    pub closed spec fn expected(&self) -> Seq<K> {
        self.expected@
    }
}

impl<'input, K: Copy> Parser<'input, K> {
    /// The views of the input tokens.
    pub closed spec fn toks(&self) -> Seq<TokView<K>> {
        Seq::new(self.tokens@.len(), |i: int| self.tokens@[i]@)
    }

    /// The token cursor.
    pub closed spec fn cursor(&self) -> int {
        self.idx as int
    }

    /// The kinds expected since the last accepted token.
    pub closed spec fn expected(&self) -> Seq<K> {
        self.expected@
    }

    /// The event log recorded so far.
    pub closed spec fn log(&self) -> Seq<Option<Ev<K>>> {
        log_view(self.events@)
    }

    /// Returns a new parser for the given tokens.
    pub fn new(tokens: &'input [Token<'input, K>]) -> (p: Self)
        ensures
            p.toks() == Seq::new(tokens@.len(), |i: int| tokens@[i]@),
            p.cursor() == 0,
            p.expected() == Seq::<K>::empty(),
            p.log() == Seq::<Option<Ev<K>>>::empty(),
    {
        let p = Self { tokens, idx: 0, expected: Vec::new(), events: Vec::new() };
        proof {
            assert(p.log() =~= Seq::<Option<Ev<K>>>::empty());
        }
        p
    }

    /// Starts parsing a syntax construct, reserving one empty slot of the
    /// event log.
    ///
    /// The returned [`Entered`] must eventually be passed to
    /// [`Self::exit`] or [`Self::abandon`]. If it is not, it panics when
    /// dropped.
    pub fn enter(&mut self) -> (ent: Entered)
        ensures
            final(self).log() == old(self).log().push(None::<Ev<K>>),
            ent.index() == old(self).log().len(),
            final(self).toks() == old(self).toks(),
            final(self).cursor() == old(self).cursor(),
            final(self).expected() == old(self).expected(),
    {
        let idx = self.events.len();
        self.events.push(None);
        proof {
            assert(self.log() =~= old(self).log().push(None::<Ev<K>>));
        }
        Entered { bomb: new_bomb("Entered markers must be exited"), idx }
    }

    /// Abandons parsing a syntax construct: the reserved slot stays empty,
    /// so the events recorded since it was reserved belong to the parent.
    pub fn abandon(&mut self, entered: Entered)
        requires
            0 <= entered.index() < old(self).log().len(),
            old(self).log()[entered.index()] is None,
        ensures
            *final(self) == *old(self),
    {
        let mut entered = entered;
        entered.bomb.defuse();
    }

    /// Finishes parsing a syntax construct: writes its `Enter` into the
    /// reserved slot and appends the matching `Exit`.
    pub fn exit(&mut self, entered: Entered, kind: K) -> (ex: Exited)
        requires
            0 <= entered.index() < old(self).log().len(),
            old(self).log()[entered.index()] is None,
        ensures
            final(self).log() == old(self).log().update(
                entered.index(),
                Some(Ev::Enter(kind, None)),
            ).push(Some(Ev::Exit)),
            ex.index() == entered.index(),
            final(self).toks() == old(self).toks(),
            final(self).cursor() == old(self).cursor(),
            final(self).expected() == old(self).expected(),
    {
        let mut entered = entered;
        entered.bomb.defuse();
        self.events[entered.idx] = Some(Event::Enter(kind, None));
        self.events.push(Some(Event::Exit));
        proof {
            assert(self.log() =~= old(self).log().update(
                entered.index(),
                Some(Ev::Enter(kind, None)),
            ).push(Some(Ev::Exit)));
        }
        Exited { idx: entered.idx }
    }

    /// Starts parsing a syntax construct and makes it the parent of the
    /// given completed one, by writing the new slot's index as the
    /// completed `Enter`'s forward parent.
    pub fn precede(&mut self, exited: Exited) -> (ent: Entered)
        requires
            0 <= exited.index() < old(self).log().len(),
            old(self).log()[exited.index()] matches Some(Ev::Enter(_, fp)) && fp is None,
        ensures
            final(self).log() == old(self).log().push(None::<Ev<K>>).update(
                exited.index(),
                Some(Ev::Enter(
                    old(self).log()[exited.index()]->0->Enter_0,
                    Some(old(self).log().len() as int),
                )),
            ),
            ent.index() == old(self).log().len(),
            final(self).toks() == old(self).toks(),
            final(self).cursor() == old(self).cursor(),
            final(self).expected() == old(self).expected(),
    {
        let ret = self.enter();
        proof {
            assert(self.log().len() == self.events@.len());
            assert(self.log()[exited.index()] == old(self).log()[exited.index()]);
        }
        let prior = Option::take(&mut self.events[exited.idx]);
        match prior {
            Some(Event::Enter(kind, _)) => {
                self.events[exited.idx] = Some(Event::Enter(kind, Some(ret.idx)));
            }
            _ => {
                proof {
                    assert(false);
                }
            }
        }
        proof {
            assert(self.log() =~= old(self).log().push(None::<Ev<K>>).update(
                exited.index(),
                Some(Ev::Enter(
                    old(self).log()[exited.index()]->0->Enter_0,
                    Some(old(self).log().len() as int),
                )),
            ));
        }
        ret
    }

    /// Saves the state of the parser and clears the expected kinds.
    pub fn save(&mut self) -> (s: Save<K>)
        ensures
            s.cursor() == old(self).cursor(),
            s.events_len() == old(self).log().len(),
            s.expected() == old(self).expected(),
            final(self).expected() == Seq::<K>::empty(),
            final(self).toks() == old(self).toks(),
            final(self).cursor() == old(self).cursor(),
            final(self).log() == old(self).log(),
    {
        let mut expected: Vec<K> = Vec::new();
        core::mem::swap(&mut expected, &mut self.expected);
        Save { idx: self.idx, events_len: self.events.len(), expected }
    }

    /// Returns whether an `Error` event has been recorded since the save.
    pub fn error_since(&self, save: &Save<K>) -> (r: bool)
        ensures
            r == exists|i: int|
                save.events_len() <= i < self.log().len() && (#[trigger] self.log()[i]) matches Some(
                    Ev::Error(_, _),
                ),
    {
        let mut i: usize = save.events_len;
        while i < self.events.len()
            invariant
                save.events_len() <= i as int,
                forall|j: int|
                    save.events_len() <= j < i as int && j < self.log().len() ==> !((
                    #[trigger] self.log()[j]) matches Some(Ev::Error(_, _))),
            decreases self.events@.len() - i,
        {
            match &self.events[i] {
                Some(Event::Error(_, _)) => {
                    proof {
                        assert(self.log()[i as int] matches Some(Ev::Error(_, _)));
                    }
                    return true;
                }
                _ => {}
            }
            i = i + 1;
        }
        false
    }

    /// Restores the saved state: truncates the event log to the saved
    /// length and restores the cursor and the expected kinds.
    pub fn restore(&mut self, save: Save<K>)
        ensures
            final(self).cursor() == save.cursor(),
            final(self).expected() == save.expected(),
            final(self).log() == if save.events_len() <= old(self).log().len() {
                old(self).log().subrange(0, save.events_len())
            } else {
                old(self).log()
            },
            final(self).toks() == old(self).toks(),
    {
        self.idx = save.idx;
        self.events.truncate(save.events_len);
        self.expected = save.expected;
        proof {
            if save.events_len() <= old(self).log().len() {
                assert(self.log() =~= old(self).log().subrange(0, save.events_len()));
            } else {
                assert(self.log() =~= old(self).log());
            }
        }
    }
}

impl<'input, K: Copy + Triviable> Parser<'input, K> {
    /// Returns the current token — the first non-trivia token at or after
    /// the cursor — or `None` if the parser is out of tokens. Advances the
    /// cursor past the leading trivia.
    pub fn peek(&mut self) -> (r: Option<Token<'input, K>>)
        ensures
            final(self).cursor() == skip_trivia(old(self).toks(), old(self).cursor()),
            final(self).toks() == old(self).toks(),
            final(self).log() == old(self).log(),
            final(self).expected() == old(self).expected(),
            ({
                let c = skip_trivia(old(self).toks(), old(self).cursor());
                if c < old(self).toks().len() {
                    r matches Some(t) && t@ == old(self).toks()[c]
                } else {
                    r is None
                }
            }),
    {
        proof {
            lemma_skip_trivia_bounds(old(self).toks(), old(self).cursor());
        }
        while self.idx < self.tokens.len()
            invariant
                self.tokens == old(self).tokens,
                self.events == old(self).events,
                self.expected == old(self).expected,
                old(self).cursor() <= self.cursor(),
                skip_trivia(self.toks(), self.cursor()) == skip_trivia(
                    old(self).toks(),
                    old(self).cursor(),
                ),
            decreases self.toks().len() - self.cursor(),
        {
            let tok = self.tokens[self.idx];
            if tok.kind.is_trivia() {
                self.idx = self.idx + 1;
            } else {
                return Some(tok);
            }
        }
        None
    }

    /// Returns the token `n` non-trivia tokens in front of the current
    /// token, or `None` if there is no such token. Advances the cursor past
    /// the leading trivia and no further.
    pub fn peek_n(&mut self, n: usize) -> (r: Option<Token<'input, K>>)
        requires
            old(self).toks().len() + n <= usize::MAX,
            old(self).cursor() + n <= usize::MAX,
        ensures
            final(self).cursor() == skip_trivia(old(self).toks(), old(self).cursor()),
            final(self).toks() == old(self).toks(),
            final(self).log() == old(self).log(),
            final(self).expected() == old(self).expected(),
            ({
                let p = nth_pos(old(self).toks(), old(self).cursor(), n as nat);
                if p < old(self).toks().len() {
                    r matches Some(t) && t@ == old(self).toks()[p]
                } else {
                    r is None
                }
            }),
    {
        let ghost t = old(self).toks();
        let ghost c0 = old(self).cursor();
        let mut ret = self.peek();
        let idx = self.idx;
        let mut k: usize = 0;
        proof {
            lemma_skip_trivia_bounds(t, c0);
        }
        while k < n
            invariant
                self.toks() == old(self).toks(),
                self.log() == old(self).log(),
                self.expected() == old(self).expected(),
                t == self.toks(),
                k <= n,
                t.len() + n <= usize::MAX,
                c0 + n <= usize::MAX,
                self.cursor() == nth_pos(t, c0, k as nat),
                self.cursor() <= (if c0 > t.len() {
                    c0
                } else {
                    t.len() as int
                }) + k,
                ({
                    let p = nth_pos(t, c0, k as nat);
                    if p < t.len() {
                        ret matches Some(tok) && tok@ == t[p]
                    } else {
                        ret is None
                    }
                }),
            decreases n - k,
        {
            proof {
                lemma_skip_trivia_bounds(t, self.cursor() + 1);
            }
            self.idx = self.idx + 1;
            ret = self.peek();
            k = k + 1;
        }
        self.idx = idx;
        ret
    }

    /// Consumes and returns the current token, records a `Token` event,
    /// and clears the expected kinds. The caller must know that a current
    /// token exists; asking for one with none left is a programmer error.
    pub fn bump(&mut self) -> (r: Token<'input, K>)
        requires
            skip_trivia(old(self).toks(), old(self).cursor()) < old(self).toks().len(),
        ensures
            final(self).cursor() == skip_trivia(old(self).toks(), old(self).cursor()) + 1,
            final(self).toks() == old(self).toks(),
            final(self).log() == old(self).log().push(Some(Ev::Token)),
            final(self).expected() == Seq::<K>::empty(),
            r@ == old(self).toks()[skip_trivia(old(self).toks(), old(self).cursor())],
    {
        let tok = self.peek();
        let r = tok.unwrap();
        self.events.push(Some(Event::Token));
        let n = self.tokens.len();
        proof {
            assert(self.idx < n);
        }
        self.idx = self.idx + 1;
        self.expected.clear();
        proof {
            assert(self.log() =~= old(self).log().push(Some(Ev::Token)));
        }
        r
    }

    /// Records an error at the current token: the expected kinds are moved
    /// into an `Error` event, and one token is consumed if any remains, so
    /// that grammar loops that call this make forward progress.
    pub fn error(&mut self)
        ensures
            final(self).toks() == old(self).toks(),
            final(self).expected() == Seq::<K>::empty(),
            ({
                let c = skip_trivia(old(self).toks(), old(self).cursor());
                let err = Some(Ev::Error(old(self).expected(), None::<Seq<char>>));
                if c < old(self).toks().len() {
                    final(self).cursor() == c + 1 && final(self).log() == old(self).log().push(
                        Some(Ev::Token),
                    ).push(err)
                } else {
                    final(self).cursor() == c && final(self).log() == old(self).log().push(err)
                }
            }),
    {
        self._error(None)
    }

    /// Records an error with a custom message at the current token.
    pub fn error_with(&mut self, message: String)
        ensures
            final(self).toks() == old(self).toks(),
            final(self).expected() == Seq::<K>::empty(),
            ({
                let c = skip_trivia(old(self).toks(), old(self).cursor());
                let err = Some(Ev::Error(old(self).expected(), Some(message@)));
                if c < old(self).toks().len() {
                    final(self).cursor() == c + 1 && final(self).log() == old(self).log().push(
                        Some(Ev::Token),
                    ).push(err)
                } else {
                    final(self).cursor() == c && final(self).log() == old(self).log().push(err)
                }
            }),
    {
        self._error(Some(message))
    }

    fn _error(&mut self, message: Option<String>)
        ensures
            final(self).toks() == old(self).toks(),
            final(self).expected() == Seq::<K>::empty(),
            ({
                let c = skip_trivia(old(self).toks(), old(self).cursor());
                let err = Some(Ev::Error(old(self).expected(), msg_view(message)));
                if c < old(self).toks().len() {
                    final(self).cursor() == c + 1 && final(self).log() == old(self).log().push(
                        Some(Ev::Token),
                    ).push(err)
                } else {
                    final(self).cursor() == c && final(self).log() == old(self).log().push(err)
                }
            }),
    {
        proof {
            lemma_skip_trivia_bounds(old(self).toks(), old(self).cursor());
        }
        let mut expected: Vec<K> = Vec::new();
        core::mem::swap(&mut expected, &mut self.expected);
        if self.peek().is_some() {
            let _ = self.bump();
        }
        self.events.push(Some(Event::Error(expected, message)));
        proof {
            let c = skip_trivia(old(self).toks(), old(self).cursor());
            let err = Some(Ev::Error(old(self).expected(), msg_view(message)));
            if c < old(self).toks().len() {
                assert(self.log() =~= old(self).log().push(Some(Ev::Token)).push(err));
            } else {
                assert(self.log() =~= old(self).log().push(err));
            }
        }
    }
}

impl<'input, K: Copy + Triviable> Parser<'input, K> {
    fn eat_trivia<S: Sink<K>>(&mut self, sink: &mut S)
        ensures
            final(self).cursor() == skip_trivia(old(self).toks(), old(self).cursor()),
            final(self).toks() == old(self).toks(),
            final(self).log() == old(self).log(),
            final(self).expected() == old(self).expected(),
            final(sink).log() == old(sink).log() + trivia_out(old(self).toks(), old(self).cursor()),
    {
        while self.idx < self.tokens.len()
            invariant
                self.toks() == old(self).toks(),
                self.log() == old(self).log(),
                self.expected() == old(self).expected(),
                old(self).cursor() <= self.cursor(),
                skip_trivia(self.toks(), self.cursor()) == skip_trivia(
                    old(self).toks(),
                    old(self).cursor(),
                ),
                old(sink).log() + trivia_out(old(self).toks(), old(self).cursor()) == sink.log()
                    + trivia_out(self.toks(), self.cursor()),
            decreases self.toks().len() - self.cursor(),
        {
            let tok = self.tokens[self.idx];
            if !tok.kind.is_trivia() {
                proof {
                    assert(sink.log() =~= old(sink).log() + trivia_out(
                        old(self).toks(),
                        old(self).cursor(),
                    ));
                }
                return ;
            }
            sink.token(tok);
            self.idx = self.idx + 1;
            proof {
                assert(old(sink).log() + trivia_out(old(self).toks(), old(self).cursor())
                    =~= sink.log() + trivia_out(self.toks(), self.cursor()));
            }
        }
        proof {
            assert(sink.log() =~= old(sink).log() + trivia_out(
                old(self).toks(),
                old(self).cursor(),
            ));
        }
    }

    /// Finishes parsing: replays the event log from the first token and
    /// writes the parsed tree into the `sink`.
    ///
    /// The log must be one whose replay is defined (see
    /// [`crate::replay::replay`]): a log left by a disciplined grammar run
    /// is, and replaying anything else is a programmer error.
    #[verifier::loop_isolation(false)]
    pub fn finish<S: Sink<K>>(self, sink: &mut S)
        requires
            replay(self.toks(), self.log()).ok,
        ensures
            final(sink).log() == old(sink).log() + replay(self.toks(), self.log()).out,
    {
        let mut this = self;
        let ghost t = this.toks();
        let ghost log0 = this.log();
        let ghost full = replay(t, log0);
        let ghost sink0 = sink.log();
        this.idx = 0;
        let ntoks = this.tokens.len();
        let mut levels: usize = 0;
        let mut i: usize = 0;
        let n = this.events.len();
        while i < n
            invariant
                n == this.events@.len(),
                this.toks() == t,
                t.len() == ntoks,
                i <= n,
                full == replay(t, log0),
                ({
                    let rem = replay_from(t, this.log(), i as int, this.cursor(), levels as int);
                    rem.ok && sink0 + full.out == sink.log() + rem.out
                }),
            decreases n - i,
        {
            let ghost log_head = this.log();
            let ghost cur_head = this.cursor();
            let ghost lev_head = levels as int;
            let ghost rem_head = replay_from(t, log_head, i as int, cur_head, lev_head);
            proof {
                lemma_replay_ok_levels(t, log_head, i as int, cur_head, lev_head);
            }
            let ev = Option::take(&mut this.events[i]);
            let ghost events1 = log_head.update(i as int, None);
            proof {
                assert(this.log() =~= events1);
            }
            match ev {
                None => {
                    proof {
                        assert(rem_head == replay_from(t, events1, i + 1, cur_head, lev_head));
                    }
                }
                Some(Event::Token) => {
                    this.eat_trivia(sink);
                    let ghost c1 = skip_trivia(t, cur_head);
                    proof {
                        lemma_skip_trivia_bounds(t, cur_head);
                        assert(c1 < t.len());
                    }
                    sink.token(this.tokens[this.idx]);
                    this.idx = this.idx + 1;
                    proof {
                        let r = replay_from(t, events1, i + 1, c1 + 1, lev_head);
                        assert(rem_head.out =~= trivia_out(t, cur_head) + seq![
                            SinkEvent::Token(t[c1]),
                        ] + r.out);
                        assert(sink0 + full.out =~= sink.log() + r.out);
                    }
                }
                Some(Event::Exit) => {
                    sink.exit();
                    proof {
                        assert(lev_head >= 1);
                    }
                    levels = levels - 1;
                    if levels == 1 {
                        this.eat_trivia(sink);
                        proof {
                            let r = replay_from(
                                t,
                                events1,
                                i + 1,
                                skip_trivia(t, cur_head),
                                1,
                            );
                            assert(rem_head.out =~= seq![SinkEvent::Exit] + trivia_out(
                                t,
                                cur_head,
                            ) + r.out);
                            assert(sink0 + full.out =~= sink.log() + r.out);
                        }
                    } else {
                        proof {
                            let r = replay_from(t, events1, i + 1, cur_head, lev_head - 1);
                            assert(rem_head.out =~= seq![SinkEvent::Exit] + r.out);
                            assert(sink0 + full.out =~= sink.log() + r.out);
                        }
                    }
                }
                Some(Event::Error(expected, message)) => {
                    let ghost exp = expected@;
                    let ghost msg = msg_view(message);
                    sink.error(expected, message);
                    proof {
                        let r = replay_from(t, events1, i + 1, cur_head, lev_head);
                        assert(rem_head.out =~= seq![SinkEvent::Error(exp, msg)] + r.out);
                        assert(sink0 + full.out =~= sink.log() + r.out);
                    }
                }
                Some(Event::Enter(kind, fp)) => {
                    let ghost w = (match fp {
                        None => Walk { ok: true, kinds: seq![kind], visited: Set::empty() },
                        Some(q) => walk(events1, q as int, seq![kind], Set::empty()),
                    });
                    proof {
                        assert(w.ok);
                    }
                    let mut kinds: Vec<K> = Vec::new();
                    kinds.push(kind);
                    let mut parent: Option<usize> = fp;
                    let ghost mut vis: Set<int> = Set::empty();
                    proof {
                        assert(this.log() =~= clear(events1, vis));
                    }
                    while parent.is_some()
                        invariant
                            n == this.events@.len(),
                            this.toks() == t,
                            this.cursor() == cur_head,
                            w.ok,
                            this.log() == clear(events1, vis),
                            kinds@.len() >= 1,
                            (match parent {
                                Some(p) => {
                                    &&& (p as int) < n
                                    &&& w == walk(events1, p as int, kinds@, vis)
                                    &&& forall|j: int| vis.contains(j) ==> j < p as int
                                }
                                None => kinds@ == w.kinds && vis == w.visited,
                            }),
                        decreases (match parent {
                            Some(p) => n - p,
                            None => 0,
                        }),
                    {
                        let p = parent.unwrap();
                        proof {
                            assert(!vis.contains(p as int));
                            assert(this.log()[p as int] == events1[p as int]);
                            assert(w == walk(events1, p as int, kinds@, vis));
                        }
                        let ghost log_pre = this.log();
                        let ev2 = Option::take(&mut this.events[p]);
                        proof {
                            assert(slot_view(ev2) == events1[p as int]);
                            vis = vis.insert(p as int);
                            assert forall|j: int| 0 <= j < n implies this.log()[j] == clear(
                                events1,
                                vis,
                            )[j] by {
                                assert(this.log()[j] == if j == p as int {
                                    None::<Ev<K>>
                                } else {
                                    log_pre[j]
                                });
                            };
                            assert(this.log() =~= clear(events1, vis));
                        }
                        match ev2 {
                            Some(Event::Enter(k2, np)) => {
                                kinds.push(k2);
                                parent = np;
                                proof {
                                    assert(events1[p as int] == Some(Ev::Enter(k2, fp_view(np))));
                                    if np is Some {
                                        assert((p as int) < fp_view(np)->0 < n);
                                        assert(w == walk(events1, fp_view(np)->0, kinds@, vis));
                                    } else {
                                        assert(kinds@ == w.kinds && vis == w.visited);
                                    }
                                }
                            }
                            _ => {
                                proof {
                                    assert(false);
                                }
                            }
                        }
                    }
                    let ghost e = emit_enters(t, w.kinds, cur_head, lev_head, Seq::empty());
                    let ghost events2 = clear(events1, w.visited);
                    let ghost r = replay_from(t, events2, i + 1, e.cursor, e.levels);
                    proof {
                        assert(rem_head == Replay::<K> {
                            ok: r.ok,
                            out: e.out + r.out,
                            events: r.events,
                            cursor: r.cursor,
                            levels: r.levels,
                        });
                        lemma_replay_ok_levels(t, events2, i + 1, e.cursor, e.levels);
                        lemma_emit_enters_levels(t, w.kinds, cur_head, lev_head, Seq::empty());
                    }
                    let ghost mut acc: Seq<SinkEvent<K>> = Seq::empty();
                    let ghost sink_pre = sink.log();
                    while kinds.len() > 0
                        invariant
                            n == this.events@.len(),
                            this.toks() == t,
                            t.len() == ntoks,
                            this.log() == events2,
                            sink.log() == sink_pre + acc,
                            e == emit_enters(t, kinds@, this.cursor(), levels as int, acc),
                            levels as int + kinds@.len() == e.levels,
                            e.levels <= n - i,
                        decreases kinds@.len(),
                    {
                        let ghost kinds_pre = kinds@;
                        let ghost c_pre = this.cursor();
                        let ghost l_pre = levels as int;
                        let ghost acc_pre = acc;
                        let k = kinds.pop().unwrap();
                        proof {
                            assert(kinds@ == kinds_pre.drop_last());
                            assert(k == kinds_pre.last());
                        }
                        if levels != 0 {
                            this.eat_trivia(sink);
                            proof {
                                acc = acc + trivia_out(t, c_pre) + seq![SinkEvent::Enter(k)];
                                assert(this.events@.len() == this.log().len());
                                assert(events2.len() == n as int);
                            }
                        } else {
                            proof {
                                acc = acc.push(SinkEvent::Enter(k));
                            }
                        }
                        sink.enter(k);
                        levels = levels + 1;
                        proof {
                            assert(sink.log() =~= sink_pre + acc);
                            if l_pre != 0 {
                                assert(acc =~= (acc_pre + trivia_out(t, c_pre)) + seq![
                                    SinkEvent::Enter(k),
                                ]);
                                assert(e == emit_enters(
                                    t,
                                    kinds@,
                                    this.cursor(),
                                    levels as int,
                                    acc_pre + trivia_out(t, c_pre) + seq![SinkEvent::Enter(k)],
                                ));
                            }
                            assert(e == emit_enters(t, kinds@, this.cursor(), levels as int, acc));
                        }
                    }
                    proof {
                        assert(acc == e.out);
                        assert(this.cursor() == e.cursor);
                        assert(levels as int == e.levels);
                        assert(sink0 + full.out =~= sink.log() + r.out);
                    }
                }
            }
            i = i + 1;
        }
        proof {
            let rem = replay_from(t, this.log(), n as int, this.cursor(), levels as int);
            assert(rem.out =~= Seq::<SinkEvent<K>>::empty());
            assert(sink.log() =~= sink0 + full.out);
        }
    }
}

impl<'input, K: Copy + Triviable + PartialEq + Eq> Parser<'input, K> {
    /// Returns whether the current token has the given `kind`, and records
    /// that `kind` was expected, to be reported if [`Self::error`] is
    /// called later.
    pub fn at(&mut self, kind: K) -> (r: bool)
        ensures
            final(self).toks() == old(self).toks(),
            final(self).log() == old(self).log(),
            final(self).expected() == old(self).expected().push(kind),
            final(self).cursor() == skip_trivia(old(self).toks(), old(self).cursor()),
            r ==> skip_trivia(old(self).toks(), old(self).cursor()) < old(self).toks().len(),
            K::obeys_eq_spec() ==> r == ({
                let c = skip_trivia(old(self).toks(), old(self).cursor());
                c < old(self).toks().len() && old(self).toks()[c].kind.eq_spec(&kind)
            }),
    {
        self.expected.push(kind);
        match self.peek() {
            Some(tok) => tok.kind == kind,
            None => false,
        }
    }

    /// If the current token's kind is `kind`, consumes it and returns it;
    /// else records an error and returns `None`.
    pub fn eat(&mut self, kind: K) -> (r: Option<Token<'input, K>>)
        ensures
            final(self).toks() == old(self).toks(),
            final(self).expected() == Seq::<K>::empty(),
            K::obeys_eq_spec() ==> ({
                let c = skip_trivia(old(self).toks(), old(self).cursor());
                if c < old(self).toks().len() && old(self).toks()[c].kind.eq_spec(&kind) {
                    &&& r matches Some(t) && t@ == old(self).toks()[c]
                    &&& final(self).cursor() == c + 1
                    &&& final(self).log() == old(self).log().push(Some(Ev::Token))
                } else {
                    let err = Some(Ev::Error(old(self).expected().push(kind), None::<Seq<char>>));
                    &&& r is None
                    &&& if c < old(self).toks().len() {
                        final(self).cursor() == c + 1 && final(self).log() == old(
                            self,
                        ).log().push(Some(Ev::Token)).push(err)
                    } else {
                        final(self).cursor() == c && final(self).log() == old(self).log().push(err)
                    }
                }
            }),
    {
        proof {
            lemma_skip_trivia_bounds(old(self).toks(), old(self).cursor());
        }
        if self.at(kind) {
            Some(self.bump())
        } else {
            self.error();
            None
        }
    }
}

} // verus!
