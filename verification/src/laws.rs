//! The engine's laws: what holds of every replay of a well-formed event
//! log, proved once and for all over the replay semantics in
//! [`crate::replay`].

use vstd::prelude::*;
use crate::event::Ev;
use crate::parse::Parser;
use crate::parse::Save;
use crate::replay::emit_enters;
use crate::replay::clear;
use crate::replay::lemma_emit_enters_levels;
use crate::replay::lemma_skip_trivia_bounds;
use crate::replay::replay;
use crate::replay::replay_from;
use crate::replay::skip_trivia;
use crate::replay::trivia_out;
use crate::replay::walk;
use crate::replay::Walk;
use crate::sink::SinkEvent;
use crate::token::TokView;
use crate::token::Triviable;

verus! {

/// How many `enter` calls a call sequence holds.
pub open spec fn enter_count<K>(out: Seq<SinkEvent<K>>) -> nat
    decreases out.len(),
{
    if out.len() == 0 {
        0
    } else {
        (if out[0] is Enter {
            1nat
        } else {
            0
        }) + enter_count(out.drop_first())
    }
}

/// How many `exit` calls a call sequence holds.
pub open spec fn exit_count<K>(out: Seq<SinkEvent<K>>) -> nat
    decreases out.len(),
{
    if out.len() == 0 {
        0
    } else {
        (if out[0] is Exit {
            1nat
        } else {
            0
        }) + exit_count(out.drop_first())
    }
}

/// The tokens a call sequence delivers, in call order.
pub open spec fn sunk_tokens<K>(out: Seq<SinkEvent<K>>) -> Seq<TokView<K>>
    decreases out.len(),
{
    if out.len() == 0 {
        Seq::empty()
    } else {
        (match out[0] {
            SinkEvent::Token(tv) => seq![tv],
            _ => Seq::empty(),
        }) + sunk_tokens(out.drop_first())
    }
}

/// Well-nestedness of a call sequence starting with `d` nodes open: no
/// `exit` call ever arrives with no node open.
pub open spec fn depth_ok<K>(out: Seq<SinkEvent<K>>, d: int) -> bool
    decreases out.len(),
{
    if out.len() == 0 {
        true
    } else {
        match out[0] {
            SinkEvent::Enter(_) => depth_ok(out.drop_first(), d + 1),
            SinkEvent::Exit => d >= 1 && depth_ok(out.drop_first(), d - 1),
            _ => depth_ok(out.drop_first(), d),
        }
    }
}

/// Counting and token extraction distribute over concatenation.
pub proof fn lemma_stats_concat<K>(a: Seq<SinkEvent<K>>, b: Seq<SinkEvent<K>>)
    ensures
        enter_count(a + b) == enter_count(a) + enter_count(b),
        exit_count(a + b) == exit_count(a) + exit_count(b),
        sunk_tokens(a + b) == sunk_tokens(a) + sunk_tokens(b),
    decreases a.len(),
{
    if a.len() == 0 {
        assert(a + b =~= b);
        assert(sunk_tokens(a) + sunk_tokens(b) =~= sunk_tokens(b));
    } else {
        assert((a + b).drop_first() =~= a.drop_first() + b);
        assert((a + b)[0] == a[0]);
        lemma_stats_concat(a.drop_first(), b);
        assert(sunk_tokens(a + b) =~= sunk_tokens(a) + sunk_tokens(b));
    }
}

/// Well-nestedness splits at a concatenation: the second part starts at
/// the depth the first part reaches.
pub proof fn lemma_depth_concat<K>(a: Seq<SinkEvent<K>>, b: Seq<SinkEvent<K>>, d: int)
    ensures
        depth_ok(a + b, d) == (depth_ok(a, d) && depth_ok(
            b,
            d + enter_count(a) - exit_count(a),
        )),
    decreases a.len(),
{
    if a.len() == 0 {
        assert(a + b =~= b);
    } else {
        assert((a + b).drop_first() =~= a.drop_first() + b);
        assert((a + b)[0] == a[0]);
        match a[0] {
            SinkEvent::Enter(_) => {
                lemma_depth_concat(a.drop_first(), b, d + 1);
            }
            SinkEvent::Exit => {
                lemma_depth_concat(a.drop_first(), b, d - 1);
            }
            _ => {
                lemma_depth_concat(a.drop_first(), b, d);
            }
        }
    }
}

/// A call sequence without `exit` calls is well-nested at every depth.
pub proof fn lemma_depth_ok_no_exit<K>(a: Seq<SinkEvent<K>>, d: int)
    requires
        exit_count(a) == 0,
    ensures
        depth_ok(a, d),
    decreases a.len(),
{
    if a.len() > 0 {
        match a[0] {
            SinkEvent::Enter(_) => {
                lemma_depth_ok_no_exit(a.drop_first(), d + 1);
            }
            SinkEvent::Exit => {
                assert(false);
            }
            _ => {
                lemma_depth_ok_no_exit(a.drop_first(), d);
            }
        }
    }
}

/// What one call contributes to the counts, the delivered tokens and
/// well-nestedness.
pub proof fn lemma_single_stats<K>(x: SinkEvent<K>, d: int)
    ensures
        enter_count(seq![x]) == (if x is Enter {
            1nat
        } else {
            0
        }),
        exit_count(seq![x]) == (if x is Exit {
            1nat
        } else {
            0
        }),
        sunk_tokens(seq![x]) == (match x {
            SinkEvent::Token(tv) => seq![tv],
            _ => Seq::<TokView<K>>::empty(),
        }),
        depth_ok(seq![x], d) == (x is Exit ==> d >= 1),
{
    let s = seq![x];
    let e = Seq::<SinkEvent<K>>::empty();
    assert(s.drop_first() =~= e);
    assert(s[0] == x);
    assert(enter_count(e) == 0);
    assert(exit_count(e) == 0);
    assert(sunk_tokens(e) =~= Seq::<TokView<K>>::empty());
    assert(depth_ok(e, d + 1) && depth_ok(e, d - 1) && depth_ok(e, d));
    match x {
        SinkEvent::Token(tv) => {
            assert(sunk_tokens(s) =~= seq![tv]);
        }
        _ => {
            assert(sunk_tokens(s) =~= Seq::<TokView<K>>::empty());
        }
    }
}

/// A trivia run delivers exactly the trivia tokens it stands for, and
/// neither enters nor exits anything.
pub proof fn lemma_trivia_out_shape<K: Triviable>(t: Seq<TokView<K>>, c: int)
    requires
        0 <= c <= t.len(),
    ensures
        sunk_tokens(trivia_out(t, c)) == t.subrange(c, skip_trivia(t, c)),
        enter_count(trivia_out(t, c)) == 0,
        exit_count(trivia_out(t, c)) == 0,
    decreases t.len() - c,
{
    lemma_skip_trivia_bounds(t, c);
    if c < t.len() && t[c].kind.is_trivia_spec() {
        lemma_trivia_out_shape(t, c + 1);
        let head = seq![SinkEvent::Token::<K>(t[c])];
        assert(trivia_out(t, c) == head + trivia_out(t, c + 1));
        lemma_stats_concat(head, trivia_out(t, c + 1));
        lemma_single_stats(SinkEvent::Token::<K>(t[c]), 0);
        assert(sunk_tokens(trivia_out(t, c)) =~= t.subrange(c, skip_trivia(t, c)));
    } else {
        assert(trivia_out(t, c) == Seq::<SinkEvent<K>>::empty());
        assert(enter_count(Seq::<SinkEvent<K>>::empty()) == 0);
        assert(exit_count(Seq::<SinkEvent<K>>::empty()) == 0);
        assert(sunk_tokens(trivia_out(t, c)) =~= t.subrange(c, skip_trivia(t, c)));
    }
}

/// The calls that entering a group of kinds makes, and the cursor it
/// leaves: the outermost kind is entered first; before every enter except
/// one at the root the pending trivia is flushed.
pub open spec fn enters_out<K: Triviable>(
    t: Seq<TokView<K>>,
    kinds: Seq<K>,
    c: int,
    l: int,
) -> Seq<SinkEvent<K>>
    decreases kinds.len(),
{
    if kinds.len() == 0 {
        Seq::empty()
    } else {
        let k = kinds.last();
        let rest = kinds.drop_last();
        if l != 0 {
            trivia_out(t, c) + seq![SinkEvent::Enter(k)] + enters_out(
                t,
                rest,
                skip_trivia(t, c),
                l + 1,
            )
        } else {
            seq![SinkEvent::Enter(k)] + enters_out(t, rest, c, 1)
        }
    }
}

/// The cursor after entering a group of kinds.
pub open spec fn enters_cursor<K: Triviable>(
    t: Seq<TokView<K>>,
    kinds: Seq<K>,
    c: int,
    l: int,
) -> int
    decreases kinds.len(),
{
    if kinds.len() == 0 {
        c
    } else if l != 0 {
        enters_cursor(t, kinds.drop_last(), skip_trivia(t, c), l + 1)
    } else {
        enters_cursor(t, kinds.drop_last(), c, 1)
    }
}

/// Entering a group appends [`enters_out`] to whatever was accumulated,
/// and leaves the cursor at [`enters_cursor`].
pub proof fn lemma_emit_enters_out<K: Triviable>(
    t: Seq<TokView<K>>,
    kinds: Seq<K>,
    c: int,
    l: int,
    acc: Seq<SinkEvent<K>>,
)
    ensures
        emit_enters(t, kinds, c, l, acc).out == acc + enters_out(t, kinds, c, l),
        emit_enters(t, kinds, c, l, acc).cursor == enters_cursor(t, kinds, c, l),
    decreases kinds.len(),
{
    if kinds.len() == 0 {
        assert(acc + enters_out(t, kinds, c, l) =~= acc);
    } else {
        let k = kinds.last();
        let rest = kinds.drop_last();
        if l != 0 {
            let acc1 = acc + trivia_out(t, c) + seq![SinkEvent::Enter(k)];
            lemma_emit_enters_out(t, rest, skip_trivia(t, c), l + 1, acc1);
            assert(acc1 + enters_out(t, rest, skip_trivia(t, c), l + 1) =~= acc + enters_out(
                t,
                kinds,
                c,
                l,
            ));
        } else {
            let acc1 = acc.push(SinkEvent::Enter(k));
            lemma_emit_enters_out(t, rest, c, 1, acc1);
            assert(acc1 + enters_out(t, rest, c, 1) =~= acc + enters_out(t, kinds, c, l));
        }
    }
}

/// What entering a group of kinds emits: one enter call per kind and no
/// exit, delivering exactly the tokens the cursor advances over.
pub proof fn lemma_enters_out_shape<K: Triviable>(t: Seq<TokView<K>>, kinds: Seq<K>, c: int, l: int)
    requires
        0 <= c <= t.len(),
    ensures
        enter_count(enters_out(t, kinds, c, l)) == kinds.len(),
        exit_count(enters_out(t, kinds, c, l)) == 0,
        sunk_tokens(enters_out(t, kinds, c, l)) == t.subrange(c, enters_cursor(t, kinds, c, l)),
        c <= enters_cursor(t, kinds, c, l) <= t.len(),
    decreases kinds.len(),
{
    let x = enters_out(t, kinds, c, l);
    if kinds.len() == 0 {
        assert(enter_count(x) == 0);
        assert(exit_count(x) == 0);
        assert(sunk_tokens(x) =~= t.subrange(c, c));
    } else {
        let k = kinds.last();
        let rest = kinds.drop_last();
        let ek = seq![SinkEvent::Enter::<K>(k)];
        lemma_single_stats(SinkEvent::Enter::<K>(k), 0);
        lemma_skip_trivia_bounds(t, c);
        if l != 0 {
            let c1 = skip_trivia(t, c);
            lemma_enters_out_shape(t, rest, c1, l + 1);
            lemma_trivia_out_shape(t, c);
            lemma_stats_concat(trivia_out(t, c) + ek, enters_out(t, rest, c1, l + 1));
            lemma_stats_concat(trivia_out(t, c), ek);
            assert(sunk_tokens(x) =~= t.subrange(c, enters_cursor(t, kinds, c, l)));
        } else {
            lemma_enters_out_shape(t, rest, c, 1);
            lemma_stats_concat(ek, enters_out(t, rest, c, 1));
            assert(sunk_tokens(x) =~= t.subrange(c, enters_cursor(t, kinds, c, l)));
        }
    }
}

/// The shape of every defined replay: it closes every node it opens (`l`
/// more exits than enters, ending at depth zero), it is well-nested from
/// depth `l`, and it delivers exactly the tokens from the starting cursor
/// to the final cursor, in order.
pub proof fn lemma_replay_shape<K: Triviable>(
    t: Seq<TokView<K>>,
    ev: Seq<Option<Ev<K>>>,
    i: int,
    c: int,
    l: int,
)
    requires
        0 <= i <= ev.len(),
        0 <= c <= t.len(),
        0 <= l,
        replay_from(t, ev, i, c, l).ok,
    ensures
        ({
            let r = replay_from(t, ev, i, c, l);
            &&& r.levels == 0
            &&& exit_count(r.out) == enter_count(r.out) + l
            &&& depth_ok(r.out, l)
            &&& c <= r.cursor <= t.len()
            &&& sunk_tokens(r.out) == t.subrange(c, r.cursor)
        }),
    decreases ev.len() - i,
{
    let r = replay_from(t, ev, i, c, l);
    lemma_skip_trivia_bounds(t, c);
    if i == ev.len() {
        assert(sunk_tokens(r.out) =~= t.subrange(c, c));
    } else {
        let ev1 = ev.update(i, None);
        match ev[i] {
            None => {
                lemma_replay_shape(t, ev1, i + 1, c, l);
            }
            Some(Ev::Enter(k, fp)) => {
                let w = (match fp {
                    None => Walk { ok: true, kinds: seq![k], visited: Set::empty() },
                    Some(q) => walk(ev1, q, seq![k], Set::empty()),
                });
                let ev2 = clear(ev1, w.visited);
                let e = emit_enters(t, w.kinds, c, l, Seq::empty());
                lemma_emit_enters_out(t, w.kinds, c, l, Seq::<SinkEvent<K>>::empty());
                lemma_enters_out_shape(t, w.kinds, c, l);
                lemma_emit_enters_levels(t, w.kinds, c, l, Seq::<SinkEvent<K>>::empty());
                assert(e.out =~= enters_out(t, w.kinds, c, l));
                let r2 = replay_from(t, ev2, i + 1, e.cursor, e.levels);
                lemma_replay_shape(t, ev2, i + 1, e.cursor, e.levels);
                lemma_stats_concat(e.out, r2.out);
                lemma_depth_concat(e.out, r2.out, l);
                lemma_depth_ok_no_exit(e.out, l);
                assert(sunk_tokens(r.out) =~= t.subrange(c, r.cursor));
            }
            Some(Ev::Token) => {
                let c1 = skip_trivia(t, c);
                let r2 = replay_from(t, ev1, i + 1, c1 + 1, l);
                lemma_replay_shape(t, ev1, i + 1, c1 + 1, l);
                lemma_trivia_out_shape(t, c);
                let head = trivia_out(t, c) + seq![SinkEvent::Token(t[c1])];
                lemma_stats_concat(head, r2.out);
                lemma_stats_concat(trivia_out(t, c), seq![SinkEvent::Token(t[c1])]);
                lemma_single_stats(SinkEvent::Token::<K>(t[c1]), 0);
                lemma_depth_concat(head, r2.out, l);
                lemma_depth_ok_no_exit(head, l);
                assert(sunk_tokens(r.out) =~= t.subrange(c, r.cursor));
            }
            Some(Ev::Exit) => {
                let head = seq![SinkEvent::Exit::<K>];
                lemma_single_stats(SinkEvent::Exit::<K>, l);
                if l == 2 {
                    let c1 = skip_trivia(t, c);
                    let r2 = replay_from(t, ev1, i + 1, c1, 1);
                    lemma_replay_shape(t, ev1, i + 1, c1, 1);
                    lemma_trivia_out_shape(t, c);
                    let head2 = head + trivia_out(t, c);
                    lemma_stats_concat(head2, r2.out);
                    lemma_stats_concat(head, trivia_out(t, c));
                    lemma_depth_concat(head2, r2.out, l);
                    lemma_depth_concat(head, trivia_out(t, c), l);
                    lemma_depth_ok_no_exit(trivia_out(t, c), l - 1);
                    assert(sunk_tokens(r.out) =~= t.subrange(c, r.cursor));
                } else {
                    let r2 = replay_from(t, ev1, i + 1, c, l - 1);
                    lemma_replay_shape(t, ev1, i + 1, c, l - 1);
                    lemma_stats_concat(head, r2.out);
                    lemma_depth_concat(head, r2.out, l);
                    assert(sunk_tokens(r.out) =~= t.subrange(c, r.cursor));
                }
            }
            Some(Ev::Error(expected, msg)) => {
                let head = seq![SinkEvent::Error::<K>(expected, msg)];
                lemma_single_stats(SinkEvent::Error::<K>(expected, msg), l);
                let r2 = replay_from(t, ev1, i + 1, c, l);
                lemma_replay_shape(t, ev1, i + 1, c, l);
                lemma_stats_concat(head, r2.out);
                lemma_depth_concat(head, r2.out, l);
                assert(sunk_tokens(r.out) =~= t.subrange(c, r.cursor));
            }
        }
    }
}

/// Law (balanced emission): replaying a defined event log makes as many
/// `enter` calls as `exit` calls, and never an `exit` with no node open.
pub proof fn lemma_balanced_emission<K: Triviable>(t: Seq<TokView<K>>, ev: Seq<Option<Ev<K>>>)
    requires
        replay(t, ev).ok,
    ensures
        enter_count(replay(t, ev).out) == exit_count(replay(t, ev).out),
        depth_ok(replay(t, ev).out, 0),
{
    lemma_replay_shape(t, ev, 0, 0, 0);
}

/// Law (token conservation): the tokens a defined replay delivers are
/// exactly the input tokens up to the final cursor, in input order —
/// none dropped, duplicated or reordered within that prefix. A grammar
/// that wraps its items in a root node consumes the whole input, and the
/// prefix is then the entire token sequence.
pub proof fn lemma_token_conservation<K: Triviable>(t: Seq<TokView<K>>, ev: Seq<Option<Ev<K>>>)
    requires
        replay(t, ev).ok,
    ensures
        sunk_tokens(replay(t, ev).out) == t.subrange(0, replay(t, ev).cursor),
        0 <= replay(t, ev).cursor <= t.len(),
{
    lemma_replay_shape(t, ev, 0, 0, 0);
}

/// Law (token conservation, complete runs): when the replay consumes the
/// whole input — as it does for a grammar that wraps its items in a root
/// node, whose closing exit flushes the trailing trivia — the sink
/// receives exactly the input token sequence, in order.
pub proof fn lemma_token_conservation_complete<K: Triviable>(
    t: Seq<TokView<K>>,
    ev: Seq<Option<Ev<K>>>,
)
    requires
        replay(t, ev).ok,
        replay(t, ev).cursor == t.len(),
    ensures
        sunk_tokens(replay(t, ev).out) == t,
{
    lemma_token_conservation(t, ev);
    assert(t.subrange(0, t.len() as int) =~= t);
}

/// Law (top-level trivia lift): when an exit brings the replay back to a
/// single open node — the end of a direct child of the root — the pending
/// trivia is delivered right then, while only the root is open, before
/// any further event is replayed: trivia between two top-level items
/// stays outside of both.
pub proof fn lemma_top_level_trivia_lift<K: Triviable>(
    t: Seq<TokView<K>>,
    ev: Seq<Option<Ev<K>>>,
    i: int,
    c: int,
)
    requires
        0 <= i < ev.len(),
        0 <= c <= t.len(),
        ev[i] == Some(Ev::Exit::<K>),
        replay_from(t, ev, i, c, 2).ok,
    ensures
        replay_from(t, ev, i, c, 2).out == seq![SinkEvent::Exit] + trivia_out(t, c)
            + replay_from(t, ev.update(i, None), i + 1, skip_trivia(t, c), 1).out,
{
}

/// Law (precede correctness): at an `Enter` whose forward parent refers
/// to a later `Enter` of kind `b` with no further parent, the replay
/// enters `b` first and the completed kind `a` directly after it — only
/// the pending trivia stands between the two enter calls, so the
/// preceding node becomes the parent and the completed node its first
/// child.
pub proof fn lemma_precede_parent_first<K: Triviable>(
    t: Seq<TokView<K>>,
    ev: Seq<Option<Ev<K>>>,
    i: int,
    c: int,
    l: int,
    q: int,
)
    requires
        0 <= i < ev.len(),
        0 <= c <= t.len(),
        0 <= l,
        ev[i] matches Some(Ev::Enter(_, fp)) && fp == Some(q),
        i < q < ev.len(),
        ev[q] matches Some(Ev::Enter(_, fpq)) && fpq is None,
        replay_from(t, ev, i, c, l).ok,
    ensures
        ({
            let a = ev[i]->0->Enter_0;
            let b = ev[q]->0->Enter_0;
            let out = replay_from(t, ev, i, c, l).out;
            let tr = trivia_out(t, c);
            if l != 0 {
                out.len() >= tr.len() + 2 && out.take(tr.len() as int + 2) == tr + seq![
                    SinkEvent::Enter(b),
                    SinkEvent::Enter(a),
                ]
            } else {
                out.len() >= tr.len() + 2 && out.take(tr.len() as int + 2) == seq![
                    SinkEvent::Enter(b),
                ] + tr + seq![SinkEvent::Enter(a)]
            }
        }),
{
    let a = ev[i]->0->Enter_0;
    let b = ev[q]->0->Enter_0;
    let ev1 = ev.update(i, None);
    let w = walk(ev1, q, seq![a], Set::empty());
    assert(ev1[q] == ev[q]);
    assert(w.kinds =~= seq![a, b]);
    let e = emit_enters(t, w.kinds, c, l, Seq::<SinkEvent<K>>::empty());
    lemma_emit_enters_out(t, w.kinds, c, l, Seq::<SinkEvent<K>>::empty());
    lemma_skip_trivia_bounds(t, c);
    let c1 = skip_trivia(t, c);
    assert(trivia_out(t, c1) =~= Seq::<SinkEvent<K>>::empty());
    assert(w.kinds.drop_last() =~= seq![a]);
    assert(w.kinds.last() == b);
    assert(seq![a].drop_last() =~= Seq::<K>::empty());
    assert(seq![a].last() == a);
    assert(enters_out(t, Seq::<K>::empty(), skip_trivia(t, c1), l + 2) == Seq::<
        SinkEvent<K>,
    >::empty());
    assert(enters_out(t, Seq::<K>::empty(), skip_trivia(t, c), 2) == Seq::<SinkEvent<K>>::empty());
    if l != 0 {
        assert(enters_out(t, seq![a], c1, l + 1) =~= seq![SinkEvent::Enter::<K>(a)]);
        assert(e.out =~= trivia_out(t, c) + seq![SinkEvent::Enter(b), SinkEvent::Enter(a)]);
    } else {
        assert(enters_out(t, seq![a], c, 1) =~= trivia_out(t, c) + seq![SinkEvent::Enter::<K>(a)]);
        assert(e.out =~= seq![SinkEvent::Enter(b)] + trivia_out(t, c) + seq![SinkEvent::Enter(a)]);
    }
    let r = replay_from(t, ev, i, c, l);
    assert(r.out.take(e.out.len() as int) =~= e.out);
}

/// Law (checkpoint idempotence): a `restore` of a just-taken `save` is a
/// no-op on the observable state: the save's log length is the log's own
/// length, so truncation keeps the log whole, and the saved cursor and
/// expected kinds go back in place.
pub proof fn lemma_checkpoint_idempotent<'a, K: Copy>(
    p0: Parser<'a, K>,
    p1: Parser<'a, K>,
    s: Save<K>,
    p2: Parser<'a, K>,
)
    requires
        s.cursor() == p0.cursor(),
        s.events_len() == p0.log().len(),
        s.expected() == p0.expected(),
        p1.toks() == p0.toks(),
        p1.cursor() == p0.cursor(),
        p1.log() == p0.log(),
        p2.toks() == p1.toks(),
        p2.cursor() == s.cursor(),
        p2.expected() == s.expected(),
        p2.log() == if s.events_len() <= p1.log().len() {
            p1.log().subrange(0, s.events_len())
        } else {
            p1.log()
        },
    ensures
        p2.toks() == p0.toks(),
        p2.cursor() == p0.cursor(),
        p2.log() == p0.log(),
        p2.expected() == p0.expected(),
{
    assert(p0.log().subrange(0, p0.log().len() as int) =~= p0.log());
}

} // verus!

