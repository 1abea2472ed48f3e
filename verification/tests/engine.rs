use event_parse::event::Event;
use event_parse::parse::Parser;
use event_parse::record::RawKind;
use event_parse::record::RecordSink;
use event_parse::record::SinkCall;
use event_parse::token::Token;

fn kind(code: u16) -> RawKind {
    RawKind { code, trivia: false }
}

fn trivia_kind(code: u16) -> RawKind {
    RawKind { code, trivia: true }
}

fn tok(kind: RawKind, text: &str) -> Token<'_, RawKind> {
    Token { kind, text }
}

#[test]
fn event_size() {
    let ev = std::mem::size_of::<Event<()>>();
    let op_ev = std::mem::size_of::<Option<Event<()>>>();
    assert_eq!(ev, op_ev)
}

#[test]
fn literal() {
    let tokens = vec![tok(kind(1), "1")];
    let mut p = Parser::new(&tokens);
    let ent = p.enter();
    p.bump();
    p.exit(ent, kind(10));
    let mut sink: RecordSink<RawKind> = RecordSink::new();
    p.finish(&mut sink);
    assert_eq!(
        sink.calls,
        vec![
            SinkCall::Enter(kind(10)),
            SinkCall::Token(kind(1), "1".to_string()),
            SinkCall::Exit,
        ]
    );
}

#[test]
fn addition_with_precede() {
    let tokens = vec![
        tok(kind(1), "1"),
        tok(trivia_kind(0), " "),
        tok(kind(2), "+"),
        tok(trivia_kind(0), " "),
        tok(kind(1), "2"),
    ];
    let mut p = Parser::new(&tokens);
    let ent = p.enter();
    p.bump();
    let closed = p.exit(ent, kind(10));
    let outer = p.precede(closed);
    p.bump();
    let rhs = p.enter();
    p.bump();
    p.exit(rhs, kind(10));
    p.exit(outer, kind(11));
    let mut sink: RecordSink<RawKind> = RecordSink::new();
    p.finish(&mut sink);
    assert_eq!(
        sink.calls,
        vec![
            SinkCall::Enter(kind(11)),
            SinkCall::Enter(kind(10)),
            SinkCall::Token(kind(1), "1".to_string()),
            SinkCall::Exit,
            SinkCall::Token(trivia_kind(0), " ".to_string()),
            SinkCall::Token(kind(2), "+".to_string()),
            SinkCall::Token(trivia_kind(0), " ".to_string()),
            SinkCall::Enter(kind(10)),
            SinkCall::Token(kind(1), "2".to_string()),
            SinkCall::Exit,
            SinkCall::Exit,
        ]
    );
}

#[test]
fn speculation_with_rollback() {
    let tokens = vec![tok(kind(1), "1")];
    let mut p = Parser::new(&tokens);
    let save = p.save();
    let ent = p.enter();
    p.bump();
    p.error();
    p.abandon(ent);
    assert!(p.error_since(&save));
    p.restore(save);
    // The cursor is back at the first token and the event log is empty.
    let t = p.peek().expect("token after restore");
    assert_eq!(t.kind, kind(1));
    assert_eq!(t.text, "1");
    let mut sink: RecordSink<RawKind> = RecordSink::new();
    p.finish(&mut sink);
    assert_eq!(sink.calls, vec![]);
}

#[test]
fn error_expected_set() {
    let tokens = vec![tok(kind(1), "x"), tok(kind(1), "y")];
    let mut p = Parser::new(&tokens);
    assert!(!p.at(kind(20)));
    assert!(!p.at(kind(21)));
    p.error();
    assert!(!p.at(kind(22)));
    p.error();
    let mut sink: RecordSink<RawKind> = RecordSink::new();
    p.finish(&mut sink);
    assert_eq!(
        sink.calls,
        vec![
            SinkCall::Token(kind(1), "x".to_string()),
            SinkCall::Error(vec![kind(20), kind(21)], None),
            SinkCall::Token(kind(1), "y".to_string()),
            SinkCall::Error(vec![kind(22)], None),
        ]
    );
}

#[test]
fn error_with_message() {
    let tokens: Vec<Token<'_, RawKind>> = vec![];
    let mut p = Parser::new(&tokens);
    p.error_with("expected an expression".to_string());
    let mut sink: RecordSink<RawKind> = RecordSink::new();
    p.finish(&mut sink);
    assert_eq!(
        sink.calls,
        vec![SinkCall::Error(vec![], Some("expected an expression".to_string()))]
    );
}

#[test]
fn abandon_leaves_no_node() {
    let tokens = vec![tok(kind(1), "1")];
    let mut p = Parser::new(&tokens);
    let ent = p.enter();
    p.bump();
    p.abandon(ent);
    let mut sink: RecordSink<RawKind> = RecordSink::new();
    p.finish(&mut sink);
    assert_eq!(sink.calls, vec![SinkCall::Token(kind(1), "1".to_string())]);
}

#[test]
fn trailing_trivia_at_root() {
    let tokens = vec![tok(kind(1), "1"), tok(trivia_kind(0), " ")];
    let mut p = Parser::new(&tokens);
    let root = p.enter();
    let inner = p.enter();
    p.bump();
    p.exit(inner, kind(10));
    p.exit(root, kind(12));
    let mut sink: RecordSink<RawKind> = RecordSink::new();
    p.finish(&mut sink);
    assert_eq!(
        sink.calls,
        vec![
            SinkCall::Enter(kind(12)),
            SinkCall::Enter(kind(10)),
            SinkCall::Token(kind(1), "1".to_string()),
            SinkCall::Exit,
            SinkCall::Token(trivia_kind(0), " ".to_string()),
            SinkCall::Exit,
        ]
    );
}

#[test]
fn peek_skips_trivia() {
    let tokens = vec![tok(trivia_kind(0), " "), tok(trivia_kind(0), "\t"), tok(kind(1), "7")];
    let mut p = Parser::new(&tokens);
    let t = p.peek().expect("current token");
    assert_eq!(t.kind, kind(1));
    assert_eq!(t.text, "7");
}

#[test]
fn peek_n_counts_non_trivia() {
    let tokens = vec![
        tok(trivia_kind(0), " "),
        tok(kind(1), "1"),
        tok(trivia_kind(0), " "),
        tok(kind(2), "+"),
        tok(kind(1), "2"),
    ];
    let mut p = Parser::new(&tokens);
    let t0 = p.peek_n(0).expect("current");
    assert_eq!(t0.text, "1");
    let t1 = p.peek_n(1).expect("next");
    assert_eq!(t1.text, "+");
    let t2 = p.peek_n(2).expect("second next");
    assert_eq!(t2.text, "2");
    assert!(p.peek_n(3).is_none());
    // The cursor did not move past the current token.
    assert_eq!(p.peek().expect("still current").text, "1");
}

#[test]
fn eat_matches_and_errors() {
    let tokens = vec![tok(kind(1), "1"), tok(kind(2), "+")];
    let mut p = Parser::new(&tokens);
    let got = p.eat(kind(1)).expect("eat accepts the matching kind");
    assert_eq!(got.text, "1");
    assert!(p.eat(kind(1)).is_none());
    let mut sink: RecordSink<RawKind> = RecordSink::new();
    p.finish(&mut sink);
    assert_eq!(
        sink.calls,
        vec![
            SinkCall::Token(kind(1), "1".to_string()),
            SinkCall::Token(kind(2), "+".to_string()),
            SinkCall::Error(vec![kind(1)], None),
        ]
    );
}

#[test]
fn error_since_sees_only_errors() {
    let tokens = vec![tok(kind(1), "1"), tok(kind(1), "2")];
    let mut p = Parser::new(&tokens);
    let s1 = p.save();
    p.bump();
    assert!(!p.error_since(&s1));
    p.error();
    assert!(p.error_since(&s1));
    let s2 = p.save();
    assert!(!p.error_since(&s2));
}
