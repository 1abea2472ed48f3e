use event_parse::kinds::KindTable;
use event_parse::kinds::NodeEntry;
use event_parse::kinds::TokenEntry;
use event_parse::kinds::TokenKind;

fn entry(text: &str, kind: TokenKind, name: &str, desc: &str) -> TokenEntry {
    TokenEntry {
        text: text.as_bytes().to_vec(),
        kind,
        name: name.as_bytes().to_vec(),
        desc: desc.as_bytes().to_vec(),
    }
}

fn node(name: &str, alt: bool) -> NodeEntry {
    NodeEntry { name: name.as_bytes().to_vec(), alt }
}

fn sample_table() -> KindTable {
    let trivia = vec![b"Whitespace".to_vec(), b"Comment".to_vec()];
    let nodes = vec![node("Expr", false), node("Stmt", true), node("Call", false)];
    let tokens = vec![
        entry("=", TokenKind::Punctuation, "Assign", ""),
        entry("==", TokenKind::Punctuation, "EqEq", ""),
        entry("if", TokenKind::Keyword, "IfKw", ""),
        entry("in", TokenKind::Keyword, "InKw", ""),
        entry("fn", TokenKind::Keyword, "FnKw", ""),
        entry("else", TokenKind::Keyword, "ElseKw", ""),
        entry("<", TokenKind::Punctuation, "Lt", ""),
        entry("<=", TokenKind::Punctuation, "LtEq", ""),
        entry("Name", TokenKind::Special, "Name", "a name"),
        entry("IntLit", TokenKind::Special, "IntLit", "an integer literal"),
    ];
    KindTable::build(trivia, nodes, tokens)
}

#[test]
fn kind_order_is_deterministic() {
    let t = sample_table();
    assert_eq!(t.trivia, vec![b"Whitespace".to_vec(), b"Comment".to_vec()]);
    // Alternation nonterminals receive no kind.
    let node_names: Vec<&[u8]> = t.nodes.iter().map(|n| n.name.as_slice()).collect();
    assert_eq!(node_names, vec![b"Expr".as_slice(), b"Call".as_slice()]);
    // Keywords: longest first, ties by ascending bytes.
    let kw: Vec<&[u8]> = t.keywords.iter().map(|e| e.text.as_slice()).collect();
    assert_eq!(
        kw,
        vec![b"else".as_slice(), b"fn".as_slice(), b"if".as_slice(), b"in".as_slice()]
    );
    // Specials: ascending variant name.
    let sp: Vec<&[u8]> = t.specials.iter().map(|e| e.name.as_slice()).collect();
    assert_eq!(sp, vec![b"IntLit".as_slice(), b"Name".as_slice()]);
}

#[test]
fn punctuation_sorted_longest_first() {
    let t = sample_table();
    let punct: Vec<&[u8]> = t.punctuation.iter().map(|e| e.text.as_slice()).collect();
    assert_eq!(
        punct,
        vec![b"<=".as_slice(), b"==".as_slice(), b"<".as_slice(), b"=".as_slice()]
    );
    // Naive longest-prefix match over the table in order finds `==`, not `=`.
    let input = b"==";
    let hit = t
        .punctuation
        .iter()
        .find(|e| input.starts_with(&e.text))
        .expect("some entry matches");
    assert_eq!(hit.text, b"==".to_vec());
    assert_eq!(hit.name, b"EqEq".to_vec());
}

#[test]
fn kind_round_trip() {
    let t = sample_table();
    let total: u16 = (t.trivia.len() + t.nodes.len() + t.keywords.len() + t.punctuation.len()
        + t.specials.len()) as u16;
    assert_eq!(total, 14);
    let mut k: u16 = 0;
    while k < total {
        let raw = t.kind_to_raw(k);
        assert_eq!(t.kind_from_raw(raw), Some(k));
        k += 1;
    }
    assert_eq!(t.kind_from_raw(total), None);
}

#[test]
fn trivia_predicate_matches_trivia_set() {
    let t = sample_table();
    assert!(t.is_trivia(0));
    assert!(t.is_trivia(1));
    assert!(!t.is_trivia(2));
    assert!(!t.is_trivia(13));
}

#[test]
fn keyword_lookup() {
    let t = sample_table();
    // Keyword kinds start after trivia (2) and nodes (2); `else` is first.
    assert_eq!(t.keyword(b"else"), Some(4));
    assert_eq!(t.keyword(b"fn"), Some(5));
    assert_eq!(t.keyword(b"if"), Some(6));
    assert_eq!(t.keyword(b"in"), Some(7));
    assert_eq!(t.keyword(b"for"), None);
}

#[test]
fn token_descriptions() {
    let t = sample_table();
    // Keyword and punctuation labels are the text between backquotes.
    assert_eq!(t.token_desc(4), Some(b"`else`".to_vec()));
    assert_eq!(t.token_desc(8), Some(b"`<=`".to_vec()));
    // Specials report their description.
    assert_eq!(t.token_desc(12), Some(b"an integer literal".to_vec()));
    assert_eq!(t.token_desc(13), Some(b"a name".to_vec()));
    // Trivia and node kinds have none.
    assert_eq!(t.token_desc(0), None);
    assert_eq!(t.token_desc(2), None);
    assert_eq!(t.token_desc(14), None);
}
