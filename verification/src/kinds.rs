//! The syntax-kind table core of the typed-tree generator.
//!
//! From a grammar's trivia, nonterminals and classified tokens this
//! computes the ordered kind table that a generated syntax crate lists:
//! trivia first, then one kind per sequence nonterminal in grammar order,
//! then keywords and punctuation each sorted longest first with ties by
//! ascending bytes, then special tokens sorted by variant name. The raw
//! integer of a kind is its position in that order.

use vstd::prelude::*;
use vstd::seq_lib::group_to_multiset_ensures;

verus! {

/// How a grammar token is classified.
#[derive(Debug, Clone, Copy, PartialEq, Eq, Structural)]
pub enum TokenKind {
    /// A word-like token: a kind and a keyword-table entry.
    Keyword,
    /// An operator-like token: a kind and a punctuation-table entry.
    Punctuation,
    /// Anything else (identifiers, literals): a kind and a description.
    Special,
}

/// One grammar token together with its classification.
#[derive(Debug)]
pub struct TokenEntry {
    /// The token's text as written in the grammar.
    pub text: Vec<u8>,
    /// Its classification.
    pub kind: TokenKind,
    /// The variant name it receives in the emitted kind enumeration.
    pub name: Vec<u8>,
    /// The human description, reported for special tokens.
    pub desc: Vec<u8>,
}

/// One grammar nonterminal: its name, and whether its rule is an
/// alternation. An alternation is a union of kinds and receives no kind
/// of its own.
#[derive(Debug)]
pub struct NodeEntry {
    /// The nonterminal's name.
    pub name: Vec<u8>,
    /// Whether its rule is an alternation.
    pub alt: bool,
}

/// The keyword tokens.
pub open spec fn kw_pred() -> spec_fn(TokenEntry) -> bool {
    |e: TokenEntry| e.kind is Keyword
}

/// The punctuation tokens.
pub open spec fn punct_pred() -> spec_fn(TokenEntry) -> bool {
    |e: TokenEntry| e.kind is Punctuation
}

/// The special tokens.
pub open spec fn special_pred() -> spec_fn(TokenEntry) -> bool {
    |e: TokenEntry| e.kind is Special
}

/// The nonterminals that receive a kind.
pub open spec fn node_pred() -> spec_fn(NodeEntry) -> bool {
    |n: NodeEntry| !n.alt
}

/// Strict lexicographic byte order.
pub open spec fn bytes_lt(a: Seq<u8>, b: Seq<u8>) -> bool
    decreases a.len(),
{
    if a.len() == 0 {
        b.len() > 0
    } else if b.len() == 0 {
        false
    } else if a[0] != b[0] {
        a[0] < b[0]
    } else {
        bytes_lt(a.drop_first(), b.drop_first())
    }
}

/// The keyword/punctuation table order: longer entries first, ties broken
/// by ascending bytes, so that a naive longest-match scan tries longer
/// entries before their prefixes.
pub open spec fn table_le(a: Seq<u8>, b: Seq<u8>) -> bool {
    a.len() > b.len() || (a.len() == b.len() && (a == b || bytes_lt(a, b)))
}

/// Plain ascending byte order, used for special tokens' variant names.
pub open spec fn name_le(a: Seq<u8>, b: Seq<u8>) -> bool {
    a == b || bytes_lt(a, b)
}

/// Byte order relates every pair of byte strings.
pub proof fn lemma_bytes_lt_total(a: Seq<u8>, b: Seq<u8>)
    ensures
        a == b || bytes_lt(a, b) || bytes_lt(b, a),
    decreases a.len(),
{
    if a.len() == 0 {
        if b.len() == 0 {
            assert(a =~= b);
        }
    } else if b.len() == 0 {
    } else if a[0] == b[0] {
        lemma_bytes_lt_total(a.drop_first(), b.drop_first());
        if a.drop_first() == b.drop_first() {
            assert(a.drop_first().len() == b.drop_first().len());
            assert(a.len() == b.len());
            assert forall|i: int| 0 <= i < a.len() implies a[i] == b[i] by {
                if i > 0 {
                    assert(a.drop_first()[i - 1] == b.drop_first()[i - 1]);
                }
            };
            assert(a =~= b);
        }
    }
}

/// Byte order is transitive.
pub proof fn lemma_bytes_lt_trans(a: Seq<u8>, b: Seq<u8>, c: Seq<u8>)
    requires
        bytes_lt(a, b),
        bytes_lt(b, c),
    ensures
        bytes_lt(a, c),
    decreases a.len(),
{
    if a.len() > 0 && b.len() > 0 && c.len() > 0 && a[0] == b[0] && b[0] == c[0] {
        lemma_bytes_lt_trans(a.drop_first(), b.drop_first(), c.drop_first());
    }
}

/// Byte order relates no pair both ways.
pub proof fn lemma_bytes_lt_asym(a: Seq<u8>, b: Seq<u8>)
    ensures
        !(bytes_lt(a, b) && bytes_lt(b, a)),
    decreases a.len(),
{
    if a.len() > 0 && b.len() > 0 && a[0] == b[0] {
        lemma_bytes_lt_asym(a.drop_first(), b.drop_first());
    }
}

fn bytes_lt_exec(a: &Vec<u8>, b: &Vec<u8>) -> (r: bool)
    ensures
        r == bytes_lt(a@, b@),
{
    let mut i: usize = 0;
    proof {
        assert(a@.skip(0) =~= a@);
        assert(b@.skip(0) =~= b@);
    }
    while i < a.len()
        invariant
            i <= a@.len(),
            i <= b@.len(),
            bytes_lt(a@, b@) == bytes_lt(a@.skip(i as int), b@.skip(i as int)),
        decreases a@.len() - i,
    {
        if i == b.len() {
            return false;
        }
        let x = a[i];
        let y = b[i];
        proof {
            assert(a@.skip(i as int)[0] == a@[i as int]);
            assert(b@.skip(i as int)[0] == b@[i as int]);
        }
        if x != y {
            return x < y;
        }
        proof {
            assert(a@.skip(i as int).drop_first() =~= a@.skip(i as int + 1));
            assert(b@.skip(i as int).drop_first() =~= b@.skip(i as int + 1));
        }
        i = i + 1;
    }
    proof {
        assert(a@.skip(i as int).len() == 0);
    }
    i < b.len()
}

/// Whether two byte strings hold the same bytes.
pub fn bytes_eq(a: &Vec<u8>, b: &[u8]) -> (r: bool)
    ensures
        r == (a@ == b@),
{
    if a.len() != b.len() {
        proof {
            assert(a@.len() != b@.len());
        }
        return false;
    }
    let mut i: usize = 0;
    while i < a.len()
        invariant
            i <= a@.len(),
            a@.len() == b@.len(),
            forall|j: int| 0 <= j < i ==> a@[j] == b@[j],
        decreases a@.len() - i,
    {
        if a[i] != b[i] {
            return false;
        }
        i = i + 1;
    }
    proof {
        assert(a@ =~= b@);
    }
    true
}

/// Which order a list of token entries is sorted in.
#[derive(Debug, Clone, Copy)]
pub enum SortMode {
    /// By [`table_le`] on the token's text.
    Table,
    /// By [`name_le`] on the token's variant name.
    Name,
}

/// The sort order on entries under the given mode.
pub open spec fn entry_le(mode: SortMode, a: TokenEntry, b: TokenEntry) -> bool {
    match mode {
        SortMode::Table => table_le(a.text@, b.text@),
        SortMode::Name => name_le(a.name@, b.name@),
    }
}

/// Whether the entries are sorted under the given mode.
pub open spec fn sorted_entries(mode: SortMode, s: Seq<TokenEntry>) -> bool {
    forall|i: int, j: int| 0 <= i < j < s.len() ==> entry_le(mode, s[i], s[j])
}

/// The entry order relates every pair of entries.
pub proof fn lemma_entry_le_total(mode: SortMode, a: TokenEntry, b: TokenEntry)
    ensures
        entry_le(mode, a, b) || entry_le(mode, b, a),
{
    match mode {
        SortMode::Table => {
            lemma_bytes_lt_total(a.text@, b.text@);
        }
        SortMode::Name => {
            lemma_bytes_lt_total(a.name@, b.name@);
        }
    }
}

/// The entry order is transitive.
pub proof fn lemma_entry_le_trans(mode: SortMode, a: TokenEntry, b: TokenEntry, c: TokenEntry)
    requires
        entry_le(mode, a, b),
        entry_le(mode, b, c),
    ensures
        entry_le(mode, a, c),
{
    match mode {
        SortMode::Table => {
            if a.text@.len() == b.text@.len() && b.text@.len() == c.text@.len() && a.text@
                != b.text@ && b.text@ != c.text@ {
                lemma_bytes_lt_trans(a.text@, b.text@, c.text@);
            }
        }
        SortMode::Name => {
            if a.name@ != b.name@ && b.name@ != c.name@ {
                lemma_bytes_lt_trans(a.name@, b.name@, c.name@);
            }
        }
    }
}

fn entry_le_exec(mode: SortMode, a: &TokenEntry, b: &TokenEntry) -> (r: bool)
    ensures
        r == entry_le(mode, *a, *b),
{
    match mode {
        SortMode::Table => {
            if a.text.len() != b.text.len() {
                a.text.len() > b.text.len()
            } else {
                proof {
                    lemma_bytes_lt_total(a.text@, b.text@);
                    lemma_bytes_lt_asym(b.text@, a.text@);
                }
                !bytes_lt_exec(&b.text, &a.text)
            }
        }
        SortMode::Name => {
            proof {
                lemma_bytes_lt_total(a.name@, b.name@);
                lemma_bytes_lt_asym(b.name@, a.name@);
            }
            !bytes_lt_exec(&b.name, &a.name)
        }
    }
}

/// Sorts token entries under the given mode by repeatedly moving a least
/// remaining entry: the result is sorted and holds exactly the given
/// entries.
pub fn sort_entries(mode: SortMode, v: Vec<TokenEntry>) -> (r: Vec<TokenEntry>)
    ensures
        sorted_entries(mode, r@),
        r@.to_multiset() == v@.to_multiset(),
{
    let mut src = v;
    let mut out: Vec<TokenEntry> = Vec::new();
    proof {
        broadcast use group_to_multiset_ensures;

        assert(out@.to_multiset().add(src@.to_multiset()) =~= v@.to_multiset());
    }
    while src.len() > 0
        invariant
            out@.to_multiset().add(src@.to_multiset()) == v@.to_multiset(),
            sorted_entries(mode, out@),
            forall|i: int, j: int|
                0 <= i < out@.len() && 0 <= j < src@.len() ==> entry_le(mode, out@[i], src@[j]),
        decreases src@.len(),
    {
        proof {
            broadcast use group_to_multiset_ensures;

        }
        let mut m: usize = 0;
        let mut j: usize = 1;
        while j < src.len()
            invariant
                (m as int) < src@.len(),
                j <= src@.len(),
                forall|k: int| 0 <= k < j ==> entry_le(mode, src@[m as int], src@[k]),
            decreases src@.len() - j,
        {
            if entry_le_exec(mode, &src[j], &src[m]) {
                proof {
                    assert forall|k: int| 0 <= k < j as int + 1 implies entry_le(
                        mode,
                        src@[j as int],
                        src@[k],
                    ) by {
                        lemma_entry_le_total(mode, src@[j as int], src@[j as int]);
                        if k < j as int {
                            lemma_entry_le_trans(
                                mode,
                                src@[j as int],
                                src@[m as int],
                                src@[k],
                            );
                        }
                    };
                }
                m = j;
            } else {
                proof {
                    lemma_entry_le_total(mode, src@[m as int], src@[j as int]);
                }
            }
            j = j + 1;
        }
        let ghost src_pre = src@;
        let ghost out_pre = out@;
        let e = src.remove(m);
        out.push(e);
        proof {
            assert(out@ == out_pre.push(e));
            assert(src@ == src_pre.remove(m as int));
            assert(out@.to_multiset().add(src@.to_multiset()) =~= v@.to_multiset());
        }
    }
    out
}

/// The names of the sequence nonterminals, in grammar order.
pub open spec fn node_kind_entries(nodes: Seq<NodeEntry>) -> Seq<NodeEntry> {
    nodes.filter(node_pred())
}

/// The computed kind table. The raw integer of a kind is its position in
/// the order: trivia, then sequence-nonterminal nodes, then keywords,
/// then punctuation, then specials.
#[derive(Debug)]
pub struct KindTable {
    /// The trivia kinds' variant names, in caller order.
    pub trivia: Vec<Vec<u8>>,
    /// The sequence nonterminals, in grammar order.
    pub nodes: Vec<NodeEntry>,
    /// The keyword tokens, sorted longest first, ties by ascending bytes.
    pub keywords: Vec<TokenEntry>,
    /// The punctuation tokens, sorted likewise.
    pub punctuation: Vec<TokenEntry>,
    /// The special tokens, sorted by ascending variant name.
    pub specials: Vec<TokenEntry>,
}

impl KindTable {
    /// The count of kinds.
    pub open spec fn total(&self) -> int {
        self.trivia@.len() as int + self.nodes@.len() + self.keywords@.len()
            + self.punctuation@.len() + self.specials@.len()
    }

    /// The raw integer of the first keyword kind.
    pub open spec fn kw_base(&self) -> int {
        self.trivia@.len() as int + self.nodes@.len()
    }

    /// The raw integer of the first punctuation kind.
    pub open spec fn punct_base(&self) -> int {
        self.kw_base() + self.keywords@.len()
    }

    /// The raw integer of the first special kind.
    pub open spec fn special_base(&self) -> int {
        self.punct_base() + self.punctuation@.len()
    }

    /// A table that fits the raw integer representation.
    pub open spec fn wf(&self) -> bool {
        self.total() <= u16::MAX + 1
    }

    /// Whether the raw kind is one of the trivia kinds: exactly the first
    /// kinds of the order are.
    pub fn is_trivia(&self, raw: u16) -> (r: bool)
        ensures
            r == ((raw as int) < self.trivia@.len()),
    {
        (raw as usize) < self.trivia.len()
    }

    /// The raw integer of a kind: its position in the table order.
    pub fn kind_to_raw(&self, kind: u16) -> (r: u16)
        requires
            kind < self.total(),
        ensures
            r == kind,
    {
        kind
    }

    /// The kind of a raw integer: the same position, if it denotes a kind
    /// at all. Together with [`Self::kind_to_raw`] this says that a kind
    /// round-trips through its raw representation.
    pub fn kind_from_raw(&self, raw: u16) -> (r: Option<u16>)
        requires
            self.wf(),
        ensures
            r == if (raw as int) < self.total() {
                Some(raw)
            } else {
                None::<u16>
            },
    {
        let total = self.trivia.len() + self.nodes.len() + self.keywords.len()
            + self.punctuation.len() + self.specials.len();
        if (raw as usize) < total {
            Some(raw)
        } else {
            None
        }
    }

    /// Looks the bytes up in the keyword table: the raw kind of the
    /// keyword token with exactly that text, if there is one.
    pub fn keyword(&self, bs: &[u8]) -> (r: Option<u16>)
        requires
            self.wf(),
        ensures
            match r {
                Some(raw) => exists|k: int|
                    0 <= k < self.keywords@.len() && self.keywords@[k].text@ == bs@ && raw as int
                        == self.kw_base() + k,
                None => forall|k: int|
                    0 <= k < self.keywords@.len() ==> (#[trigger] self.keywords@[k]).text@ != bs@,
            },
    {
        let base = self.trivia.len() + self.nodes.len();
        let mut k: usize = 0;
        while k < self.keywords.len()
            invariant
                k <= self.keywords@.len(),
                base == self.kw_base(),
                self.wf(),
                forall|j: int|
                    0 <= j < k ==> (#[trigger] self.keywords@[j]).text@ != bs@,
            decreases self.keywords@.len() - k,
        {
            if bytes_eq(&self.keywords[k].text, bs) {
                return Some((base + k) as u16);
            }
            k = k + 1;
        }
        None
    }

    /// The human label of a raw kind: keywords and punctuation are their
    /// text between backquotes, special tokens their description, and
    /// other kinds have none.
    pub fn token_desc(&self, raw: u16) -> (r: Option<Vec<u8>>)
        requires
            self.wf(),
        ensures
            ({
                let i = raw as int;
                if self.kw_base() <= i < self.punct_base() {
                    r matches Some(d) && d@ == quoted(self.keywords@[i - self.kw_base()].text@)
                } else if self.punct_base() <= i < self.special_base() {
                    r matches Some(d) && d@ == quoted(
                        self.punctuation@[i - self.punct_base()].text@,
                    )
                } else if self.special_base() <= i < self.total() {
                    r matches Some(d) && d@ == self.specials@[i - self.special_base()].desc@
                } else {
                    r is None
                }
            }),
    {
        let i = raw as usize;
        let kw_base = self.trivia.len() + self.nodes.len();
        let punct_base = kw_base + self.keywords.len();
        let special_base = punct_base + self.punctuation.len();
        let total = special_base + self.specials.len();
        if kw_base <= i && i < punct_base {
            Some(quote_bytes(&self.keywords[i - kw_base].text))
        } else if punct_base <= i && i < special_base {
            Some(quote_bytes(&self.punctuation[i - punct_base].text))
        } else if special_base <= i && i < total {
            let mut d: Vec<u8> = Vec::new();
            d.extend_from_slice(self.specials[i - special_base].desc.as_slice());
            proof {
                assert(d@ =~= self.specials@[i as int - self.special_base()].desc@);
            }
            Some(d)
        } else {
            None
        }
    }

    /// Computes the kind table: partitions the classified tokens and
    /// sorts each partition into its emitted order.
    pub fn build(trivia: Vec<Vec<u8>>, nodes: Vec<NodeEntry>, tokens: Vec<TokenEntry>) -> (r:
        KindTable)
        requires
            trivia@.len() + nodes@.len() + tokens@.len() <= u16::MAX + 1,
        ensures
            r.wf(),
            r.trivia@ == trivia@,
            r.nodes@ == node_kind_entries(nodes@),
            sorted_entries(SortMode::Table, r.keywords@),
            r.keywords@.to_multiset() == tokens@.filter(kw_pred()).to_multiset(),
            sorted_entries(SortMode::Table, r.punctuation@),
            r.punctuation@.to_multiset() == tokens@.filter(punct_pred()).to_multiset(),
            sorted_entries(SortMode::Name, r.specials@),
            r.specials@.to_multiset() == tokens@.filter(special_pred()).to_multiset(),
    {
        let ghost tokens0 = tokens@;
        let ghost nodes0 = nodes@;
        let mut rest = tokens;
        let mut kw: Vec<TokenEntry> = Vec::new();
        let mut pu: Vec<TokenEntry> = Vec::new();
        let mut sp: Vec<TokenEntry> = Vec::new();
        let mut idx: usize = 0;
        let total_count = rest.len();
        proof {
            reveal(Seq::filter);
            assert(tokens0.take(0).filter(kw_pred()) =~= Seq::empty());
            assert(tokens0.take(0).filter(punct_pred()) =~= Seq::empty());
            assert(tokens0.take(0).filter(special_pred()) =~= Seq::empty());
            assert(rest@ =~= tokens0.skip(0));
        }
        while rest.len() > 0
            invariant
                tokens0.len() == total_count,
                idx + rest@.len() == tokens0.len(),
                rest@ == tokens0.skip(idx as int),
                kw@ == tokens0.take(idx as int).filter(kw_pred()),
                pu@ == tokens0.take(idx as int).filter(punct_pred()),
                sp@ == tokens0.take(idx as int).filter(special_pred()),
            decreases rest@.len(),
        {
            let e = rest.remove(0);
            proof {
                assert(e == tokens0[idx as int]);
                assert(rest@ =~= tokens0.skip(idx as int + 1));
                assert(tokens0.take(idx as int + 1).drop_last() =~= tokens0.take(idx as int));
                assert(tokens0.take(idx as int + 1).last() == e);
            }
            match e.kind {
                TokenKind::Keyword => kw.push(e),
                TokenKind::Punctuation => pu.push(e),
                TokenKind::Special => sp.push(e),
            }
            proof {
                reveal(Seq::filter);
                assert(kw@ =~= tokens0.take(idx as int + 1).filter(kw_pred()));
                assert(pu@ =~= tokens0.take(idx as int + 1).filter(punct_pred()));
                assert(sp@ =~= tokens0.take(idx as int + 1).filter(special_pred()));
            }
            idx = idx + 1;
        }
        proof {
            assert(tokens0.take(tokens0.len() as int) =~= tokens0);
        }
        let keywords = sort_entries(SortMode::Table, kw);
        let punctuation = sort_entries(SortMode::Table, pu);
        let specials = sort_entries(SortMode::Name, sp);
        let r = KindTable { trivia, nodes: filter_nodes(nodes), keywords, punctuation, specials };
        proof {
            broadcast use group_to_multiset_ensures;

            assert(r.nodes@.len() <= nodes0.len()) by {
                broadcast use vstd::seq_lib::group_filter_ensures;

            }
            assert(r.keywords@.len() == r.keywords@.to_multiset().len());
            assert(r.punctuation@.len() == r.punctuation@.to_multiset().len());
            assert(r.specials@.len() == r.specials@.to_multiset().len());
            assert(kw@.len() + pu@.len() + sp@.len() <= tokens0.len()) by {
                lemma_filter_partition_len(tokens0);
            }
            assert(kw@.to_multiset().len() == kw@.len());
            assert(pu@.to_multiset().len() == pu@.len());
            assert(sp@.to_multiset().len() == sp@.len());
        }
        r
    }
}

/// The three classifications partition the tokens, so the partitions'
/// sizes sum to at most the whole.
proof fn lemma_filter_partition_len(tokens: Seq<TokenEntry>)
    ensures
        tokens.filter(kw_pred()).len() + tokens.filter(punct_pred()).len() + tokens.filter(special_pred()).len() == tokens.len(),
    decreases tokens.len(),
{
    reveal(Seq::filter);
    if tokens.len() > 0 {
        lemma_filter_partition_len(tokens.drop_last());
        let rest = tokens.drop_last();
        let last = tokens.last();
        assert(tokens.filter(kw_pred()).len() == rest.filter(kw_pred()).len() + (
        if kw_pred()(last) {
            1int
        } else {
            0
        }));
        assert(tokens.filter(punct_pred()).len() == rest.filter(punct_pred()).len() + (if last.kind is Punctuation {
            1int
        } else {
            0
        }));
        assert(tokens.filter(special_pred()).len() == rest.filter(special_pred()).len() + (if last.kind is Special {
            1int
        } else {
            0
        }));
    }
}

/// The bytes between backquotes, as keyword and punctuation labels are
/// written.
pub open spec fn quoted(text: Seq<u8>) -> Seq<u8> {
    seq![96u8] + text + seq![96u8]
}

fn quote_bytes(text: &Vec<u8>) -> (r: Vec<u8>)
    ensures
        r@ == quoted(text@),
{
    let mut out: Vec<u8> = Vec::new();
    out.push(96u8);
    out.extend_from_slice(text.as_slice());
    out.push(96u8);
    proof {
        assert(out@ =~= quoted(text@));
    }
    out
}

fn filter_nodes(nodes: Vec<NodeEntry>) -> (r: Vec<NodeEntry>)
    ensures
        r@ == node_kind_entries(nodes@),
{
    let ghost nodes0 = nodes@;
    let mut rest = nodes;
    let mut out: Vec<NodeEntry> = Vec::new();
    let mut idx: usize = 0;
    let total_count = rest.len();
    proof {
        reveal(Seq::filter);
        assert(nodes0.take(0).filter(node_pred()) =~= Seq::empty());
        assert(rest@ =~= nodes0.skip(0));
    }
    while rest.len() > 0
        invariant
            nodes0.len() == total_count,
            idx + rest@.len() == nodes0.len(),
            rest@ == nodes0.skip(idx as int),
            out@ == nodes0.take(idx as int).filter(node_pred()),
        decreases rest@.len(),
    {
        let e = rest.remove(0);
        proof {
            assert(e == nodes0[idx as int]);
            assert(rest@ =~= nodes0.skip(idx as int + 1));
            assert(nodes0.take(idx as int + 1).drop_last() =~= nodes0.take(idx as int));
            assert(nodes0.take(idx as int + 1).last() == e);
        }
        if !e.alt {
            out.push(e);
        }
        proof {
            reveal(Seq::filter);
            assert(out@ =~= nodes0.take(idx as int + 1).filter(node_pred()));
        }
        idx = idx + 1;
    }
    proof {
        assert(nodes0.take(nodes0.len() as int) =~= nodes0);
    }
    out
}

} // verus!
