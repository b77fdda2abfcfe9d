//! The notation itself: a tokenizer classifying whitespace-delimited
//! lexemes, and a parser folding the token stream line by line into an
//! automaton store.

use crate::models::{
    empty_model, has_node_id, idx_by_id, merge_conn_model, merge_node_model, swap_first_model,
    wf_model, Automata, AutomataModel, Connection, Node,
};
use crate::text::{
    find_char, is_alphanum, lemma_find_char, lemma_words_len_bound, locate_char, seq_views,
    split_on, split_on_char, split_whitespace_words, words,
};
use vstd::prelude::*;

verus! {

/// How a lexeme failed to match the token grammar.
#[derive(Debug, PartialEq, Eq, Structural, Clone, Copy)]
pub enum TokenFormatKind {
    /// A `(`-led lexeme without the matching `)`.
    MissingClosingDelimiter,
    /// Content after the `)` that is neither nothing nor `^` plus symbols.
    TrailingAfterDelimiter,
    /// A lexeme whose leading character fits no token class.
    UnrecognizedToken,
}

/// How a well-formed token stream failed to describe one automaton.
#[derive(Debug, PartialEq, Eq, Structural, Clone, Copy)]
pub enum StructureKind {
    /// A labelled connection arrow with no node before it on its line.
    ArrowBehindNothing,
    /// A labelled connection arrow directly after the start marker.
    ArrowAfterStart,
    /// A second unlabelled start marker anywhere in the input.
    SecondStart,
}

/// Everything that aborts a parse: a malformed lexeme, a misplaced token,
/// or a node name reused with a different acceptor flag.
#[derive(Debug, PartialEq, Eq, Structural, Clone, Copy)]
pub enum EoaError {
    TokenFormat(TokenFormatKind),
    Structure(StructureKind),
    MergeConflict,
}

/// A node lexeme: its name, whether the node accepts, and the symbols of
/// its self-loop (empty when the lexeme carries no `^` suffix).
#[derive(Debug)]
pub struct TokenNode {
    pub name: String,
    pub acceptor: bool,
    pub stay: Vec<String>,
}

/// One classified lexeme: `Arrow(None)` is the unlabelled start marker,
/// `Arrow(Some(symbols))` a labelled connection arrow, and `Node` a node.
#[derive(Debug)]
pub enum Token {
    Arrow(Option<Vec<String>>),
    Node(TokenNode),
}

/// Mathematical model of a token.
pub ghost enum TokenModel {
    Start,
    Conn { symbols: Seq<Seq<char>> },
    NodeTok { name: Seq<char>, acceptor: bool, stay: Seq<Seq<char>> },
}

impl View for Token {
    type V = TokenModel;

    open spec fn view(&self) -> TokenModel {
        match self {
            Token::Arrow(None) => TokenModel::Start,
            Token::Arrow(Some(symbols)) => TokenModel::Conn { symbols: seq_views(symbols@) },
            Token::Node(tn) => TokenModel::NodeTok {
                name: tn.name@,
                acceptor: tn.acceptor,
                stay: seq_views(tn.stay@),
            },
        }
    }
}

/// Classification of one lexeme, in grammar order: the exact start marker
/// `->` first, then the `-`…`>` arrow shape, then the `(`-led acceptor
/// form, then the alphanumeric-led plain form, else a format error. A
/// labelled arrow's interior is the text between the leading `-` and the
/// trailing `>`, less one closing `-` when the lexeme ends in `->`: the
/// arrow `-x->` carries the symbol `x`, and the empty-interior arrow `-->`
/// carries one empty-string symbol.
pub open spec fn tokenize(s: Seq<char>) -> Result<TokenModel, EoaError> {
    if s.len() == 2 && s[0] == '-' && s[1] == '>' {
        Ok(TokenModel::Start)
    } else if s.len() >= 2 && s[0] == '-' && s[s.len() - 1] == '>' {
        let inner = if s.len() >= 3 && s[s.len() - 2] == '-' {
            s.subrange(1, s.len() - 2)
        } else {
            s.subrange(1, s.len() - 1)
        };
        Ok(TokenModel::Conn { symbols: split_on(inner, ',') })
    } else if s.len() >= 1 && s[0] == '(' {
        let e = find_char(s, ')');
        if e >= s.len() {
            Err(EoaError::TokenFormat(TokenFormatKind::MissingClosingDelimiter))
        } else {
            let name = s.subrange(1, e);
            if e == s.len() - 1 {
                Ok(TokenModel::NodeTok { name, acceptor: true, stay: Seq::empty() })
            } else if s[e + 1] == '^' {
                Ok(
                    TokenModel::NodeTok {
                        name,
                        acceptor: true,
                        stay: split_on(s.subrange(e + 2, s.len() as int), ','),
                    },
                )
            } else {
                Err(EoaError::TokenFormat(TokenFormatKind::TrailingAfterDelimiter))
            }
        }
    } else if s.len() >= 1 && is_alphanum(s[0]) {
        let p = find_char(s, '^');
        if p >= s.len() {
            Ok(TokenModel::NodeTok { name: s, acceptor: false, stay: Seq::empty() })
        } else {
            Ok(
                TokenModel::NodeTok {
                    name: s.subrange(0, p),
                    acceptor: false,
                    stay: split_on(s.subrange(p + 1, s.len() as int), ','),
                },
            )
        }
    } else {
        Err(EoaError::TokenFormat(TokenFormatKind::UnrecognizedToken))
    }
}

pub open spec fn token_result_model(r: Result<Token, EoaError>) -> Result<TokenModel, EoaError> {
    match r {
        Ok(t) => Ok(t@),
        Err(e) => Err(e),
    }
}

impl Token {
    /// Classifies one non-empty lexeme, exactly as `tokenize` describes.
    pub fn from_str(s: &str) -> (r: Result<Token, EoaError>)
        requires
            s@.len() > 0,
        ensures
            token_result_model(r) == tokenize(s@),
    {
        let n = s.unicode_len();
        if n == 2 && s.get_char(0) == '-' && s.get_char(1) == '>' {
            Ok(Token::Arrow(None))
        } else if s.get_char(0) == '-' && s.get_char(n - 1) == '>' {
            proof {
                assert(n >= 2) by {
                    if n == 1 {
                        assert(s@[0] == '-' && s@[0] == '>');
                    }
                }
            }
            let end = if n >= 3 && s.get_char(n - 2) == '-' {
                n - 2
            } else {
                n - 1
            };
            let inner = s.substring_char(1, end);
            let symbols = split_on_char(inner, ',');
            Ok(Token::Arrow(Some(symbols)))
        } else if s.get_char(0) == '(' {
            let e = locate_char(s, ')');
            proof {
                lemma_find_char(s@, ')');
            }
            if e == n {
                Err(EoaError::TokenFormat(TokenFormatKind::MissingClosingDelimiter))
            } else {
                let name = s.substring_char(1, e).to_owned();
                if e == n - 1 {
                    proof {
                        assert(seq_views(Seq::<String>::empty()) =~= Seq::<Seq<char>>::empty());
                    }
                    Ok(Token::Node(TokenNode { name, acceptor: true, stay: Vec::new() }))
                } else if s.get_char(e + 1) == '^' {
                    let stay = split_on_char(s.substring_char(e + 2, n), ',');
                    Ok(Token::Node(TokenNode { name, acceptor: true, stay }))
                } else {
                    Err(EoaError::TokenFormat(TokenFormatKind::TrailingAfterDelimiter))
                }
            }
        } else if s.get_char(0).is_alphanumeric() {
            let p = locate_char(s, '^');
            proof {
                lemma_find_char(s@, '^');
            }
            if p == n {
                proof {
                    assert(seq_views(Seq::<String>::empty()) =~= Seq::<Seq<char>>::empty());
                }
                Ok(Token::Node(TokenNode { name: s.to_owned(), acceptor: false, stay: Vec::new() }))
            } else {
                let name = s.substring_char(0, p).to_owned();
                let stay = split_on_char(s.substring_char(p + 1, n), ',');
                Ok(Token::Node(TokenNode { name, acceptor: false, stay }))
            }
        } else {
            Err(EoaError::TokenFormat(TokenFormatKind::UnrecognizedToken))
        }
    }
}

/// The per-line transient state of the builder: whether a start marker
/// still awaits its node, the id of the previous node on the line, and the
/// symbols of a labelled arrow awaiting its destination node.
pub ghost struct LineState {
    pub pending_start: bool,
    pub prev: Option<int>,
    pub pending: Option<Seq<Seq<char>>>,
}

/// The state every line begins with.
pub open spec fn line_start_state() -> LineState {
    LineState { pending_start: false, prev: None, pending: None }
}

/// One step of the builder on one token, from store, cross-line start flag
/// and line state. A start marker may occur once in the whole input and
/// arms the pending-start flag. A labelled arrow needs a previous node on
/// its line, must not directly follow the start marker, and stores its
/// symbols. A node token merge-inserts the node, closes a pending labelled
/// arrow into a connection, becomes the start node if a start marker is
/// pending, merge-inserts its self-loop, and becomes the previous node.
pub open spec fn step_token(a: AutomataModel, ff: bool, ls: LineState, t: TokenModel) -> Result<
    (AutomataModel, bool, LineState),
    EoaError,
> {
    match t {
        TokenModel::Start => {
            if ff {
                Err(EoaError::Structure(StructureKind::SecondStart))
            } else {
                Ok((a, true, LineState { pending_start: true, prev: ls.prev, pending: ls.pending }))
            }
        },
        TokenModel::Conn { symbols } => {
            if ls.prev is None {
                Err(EoaError::Structure(StructureKind::ArrowBehindNothing))
            } else if ls.pending_start {
                Err(EoaError::Structure(StructureKind::ArrowAfterStart))
            } else {
                Ok(
                    (
                        a,
                        ff,
                        LineState {
                            pending_start: ls.pending_start,
                            prev: ls.prev,
                            pending: Some(symbols),
                        },
                    ),
                )
            }
        },
        TokenModel::NodeTok { name, acceptor, stay } => {
            match merge_node_model(a, name, acceptor) {
                None => Err(EoaError::MergeConflict),
                Some(p) => {
                    let a1 = p.0;
                    let id = p.1;
                    let joined = match (ls.prev, ls.pending) {
                        (Some(pv), Some(ss)) => (
                            merge_conn_model(a1, pv, id, ss).0,
                            None::<Seq<Seq<char>>>,
                        ),
                        _ => (a1, ls.pending),
                    };
                    let a2 = joined.0;
                    let a3 = if ls.pending_start {
                        swap_first_model(a2, idx_by_id(a2.nodes, id))
                    } else {
                        a2
                    };
                    let a4 = if stay.len() > 0 {
                        merge_conn_model(a3, id, id, stay).0
                    } else {
                        a3
                    };
                    Ok(
                        (
                            a4,
                            ff,
                            LineState { pending_start: false, prev: Some(id), pending: joined.1 },
                        ),
                    )
                },
            }
        },
    }
}

/// The builder folded over a token sequence.
pub open spec fn run_tokens(
    a: AutomataModel,
    ff: bool,
    ls: LineState,
    ts: Seq<TokenModel>,
) -> Result<(AutomataModel, bool, LineState), EoaError>
    decreases ts.len(),
{
    if ts.len() == 0 {
        Ok((a, ff, ls))
    } else {
        match step_token(a, ff, ls, ts[0]) {
            Err(e) => Err(e),
            Ok(st) => run_tokens(st.0, st.1, st.2, ts.subrange(1, ts.len() as int)),
        }
    }
}

/// Tokenization of a whole line's words, already-classified tokens in
/// `acc`: the first malformed word aborts with its error.
pub open spec fn tokenize_words_from(ws: Seq<Seq<char>>, acc: Seq<TokenModel>) -> Result<
    Seq<TokenModel>,
    EoaError,
>
    decreases ws.len(),
{
    if ws.len() == 0 {
        Ok(acc)
    } else {
        match tokenize(ws[0]) {
            Err(e) => Err(e),
            Ok(t) => tokenize_words_from(ws.subrange(1, ws.len() as int), acc.push(t)),
        }
    }
}

pub open spec fn tokenize_words(ws: Seq<Seq<char>>) -> Result<Seq<TokenModel>, EoaError> {
    tokenize_words_from(ws, Seq::empty())
}

/// The builder folded over the lines: each line is tokenized fully before
/// its tokens are folded, and the per-line state is reset between lines
/// while the start flag persists.
pub open spec fn run_lines(a: AutomataModel, ff: bool, lines: Seq<Seq<char>>) -> Result<
    (AutomataModel, bool),
    EoaError,
>
    decreases lines.len(),
{
    if lines.len() == 0 {
        Ok((a, ff))
    } else {
        match tokenize_words(words(lines[0])) {
            Err(e) => Err(e),
            Ok(ts) => match run_tokens(a, ff, line_start_state(), ts) {
                Err(e) => Err(e),
                Ok(st) => run_lines(st.0, st.1, lines.subrange(1, lines.len() as int)),
            },
        }
    }
}

/// What parsing an input means: the lines of the text, split on newlines,
/// folded through the builder starting from the empty store.
pub open spec fn parse_spec(s: Seq<char>) -> Result<AutomataModel, EoaError> {
    match run_lines(empty_model(), false, split_on(s, '\n')) {
        Ok(st) => Ok(st.0),
        Err(e) => Err(e),
    }
}

pub open spec fn token_models(ts: Seq<Token>) -> Seq<TokenModel> {
    Seq::new(ts.len(), |i: int| ts[i]@)
}

pub open spec fn line_state_model(
    pending_start: bool,
    prev: Option<usize>,
    pending: &Option<Vec<String>>,
) -> LineState {
    LineState {
        pending_start,
        prev: match prev {
            Some(u) => Some(u as int),
            None => None,
        },
        pending: match pending {
            Some(v) => Some(seq_views(v@)),
            None => None,
        },
    }
}

/// The number of words over a sequence of lines.
pub open spec fn words_total(lines: Seq<Seq<char>>) -> nat
    decreases lines.len(),
{
    if lines.len() == 0 {
        0
    } else {
        words(lines[0]).len() + words_total(lines.subrange(1, lines.len() as int))
    }
}

pub proof fn lemma_words_total_tail(lines: Seq<Seq<char>>, k: int)
    requires
        0 <= k < lines.len(),
    ensures
        words_total(lines.subrange(k, lines.len() as int)) == words(lines[k]).len()
            + words_total(lines.subrange(k + 1, lines.len() as int)),
{
    let sub = lines.subrange(k, lines.len() as int);
    assert(sub[0] == lines[k]);
    assert(sub.subrange(1, sub.len() as int) =~= lines.subrange(k + 1, lines.len() as int));
}

/// Adjacent words need a separating character, so a text of `n` characters
/// holds at most `(n + 1) / 2` words over all its lines.
pub proof fn lemma_lines_words_bound(s: Seq<char>)
    ensures
        2 * words_total(split_on(s, '\n')) <= s.len() + 1,
    decreases s.len(),
{
    let i = find_char(s, '\n');
    lemma_find_char(s, '\n');
    let all = split_on(s, '\n');
    if 0 <= i < s.len() {
        let rest = s.subrange(i + 1, s.len() as int);
        lemma_lines_words_bound(rest);
        lemma_words_len_bound(s.subrange(0, i));
        assert(all[0] == s.subrange(0, i));
        assert(all.subrange(1, all.len() as int) =~= split_on(rest, '\n'));
        assert(words_total(all) == words(s.subrange(0, i)).len() + words_total(
            split_on(rest, '\n'),
        ));
        assert(2 * words(s.subrange(0, i)).len() <= i + 1);
        assert(2 * words_total(split_on(rest, '\n')) <= rest.len() + 1);
    } else {
        lemma_words_len_bound(s);
        assert(all[0] == s);
        assert(all =~= seq![s]);
        assert(all.subrange(1, all.len() as int) =~= Seq::<Seq<char>>::empty());
        assert(words_total(all.subrange(1, all.len() as int)) == 0);
        assert(words_total(all) == words(all[0]).len() + words_total(
            all.subrange(1, all.len() as int),
        ));
        assert(words_total(all) == words(s).len());
    }
}

/// Whether some node of the sequence carries `name` with flag `acceptor`.
pub open spec fn declares(nodes: Seq<crate::models::NodeModel>, name: Seq<char>, acceptor: bool) -> bool {
    exists|k: int|
        0 <= k < nodes.len() && #[trigger] nodes[k].name == name && nodes[k].acceptor == acceptor
}

/// A previous-node id in the line state always names a present node.
pub open spec fn ls_ok(a: AutomataModel, ls: LineState) -> bool {
    match ls.prev {
        Some(p) => has_node_id(a.nodes, p),
        None => true,
    }
}

proof fn lemma_decl_push(
    nodes: Seq<crate::models::NodeModel>,
    nd: crate::models::NodeModel,
    name: Seq<char>,
    acc: bool,
)
    requires
        declares(nodes, name, acc),
    ensures
        declares(nodes.push(nd), name, acc),
{
    let w = choose|k: int|
        0 <= k < nodes.len() && #[trigger] nodes[k].name == name && nodes[k].acceptor == acc;
    assert(nodes.push(nd)[w].name == name && nodes.push(nd)[w].acceptor == acc);
}

proof fn lemma_decl_swap(m: AutomataModel, idx: int, name: Seq<char>, acc: bool)
    requires
        0 <= idx < m.nodes.len(),
        declares(m.nodes, name, acc),
    ensures
        declares(swap_first_model(m, idx).nodes, name, acc),
{
    let m1 = swap_first_model(m, idx);
    let w = choose|k: int|
        0 <= k < m.nodes.len() && #[trigger] m.nodes[k].name == name && m.nodes[k].acceptor == acc;
    if w == 0 {
        assert(m1.nodes[idx].name == name && m1.nodes[idx].acceptor == acc);
    } else if w == idx {
        assert(m1.nodes[0].name == name && m1.nodes[0].acceptor == acc);
    } else {
        assert(m1.nodes[w].name == name && m1.nodes[w].acceptor == acc);
    }
}

/// One accepted builder step keeps the store well-formed, keeps the line
/// state valid, declares the node its token names, and takes the start
/// marker only when none was taken before.
proof fn lemma_step_token_props(
    a: AutomataModel,
    ff: bool,
    ls: LineState,
    t: TokenModel,
    st: (AutomataModel, bool, LineState),
)
    requires
        wf_model(a),
        ls_ok(a, ls),
        step_token(a, ff, ls, t) == Ok::<(AutomataModel, bool, LineState), EoaError>(st),
    ensures
        wf_model(st.0),
        ls_ok(st.0, st.2),
        t is NodeTok ==> declares(st.0.nodes, t->name, t->acceptor),
        t is Start ==> !ff && st.1,
        t !is Start ==> st.1 == ff,
{
    match t {
        TokenModel::Start => {
        },
        TokenModel::Conn { symbols } => {
        },
        TokenModel::NodeTok { name, acceptor, stay } => {
            crate::models::lemma_idx_by_name(a.nodes, name);
            let i0 = crate::models::idx_by_name(a.nodes, name);
            let p = merge_node_model(a, name, acceptor);
            let a1 = p->Some_0.0;
            let id = p->Some_0.1;
            if i0 < a.nodes.len() {
                assert(a.nodes[i0].name == name && a.nodes[i0].acceptor == acceptor);
                assert(has_node_id(a1.nodes, id)) by {
                    assert(a1.nodes[i0].id == id);
                }
            } else {
                crate::models::lemma_wf_after_push_node(a, name, acceptor);
                assert(a1.nodes[a.nodes.len() as int].name == name);
                assert(a1.nodes[a.nodes.len() as int].id == id);
            }
            assert(wf_model(a1));
            assert(has_node_id(a1.nodes, id));
            assert(declares(a1.nodes, name, acceptor));
            let joined = match (ls.prev, ls.pending) {
                (Some(pv), Some(ss)) => (merge_conn_model(a1, pv, id, ss).0, None::<Seq<Seq<char>>>),
                _ => (a1, ls.pending),
            };
            let a2 = joined.0;
            if ls.prev is Some && ls.pending is Some {
                let pv = ls.prev->0;
                if i0 >= a.nodes.len() {
                    crate::models::lemma_push_keeps_ids(
                        a.nodes,
                        crate::models::NodeModel { id: a.id_counter + 1, name, acceptor },
                        pv,
                    );
                }
                crate::models::lemma_wf_after_merge_conn(a1, pv, id, ls.pending->0);
            }
            assert(wf_model(a2));
            assert(a2.nodes == a1.nodes);
            let a3 = if ls.pending_start {
                swap_first_model(a2, idx_by_id(a2.nodes, id))
            } else {
                a2
            };
            if ls.pending_start {
                crate::models::lemma_idx_by_id(a2.nodes, id);
                let idx = idx_by_id(a2.nodes, id);
                crate::models::lemma_wf_after_swap(a2, idx);
                crate::models::lemma_swap_keeps_ids(a2, idx, id);
                lemma_decl_swap(a2, idx, name, acceptor);
            }
            assert(wf_model(a3));
            assert(has_node_id(a3.nodes, id));
            assert(declares(a3.nodes, name, acceptor));
            let a4 = if stay.len() > 0 {
                merge_conn_model(a3, id, id, stay).0
            } else {
                a3
            };
            if stay.len() > 0 {
                crate::models::lemma_wf_after_merge_conn(a3, id, id, stay);
            }
            assert(wf_model(a4));
            assert(a4.nodes == a3.nodes);
            assert(st.0 == a4);
        },
    }
}

/// One accepted builder step loses no declared node.
proof fn lemma_step_token_keeps_decl(
    a: AutomataModel,
    ff: bool,
    ls: LineState,
    t: TokenModel,
    st: (AutomataModel, bool, LineState),
    nm: Seq<char>,
    ac: bool,
)
    requires
        step_token(a, ff, ls, t) == Ok::<(AutomataModel, bool, LineState), EoaError>(st),
        declares(a.nodes, nm, ac),
    ensures
        declares(st.0.nodes, nm, ac),
{
    match t {
        TokenModel::Start => {
        },
        TokenModel::Conn { symbols } => {
        },
        TokenModel::NodeTok { name, acceptor, stay } => {
            crate::models::lemma_idx_by_name(a.nodes, name);
            let i0 = crate::models::idx_by_name(a.nodes, name);
            let p = merge_node_model(a, name, acceptor);
            let a1 = p->Some_0.0;
            let id = p->Some_0.1;
            if i0 < a.nodes.len() {
                assert(has_node_id(a1.nodes, id)) by {
                    assert(a1.nodes[i0].id == id);
                }
            } else {
                lemma_decl_push(
                    a.nodes,
                    crate::models::NodeModel { id: a.id_counter + 1, name, acceptor },
                    nm,
                    ac,
                );
                assert(a1.nodes[a.nodes.len() as int].id == id);
            }
            assert(declares(a1.nodes, nm, ac));
            assert(has_node_id(a1.nodes, id));
            let joined = match (ls.prev, ls.pending) {
                (Some(pv), Some(ss)) => (merge_conn_model(a1, pv, id, ss).0, None::<Seq<Seq<char>>>),
                _ => (a1, ls.pending),
            };
            let a2 = joined.0;
            assert(a2.nodes == a1.nodes);
            let a3 = if ls.pending_start {
                swap_first_model(a2, idx_by_id(a2.nodes, id))
            } else {
                a2
            };
            if ls.pending_start {
                crate::models::lemma_idx_by_id(a2.nodes, id);
                lemma_decl_swap(a2, idx_by_id(a2.nodes, id), nm, ac);
            }
            assert(declares(a3.nodes, nm, ac));
            assert(st.0.nodes == a3.nodes);
        },
    }
}

/// The number of start markers among a token sequence.
pub open spec fn start_count_tokens(ts: Seq<TokenModel>) -> nat
    decreases ts.len(),
{
    if ts.len() == 0 {
        0
    } else {
        (if ts[0] is Start {
            1nat
        } else {
            0nat
        }) + start_count_tokens(ts.subrange(1, ts.len() as int))
    }
}

/// The number of words of a line that tokenize as the start marker.
pub open spec fn start_count_words(ws: Seq<Seq<char>>) -> nat
    decreases ws.len(),
{
    if ws.len() == 0 {
        0
    } else {
        (if tokenize(ws[0]) == Ok::<TokenModel, EoaError>(TokenModel::Start) {
            1nat
        } else {
            0nat
        }) + start_count_words(ws.subrange(1, ws.len() as int))
    }
}

/// The number of start markers in a whole sequence of lines.
pub open spec fn start_count_lines(lines: Seq<Seq<char>>) -> nat
    decreases lines.len(),
{
    if lines.len() == 0 {
        0
    } else {
        start_count_words(words(lines[0])) + start_count_lines(
            lines.subrange(1, lines.len() as int),
        )
    }
}

/// The number of unlabelled start markers among the lexemes of an input.
pub open spec fn start_marker_count(s: Seq<char>) -> nat {
    start_count_lines(split_on(s, '\n'))
}

proof fn lemma_start_count_push(ts: Seq<TokenModel>, t: TokenModel)
    ensures
        start_count_tokens(ts.push(t)) == start_count_tokens(ts) + (if t is Start {
            1nat
        } else {
            0nat
        }),
    decreases ts.len(),
{
    let p = ts.push(t);
    if ts.len() == 0 {
        assert(p[0] == t);
        assert(p.subrange(1, 1) =~= Seq::<TokenModel>::empty());
        assert(start_count_tokens(p.subrange(1, 1)) == 0);
    } else {
        assert(p[0] == ts[0]);
        assert(p.subrange(1, p.len() as int) =~= ts.subrange(1, ts.len() as int).push(t));
        lemma_start_count_push(ts.subrange(1, ts.len() as int), t);
        assert(start_count_tokens(p) == (if ts[0] is Start {
            1nat
        } else {
            0nat
        }) + start_count_tokens(p.subrange(1, p.len() as int)));
        assert(start_count_tokens(p.subrange(1, p.len() as int)) == start_count_tokens(
            ts.subrange(1, ts.len() as int),
        ) + (if t is Start {
            1nat
        } else {
            0nat
        }));
    }
}

proof fn lemma_tokenize_words_count(ws: Seq<Seq<char>>, acc: Seq<TokenModel>, ts: Seq<TokenModel>)
    requires
        tokenize_words_from(ws, acc) == Ok::<Seq<TokenModel>, EoaError>(ts),
    ensures
        start_count_tokens(ts) == start_count_tokens(acc) + start_count_words(ws),
    decreases ws.len(),
{
    if ws.len() == 0 {
    } else {
        match tokenize(ws[0]) {
            Ok(t0) => {
                lemma_start_count_push(acc, t0);
                lemma_tokenize_words_count(ws.subrange(1, ws.len() as int), acc.push(t0), ts);
            },
            Err(e) => {
                assert(false);
            },
        }
    }
}

/// A successful fold of one token sequence keeps the store well-formed,
/// consumes at most one start marker counting the one already assigned,
/// and comes out with the start flag set exactly when one was consumed.
proof fn lemma_run_tokens_props(
    a: AutomataModel,
    ff: bool,
    ls: LineState,
    ts: Seq<TokenModel>,
    st: (AutomataModel, bool, LineState),
)
    requires
        wf_model(a),
        ls_ok(a, ls),
        run_tokens(a, ff, ls, ts) == Ok::<(AutomataModel, bool, LineState), EoaError>(st),
    ensures
        wf_model(st.0),
        ls_ok(st.0, st.2),
        start_count_tokens(ts) + (if ff {
            1int
        } else {
            0int
        }) <= 1,
        st.1 == (ff || start_count_tokens(ts) >= 1),
    decreases ts.len(),
{
    if ts.len() == 0 {
    } else {
        match step_token(a, ff, ls, ts[0]) {
            Ok(st1) => {
                lemma_step_token_props(a, ff, ls, ts[0], st1);
                lemma_run_tokens_props(st1.0, st1.1, st1.2, ts.subrange(1, ts.len() as int), st);
            },
            Err(e) => {
                assert(false);
            },
        }
    }
}

proof fn lemma_run_tokens_keeps_decl(
    a: AutomataModel,
    ff: bool,
    ls: LineState,
    ts: Seq<TokenModel>,
    st: (AutomataModel, bool, LineState),
    nm: Seq<char>,
    ac: bool,
)
    requires
        run_tokens(a, ff, ls, ts) == Ok::<(AutomataModel, bool, LineState), EoaError>(st),
        declares(a.nodes, nm, ac),
    ensures
        declares(st.0.nodes, nm, ac),
    decreases ts.len(),
{
    if ts.len() == 0 {
    } else {
        match step_token(a, ff, ls, ts[0]) {
            Ok(st1) => {
                lemma_step_token_keeps_decl(a, ff, ls, ts[0], st1, nm, ac);
                lemma_run_tokens_keeps_decl(
                    st1.0,
                    st1.1,
                    st1.2,
                    ts.subrange(1, ts.len() as int),
                    st,
                    nm,
                    ac,
                );
            },
            Err(e) => {
                assert(false);
            },
        }
    }
}

proof fn lemma_run_tokens_declares(
    a: AutomataModel,
    ff: bool,
    ls: LineState,
    ts: Seq<TokenModel>,
    st: (AutomataModel, bool, LineState),
    k: int,
)
    requires
        run_tokens(a, ff, ls, ts) == Ok::<(AutomataModel, bool, LineState), EoaError>(st),
        0 <= k < ts.len(),
        ts[k] is NodeTok,
    ensures
        declares(st.0.nodes, ts[k]->name, ts[k]->acceptor),
    decreases ts.len(),
{
    match step_token(a, ff, ls, ts[0]) {
        Ok(st1) => {
            if k == 0 {
                lemma_step_token_props_decl_only(a, ff, ls, ts[0], st1);
                lemma_run_tokens_keeps_decl(
                    st1.0,
                    st1.1,
                    st1.2,
                    ts.subrange(1, ts.len() as int),
                    st,
                    ts[0]->name,
                    ts[0]->acceptor,
                );
            } else {
                assert(ts.subrange(1, ts.len() as int)[k - 1] == ts[k]);
                lemma_run_tokens_declares(
                    st1.0,
                    st1.1,
                    st1.2,
                    ts.subrange(1, ts.len() as int),
                    st,
                    k - 1,
                );
            }
        },
        Err(e) => {
            assert(false);
        },
    }
}

/// A node token accepted by one step is declared in the step's store,
/// with no assumption on the incoming store.
proof fn lemma_step_token_props_decl_only(
    a: AutomataModel,
    ff: bool,
    ls: LineState,
    t: TokenModel,
    st: (AutomataModel, bool, LineState),
)
    requires
        step_token(a, ff, ls, t) == Ok::<(AutomataModel, bool, LineState), EoaError>(st),
        t is NodeTok,
    ensures
        declares(st.0.nodes, t->name, t->acceptor),
{
    let name = t->name;
    let acceptor = t->acceptor;
    let stay = t->stay;
    crate::models::lemma_idx_by_name(a.nodes, name);
    let i0 = crate::models::idx_by_name(a.nodes, name);
    let p = merge_node_model(a, name, acceptor);
    let a1 = p->Some_0.0;
    let id = p->Some_0.1;
    if i0 < a.nodes.len() {
        assert(a.nodes[i0].name == name && a.nodes[i0].acceptor == acceptor);
        assert(has_node_id(a1.nodes, id)) by {
            assert(a1.nodes[i0].id == id);
        }
    } else {
        assert(a1.nodes[a.nodes.len() as int].name == name);
        assert(a1.nodes[a.nodes.len() as int].id == id);
    }
    assert(declares(a1.nodes, name, acceptor));
    assert(has_node_id(a1.nodes, id));
    let joined = match (ls.prev, ls.pending) {
        (Some(pv), Some(ss)) => (merge_conn_model(a1, pv, id, ss).0, None::<Seq<Seq<char>>>),
        _ => (a1, ls.pending),
    };
    let a2 = joined.0;
    assert(a2.nodes == a1.nodes);
    if ls.pending_start {
        crate::models::lemma_idx_by_id(a2.nodes, id);
        lemma_decl_swap(a2, idx_by_id(a2.nodes, id), name, acceptor);
    }
    assert(st.0.nodes == (if ls.pending_start {
        swap_first_model(a2, idx_by_id(a2.nodes, id))
    } else {
        a2
    }).nodes);
}

proof fn lemma_tokenize_words_prefix(
    ws: Seq<Seq<char>>,
    acc: Seq<TokenModel>,
    ts: Seq<TokenModel>,
    i: int,
)
    requires
        tokenize_words_from(ws, acc) == Ok::<Seq<TokenModel>, EoaError>(ts),
        0 <= i < acc.len(),
    ensures
        acc.len() <= ts.len(),
        ts[i] == acc[i],
    decreases ws.len(),
{
    if ws.len() == 0 {
    } else {
        match tokenize(ws[0]) {
            Ok(t0) => {
                lemma_tokenize_words_prefix(ws.subrange(1, ws.len() as int), acc.push(t0), ts, i);
            },
            Err(e) => {
                assert(false);
            },
        }
    }
}

proof fn lemma_tokenize_words_pos(
    ws: Seq<Seq<char>>,
    acc: Seq<TokenModel>,
    ts: Seq<TokenModel>,
    k: int,
)
    requires
        tokenize_words_from(ws, acc) == Ok::<Seq<TokenModel>, EoaError>(ts),
        0 <= k < ws.len(),
    ensures
        acc.len() + ws.len() <= ts.len(),
        tokenize(ws[k]) == Ok::<TokenModel, EoaError>(ts[acc.len() + k]),
    decreases ws.len(),
{
    match tokenize(ws[0]) {
        Ok(t0) => {
            let rest = ws.subrange(1, ws.len() as int);
            if k == 0 {
                if rest.len() == 0 {
                    assert(ts == acc.push(t0));
                } else {
                    lemma_tokenize_words_prefix(rest, acc.push(t0), ts, acc.len() as int);
                }
                assert(ts[acc.len() as int] == acc.push(t0)[acc.len() as int]);
                if rest.len() > 0 {
                    lemma_tokenize_words_pos(rest, acc.push(t0), ts, 0);
                }
            } else {
                assert(rest[k - 1] == ws[k]);
                lemma_tokenize_words_pos(rest, acc.push(t0), ts, k - 1);
            }
        },
        Err(e) => {
            assert(false);
        },
    }
}

/// A successful fold of the lines keeps the store well-formed, holds
/// every node declared by a node token of any line, and consumes at most
/// one start marker over the whole input.
proof fn lemma_run_lines_props(
    a: AutomataModel,
    ff: bool,
    lines: Seq<Seq<char>>,
    st: (AutomataModel, bool),
)
    requires
        wf_model(a),
        run_lines(a, ff, lines) == Ok::<(AutomataModel, bool), EoaError>(st),
    ensures
        wf_model(st.0),
        start_count_lines(lines) + (if ff {
            1int
        } else {
            0int
        }) <= 1,
        st.1 == (ff || start_count_lines(lines) >= 1),
    decreases lines.len(),
{
    if lines.len() == 0 {
    } else {
        match tokenize_words(words(lines[0])) {
            Ok(ts) => {
                match run_tokens(a, ff, line_start_state(), ts) {
                    Ok(st1) => {
                        lemma_run_tokens_props(a, ff, line_start_state(), ts, st1);
                        lemma_tokenize_words_count(words(lines[0]), Seq::empty(), ts);
                        lemma_run_lines_props(
                            st1.0,
                            st1.1,
                            lines.subrange(1, lines.len() as int),
                            st,
                        );
                    },
                    Err(e) => {
                        assert(false);
                    },
                }
            },
            Err(e) => {
                assert(false);
            },
        }
    }
}

proof fn lemma_run_lines_declares(
    a: AutomataModel,
    ff: bool,
    lines: Seq<Seq<char>>,
    st: (AutomataModel, bool),
    li: int,
    wi: int,
)
    requires
        run_lines(a, ff, lines) == Ok::<(AutomataModel, bool), EoaError>(st),
        0 <= li < lines.len(),
        0 <= wi < words(lines[li]).len(),
        tokenize(words(lines[li])[wi]) matches Ok(t) && t is NodeTok,
    ensures
        tokenize(words(lines[li])[wi]) matches Ok(t) ==> declares(st.0.nodes, t->name, t->acceptor),
    decreases lines.len(),
{
    match tokenize_words(words(lines[0])) {
        Ok(ts) => {
            match run_tokens(a, ff, line_start_state(), ts) {
                Ok(st1) => {
                    if li == 0 {
                        lemma_tokenize_words_pos(words(lines[0]), Seq::empty(), ts, wi);
                        lemma_run_tokens_declares(a, ff, line_start_state(), ts, st1, wi);
                        lemma_run_lines_keeps_decl(
                            st1.0,
                            st1.1,
                            lines.subrange(1, lines.len() as int),
                            st,
                            ts[wi]->name,
                            ts[wi]->acceptor,
                        );
                    } else {
                        assert(lines.subrange(1, lines.len() as int)[li - 1] == lines[li]);
                        lemma_run_lines_declares(
                            st1.0,
                            st1.1,
                            lines.subrange(1, lines.len() as int),
                            st,
                            li - 1,
                            wi,
                        );
                    }
                },
                Err(e) => {
                    assert(false);
                },
            }
        },
        Err(e) => {
            assert(false);
        },
    }
}

proof fn lemma_run_lines_keeps_decl(
    a: AutomataModel,
    ff: bool,
    lines: Seq<Seq<char>>,
    st: (AutomataModel, bool),
    nm: Seq<char>,
    ac: bool,
)
    requires
        run_lines(a, ff, lines) == Ok::<(AutomataModel, bool), EoaError>(st),
        declares(a.nodes, nm, ac),
    ensures
        declares(st.0.nodes, nm, ac),
    decreases lines.len(),
{
    if lines.len() == 0 {
    } else {
        match tokenize_words(words(lines[0])) {
            Ok(ts) => {
                match run_tokens(a, ff, line_start_state(), ts) {
                    Ok(st1) => {
                        lemma_run_tokens_keeps_decl(a, ff, line_start_state(), ts, st1, nm, ac);
                        lemma_run_lines_keeps_decl(
                            st1.0,
                            st1.1,
                            lines.subrange(1, lines.len() as int),
                            st,
                            nm,
                            ac,
                        );
                    },
                    Err(e) => {
                        assert(false);
                    },
                }
            },
            Err(e) => {
                assert(false);
            },
        }
    }
}

/// A fold result's start flag is set exactly when a marker was taken,
/// before this fold or during it.
proof fn lemma_run_tokens_ff(
    a: AutomataModel,
    ff: bool,
    ls: LineState,
    ts: Seq<TokenModel>,
    st: (AutomataModel, bool, LineState),
)
    requires
        run_tokens(a, ff, ls, ts) == Ok::<(AutomataModel, bool, LineState), EoaError>(st),
    ensures
        st.1 == (ff || start_count_tokens(ts) >= 1),
    decreases ts.len(),
{
    if ts.len() == 0 {
    } else {
        match step_token(a, ff, ls, ts[0]) {
            Ok(st1) => {
                lemma_run_tokens_ff(st1.0, st1.1, st1.2, ts.subrange(1, ts.len() as int), st);
            },
            Err(e) => {
                assert(false);
            },
        }
    }
}

/// Tokenization fails only with a token-format error.
proof fn lemma_tokenize_words_err_kind(ws: Seq<Seq<char>>, acc: Seq<TokenModel>, e: EoaError)
    requires
        tokenize_words_from(ws, acc) == Err::<Seq<TokenModel>, EoaError>(e),
    ensures
        e is TokenFormat,
    decreases ws.len(),
{
    if ws.len() == 0 {
    } else {
        match tokenize(ws[0]) {
            Ok(t0) => {
                lemma_tokenize_words_err_kind(ws.subrange(1, ws.len() as int), acc.push(t0), e);
            },
            Err(e0) => {
            },
        }
    }
}

proof fn lemma_run_tokens_second_start_sound(
    a: AutomataModel,
    ff: bool,
    ls: LineState,
    ts: Seq<TokenModel>,
)
    requires
        run_tokens(a, ff, ls, ts) == Err::<(AutomataModel, bool, LineState), EoaError>(
            EoaError::Structure(StructureKind::SecondStart),
        ),
    ensures
        start_count_tokens(ts) + (if ff {
            1int
        } else {
            0int
        }) >= 2,
    decreases ts.len(),
{
    match step_token(a, ff, ls, ts[0]) {
        Ok(st1) => {
            lemma_run_tokens_second_start_sound(st1.0, st1.1, st1.2, ts.subrange(1, ts.len() as int));
        },
        Err(e) => {
            assert(ts[0] is Start && ff);
        },
    }
}

proof fn lemma_run_lines_second_start_sound(a: AutomataModel, ff: bool, lines: Seq<Seq<char>>)
    requires
        run_lines(a, ff, lines) == Err::<(AutomataModel, bool), EoaError>(
            EoaError::Structure(StructureKind::SecondStart),
        ),
    ensures
        start_count_lines(lines) + (if ff {
            1int
        } else {
            0int
        }) >= 2,
    decreases lines.len(),
{
    match tokenize_words(words(lines[0])) {
        Ok(ts) => {
            match run_tokens(a, ff, line_start_state(), ts) {
                Ok(st1) => {
                    lemma_run_tokens_ff(a, ff, line_start_state(), ts, st1);
                    lemma_tokenize_words_count(words(lines[0]), Seq::empty(), ts);
                    lemma_run_lines_second_start_sound(
                        st1.0,
                        st1.1,
                        lines.subrange(1, lines.len() as int),
                    );
                },
                Err(e) => {
                    lemma_run_tokens_second_start_sound(a, ff, line_start_state(), ts);
                    lemma_tokenize_words_count(words(lines[0]), Seq::empty(), ts);
                },
            }
        },
        Err(e) => {
            lemma_tokenize_words_err_kind(words(lines[0]), Seq::empty(), e);
            assert(false);
        },
    }
}

/// The second-start error is sound: parsing reports a second start marker
/// only on an input that indeed holds at least two start-marker lexemes.
/// With `lemma_second_start_marker_fails` this ties that error to its
/// cause in both directions.
pub proof fn lemma_second_start_error_sound(s: Seq<char>)
    requires
        parse_spec(s) == Err::<AutomataModel, EoaError>(
            EoaError::Structure(StructureKind::SecondStart),
        ),
    ensures
        start_marker_count(s) >= 2,
{
    lemma_run_lines_second_start_sound(empty_model(), false, split_on(s, '\n'));
}

/// Some token of the sequence is a node token carrying `name` with flag
/// `acceptor`.
pub open spec fn tok_declares(ts: Seq<TokenModel>, name: Seq<char>, acceptor: bool) -> bool {
    exists|k: int|
        0 <= k < ts.len() && (#[trigger] ts[k]) is NodeTok && ts[k]->name == name
            && ts[k]->acceptor == acceptor
}

/// Some lexeme of the lines tokenizes as a node carrying `name` with flag
/// `acceptor`.
pub open spec fn input_declares(lines: Seq<Seq<char>>, name: Seq<char>, acceptor: bool) -> bool {
    exists|li: int, wi: int|
        0 <= li < lines.len() && 0 <= wi < words(lines[li]).len() && ((#[trigger] tokenize(
            words(lines[li])[wi],
        )) matches Ok(t) && t is NodeTok && t->name == name && t->acceptor == acceptor)
}

/// A node declared by the store after one accepted step was declared
/// before it, or by the step's own token.
proof fn lemma_step_token_decl_origin(
    a: AutomataModel,
    ff: bool,
    ls: LineState,
    t: TokenModel,
    st: (AutomataModel, bool, LineState),
    nm: Seq<char>,
    fl: bool,
)
    requires
        step_token(a, ff, ls, t) == Ok::<(AutomataModel, bool, LineState), EoaError>(st),
        declares(st.0.nodes, nm, fl),
    ensures
        declares(a.nodes, nm, fl) || (t is NodeTok && t->name == nm && t->acceptor == fl),
{
    match t {
        TokenModel::Start => {
        },
        TokenModel::Conn { symbols } => {
        },
        TokenModel::NodeTok { name, acceptor, stay } => {
            crate::models::lemma_idx_by_name(a.nodes, name);
            let i0 = crate::models::idx_by_name(a.nodes, name);
            let p = merge_node_model(a, name, acceptor);
            let a1 = p->Some_0.0;
            let id = p->Some_0.1;
            if i0 < a.nodes.len() {
                assert(has_node_id(a1.nodes, id)) by {
                    assert(a1.nodes[i0].id == id);
                }
            } else {
                assert(a1.nodes[a.nodes.len() as int].id == id);
            }
            let joined = match (ls.prev, ls.pending) {
                (Some(pv), Some(ss)) => (merge_conn_model(a1, pv, id, ss).0, None::<Seq<Seq<char>>>),
                _ => (a1, ls.pending),
            };
            let a2 = joined.0;
            assert(a2.nodes == a1.nodes);
            if ls.pending_start {
                crate::models::lemma_idx_by_id(a2.nodes, id);
                let idx = idx_by_id(a2.nodes, id);
                let swapped = swap_first_model(a2, idx).nodes;
                assert(st.0.nodes == swapped);
                let w = choose|k: int|
                    0 <= k < swapped.len() && #[trigger] swapped[k].name == nm
                        && swapped[k].acceptor == fl;
                if w == 0 {
                    assert(a2.nodes[idx].name == nm && a2.nodes[idx].acceptor == fl);
                } else if w == idx {
                    assert(a2.nodes[0].name == nm && a2.nodes[0].acceptor == fl);
                } else {
                    assert(a2.nodes[w].name == nm && a2.nodes[w].acceptor == fl);
                }
            }
            assert(declares(a1.nodes, nm, fl));
            if i0 >= a.nodes.len() {
                let w = choose|k: int|
                    0 <= k < a1.nodes.len() && #[trigger] a1.nodes[k].name == nm
                        && a1.nodes[k].acceptor == fl;
                if w < a.nodes.len() {
                    assert(a.nodes[w].name == nm && a.nodes[w].acceptor == fl);
                }
            }
        },
    }
}

/// A node declared by the store after a whole fold was declared before
/// it, or by one of the fold's tokens.
proof fn lemma_run_tokens_decl_origin(
    a: AutomataModel,
    ff: bool,
    ls: LineState,
    ts: Seq<TokenModel>,
    st: (AutomataModel, bool, LineState),
    nm: Seq<char>,
    fl: bool,
)
    requires
        run_tokens(a, ff, ls, ts) == Ok::<(AutomataModel, bool, LineState), EoaError>(st),
        declares(st.0.nodes, nm, fl),
    ensures
        declares(a.nodes, nm, fl) || tok_declares(ts, nm, fl),
    decreases ts.len(),
{
    if ts.len() == 0 {
    } else {
        match step_token(a, ff, ls, ts[0]) {
            Ok(st1) => {
                let rest = ts.subrange(1, ts.len() as int);
                lemma_run_tokens_decl_origin(st1.0, st1.1, st1.2, rest, st, nm, fl);
                if declares(st1.0.nodes, nm, fl) {
                    lemma_step_token_decl_origin(a, ff, ls, ts[0], st1, nm, fl);
                } else {
                    let k = choose|k: int|
                        0 <= k < rest.len() && (#[trigger] rest[k]) is NodeTok && rest[k]->name
                            == nm && rest[k]->acceptor == fl;
                    assert(ts[k + 1] == rest[k]);
                }
            },
            Err(e) => {
                assert(false);
            },
        }
    }
}

/// A merge-conflict failure of one fold exhibits a name declared with one
/// flag by the incoming store or an earlier token, and with the other by
/// the refused token.
proof fn lemma_run_tokens_conflict_sound(
    a: AutomataModel,
    ff: bool,
    ls: LineState,
    ts: Seq<TokenModel>,
) -> (nm: Seq<char>)
    requires
        run_tokens(a, ff, ls, ts) == Err::<(AutomataModel, bool, LineState), EoaError>(
            EoaError::MergeConflict,
        ),
    ensures
        declares(a.nodes, nm, true) || tok_declares(ts, nm, true),
        declares(a.nodes, nm, false) || tok_declares(ts, nm, false),
    decreases ts.len(),
{
    match step_token(a, ff, ls, ts[0]) {
        Err(e) => {
            assert(ts[0] is NodeTok);
            let name = ts[0]->name;
            let acc = ts[0]->acceptor;
            crate::models::lemma_idx_by_name(a.nodes, name);
            let i0 = crate::models::idx_by_name(a.nodes, name);
            assert(i0 < a.nodes.len() && a.nodes[i0].acceptor != acc);
            assert(declares(a.nodes, name, !acc));
            assert(tok_declares(ts, name, acc));
            name
        },
        Ok(st1) => {
            let rest = ts.subrange(1, ts.len() as int);
            let nm = lemma_run_tokens_conflict_sound(st1.0, st1.1, st1.2, rest);
            if declares(st1.0.nodes, nm, true) {
                lemma_step_token_decl_origin(a, ff, ls, ts[0], st1, nm, true);
            } else {
                let k = choose|k: int|
                    0 <= k < rest.len() && (#[trigger] rest[k]) is NodeTok && rest[k]->name == nm
                        && rest[k]->acceptor == true;
                assert(ts[k + 1] == rest[k]);
            }
            if declares(st1.0.nodes, nm, false) {
                lemma_step_token_decl_origin(a, ff, ls, ts[0], st1, nm, false);
            } else {
                let k = choose|k: int|
                    0 <= k < rest.len() && (#[trigger] rest[k]) is NodeTok && rest[k]->name == nm
                        && rest[k]->acceptor == false;
                assert(ts[k + 1] == rest[k]);
            }
            nm
        },
    }
}

proof fn lemma_tokenize_words_len(ws: Seq<Seq<char>>, acc: Seq<TokenModel>, ts: Seq<TokenModel>)
    requires
        tokenize_words_from(ws, acc) == Ok::<Seq<TokenModel>, EoaError>(ts),
    ensures
        ts.len() == acc.len() + ws.len(),
    decreases ws.len(),
{
    if ws.len() == 0 {
    } else {
        match tokenize(ws[0]) {
            Ok(t0) => {
                lemma_tokenize_words_len(ws.subrange(1, ws.len() as int), acc.push(t0), ts);
            },
            Err(e) => {
                assert(false);
            },
        }
    }
}

/// Carries a token-level declaration of the first line up to the input.
proof fn lemma_tok_to_input_declares(
    lines: Seq<Seq<char>>,
    ts: Seq<TokenModel>,
    nm: Seq<char>,
    fl: bool,
)
    requires
        lines.len() > 0,
        tokenize_words(words(lines[0])) == Ok::<Seq<TokenModel>, EoaError>(ts),
        tok_declares(ts, nm, fl),
    ensures
        input_declares(lines, nm, fl),
{
    let ws = words(lines[0]);
    let k = choose|k: int|
        0 <= k < ts.len() && (#[trigger] ts[k]) is NodeTok && ts[k]->name == nm
            && ts[k]->acceptor == fl;
    lemma_tokenize_words_len(ws, Seq::empty(), ts);
    lemma_tokenize_words_pos(ws, Seq::empty(), ts, k);
    assert(tokenize(words(lines[0])[k]) == Ok::<TokenModel, EoaError>(ts[k]));
}

proof fn lemma_run_lines_conflict_sound(a: AutomataModel, ff: bool, lines: Seq<Seq<char>>) -> (nm:
    Seq<char>)
    requires
        run_lines(a, ff, lines) == Err::<(AutomataModel, bool), EoaError>(EoaError::MergeConflict),
    ensures
        declares(a.nodes, nm, true) || input_declares(lines, nm, true),
        declares(a.nodes, nm, false) || input_declares(lines, nm, false),
    decreases lines.len(),
{
    match tokenize_words(words(lines[0])) {
        Err(e) => {
            lemma_tokenize_words_err_kind(words(lines[0]), Seq::empty(), e);
            assert(false);
            Seq::empty()
        },
        Ok(ts) => {
            match run_tokens(a, ff, line_start_state(), ts) {
                Err(e) => {
                    let nm = lemma_run_tokens_conflict_sound(a, ff, line_start_state(), ts);
                    if tok_declares(ts, nm, true) {
                        lemma_tok_to_input_declares(lines, ts, nm, true);
                    }
                    if tok_declares(ts, nm, false) {
                        lemma_tok_to_input_declares(lines, ts, nm, false);
                    }
                    nm
                },
                Ok(st1) => {
                    let rest = lines.subrange(1, lines.len() as int);
                    let nm = lemma_run_lines_conflict_sound(st1.0, st1.1, rest);
                    if declares(st1.0.nodes, nm, true) {
                        lemma_run_tokens_decl_origin(a, ff, line_start_state(), ts, st1, nm, true);
                        if tok_declares(ts, nm, true) {
                            lemma_tok_to_input_declares(lines, ts, nm, true);
                        }
                    } else {
                        lemma_shift_input_declares(lines, nm, true);
                    }
                    if declares(st1.0.nodes, nm, false) {
                        lemma_run_tokens_decl_origin(a, ff, line_start_state(), ts, st1, nm, false);
                        if tok_declares(ts, nm, false) {
                            lemma_tok_to_input_declares(lines, ts, nm, false);
                        }
                    } else {
                        lemma_shift_input_declares(lines, nm, false);
                    }
                    nm
                },
            }
        },
    }
}

/// A declaration among the later lines is a declaration of the whole.
proof fn lemma_shift_input_declares(lines: Seq<Seq<char>>, nm: Seq<char>, fl: bool)
    requires
        lines.len() > 0,
        input_declares(lines.subrange(1, lines.len() as int), nm, fl),
    ensures
        input_declares(lines, nm, fl),
{
    let rest = lines.subrange(1, lines.len() as int);
    let (li, wi): (int, int) = choose|li: int, wi: int|
        0 <= li < rest.len() && 0 <= wi < words(rest[li]).len() && ((#[trigger] tokenize(
            words(rest[li])[wi],
        )) matches Ok(t) && t is NodeTok && t->name == nm && t->acceptor == fl);
    assert(lines[li + 1] == rest[li]);
    assert((tokenize(words(lines[li + 1])[wi]) matches Ok(t) && t is NodeTok && t->name == nm
        && t->acceptor == fl));
}

/// The merge-conflict error is sound: parsing reports one only on an
/// input among whose lexemes some node name is declared both as an
/// acceptor and as a non-acceptor. With `lemma_acceptor_conflict_fails`
/// this ties the error to its cause in both directions.
pub proof fn lemma_merge_conflict_error_sound(s: Seq<char>) -> (name: Seq<char>)
    requires
        parse_spec(s) == Err::<AutomataModel, EoaError>(EoaError::MergeConflict),
    ensures
        input_declares(split_on(s, '\n'), name, true),
        input_declares(split_on(s, '\n'), name, false),
{
    lemma_run_lines_conflict_sound(empty_model(), false, split_on(s, '\n'))
}

/// A node name reused with a different acceptor flag aborts the parse: no
/// input two of whose lexemes tokenize as nodes of the same name with
/// different acceptor flags ever parses, wherever the two lexemes stand.
pub proof fn lemma_acceptor_conflict_fails(s: Seq<char>, li1: int, wi1: int, li2: int, wi2: int)
    requires
        ({
            let lines = split_on(s, '\n');
            &&& 0 <= li1 < lines.len()
            &&& 0 <= wi1 < words(lines[li1]).len()
            &&& 0 <= li2 < lines.len()
            &&& 0 <= wi2 < words(lines[li2]).len()
            &&& tokenize(words(lines[li1])[wi1]) matches Ok(t1) && t1 is NodeTok && (tokenize(
                words(lines[li2])[wi2],
            ) matches Ok(t2) && t2 is NodeTok && t1->name == t2->name && t1->acceptor
                != t2->acceptor)
        }),
    ensures
        parse_spec(s) is Err,
{
    let lines = split_on(s, '\n');
    if parse_spec(s) is Ok {
        match run_lines(empty_model(), false, lines) {
            Ok(st) => {
                assert(wf_model(empty_model()));
                lemma_run_lines_props(empty_model(), false, lines, st);
                lemma_run_lines_declares(empty_model(), false, lines, st, li1, wi1);
                lemma_run_lines_declares(empty_model(), false, lines, st, li2, wi2);
                let t1 = tokenize(words(lines[li1])[wi1])->Ok_0;
                let nm = t1->name;
                let k1 = choose|k: int|
                    0 <= k < st.0.nodes.len() && #[trigger] st.0.nodes[k].name == nm
                        && st.0.nodes[k].acceptor == true;
                let k2 = choose|k: int|
                    0 <= k < st.0.nodes.len() && #[trigger] st.0.nodes[k].name == nm
                        && st.0.nodes[k].acceptor == false;
                assert(declares(st.0.nodes, nm, true));
                assert(declares(st.0.nodes, nm, false));
                assert(k1 != k2 ==> st.0.nodes[k1].name != st.0.nodes[k2].name);
                assert(false);
            },
            Err(e) => {
                assert(false);
            },
        }
    }
}

/// A second unlabelled start marker anywhere in the input aborts the
/// parse, however many nodes or lines separate the two markers: no input
/// holding two start-marker lexemes ever parses.
pub proof fn lemma_second_start_marker_fails(s: Seq<char>)
    requires
        start_marker_count(s) >= 2,
    ensures
        parse_spec(s) is Err,
{
    if parse_spec(s) is Ok {
        match run_lines(empty_model(), false, split_on(s, '\n')) {
            Ok(st) => {
                assert(wf_model(empty_model()));
                lemma_run_lines_props(empty_model(), false, split_on(s, '\n'), st);
                assert(false);
            },
            Err(e) => {
                assert(false);
            },
        }
    }
}

/// A lexeme written `(`name`)^`tail, with `)` not occurring in the name,
/// tokenizes as an acceptor node of that name whose self-loop symbols are
/// the tail split on commas.
pub proof fn lemma_acceptor_selfloop_token(name: Seq<char>, tail: Seq<char>)
    requires
        !name.contains(')'),
    ensures
        tokenize(seq!['('] + name + seq![')', '^'] + tail) == Ok::<TokenModel, EoaError>(
            TokenModel::NodeTok { name, acceptor: true, stay: split_on(tail, ',') },
        ),
{
    let w = seq!['('] + name + seq![')', '^'] + tail;
    let e: int = name.len() as int + 1;
    assert(w.len() == name.len() + 3 + tail.len());
    assert(w[0] == '(');
    assert(w[e as int] == ')');
    assert(w[e + 1] == '^');
    assert forall|m: int| 0 <= m < e implies w[m] != ')' by {
        if m > 0 {
            assert(w[m] == name[m - 1]);
            if name[m - 1] == ')' {
                assert(name.contains(')'));
            }
        }
    }
    crate::text::lemma_find_char_at(w, ')', e as int);
    assert(w.subrange(1, e as int) =~= name);
    assert(w.subrange(e + 2, w.len() as int) =~= tail);
}

/// After an accepted node token carrying self-loop symbols, the store
/// holds a connection from that node to itself whose symbols end with
/// those symbols, in order.
pub proof fn lemma_node_selfloop_connection(
    a: AutomataModel,
    ff: bool,
    ls: LineState,
    t: TokenModel,
    st: (AutomataModel, bool, LineState),
)
    requires
        step_token(a, ff, ls, t) == Ok::<(AutomataModel, bool, LineState), EoaError>(st),
        t is NodeTok,
        t->stay.len() > 0,
    ensures
        st.2.prev matches Some(id) && exists|j: int|
            0 <= j < st.0.connections.len() && #[trigger] st.0.connections[j].from == id
                && st.0.connections[j].to == id && t->stay.is_suffix_of(
                st.0.connections[j].symbols,
            ),
{
    let name = t->name;
    let acceptor = t->acceptor;
    let stay = t->stay;
    let p = merge_node_model(a, name, acceptor);
    let a1 = p->Some_0.0;
    let id = p->Some_0.1;
    let joined = match (ls.prev, ls.pending) {
        (Some(pv), Some(ss)) => (merge_conn_model(a1, pv, id, ss).0, None::<Seq<Seq<char>>>),
        _ => (a1, ls.pending),
    };
    let a2 = joined.0;
    let a3 = if ls.pending_start {
        swap_first_model(a2, idx_by_id(a2.nodes, id))
    } else {
        a2
    };
    let a4 = merge_conn_model(a3, id, id, stay).0;
    assert(st.0 == a4);
    assert(st.2.prev == Some(id));
    crate::models::lemma_idx_by_pair(a3.connections, id, id);
    let i = crate::models::idx_by_pair(a3.connections, id, id);
    if i < a3.connections.len() {
        assert(a4.connections[i].from == id && a4.connections[i].to == id);
        assert(stay.is_suffix_of(a4.connections[i].symbols)) by {
            let all = a3.connections[i].symbols + stay;
            assert(all.subrange(all.len() - stay.len(), all.len() as int) =~= stay);
        }
    } else {
        let j = a3.connections.len() as int;
        assert(a4.connections[j].from == id && a4.connections[j].to == id);
        assert(stay.is_suffix_of(a4.connections[j].symbols)) by {
            assert(stay.subrange(0, stay.len() as int) =~= stay);
        }
    }
}

/// Parses a whole input into an automaton store, exactly as `parse_spec`
/// describes: the first malformed lexeme, misplaced token or merge
/// conflict aborts the run with its error and no store is returned. The
/// length bound keeps the id counter within the machine's integer range.
pub fn parse(s: &str) -> (r: Result<Automata, EoaError>)
    requires
        s@.len() < usize::MAX,
    ensures
        match r {
            Ok(a) => parse_spec(s@) == Ok::<AutomataModel, EoaError>(a@) && a.wf(),
            Err(e) => parse_spec(s@) == Err::<AutomataModel, EoaError>(e),
        },
{
    let lines = split_on_char(s, '\n');
    let ghost lviews = seq_views(lines@);
    let mut automata = Automata::default();
    let mut first_found = false;
    let ghost mut wdone: int = 0;
    proof {
        lemma_lines_words_bound(s@);
        assert(lviews.subrange(0, lviews.len() as int) =~= lviews);
    }
    let nl = lines.len();
    let mut li: usize = 0;
    while li < nl
        invariant
            0 <= li <= nl,
            s@.len() < usize::MAX,
            lviews == seq_views(lines@),
            lviews == split_on(s@, '\n'),
            nl == lines@.len(),
            nl == lviews.len(),
            automata.wf(),
            wdone >= 0,
            automata@.id_counter <= 2 * wdone,
            2 * (wdone + words_total(lviews.subrange(li as int, nl as int))) <= s@.len() + 1,
            run_lines(automata@, first_found, lviews.subrange(li as int, nl as int)) == run_lines(
                empty_model(),
                false,
                lviews,
            ),
        decreases nl - li,
    {
        let ghost rem_lines = lviews.subrange(li as int, nl as int);
        proof {
            lemma_words_total_tail(lviews, li as int);
            assert(rem_lines[0] == lviews[li as int]);
            assert(rem_lines.subrange(1, rem_lines.len() as int) =~= lviews.subrange(
                li as int + 1,
                nl as int,
            ));
        }
        let line = &lines[li];
        let wvec = split_whitespace_words(line.as_str());
        let ghost wviews = seq_views(wvec@);
        proof {
            assert(wviews == words(lviews[li as int]));
            crate::text::lemma_words_nonempty(lviews[li as int]);
        }
        let wn = wvec.len();
        let mut tokens: Vec<Token> = Vec::new();
        let mut wi: usize = 0;
        proof {
            assert(wviews.subrange(0, wn as int) =~= wviews);
            assert(token_models(Seq::<Token>::empty()) =~= Seq::<TokenModel>::empty());
        }
        while wi < wn
            invariant
                0 <= wi <= wn,
                wn == wvec@.len(),
                wviews == seq_views(wvec@),
                tokens@.len() == wi,
                0 <= li < nl,
                nl == lviews.len(),
                lviews == split_on(s@, '\n'),
                rem_lines == lviews.subrange(li as int, nl as int),
                rem_lines[0] == lviews[li as int],
                rem_lines.subrange(1, rem_lines.len() as int) == lviews.subrange(
                    li as int + 1,
                    nl as int,
                ),
                wviews == words(lviews[li as int]),
                run_lines(automata@, first_found, rem_lines) == run_lines(
                    empty_model(),
                    false,
                    lviews,
                ),
                forall|k: int| 0 <= k < wn ==> #[trigger] wviews[k].len() >= 1,
                tokenize_words_from(wviews.subrange(wi as int, wn as int), token_models(tokens@))
                    == tokenize_words(wviews),
            decreases wn - wi,
        {
            let ghost wrem = wviews.subrange(wi as int, wn as int);
            proof {
                assert(wrem[0] == wviews[wi as int]);
                assert(wrem.subrange(1, wrem.len() as int) =~= wviews.subrange(
                    wi as int + 1,
                    wn as int,
                ));
                assert(wvec@[wi as int]@ == wviews[wi as int]);
            }
            match Token::from_str(wvec[wi].as_str()) {
                Ok(t) => {
                    proof {
                        assert(token_models(tokens@.push(t)) =~= token_models(tokens@).push(t@));
                    }
                    tokens.push(t);
                },
                Err(e) => {
                    proof {
                        assert(tokenize_words(wviews) == Err::<Seq<TokenModel>, EoaError>(e));
                        assert(run_lines(automata@, first_found, rem_lines) == Err::<
                            (AutomataModel, bool),
                            EoaError,
                        >(e));
                        assert(parse_spec(s@) == Err::<AutomataModel, EoaError>(e));
                    }
                    return Err(e);
                },
            }
            wi = wi + 1;
        }
        let ghost ts_all = token_models(tokens@);
        let ghost tn0: int = tokens@.len() as int;
        proof {
            assert(wviews.subrange(wn as int, wn as int) =~= Seq::<Seq<char>>::empty());
            assert(tokenize_words(wviews) == Ok::<Seq<TokenModel>, EoaError>(ts_all));
        }
        let mut prev_start = false;
        let mut prev_node: Option<usize> = None;
        let mut prev_syms: Option<Vec<String>> = None;
        proof {
            assert(line_state_model(false, None, &None::<Vec<String>>) == line_start_state());
            assert(run_lines(automata@, first_found, rem_lines) == (match run_tokens(
                automata@,
                first_found,
                line_start_state(),
                ts_all,
            ) {
                Err(e) => Err::<(AutomataModel, bool), EoaError>(e),
                Ok(st) => run_lines(st.0, st.1, lviews.subrange(li as int + 1, nl as int)),
            }));
        }
        while tokens.len() > 0
            invariant
                s@.len() < usize::MAX,
                automata.wf(),
                0 <= tokens@.len() <= tn0,
                0 <= li < nl,
                nl == lviews.len(),
                lviews == split_on(s@, '\n'),
                wdone >= 0,
                2 * (wdone + tn0 + words_total(lviews.subrange(li as int + 1, nl as int)))
                    <= s@.len() + 1,
                automata@.id_counter + (match prev_syms {
                    Some(_) => 1int,
                    None => 0int,
                }) <= 2 * (wdone + tn0 - tokens@.len()),
                (match prev_node {
                    Some(p) => has_node_id(automata@.nodes, p as int),
                    None => true,
                }),
                (match run_tokens(
                    automata@,
                    first_found,
                    line_state_model(prev_start, prev_node, &prev_syms),
                    token_models(tokens@),
                ) {
                    Ok(st) => run_lines(st.0, st.1, lviews.subrange(li as int + 1, nl as int)),
                    Err(e) => Err::<(AutomataModel, bool), EoaError>(e),
                }) == run_lines(empty_model(), false, lviews),
            decreases tokens@.len(),
        {
            let ghost tm_all = token_models(tokens@);
            let ghost ls0 = line_state_model(prev_start, prev_node, &prev_syms);
            let ghost a_start = automata@;
            let ghost ff0 = first_found;
            let ghost td: int = tn0 - tm_all.len();
            let t = tokens.remove(0);
            proof {
                assert(t@ == tm_all[0]);
                assert(token_models(tokens@) =~= tm_all.subrange(1, tm_all.len() as int));
                assert(run_tokens(a_start, ff0, ls0, tm_all) == (match step_token(
                    a_start,
                    ff0,
                    ls0,
                    tm_all[0],
                ) {
                    Err(e) => Err::<(AutomataModel, bool, LineState), EoaError>(e),
                    Ok(st) => run_tokens(st.0, st.1, st.2, tm_all.subrange(1, tm_all.len() as int)),
                }));
                assert(a_start.id_counter <= 2 * (wdone + td));
            }
            match t {
                Token::Arrow(None) => {
                    if first_found {
                        proof {
                            assert(step_token(a_start, ff0, ls0, t@) == Err::<
                                (AutomataModel, bool, LineState),
                                EoaError,
                            >(EoaError::Structure(StructureKind::SecondStart)));
                            assert(parse_spec(s@) == Err::<AutomataModel, EoaError>(
                                EoaError::Structure(StructureKind::SecondStart),
                            ));
                        }
                        return Err(EoaError::Structure(StructureKind::SecondStart));
                    }
                    first_found = true;
                    prev_start = true;
                    proof {
                        assert(step_token(a_start, ff0, ls0, t@) == Ok::<
                            (AutomataModel, bool, LineState),
                            EoaError,
                        >(
                            (
                                automata@,
                                first_found,
                                line_state_model(prev_start, prev_node, &prev_syms),
                            ),
                        ));
                    }
                },
                Token::Arrow(Some(v)) => {
                    if prev_node.is_none() {
                        proof {
                            assert(step_token(a_start, ff0, ls0, t@) == Err::<
                                (AutomataModel, bool, LineState),
                                EoaError,
                            >(EoaError::Structure(StructureKind::ArrowBehindNothing)));
                            assert(parse_spec(s@) == Err::<AutomataModel, EoaError>(
                                EoaError::Structure(StructureKind::ArrowBehindNothing),
                            ));
                        }
                        return Err(EoaError::Structure(StructureKind::ArrowBehindNothing));
                    }
                    if prev_start {
                        proof {
                            assert(step_token(a_start, ff0, ls0, t@) == Err::<
                                (AutomataModel, bool, LineState),
                                EoaError,
                            >(EoaError::Structure(StructureKind::ArrowAfterStart)));
                            assert(parse_spec(s@) == Err::<AutomataModel, EoaError>(
                                EoaError::Structure(StructureKind::ArrowAfterStart),
                            ));
                        }
                        return Err(EoaError::Structure(StructureKind::ArrowAfterStart));
                    }
                    prev_syms = Some(v);
                    proof {
                        assert(step_token(a_start, ff0, ls0, t@) == Ok::<
                            (AutomataModel, bool, LineState),
                            EoaError,
                        >(
                            (
                                automata@,
                                first_found,
                                line_state_model(prev_start, prev_node, &prev_syms),
                            ),
                        ));
                    }
                },
                Token::Node(tn) => {
                    let ghost nm = tn.name@;
                    let ghost acc = tn.acceptor;
                    let ghost stay_m = seq_views(tn.stay@);
                    proof {
                        assert(automata@.id_counter < usize::MAX);
                    }
                    let id = match automata.push_or_merge_node(
                        Node { id: 0, name: tn.name, acceptor: tn.acceptor },
                    ) {
                        Ok(id) => id,
                        Err(_) => {
                            proof {
                                assert(step_token(a_start, ff0, ls0, t@) == Err::<
                                    (AutomataModel, bool, LineState),
                                    EoaError,
                                >(EoaError::MergeConflict));
                                assert(parse_spec(s@) == Err::<AutomataModel, EoaError>(
                                    EoaError::MergeConflict,
                                ));
                            }
                            return Err(EoaError::MergeConflict);
                        },
                    };
                    let ghost a1v = automata@;
                    proof {
                        assert(merge_node_model(a_start, nm, acc) == Some((a1v, id as int)));
                        assert(has_node_id(a1v.nodes, id as int));
                        assert(a1v.id_counter <= a_start.id_counter + 1);
                    }
                    prev_syms = match prev_syms {
                        Some(syms) => match prev_node {
                            Some(pv) => {
                                proof {
                                    let i0 = crate::models::idx_by_name(a_start.nodes, nm);
                                    if i0 >= a_start.nodes.len() {
                                        crate::models::lemma_push_keeps_ids(
                                            a_start.nodes,
                                            crate::models::NodeModel {
                                                id: a_start.id_counter + 1,
                                                name: nm,
                                                acceptor: acc,
                                            },
                                            pv as int,
                                        );
                                    }
                                    assert(has_node_id(a1v.nodes, pv as int));
                                    assert(automata@.id_counter < usize::MAX);
                                }
                                let _ = automata.push_or_merge_connection(
                                    Connection { id: 0, from: pv, to: id, symbols: syms },
                                );
                                prev_node = None;
                                None
                            },
                            None => Some(syms),
                        },
                        None => None,
                    };
                    let ghost a2v = automata@;
                    proof {
                        assert(a2v == (match (ls0.prev, ls0.pending) {
                            (Some(pv), Some(ss)) => merge_conn_model(a1v, pv, id as int, ss).0,
                            _ => a1v,
                        }));
                        assert(a2v.nodes == a1v.nodes);
                        assert(a2v.id_counter <= a1v.id_counter + 1);
                        assert(has_node_id(a2v.nodes, id as int));
                    }
                    if prev_start {
                        let idx = automata.index_of_id(id);
                        automata.set_input(idx);
                    }
                    prev_start = false;
                    let ghost a3v = automata@;
                    proof {
                        assert(a3v == (if ls0.pending_start {
                            swap_first_model(a2v, idx_by_id(a2v.nodes, id as int))
                        } else {
                            a2v
                        }));
                        assert(a3v.id_counter == a2v.id_counter);
                        if ls0.pending_start {
                            crate::models::lemma_swap_keeps_ids(
                                a2v,
                                idx_by_id(a2v.nodes, id as int),
                                id as int,
                            );
                        }
                        assert(has_node_id(a3v.nodes, id as int));
                    }
                    if tn.stay.len() > 0 {
                        proof {
                            assert(automata@.id_counter < usize::MAX);
                        }
                        let _ = automata.push_or_merge_connection(
                            Connection { id: 0, from: id, to: id, symbols: tn.stay },
                        );
                    }
                    prev_node = Some(id);
                    proof {
                        assert(automata@ == (if stay_m.len() > 0 {
                            merge_conn_model(a3v, id as int, id as int, stay_m).0
                        } else {
                            a3v
                        }));
                        assert(automata@.id_counter <= a3v.id_counter + 1);
                        assert(has_node_id(automata@.nodes, id as int));
                        assert(step_token(a_start, ff0, ls0, t@) == Ok::<
                            (AutomataModel, bool, LineState),
                            EoaError,
                        >(
                            (
                                automata@,
                                first_found,
                                line_state_model(prev_start, prev_node, &prev_syms),
                            ),
                        ));
                    }
                },
            }
        }
        proof {
            assert(token_models(tokens@) =~= Seq::<TokenModel>::empty());
            assert(run_tokens(
                automata@,
                first_found,
                line_state_model(prev_start, prev_node, &prev_syms),
                token_models(tokens@),
            ) == Ok::<(AutomataModel, bool, LineState), EoaError>(
                (
                    automata@,
                    first_found,
                    line_state_model(prev_start, prev_node, &prev_syms),
                ),
            ));
            assert(run_lines(automata@, first_found, lviews.subrange(li as int + 1, nl as int))
                == run_lines(empty_model(), false, lviews));
            wdone = wdone + tn0;
        }
        li = li + 1;
    }
    proof {
        assert(lviews.subrange(nl as int, nl as int) =~= Seq::<Seq<char>>::empty());
        assert(run_lines(empty_model(), false, lviews) == Ok::<(AutomataModel, bool), EoaError>(
            (automata@, first_found),
        ));
        assert(parse_spec(s@) == Ok::<AutomataModel, EoaError>(automata@));
    }
    Ok(automata)
}

} // verus!
