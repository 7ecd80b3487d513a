//! Splitting HTML source into tag and text tokens.
use vstd::prelude::*;
use crate::text::{graphemes, spec_graphemes, str_views};

verus! {

/// A token of HTML source: the inside of a `<...>` tag, or a run of text.
#[derive(Debug)]
pub enum Token<'a> {
    Tag(&'a str),
    Text(&'a str),
}

/// The mathematical form of a token.
pub enum SpecToken {
    Tag(Seq<char>),
    Text(Seq<char>),
}

impl<'a> View for Token<'a> {
    type V = SpecToken;

    open spec fn view(&self) -> SpecToken {
        match self {
            Token::Tag(t) => SpecToken::Tag(t@),
            Token::Text(t) => SpecToken::Text(t@),
        }
    }
}

/// State of the tokenizer after a prefix of the grapheme clusters: the
/// tokens emitted, the characters read since the last `<` or `>`, and whether
/// a `<` was the last delimiter seen.
pub struct LexState {
    pub tokens: Seq<SpecToken>,
    pub cur: Seq<char>,
    pub in_tag: bool,
}

pub open spec fn is_open(g: Seq<char>) -> bool {
    g == seq!['<']
}

pub open spec fn is_close(g: Seq<char>) -> bool {
    g == seq!['>']
}

/// One grapheme cluster of input. A `<` ends any pending non-empty text and
/// opens a tag; a `>` ends the pending characters as a tag (possibly empty);
/// every other cluster is appended to the pending characters.
pub open spec fn lex_step(st: LexState, g: Seq<char>) -> LexState {
    if is_open(g) {
        LexState {
            tokens: if st.cur.len() > 0 {
                st.tokens.push(SpecToken::Text(st.cur))
            } else {
                st.tokens
            },
            cur: seq![],
            in_tag: true,
        }
    } else if is_close(g) {
        LexState { tokens: st.tokens.push(SpecToken::Tag(st.cur)), cur: seq![], in_tag: false }
    } else {
        LexState { tokens: st.tokens, cur: st.cur + g, in_tag: st.in_tag }
    }
}

pub open spec fn lex_state(gs: Seq<Seq<char>>) -> LexState
    decreases gs.len(),
{
    if gs.len() == 0 {
        LexState { tokens: seq![], cur: seq![], in_tag: false }
    } else {
        lex_step(lex_state(gs.drop_last()), gs.last())
    }
}

/// The tokens of a sequence of grapheme clusters: pending characters left
/// at the end become a text token unless a tag is still open, in which case
/// they are dropped.
pub open spec fn lex_clusters(gs: Seq<Seq<char>>) -> Seq<SpecToken> {
    let st = lex_state(gs);
    if !st.in_tag && st.cur.len() > 0 {
        st.tokens.push(SpecToken::Text(st.cur))
    } else {
        st.tokens
    }
}

/// The tokens of HTML source.
pub open spec fn spec_lex(source: Seq<char>) -> Seq<SpecToken> {
    lex_clusters(spec_graphemes(source))
}

pub open spec fn token_views<'a>(ts: Seq<Token<'a>>) -> Seq<SpecToken> {
    ts.map_values(|t: Token<'a>| t@)
}

/// The source text a token stands for: a text token is its text, a tag is
/// its inside between `<` and `>`.
pub open spec fn token_source(t: SpecToken) -> Seq<char> {
    match t {
        SpecToken::Text(s) => s,
        SpecToken::Tag(s) => seq!['<'] + s + seq!['>'],
    }
}

/// The source text of a sequence of tokens, written one after another.
pub open spec fn unlex(ts: Seq<SpecToken>) -> Seq<char>
    decreases ts.len(),
{
    if ts.len() == 0 {
        seq![]
    } else {
        unlex(ts.drop_last()) + token_source(ts.last())
    }
}

/// Whether the `<` and `>` clusters of a prefix alternate, starting with
/// `<`: `Some(open)` tells whether a `<` is still unmatched, `None` that
/// they do not alternate.
pub open spec fn delimiters(gs: Seq<Seq<char>>) -> Option<bool>
    decreases gs.len(),
{
    if gs.len() == 0 {
        Some(false)
    } else {
        match delimiters(gs.drop_last()) {
            None => None,
            Some(open) => if is_open(gs.last()) {
                if open { None } else { Some(true) }
            } else if is_close(gs.last()) {
                if open { Some(false) } else { None }
            } else {
                Some(open)
            },
        }
    }
}

proof fn lemma_lex_state_source(gs: Seq<Seq<char>>, open: bool)
    requires
        delimiters(gs) == Some(open),
    ensures
        lex_state(gs).in_tag == open,
        unlex(lex_state(gs).tokens) + (if open { seq!['<'] } else { seq![] }) + lex_state(gs).cur
            == gs.flatten_alt(),
    decreases gs.len(),
{
    if gs.len() > 0 {
        let pre = gs.drop_last();
        let g = gs.last();
        let was = delimiters(pre)->0;
        lemma_lex_state_source(pre, was);
        let st = lex_state(pre);
        let nx = lex_state(gs);
        if is_open(g) {
            if st.cur.len() > 0 {
                assert(nx.tokens.drop_last() == st.tokens);
            }
            assert(unlex(nx.tokens) + seq!['<'] + nx.cur =~= gs.flatten_alt());
        } else if is_close(g) {
            assert(nx.tokens.drop_last() == st.tokens);
            assert(unlex(nx.tokens) + nx.cur =~= gs.flatten_alt());
        } else {
            assert(unlex(nx.tokens) + (if open { seq!['<'] } else { seq![] }) + nx.cur
                =~= gs.flatten_alt());
        }
    }
}

/// Lexing loses nothing of markup whose `<` and `>` alternate and close:
/// writing the tokens back gives the clusters' text again.
pub proof fn lemma_lex_round_trip(gs: Seq<Seq<char>>)
    requires
        delimiters(gs) == Some(false),
    ensures
        unlex(lex_clusters(gs)) == gs.flatten_alt(),
{
    lemma_lex_state_source(gs, false);
    let st = lex_state(gs);
    if st.cur.len() > 0 {
        let ts = st.tokens.push(SpecToken::Text(st.cur));
        assert(ts.drop_last() == st.tokens);
        assert(unlex(ts) =~= gs.flatten_alt());
    } else {
        assert(unlex(st.tokens) =~= gs.flatten_alt());
    }
}

/// Whether a cluster is the single character `c`.
fn cluster_is(g: &str, c: char) -> (r: bool)
    ensures
        r == (g@ == seq![c]),
{
    if g.unicode_len() == 1 {
        let d = g.get_char(0);
        if d == c {
            assert(g@ =~= seq![c]);
            true
        } else {
            false
        }
    } else {
        false
    }
}

impl<'a> Token<'a> {
    /// Splits `source` into tokens, one grapheme cluster at a time.
    pub fn lex(source: &'a str) -> (tokens: Vec<Token<'a>>)
        ensures
            token_views(tokens@) == spec_lex(source@),
            delimiters(spec_graphemes(source@)) == Some(false) ==> unlex(token_views(tokens@))
                == source@,
    {
        let gs = graphemes(source);
        Token::lex_graphemes(source, &gs)
    }

    /// Splits `source` into tokens, given its grapheme clusters in order.
    pub fn lex_graphemes(source: &'a str, gs: &Vec<&str>) -> (tokens: Vec<Token<'a>>)
        requires
            str_views(gs@).flatten() == source@,
            forall|i: int| 0 <= i < gs@.len() ==> (#[trigger] gs@[i])@.len() > 0,
        ensures
            token_views(tokens@) == lex_clusters(str_views(gs@)),
            delimiters(str_views(gs@)) == Some(false) ==> unlex(token_views(tokens@)) == source@,
    {
        let total = source.unicode_len();
        let ghost views = str_views(gs@);
        let mut tokens: Vec<Token<'a>> = Vec::new();
        let mut start: usize = 0;
        let mut end: usize = 0;
        let mut in_tag = false;
        let n = gs.len();
        let mut k: usize = 0;
        proof {
            views.lemma_flatten_and_flatten_alt_are_equivalent();
            assert(views.subrange(0, 0) =~= Seq::<Seq<char>>::empty());
        }
        while k < n
            invariant
                n == gs@.len(),
                views == str_views(gs@),
                views.flatten_alt() == source@,
                forall|i: int| 0 <= i < gs@.len() ==> (#[trigger] gs@[i])@.len() > 0,
                k <= n,
                start <= end,
                total == source@.len(),
                end <= source@.len(),
                end == views.subrange(0, k as int).flatten_alt().len(),
                views.subrange(0, k as int).flatten_alt() == source@.subrange(0, end as int),
                token_views(tokens@) == lex_state(views.subrange(0, k as int)).tokens,
                source@.subrange(start as int, end as int) == lex_state(
                    views.subrange(0, k as int),
                ).cur,
                in_tag == lex_state(views.subrange(0, k as int)).in_tag,
            decreases n - k,
        {
            let g = gs[k];
            let ghost pre = views.subrange(0, k as int);
            let ghost nxt = views.subrange(0, k + 1);
            proof {
                assert(nxt.drop_last() =~= pre);
                assert(nxt.last() == g@);
                lemma_flatten_alt_prefix(views, k as int);
            }
            if cluster_is(g, '<') {
                in_tag = true;
                if end != start {
                    tokens.push(Token::Text(source.substring_char(start, end)));
                    assert(token_views(tokens@) =~= lex_state(nxt).tokens);
                } else {
                    assert(token_views(tokens@) =~= lex_state(nxt).tokens);
                }
                end = end + 1;
                start = end;
            } else if cluster_is(g, '>') {
                in_tag = false;
                tokens.push(Token::Tag(source.substring_char(start, end)));
                assert(token_views(tokens@) =~= lex_state(nxt).tokens);
                end = end + 1;
                start = end;
            } else {
                let ghost old_end = end;
                end = end + g.unicode_len();
                proof {
                    let f = nxt.flatten_alt();
                    assert(f == pre.flatten_alt() + g@);
                    assert(source@.subrange(0, end as int) == f);
                    assert(source@.subrange(old_end as int, end as int) =~= f.subrange(
                        old_end as int,
                        end as int,
                    ));
                    assert(f.subrange(old_end as int, end as int) =~= g@);
                    assert(source@.subrange(start as int, end as int) =~= source@.subrange(
                        start as int,
                        old_end as int,
                    ) + source@.subrange(old_end as int, end as int));
                }
            }
            proof {
                assert(source@.subrange(start as int, end as int) =~= lex_state(nxt).cur);
            }
            k = k + 1;
        }
        proof {
            assert(views.subrange(0, n as int) =~= views);
        }
        if !in_tag && end != start {
            tokens.push(Token::Text(source.substring_char(start, end)));
        }
        assert(token_views(tokens@) =~= lex_clusters(views));
        proof {
            if delimiters(views) == Some(false) {
                lemma_lex_round_trip(views);
            }
        }
        tokens
    }
}

/// Extending a prefix by one cluster extends its concatenation by that
/// cluster, and every prefix's concatenation is a prefix of the whole.
pub proof fn lemma_flatten_alt_prefix(v: Seq<Seq<char>>, k: int)
    requires
        0 <= k < v.len(),
    ensures
        v.subrange(0, k + 1).flatten_alt() == v.subrange(0, k).flatten_alt() + v[k],
        v.subrange(0, k + 1).flatten_alt().len() <= v.flatten_alt().len(),
        v.flatten_alt().subrange(0, v.subrange(0, k + 1).flatten_alt().len() as int)
            == v.subrange(0, k + 1).flatten_alt(),
    decreases v.len() - k,
{
    assert(v.subrange(0, k + 1).drop_last() =~= v.subrange(0, k));
    if k + 1 == v.len() {
        assert(v.subrange(0, k + 1) =~= v);
        assert(v.flatten_alt().subrange(0, v.flatten_alt().len() as int) =~= v.flatten_alt());
    } else {
        lemma_flatten_alt_prefix(v, k + 1);
        let a = v.subrange(0, k + 1).flatten_alt();
        let b = v.subrange(0, k + 2).flatten_alt();
        assert(b == a + v[k + 1]);
        assert(b.subrange(0, a.len() as int) =~= a);
        assert(v.flatten_alt().subrange(0, a.len() as int) =~= b.subrange(0, a.len() as int));
    }
}

} // verus!
