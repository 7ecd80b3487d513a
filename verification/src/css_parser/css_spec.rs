//! The CSS parser as functions of the source and a position in it.
use vstd::prelude::*;
use crate::text::{is_ascii_white, lowercase};

verus! {

/// A selector as mathematical values.
pub enum SpecSelector {
    Tag(Seq<char>),
    Descendant(Box<SpecSelector>, Box<SpecSelector>),
}

/// Number of tag selectors in a selector.
pub open spec fn spec_priority(s: SpecSelector) -> nat
    decreases s,
{
    match s {
        SpecSelector::Tag(_) => 1,
        SpecSelector::Descendant(a, d) => spec_priority(*a) + spec_priority(*d),
    }
}

pub open spec fn is_ascii_alnum(c: char) -> bool {
    ('0' <= c && c <= '9') || ('a' <= c && c <= 'z') || ('A' <= c && c <= 'Z')
}

pub open spec fn is_word_symbol(c: char) -> bool {
    c == ',' || c == '/' || c == '#' || c == '-' || c == '.' || c == '%' || c == '(' || c == ')'
        || c == '"' || c == '\''
}

/// Characters a word may hold anywhere.
pub open spec fn word_char(c: char) -> bool {
    is_ascii_alnum(c) || is_word_symbol(c)
}

/// First position at or after `i` that is not ASCII white space.
pub open spec fn ws_end(src: Seq<char>, i: int) -> int
    decreases src.len() - i,
{
    if 0 <= i < src.len() && is_ascii_white(src[i]) {
        ws_end(src, i + 1)
    } else {
        i
    }
}

/// End of a word starting at `i`; `q` tells whether a single quote is
/// open, inside which `:` also belongs to the word.
pub open spec fn word_end(src: Seq<char>, i: int, q: bool) -> int
    decreases src.len() - i,
{
    if 0 <= i < src.len() {
        let c = src[i];
        let q2 = if c == '\'' { !q } else { q };
        if word_char(c) || (q2 && c == ':') {
            word_end(src, i + 1, q2)
        } else {
            i
        }
    } else {
        i
    }
}

/// First position at or after `i` holding one of `cs`, or the end.
pub open spec fn until_end(src: Seq<char>, i: int, cs: Seq<char>) -> int
    decreases src.len() - i,
{
    if 0 <= i < src.len() && !cs.contains(src[i]) {
        until_end(src, i + 1, cs)
    } else {
        i
    }
}

pub proof fn lemma_ws_end(src: Seq<char>, i: int)
    requires
        0 <= i,
    ensures
        i <= ws_end(src, i),
        i <= src.len() ==> ws_end(src, i) <= src.len(),
    decreases src.len() - i,
{
    if 0 <= i < src.len() && is_ascii_white(src[i]) {
        lemma_ws_end(src, i + 1);
    }
}

/// Skipping white space stops at the first character from `i` on that is
/// not a space, tab, line feed, form feed or carriage return (or at the
/// end), after skipping every one of those before it.
pub proof fn lemma_ws_end_stops(src: Seq<char>, i: int)
    requires
        0 <= i <= src.len(),
    ensures
        i <= ws_end(src, i) <= src.len(),
        forall|j: int|
            i <= j < ws_end(src, i) ==> {
                let c = #[trigger] src[j];
                c == ' ' || c == '\t' || c == '\n' || c == '\x0C' || c == '\r'
            },
        ws_end(src, i) < src.len() ==> {
            let c = src[ws_end(src, i)];
            c != ' ' && c != '\t' && c != '\n' && c != '\x0C' && c != '\r'
        },
    decreases src.len() - i,
{
    if i < src.len() && is_ascii_white(src[i]) {
        lemma_ws_end_stops(src, i + 1);
    }
}

pub proof fn lemma_word_end(src: Seq<char>, i: int, q: bool)
    requires
        0 <= i,
    ensures
        i <= word_end(src, i, q),
        i <= src.len() ==> word_end(src, i, q) <= src.len(),
    decreases src.len() - i,
{
    if 0 <= i < src.len() {
        let c = src[i];
        let q2 = if c == '\'' { !q } else { q };
        if word_char(c) || (q2 && c == ':') {
            lemma_word_end(src, i + 1, q2);
        }
    }
}

pub proof fn lemma_until_end(src: Seq<char>, i: int, cs: Seq<char>)
    requires
        0 <= i,
    ensures
        i <= until_end(src, i, cs),
        i <= src.len() ==> until_end(src, i, cs) <= src.len(),
        until_end(src, i, cs) < src.len() ==> cs.contains(src[until_end(src, i, cs)]),
    decreases src.len() - i,
{
    if 0 <= i < src.len() && !cs.contains(src[i]) {
        lemma_until_end(src, i + 1, cs);
    }
}

/// A word at `i`, and the position after it; no word when not even one
/// character qualifies (the position stays).
pub open spec fn spec_word(src: Seq<char>, i: int) -> (Option<Seq<char>>, int) {
    let e = word_end(src, i, false);
    if e > i {
        (Some(src.subrange(i, e)), e)
    } else {
        (None, i)
    }
}

/// `property : value`, the value running up to one of `until`; on failure,
/// the position where reading stopped.
pub open spec fn spec_pair(src: Seq<char>, i: int, until: Seq<char>) -> (
    Option<(Seq<char>, Seq<char>)>,
    int,
) {
    let (w, i1) = spec_word(src, i);
    match w {
        None => (None, i1),
        Some(prop) => {
            let i2 = ws_end(src, i1);
            if i2 < src.len() && src[i2] == ':' {
                let i3 = ws_end(src, i2 + 1);
                let j = until_end(src, i3, until);
                (Some((prop, src.subrange(i3, j))), j)
            } else {
                (None, i2)
            }
        }
    }
}

pub open spec fn body_stops() -> Seq<char> {
    seq![';', '}']
}

/// Declarations from `i` up to a `}` or the end. A declaration that fails
/// is skipped up to the next `;`; reading stops at a `}` or at the end.
/// The result is the map of declarations (a later property wins) and the
/// position where reading stopped.
pub open spec fn spec_body(src: Seq<char>, i: int, m: Map<Seq<char>, Seq<char>>) -> (
    Map<Seq<char>, Seq<char>>,
    int,
)
    decreases src.len() - i,
{
    if 0 <= i < src.len() && src[i] != '}' {
        let (pr, j) = spec_pair(src, i, body_stops());
        let (m1, e, ok) = match pr {
            Some((p, v)) => {
                let j1 = ws_end(src, j);
                if j1 < src.len() && src[j1] == ';' {
                    (m.insert(p, v), ws_end(src, j1 + 1), true)
                } else {
                    (m.insert(p, v), j1, false)
                }
            },
            None => (m, j, false),
        };
        if ok {
            proof {
                lemma_pair_advances(src, i, body_stops());
                lemma_ws_end(src, j);
                lemma_ws_end(src, ws_end(src, j) + 1);
            }
            spec_body(src, e, m1)
        } else {
            let k = until_end(src, e, body_stops());
            if k < src.len() && src[k] == ';' {
                proof {
                    lemma_pair_advances(src, i, body_stops());
                    lemma_ws_end(src, j);
                    lemma_until_end(src, e, body_stops());
                    lemma_ws_end(src, k + 1);
                }
                spec_body(src, ws_end(src, k + 1), m1)
            } else {
                (m1, k)
            }
        }
    } else {
        (m, i)
    }
}

/// Reading a pair never moves backwards; a successful one consumes at least
/// the property's first character.
pub proof fn lemma_pair_advances(src: Seq<char>, i: int, until: Seq<char>)
    requires
        0 <= i,
    ensures
        i <= spec_pair(src, i, until).1,
        spec_pair(src, i, until).0 is Some ==> i < spec_pair(src, i, until).1,
        i <= src.len() ==> spec_pair(src, i, until).1 <= src.len(),
{
    lemma_word_end(src, i, false);
    let e = word_end(src, i, false);
    lemma_ws_end(src, e);
    if ws_end(src, e) < src.len() {
        lemma_ws_end(src, ws_end(src, e) + 1);
        lemma_until_end(src, ws_end(src, ws_end(src, e) + 1), until);
    }
}

/// Declarations of an inline `style` attribute.
pub open spec fn spec_declarations(src: Seq<char>) -> Map<Seq<char>, Seq<char>> {
    spec_body(src, 0, Map::empty()).0
}

/// The rest of a selector: further words before a `{`, each nesting the
/// selector so far as ancestor of a new tag selector; `None` when a word is
/// missing (there the parser gives up).
pub open spec fn spec_selector_rest(src: Seq<char>, i: int, acc: SpecSelector) -> (
    Option<SpecSelector>,
    int,
)
    decreases src.len() - i,
{
    if 0 <= i < src.len() && src[i] != '{' {
        let (w, j) = spec_word(src, i);
        match w {
            None => (None, i),
            Some(name) => {
                proof {
                    lemma_word_end(src, i, false);
                    lemma_ws_end(src, j);
                }
                spec_selector_rest(
                    src,
                    ws_end(src, j),
                    SpecSelector::Descendant(
                        Box::new(acc),
                        Box::new(SpecSelector::Tag(lowercase(name))),
                    ),
                )
            },
        }
    } else {
        (Some(acc), i)
    }
}

/// A selector at `i`: a first word, then more words up to a `{`.
pub open spec fn spec_selector(src: Seq<char>, i: int) -> (Option<SpecSelector>, int) {
    let (w, j) = spec_word(src, i);
    match w {
        None => (None, i),
        Some(name) => spec_selector_rest(
            src,
            ws_end(src, j),
            SpecSelector::Tag(lowercase(name)),
        ),
    }
}

pub proof fn lemma_selector_rest_advances(src: Seq<char>, i: int, acc: SpecSelector)
    requires
        0 <= i,
    ensures
        i <= spec_selector_rest(src, i, acc).1,
    decreases src.len() - i,
{
    if 0 <= i < src.len() && src[i] != '{' {
        let (w, j) = spec_word(src, i);
        if w is Some {
            lemma_word_end(src, i, false);
            lemma_ws_end(src, j);
            let name = w.unwrap();
            lemma_selector_rest_advances(
                src,
                ws_end(src, j),
                SpecSelector::Descendant(
                    Box::new(acc),
                    Box::new(SpecSelector::Tag(lowercase(name))),
                ),
            );
        }
    }
}

/// A successful selector consumes at least one character.
pub proof fn lemma_selector_advances(src: Seq<char>, i: int)
    requires
        0 <= i,
    ensures
        spec_selector(src, i).0 is Some ==> i < spec_selector(src, i).1,
{
    let (w, j) = spec_word(src, i);
    if w is Some {
        lemma_word_end(src, i, false);
        lemma_ws_end(src, j);
        lemma_selector_rest_advances(src, ws_end(src, j), SpecSelector::Tag(lowercase(w.unwrap())));
    }
}

pub type SpecRule = (SpecSelector, Map<Seq<char>, Seq<char>>);

/// Rules from position `i` on, after `acc`. A rule whose `{` or `}` is
/// missing is skipped up to the next `}`; `None` when a selector cannot be
/// read (there the parser gives up).
pub open spec fn spec_rules(src: Seq<char>, i: int, acc: Seq<SpecRule>) -> Option<Seq<SpecRule>>
    decreases src.len() - i,
{
    if 0 <= i < src.len() {
        let i1 = ws_end(src, i);
        let (sel, i2) = spec_selector(src, i1);
        match sel {
            None => None,
            Some(s) => {
                let (e, ok, m) = if i2 < src.len() && src[i2] == '{' {
                    let (m, i4) = spec_body(src, ws_end(src, i2 + 1), Map::empty());
                    if i4 < src.len() && src[i4] == '}' {
                        (ws_end(src, i4 + 1), true, m)
                    } else {
                        (i4, false, m)
                    }
                } else {
                    (i2, false, Map::empty())
                };
                proof {
                    lemma_ws_end(src, i);
                    lemma_selector_advances(src, i1);
                    lemma_ws_end(src, i2 + 1);
                    lemma_body_advances(src, ws_end(src, i2 + 1), Map::empty());
                    if i2 < src.len() && src[i2] == '{' {
                        let i4 = spec_body(src, ws_end(src, i2 + 1), Map::empty()).1;
                        lemma_ws_end(src, i4 + 1);
                    }
                }
                if ok {
                    spec_rules(src, e, acc.push((s, m)))
                } else {
                    let k = until_end(src, e, seq!['}']);
                    if k < src.len() {
                        proof {
                            lemma_until_end(src, e, seq!['}']);
                            lemma_ws_end(src, k + 1);
                        }
                        spec_rules(src, ws_end(src, k + 1), acc)
                    } else {
                        Some(acc)
                    }
                }
            },
        }
    } else {
        Some(acc)
    }
}

/// At the end of the text there are no more rules: parsing again from
/// there gives none.
pub proof fn lemma_no_rules_at_end(src: Seq<char>)
    ensures
        spec_rules(src, src.len() as int, seq![]) == Some(Seq::<SpecRule>::empty()),
{
}

pub proof fn lemma_body_advances(src: Seq<char>, i: int, m: Map<Seq<char>, Seq<char>>)
    requires
        0 <= i,
    ensures
        i <= spec_body(src, i, m).1,
        i <= src.len() ==> spec_body(src, i, m).1 <= src.len(),
    decreases src.len() - i,
{
    if 0 <= i < src.len() && src[i] != '}' {
        let (pr, j) = spec_pair(src, i, body_stops());
        lemma_pair_advances(src, i, body_stops());
        lemma_ws_end(src, j);
        let j1 = ws_end(src, j);
        match pr {
            Some((p, v)) => {
                if j1 < src.len() && src[j1] == ';' {
                    lemma_ws_end(src, j1 + 1);
                    lemma_body_advances(src, ws_end(src, j1 + 1), m.insert(p, v));
                } else {
                    lemma_until_end(src, j1, body_stops());
                    let k = until_end(src, j1, body_stops());
                    if k < src.len() && src[k] == ';' {
                        lemma_ws_end(src, k + 1);
                        lemma_body_advances(src, ws_end(src, k + 1), m.insert(p, v));
                    }
                }
            },
            None => {
                lemma_until_end(src, j, body_stops());
                let k = until_end(src, j, body_stops());
                if k < src.len() && src[k] == ';' {
                    lemma_ws_end(src, k + 1);
                    lemma_body_advances(src, ws_end(src, k + 1), m);
                }
            },
        }
    }
}

} // verus!
