//! CSS parser: rules made of a selector and a block of declarations.
pub mod css_spec;
pub mod selector_spec;
pub mod tag_selector;
pub mod descendant_seletor;
pub mod cascade_spec;
pub mod cascade;
pub mod cascade_laws;

pub use cascade::style;

use vstd::prelude::*;
use crate::strmap::StrMap;
use crate::text::{is_ascii_white_char, to_lowercase};
use css_spec::{
    SpecRule, spec_priority, ws_end, word_end, until_end, word_char, spec_word, spec_pair,
    spec_body, body_stops, spec_selector, spec_selector_rest, spec_rules, lemma_ws_end,
    lemma_word_end, lemma_until_end, lemma_pair_advances, lemma_body_advances,
    lemma_selector_advances,
};
use descendant_seletor::Selector;

verus! {

pub open spec fn rule_views(rules: Seq<(Selector, StrMap)>) -> Seq<SpecRule> {
    rules.map_values(|r: (Selector, StrMap)| (r.0@, r.1@))
}

pub open spec fn rules_wf(rules: Seq<(Selector, StrMap)>) -> bool {
    forall|i: int| 0 <= i < rules.len() ==> (#[trigger] rules[i]).0.wf()
}

fn char_in(chars: &[char], c: char) -> (r: bool)
    ensures
        r == chars@.contains(c),
{
    let n = chars.len();
    let mut i: usize = 0;
    while i < n
        invariant
            n == chars@.len(),
            i <= n,
            forall|j: int| 0 <= j < i ==> chars@[j] != c,
        decreases n - i,
    {
        if chars[i] == c {
            assert(chars@[i as int] == c);
            return true;
        }
        i = i + 1;
    }
    false
}

fn is_word_char(c: char) -> (r: bool)
    ensures
        r == word_char(c),
{
    (('0' <= c && c <= '9') || ('a' <= c && c <= 'z') || ('A' <= c && c <= 'Z')) || (c == ','
        || c == '/' || c == '#' || c == '-' || c == '.' || c == '%' || c == '(' || c == ')' || c
        == '"' || c == '\'')
}

/// One round of `spec_body` at a position where reading goes on.
proof fn lemma_body_step(src: Seq<char>, i: int, m: Map<Seq<char>, Seq<char>>)
    requires
        0 <= i < src.len(),
        src[i] != '}',
    ensures
        ({
            let (pr, j) = spec_pair(src, i, body_stops());
            match pr {
                Some((p, v)) => {
                    let j1 = ws_end(src, j);
                    if j1 < src.len() && src[j1] == ';' {
                        spec_body(src, i, m) == spec_body(src, ws_end(src, j1 + 1), m.insert(p, v))
                    } else {
                        let k = until_end(src, j1, body_stops());
                        if k < src.len() && src[k] == ';' {
                            spec_body(src, i, m) == spec_body(src, ws_end(src, k + 1), m.insert(p, v))
                        } else {
                            spec_body(src, i, m) == (m.insert(p, v), k) && spec_body(src, k, m.insert(p, v)) == (m.insert(p, v), k)
                        }
                    }
                },
                None => {
                    let k = until_end(src, j, body_stops());
                    if k < src.len() && src[k] == ';' {
                        spec_body(src, i, m) == spec_body(src, ws_end(src, k + 1), m)
                    } else {
                        spec_body(src, i, m) == (m, k) && spec_body(src, k, m) == (m, k)
                    }
                },
            }
        }),
{
    let (pr, j) = spec_pair(src, i, body_stops());
    lemma_pair_advances(src, i, body_stops());
    lemma_ws_end(src, j);
    match pr {
        Some((p, v)) => {
            let j1 = ws_end(src, j);
            lemma_until_end(src, j1, body_stops());
            let k = until_end(src, j1, body_stops());
            if k < src.len() && src[k] != ';' {
                assert(body_stops().contains(src[k]));
                assert(src[k] == '}') by {
                    let q = choose|q: int| 0 <= q < 2 && body_stops()[q] == src[k];
                }
            }
        },
        None => {
            lemma_until_end(src, j, body_stops());
            let k = until_end(src, j, body_stops());
            if k < src.len() && src[k] != ';' {
                assert(body_stops().contains(src[k]));
                assert(src[k] == '}') by {
                    let q = choose|q: int| 0 <= q < 2 && body_stops()[q] == src[k];
                }
            }
        },
    }
}

/// One round of `spec_rules` at a position where reading goes on.
proof fn lemma_rules_step(src: Seq<char>, i: int, acc: Seq<SpecRule>)
    requires
        0 <= i < src.len(),
    ensures
        ({
            let i1 = ws_end(src, i);
            let (sel, i2) = spec_selector(src, i1);
            match sel {
                None => spec_rules(src, i, acc) is None,
                Some(s) => {
                    if i2 < src.len() && src[i2] == '{' {
                        let (m, i4) = spec_body(src, ws_end(src, i2 + 1), Map::empty());
                        if i4 < src.len() && src[i4] == '}' {
                            spec_rules(src, i, acc) == spec_rules(src, ws_end(src, i4 + 1), acc.push((s, m)))
                        } else {
                            let k = until_end(src, i4, seq!['}']);
                            if k < src.len() {
                                spec_rules(src, i, acc) == spec_rules(src, ws_end(src, k + 1), acc)
                            } else {
                                spec_rules(src, i, acc) == Some(acc) && spec_rules(src, k, acc) == Some(acc)
                            }
                        }
                    } else {
                        let k = until_end(src, i2, seq!['}']);
                        if k < src.len() {
                            spec_rules(src, i, acc) == spec_rules(src, ws_end(src, k + 1), acc)
                        } else {
                            spec_rules(src, i, acc) == Some(acc) && spec_rules(src, k, acc) == Some(acc)
                        }
                    }
                },
            }
        }),
{
    lemma_ws_end(src, i);
    let i1 = ws_end(src, i);
    lemma_selector_advances(src, i1);
    let (sel, i2) = spec_selector(src, i1);
    if sel is Some && i2 < src.len() && src[i2] == '{' {
        lemma_ws_end(src, i2 + 1);
        lemma_body_advances(src, ws_end(src, i2 + 1), Map::empty());
        let i4 = spec_body(src, ws_end(src, i2 + 1), Map::empty()).1;
        lemma_until_end(src, i4, seq!['}']);
    }
    if sel is Some {
        lemma_until_end(src, i2, seq!['}']);
    }
}

pub struct CssParser<'css> {
    source: &'css str,
    current_index: usize,
}

impl<'css> CssParser<'css> {
    pub fn new(s: &'css str) -> (r: CssParser<'css>)
        ensures
            r.src() == s@,
            r.pos() == 0,
            r.ok(),
    {
        CssParser { source: s, current_index: 0 }
    }

    /// The text being read.
    pub closed spec fn src(&self) -> Seq<char> {
        self.source@
    }

    /// The position of the next character to read.
    pub closed spec fn pos(&self) -> int {
        self.current_index as int
    }

    pub closed spec fn ok(&self) -> bool {
        self.current_index <= self.source@.len()
    }

    /// A parser is valid exactly when its position lies within the text.
    pub proof fn lemma_ok(&self)
        ensures
            self.ok() == (0 <= self.pos() <= self.src().len()),
    {
    }

    fn whitespace(&mut self)
        requires
            old(self).ok(),
        ensures
            final(self).ok(),
            final(self).source == old(self).source,
            final(self).pos() == ws_end(old(self).src(), old(self).pos()),
    {
        let n = self.source.unicode_len();
        while self.current_index < n && is_ascii_white_char(self.source.get_char(self.current_index))
            invariant
                n == self.source@.len(),
                self.current_index <= n,
                self.source == old(self).source,
                ws_end(self.src(), self.pos()) == ws_end(old(self).src(), old(self).pos()),
            decreases n - self.current_index,
        {
            self.current_index = self.current_index + 1;
        }
    }

    fn literal(&mut self, literal: char) -> (r: Result<(), String>)
        requires
            old(self).ok(),
        ensures
            final(self).ok(),
            final(self).source == old(self).source,
            r is Ok <==> (old(self).pos() < old(self).src().len() && old(self).src()[old(self).pos()]
                == literal),
            r is Ok ==> final(self).pos() == old(self).pos() + 1,
            r is Err ==> final(self).pos() == old(self).pos(),
    {
        let n = self.source.unicode_len();
        if !(self.current_index < n && self.source.get_char(self.current_index) == literal) {
            return Err("Parsing Error".to_owned());
        }
        self.current_index = self.current_index + 1;
        Ok(())
    }

    fn word(&mut self) -> (r: Result<&'css str, String>)
        requires
            old(self).ok(),
        ensures
            final(self).ok(),
            final(self).source == old(self).source,
            final(self).pos() == spec_word(old(self).src(), old(self).pos()).1,
            match r {
                Ok(w) => spec_word(old(self).src(), old(self).pos()).0 == Some(w@),
                Err(_) => spec_word(old(self).src(), old(self).pos()).0 is None,
            },
    {
        let mut in_quote = false;
        let start = self.current_index;
        let n = self.source.unicode_len();
        while self.current_index < n
            invariant
                n == self.source@.len(),
                start <= self.current_index <= n,
                self.source == old(self).source,
                start == old(self).current_index,
                word_end(self.src(), self.pos(), in_quote) == word_end(
                    old(self).src(),
                    start as int,
                    false,
                ),
            ensures
                start <= self.current_index <= n,
                self.source == old(self).source,
                word_end(self.src(), self.pos(), in_quote) == self.pos(),
                word_end(self.src(), self.pos(), in_quote) == word_end(
                    old(self).src(),
                    start as int,
                    false,
                ),
            decreases n - self.current_index,
        {
            let current_char = self.source.get_char(self.current_index);
            let next_quote = if current_char == '\'' {
                !in_quote
            } else {
                in_quote
            };
            if is_word_char(current_char) || (next_quote && current_char == ':') {
                in_quote = next_quote;
                self.current_index = self.current_index + 1;
            } else {
                break;
            }
        }
        if !(self.current_index > start) {
            Err("Parsing Error".to_owned())
        } else {
            Ok(self.source.substring_char(start, self.current_index))
        }
    }

    fn until_chars(&mut self, chars: &[char]) -> (r: &'css str)
        requires
            old(self).ok(),
        ensures
            final(self).ok(),
            final(self).source == old(self).source,
            final(self).pos() == until_end(old(self).src(), old(self).pos(), chars@),
            r@ == old(self).src().subrange(old(self).pos(), final(self).pos()),
    {
        let start = self.current_index;
        let n = self.source.unicode_len();
        while self.current_index < n && !char_in(chars, self.source.get_char(self.current_index))
            invariant
                n == self.source@.len(),
                start <= self.current_index <= n,
                self.source == old(self).source,
                start == old(self).current_index,
                until_end(self.src(), self.pos(), chars@) == until_end(
                    old(self).src(),
                    start as int,
                    chars@,
                ),
            decreases n - self.current_index,
        {
            self.current_index = self.current_index + 1;
        }
        self.source.substring_char(start, self.current_index)
    }

    fn pair(&mut self, until: &[char]) -> (r: Result<(&'css str, &'css str), String>)
        requires
            old(self).ok(),
        ensures
            final(self).ok(),
            final(self).source == old(self).source,
            final(self).pos() == spec_pair(old(self).src(), old(self).pos(), until@).1,
            match r {
                Ok((p, v)) => spec_pair(old(self).src(), old(self).pos(), until@).0 == Some(
                    (p@, v@),
                ),
                Err(_) => spec_pair(old(self).src(), old(self).pos(), until@).0 is None,
            },
    {
        let prop = self.word()?;
        self.whitespace();
        self.literal(':')?;
        self.whitespace();
        let val = self.until_chars(until);
        Ok((prop, val))
    }

    fn ignor_until(&mut self, chars: &[char]) -> (r: Option<char>)
        requires
            old(self).ok(),
        ensures
            final(self).ok(),
            final(self).source == old(self).source,
            final(self).pos() == until_end(old(self).src(), old(self).pos(), chars@),
            r is Some <==> final(self).pos() < old(self).src().len(),
            r matches Some(c) ==> c == old(self).src()[final(self).pos()],
    {
        let n = self.source.unicode_len();
        while self.current_index < n
            invariant
                n == self.source@.len(),
                self.current_index <= n,
                self.source == old(self).source,
                until_end(self.src(), self.pos(), chars@) == until_end(
                    old(self).src(),
                    old(self).pos(),
                    chars@,
                ),
            decreases n - self.current_index,
        {
            let current_char = self.source.get_char(self.current_index);
            if char_in(chars, current_char) {
                return Some(current_char);
            }
            self.current_index = self.current_index + 1;
        }
        None
    }

    /// Declarations up to a `}` or the end of the text. Never fails.
    pub(crate) fn body(&mut self) -> (r: Result<StrMap, String>)
        requires
            old(self).ok(),
        ensures
            final(self).ok(),
            final(self).src() == old(self).src(),
            r is Ok,
            r matches Ok(m) ==> m@ == spec_body(old(self).src(), old(self).pos(), Map::empty()).0,
            final(self).pos() == spec_body(old(self).src(), old(self).pos(), Map::empty()).1,
    {
        let mut pairs = StrMap::new();
        let n = self.source.unicode_len();
        let stops: [char; 2] = [';', '}'];
        assert(stops@ == body_stops());
        let ghost target = spec_body(self.src(), self.pos(), Map::empty());
        while self.current_index < n && self.source.get_char(self.current_index) != '}'
            invariant
                n == self.source@.len(),
                self.ok(),
                self.source == old(self).source,
                stops@ == body_stops(),
                spec_body(self.src(), self.pos(), pairs@) == target,
            decreases n - self.current_index,
        {
            let ghost i0 = self.pos();
            let ghost m0 = pairs@;
            let ghost src = self.src();
            proof {
                lemma_pair_advances(src, i0, body_stops());
                lemma_body_step(src, i0, m0);
            }
            let mut failed = true;
            match self.pair(stops.as_slice()) {
                Ok((prop, val)) => {
                    pairs.insert(prop.to_owned(), val.to_owned());
                    proof {
                        lemma_ws_end(src, self.pos());
                    }
                    self.whitespace();
                    if self.literal(';').is_ok() {
                        proof {
                            lemma_ws_end(src, self.pos());
                        }
                        self.whitespace();
                        failed = false;
                    }
                },
                Err(_) => {},
            }
            if failed {
                let ghost e = self.pos();
                proof {
                    lemma_until_end(src, e, body_stops());
                }
                let why = self.ignor_until(stops.as_slice());
                if why.is_some() && why.unwrap() == ';' {
                    let _ = self.literal(';');
                    proof {
                        lemma_ws_end(src, self.pos());
                    }
                    self.whitespace();
                }
            }
            assert(spec_body(src, i0, m0) == spec_body(src, self.pos(), pairs@));
            assert(self.pos() > i0);
        }
        Ok(pairs)
    }

    /// A selector, or `None` when a word of it cannot be read.
    fn selector(&mut self) -> (r: Option<Selector>)
        requires
            old(self).ok(),
        ensures
            final(self).ok(),
            final(self).source == old(self).source,
            match r {
                Some(sel) => spec_selector(old(self).src(), old(self).pos()).0 == Some(sel@)
                    && final(self).pos() == spec_selector(old(self).src(), old(self).pos()).1
                    && sel.wf(),
                None => spec_selector(old(self).src(), old(self).pos()).0 is None,
            },
    {
        let ghost i0 = self.pos();
        let first = match self.word() {
            Ok(w) => w,
            Err(_) => return None,
        };
        let mut out: Selector = Selector::new_tag(to_lowercase(first));
        proof {
            lemma_word_end(self.src(), i0, false);
        }
        self.whitespace();
        proof {
            lemma_ws_end(self.src(), spec_word(self.src(), i0).1);
        }
        let n = self.source.unicode_len();
        while self.current_index < n && self.source.get_char(self.current_index) != '{'
            invariant
                n == self.source@.len(),
                self.ok(),
                self.source == old(self).source,
                i0 == old(self).pos(),
                out.wf(),
                spec_priority(out@) <= self.pos(),
                spec_selector_rest(self.src(), self.pos(), out@) == spec_selector(
                    old(self).src(),
                    i0,
                ),
            decreases n - self.current_index,
        {
            let ghost i1 = self.pos();
            proof {
                lemma_word_end(self.src(), i1, false);
            }
            let tag = match self.word() {
                Ok(w) => w,
                Err(_) => return None,
            };
            let descendant = Selector::new_tag(to_lowercase(tag));
            out = Selector::new_descendant(out, descendant);
            proof {
                lemma_ws_end(self.src(), self.pos());
            }
            self.whitespace();
        }
        Some(out)
    }

    /// All rules from the current position on, or `None` when a selector
    /// cannot be read.
    fn rules(&mut self) -> (r: Option<Vec<(Selector, StrMap)>>)
        requires
            old(self).ok(),
        ensures
            final(self).ok(),
            final(self).src() == old(self).src(),
            r is Some ==> final(self).pos() == final(self).src().len(),
            match r {
                Some(v) => spec_rules(old(self).src(), old(self).pos(), seq![]) == Some(rule_views(v@))
                    && rules_wf(v@),
                None => spec_rules(old(self).src(), old(self).pos(), seq![]) is None,
            },
    {
        let mut rules: Vec<(Selector, StrMap)> = Vec::new();
        let n = self.source.unicode_len();
        let closer: [char; 1] = ['}'];
        assert(closer@ == seq!['}']);
        let ghost target = spec_rules(self.src(), self.pos(), seq![]);
        assert(rule_views(rules@) =~= Seq::<SpecRule>::empty());
        while self.current_index < n
            invariant
                n == self.source@.len(),
                self.ok(),
                closer@ == seq!['}'],
                spec_rules(self.src(), self.pos(), rule_views(rules@)) == target,
                target == spec_rules(old(self).src(), old(self).pos(), seq![]),
                self.src() == old(self).src(),
                rules_wf(rules@),
            decreases n - self.current_index,
        {
            let ghost i0 = self.pos();
            let ghost acc = rule_views(rules@);
            let ghost src = self.src();
            proof {
                lemma_rules_step(src, i0, acc);
                lemma_ws_end(src, i0);
                lemma_selector_advances(src, ws_end(src, i0));
            }
            self.whitespace();
            let selector = match self.selector() {
                Some(sel) => sel,
                None => return None,
            };
            let mut failed = true;
            if self.literal('{').is_ok() {
                proof {
                    lemma_ws_end(src, self.pos());
                    lemma_body_advances(src, ws_end(src, self.pos()), Map::empty());
                }
                self.whitespace();
                let body = self.body().unwrap();
                if self.literal('}').is_ok() {
                    proof {
                        lemma_ws_end(src, self.pos());
                    }
                    self.whitespace();
                    let ghost old_rules = rules@;
                    rules.push((selector, body));
                    proof {
                        assert(rule_views(rules@) =~= acc.push((selector@, body@)));
                        assert forall|i: int| 0 <= i < rules@.len() implies (#[trigger] rules@[i]).0.wf() by {
                            if i < old_rules.len() {
                                assert(rules@[i] == old_rules[i]);
                            }
                        }
                    }
                    failed = false;
                }
            }
            if failed {
                let ghost e = self.pos();
                proof {
                    lemma_until_end(src, e, seq!['}']);
                }
                let why = self.ignor_until(closer.as_slice());
                if why.is_some() {
                    let _ = self.literal('}');
                    proof {
                        lemma_ws_end(src, self.pos());
                    }
                    self.whitespace();
                }
            }
            assert(spec_rules(src, self.pos(), rule_views(rules@)) == spec_rules(src, i0, acc));
            assert(self.pos() > i0);
        }
        proof {
            assert(spec_rules(self.src(), self.pos(), rule_views(rules@)) == Some(rule_views(rules@)));
        }
        Some(rules)
    }

    /// All rules from the current position on. A rule without its braces is
    /// skipped; the text must not hold a place where a selector is expected
    /// but no word can be read (`try_parse` checks this).
    pub fn parse(&mut self) -> (r: Vec<(Selector, StrMap)>)
        requires
            old(self).ok(),
            spec_rules(old(self).src(), old(self).pos(), seq![]) is Some,
        ensures
            rule_views(r@) == spec_rules(old(self).src(), old(self).pos(), seq![]).unwrap(),
            rules_wf(r@),
            final(self).ok(),
            final(self).src() == old(self).src(),
            final(self).pos() == final(self).src().len(),
    {
        self.rules().unwrap()
    }

    /// All rules from the current position on, or `None` where `parse`
    /// cannot read a selector.
    pub fn try_parse(&mut self) -> (r: Option<Vec<(Selector, StrMap)>>)
        requires
            old(self).ok(),
        ensures
            r is Some <==> spec_rules(old(self).src(), old(self).pos(), seq![]) is Some,
            r matches Some(v) ==> rule_views(v@) == spec_rules(old(self).src(), old(self).pos(), seq![]).unwrap()
                && rules_wf(v@),
            final(self).ok(),
            final(self).src() == old(self).src(),
            r is Some ==> final(self).pos() == final(self).src().len(),
    {
        self.rules()
    }
}

} // verus!
