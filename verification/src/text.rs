//! Character-level helpers shared by the HTML and CSS front ends.
//!
//! Strings are specified by their views, sequences of `char`. Every
//! function here works on character positions, never on byte offsets.
use vstd::prelude::*;
use unicode_segmentation::UnicodeSegmentation;

verus! {

/// Unicode `White_Space`, the set `char::is_whitespace` documents.
pub open spec fn is_white(c: char) -> bool {
    let u = c as u32;
    ||| (0x09 <= u && u <= 0x0d)
    ||| u == 0x20
    ||| u == 0x85
    ||| u == 0xa0
    ||| u == 0x1680
    ||| (0x2000 <= u && u <= 0x200a)
    ||| u == 0x2028
    ||| u == 0x2029
    ||| u == 0x202f
    ||| u == 0x205f
    ||| u == 0x3000
}

/// The bytes that `u8::is_ascii_whitespace` accepts: space, tab, line feed,
/// form feed and carriage return.
pub open spec fn is_ascii_white(c: char) -> bool {
    c == ' ' || c == '\t' || c == '\n' || c == '\x0C' || c == '\r'
}

/// A string is blank when every character is white space
/// (what `str::trim(..).is_empty()` tests).
pub open spec fn is_blank(s: Seq<char>) -> bool {
    forall|i: int| 0 <= i < s.len() ==> is_white(#[trigger] s[i])
}

/// Number of bytes that the UTF-8 encoding of `c` takes.
pub open spec fn utf8_width(c: char) -> nat {
    let u = c as u32;
    if u < 0x80 {
        1
    } else if u < 0x800 {
        2
    } else if u < 0x10000 {
        3
    } else {
        4
    }
}

/// Length in bytes of the UTF-8 encoding of `s`.
pub open spec fn utf8_len(s: Seq<char>) -> nat
    decreases s.len(),
{
    if s.len() == 0 {
        0
    } else {
        utf8_len(s.drop_last()) + utf8_width(s.last())
    }
}

pub fn is_white_char(c: char) -> (r: bool)
    ensures
        r == is_white(c),
{
    let u = c as u32;
    (0x09 <= u && u <= 0x0d) || u == 0x20 || u == 0x85 || u == 0xa0 || u == 0x1680 || (0x2000
        <= u && u <= 0x200a) || u == 0x2028 || u == 0x2029 || u == 0x202f || u == 0x205f || u
        == 0x3000
}

pub fn is_ascii_white_char(c: char) -> (r: bool)
    ensures
        r == is_ascii_white(c),
{
    c == ' ' || c == '\t' || c == '\n' || c == '\x0C' || c == '\r'
}

/// Character-wise equality of two string slices.
pub fn str_eq(a: &str, b: &str) -> (r: bool)
    ensures
        r == (a@ == b@),
{
    let n = a.unicode_len();
    let m = b.unicode_len();
    if n != m {
        return false;
    }
    let mut i: usize = 0;
    while i < n
        invariant
            n == a@.len(),
            m == b@.len(),
            n == m,
            i <= n,
            forall|j: int| 0 <= j < i ==> a@[j] == b@[j],
        decreases n - i,
    {
        if a.get_char(i) != b.get_char(i) {
            return false;
        }
        i = i + 1;
    }
    assert(a@ =~= b@);
    true
}

/// Whether every character of `s` is white space.
pub fn is_blank_str(s: &str) -> (r: bool)
    ensures
        r == is_blank(s@),
{
    let n = s.unicode_len();
    let mut i: usize = 0;
    while i < n
        invariant
            n == s@.len(),
            i <= n,
            forall|j: int| 0 <= j < i ==> is_white(#[trigger] s@[j]),
        decreases n - i,
    {
        if !is_white_char(s.get_char(i)) {
            return false;
        }
        i = i + 1;
    }
    true
}

/// Whether `s` begins with the character `c`.
pub fn starts_with_char(s: &str, c: char) -> (r: bool)
    ensures
        r == (s@.len() > 0 && s@[0] == c),
{
    if s.unicode_len() == 0 {
        false
    } else {
        s.get_char(0) == c
    }
}

pub fn utf8_width_of(c: char) -> (r: usize)
    ensures
        r == utf8_width(c),
{
    let u = c as u32;
    if u < 0x80 {
        1
    } else if u < 0x800 {
        2
    } else if u < 0x10000 {
        3
    } else {
        4
    }
}

/// Byte length of the UTF-8 encoding of `s`, counted up to `bound`: the
/// result is the exact length when it does not exceed `bound`, and some value
/// above `bound` otherwise.
pub fn utf8_len_capped(s: &str, bound: usize) -> (r: usize)
    requires
        bound < usize::MAX - 4,
    ensures
        utf8_len(s@) <= bound ==> r == utf8_len(s@),
        utf8_len(s@) > bound ==> r > bound,
{
    let n = s.unicode_len();
    let mut total: usize = 0;
    let mut i: usize = 0;
    while i < n
        invariant
            n == s@.len(),
            i <= n,
            bound < usize::MAX - 4,
            total == utf8_len(s@.subrange(0, i as int)),
            total <= bound,
        decreases n - i,
    {
        assert(s@.subrange(0, i + 1).drop_last() =~= s@.subrange(0, i as int));
        total = total + utf8_width_of(s.get_char(i));
        i = i + 1;
        if total > bound {
            proof {
                lemma_utf8_len_prefix(s@, i as int);
            }
            return total;
        }
    }
    assert(s@.subrange(0, n as int) =~= s@);
    total
}

/// The byte length of a prefix never exceeds that of the whole string.
pub proof fn lemma_utf8_len_prefix(s: Seq<char>, k: int)
    requires
        0 <= k <= s.len(),
    ensures
        utf8_len(s.subrange(0, k)) <= utf8_len(s),
    decreases s.len() - k,
{
    if k < s.len() {
        lemma_utf8_len_prefix(s, k + 1);
        assert(s.subrange(0, k + 1).drop_last() =~= s.subrange(0, k));
    } else {
        assert(s.subrange(0, k) =~= s);
    }
}

// ---------------------------------------------------------------------------
// Splitting on white space
// ---------------------------------------------------------------------------

/// Scanner state for `split_whitespace`: the words found so far and the
/// characters of the word being read.
pub struct WordScan {
    pub words: Seq<Seq<char>>,
    pub cur: Seq<char>,
}

pub open spec fn word_scan(s: Seq<char>) -> WordScan
    decreases s.len(),
{
    if s.len() == 0 {
        WordScan { words: seq![], cur: seq![] }
    } else {
        let st = word_scan(s.drop_last());
        let c = s.last();
        if is_white(c) {
            if st.cur.len() > 0 {
                WordScan { words: st.words.push(st.cur), cur: seq![] }
            } else {
                st
            }
        } else {
            WordScan { words: st.words, cur: st.cur.push(c) }
        }
    }
}

/// The maximal runs of non-white characters of `s`, in order
/// (what `str::split_whitespace` yields).
pub open spec fn words(s: Seq<char>) -> Seq<Seq<char>> {
    let st = word_scan(s);
    if st.cur.len() > 0 {
        st.words.push(st.cur)
    } else {
        st.words
    }
}

/// The characters of `s` that are not white space, in order.
pub open spec fn non_white(s: Seq<char>) -> Seq<char>
    decreases s.len(),
{
    if s.len() == 0 {
        seq![]
    } else if is_white(s.last()) {
        non_white(s.drop_last())
    } else {
        non_white(s.drop_last()).push(s.last())
    }
}

proof fn lemma_word_scan(s: Seq<char>)
    ensures
        forall|k: int| 0 <= k < word_scan(s).words.len() ==> (#[trigger] word_scan(s).words[k]).len() > 0,
        forall|k: int, j: int|
            0 <= k < word_scan(s).words.len() && 0 <= j < word_scan(s).words[k].len() ==> !is_white(
                #[trigger] word_scan(s).words[k][j],
            ),
        forall|j: int| 0 <= j < word_scan(s).cur.len() ==> !is_white(#[trigger] word_scan(s).cur[j]),
        word_scan(s).words.flatten_alt() + word_scan(s).cur == non_white(s),
    decreases s.len(),
{
    if s.len() > 0 {
        let p = s.drop_last();
        lemma_word_scan(p);
        let st = word_scan(p);
        let c = s.last();
        if is_white(c) {
            if st.cur.len() > 0 {
                let w2 = st.words.push(st.cur);
                assert(w2.drop_last() =~= st.words);
                assert(w2.flatten_alt() + seq![] =~= st.words.flatten_alt() + st.cur);
            }
        } else {
            assert(st.words.flatten_alt() + st.cur.push(c) =~= (st.words.flatten_alt() + st.cur).push(c));
        }
    }
}

/// The words of a text are its maximal runs of characters that are not
/// white space: none is empty, none holds a white-space character, and
/// written one after another they give the text without its white space.
pub proof fn lemma_words(s: Seq<char>)
    ensures
        forall|k: int| 0 <= k < words(s).len() ==> (#[trigger] words(s)[k]).len() > 0,
        forall|k: int, j: int|
            0 <= k < words(s).len() && 0 <= j < words(s)[k].len() ==> !is_white(
                #[trigger] words(s)[k][j],
            ),
        words(s).flatten() == non_white(s),
{
    lemma_word_scan(s);
    let st = word_scan(s);
    if st.cur.len() > 0 {
        let w = st.words.push(st.cur);
        assert(w.drop_last() =~= st.words);
        assert(w.flatten_alt() == st.words.flatten_alt() + st.cur);
        w.lemma_flatten_and_flatten_alt_are_equivalent();
        assert forall|k: int, j: int|
            0 <= k < w.len() && 0 <= j < w[k].len() implies !is_white(#[trigger] w[k][j]) by {
            if k < st.words.len() {
                assert(w[k] == st.words[k]);
            }
        }
    } else {
        st.words.lemma_flatten_and_flatten_alt_are_equivalent();
        assert(st.words.flatten_alt() + st.cur =~= st.words.flatten_alt());
    }
}

/// The words of `s`, each a slice of `s`.
pub fn split_whitespace<'a>(s: &'a str) -> (r: Vec<&'a str>)
    ensures
        r@.map_values(|w: &str| w@) == words(s@),
{
    let n = s.unicode_len();
    let mut out: Vec<&'a str> = Vec::new();
    let mut start: usize = 0;
    let mut i: usize = 0;
    while i < n
        invariant
            n == s@.len(),
            start <= i <= n,
            out@.map_values(|w: &str| w@) == word_scan(s@.subrange(0, i as int)).words,
            s@.subrange(start as int, i as int) == word_scan(s@.subrange(0, i as int)).cur,
        decreases n - i,
    {
        let c = s.get_char(i);
        let ghost prev = s@.subrange(0, i as int);
        assert(s@.subrange(0, i + 1).drop_last() =~= prev);
        assert(s@.subrange(0, i + 1).last() == c);
        if is_white_char(c) {
            if start < i {
                let w = s.substring_char(start, i);
                out.push(w);
                assert(out@.map_values(|w: &str| w@) =~= word_scan(prev).words.push(
                    word_scan(prev).cur,
                ));
            }
            start = i + 1;
            assert(s@.subrange(start as int, i + 1) =~= Seq::<char>::empty());
        } else {
            assert(s@.subrange(start as int, i + 1) =~= s@.subrange(start as int, i as int).push(
                c,
            ));
        }
        i = i + 1;
    }
    assert(s@.subrange(0, n as int) =~= s@);
    if start < n {
        let w = s.substring_char(start, n);
        out.push(w);
        assert(out@.map_values(|w: &str| w@) =~= words(s@));
    } else {
        assert(out@.map_values(|w: &str| w@) =~= words(s@));
    }
    out
}

// ---------------------------------------------------------------------------
// Trusted items: outside and std functions
// ---------------------------------------------------------------------------

/// The extended grapheme clusters of a string, in order, as
/// `UnicodeSegmentation::graphemes(s, true)` of the unicode-segmentation
/// crate yields them.
pub uninterp spec fn spec_graphemes(s: Seq<char>) -> Seq<Seq<char>>;

/// The views of a sequence of string slices.
pub open spec fn str_views(v: Seq<&str>) -> Seq<Seq<char>> {
    v.map_values(|g: &str| g@)
}

/// Calls `UnicodeSegmentation::graphemes(s, true)` and collects the clusters.
/// Trusted: the clusters are named by `spec_graphemes`; the crate's iterator
/// hands out consecutive, non-empty slices `s[start..next]` from the first
/// byte to the last, so their concatenation is `s` and none is empty. Which
/// boundaries the Unicode rules choose is not stated.
#[verifier::external_body]
pub(crate) fn graphemes<'a>(s: &'a str) -> (r: Vec<&'a str>)
    ensures
        str_views(r@) == spec_graphemes(s@),
        str_views(r@).flatten() == s@,
        forall|i: int| 0 <= i < r@.len() ==> (#[trigger] r@[i])@.len() > 0,
{
    s.graphemes(true).collect()
}

/// The lower-case form of a string, as `str::to_lowercase` computes it
/// (the Unicode `Lowercase` mapping, character by character in context).
pub uninterp spec fn spec_lowercase(s: Seq<char>) -> Seq<char>;

/// A character with ASCII upper-case letters made lower-case.
pub open spec fn ascii_lower(c: char) -> char {
    if 'A' <= c && c <= 'Z' {
        ((c as u32) + 32) as char
    } else {
        c
    }
}

/// Whether every character is ASCII.
pub open spec fn all_ascii(s: Seq<char>) -> bool {
    forall|i: int| 0 <= i < s.len() ==> (s[i] as u32) < 128
}

/// The lower-case form of a string: ASCII text letter by letter, any
/// other text by the Unicode mapping.
pub open spec fn lowercase(s: Seq<char>) -> Seq<char> {
    if all_ascii(s) {
        s.map_values(|c: char| ascii_lower(c))
    } else {
        spec_lowercase(s)
    }
}

/// Calls `str::to_lowercase`. Trusted: the result is named by
/// `spec_lowercase`, a function of the characters of `s` alone; on ASCII
/// text it lower-cases `A` to `Z` and keeps every other character, as the
/// Unicode lower-case mapping does there. For other text the Unicode
/// mapping is not stated.
#[verifier::external_body]
pub(crate) fn to_lowercase(s: &str) -> (r: String)
    ensures
        r@ == spec_lowercase(s@),
        all_ascii(s@) ==> r@ == s@.map_values(|c: char| ascii_lower(c)),
{
    s.to_lowercase()
}

} // verus!
