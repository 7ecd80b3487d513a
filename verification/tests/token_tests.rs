use mini_browser::token::Token;

fn describe(tokens: &[Token]) -> Vec<String> {
    tokens
        .iter()
        .map(|t| match t {
            Token::Tag(s) => format!("tag:{}", s),
            Token::Text(s) => format!("text:{}", s),
        })
        .collect()
}

fn unlex(tokens: &[Token]) -> String {
    let mut out = String::new();
    for t in tokens {
        match t {
            Token::Tag(s) => {
                out.push('<');
                out.push_str(s);
                out.push('>');
            }
            Token::Text(s) => out.push_str(s),
        }
    }
    out
}

#[test]
fn lex_splits_tags_and_text() {
    let tokens = Token::lex("<p>hi</p>");
    assert_eq!(describe(&tokens), vec!["tag:p", "text:hi", "tag:/p"]);
}

#[test]
fn lex_keeps_text_between_and_after_tags() {
    let tokens = Token::lex("a<b>c");
    assert_eq!(describe(&tokens), vec!["text:a", "tag:b", "text:c"]);
}

#[test]
fn lex_drops_an_unclosed_tag() {
    let tokens = Token::lex("a<b");
    assert_eq!(describe(&tokens), vec!["text:a"]);
}

#[test]
fn lex_empty_tag() {
    let tokens = Token::lex("<>");
    assert_eq!(describe(&tokens), vec!["tag:"]);
}

#[test]
fn lex_close_without_open_makes_a_tag() {
    let tokens = Token::lex("a>b");
    assert_eq!(describe(&tokens), vec!["tag:a", "text:b"]);
}

#[test]
fn lex_second_open_ends_pending_text() {
    let tokens = Token::lex("<a<b>");
    assert_eq!(describe(&tokens), vec!["text:a", "tag:b"]);
}

#[test]
fn lex_empty_source() {
    assert!(Token::lex("").is_empty());
}

#[test]
fn lex_reads_grapheme_clusters() {
    // `<` followed by a combining mark is one cluster, not a delimiter.
    let tokens = Token::lex("a<\u{338}b");
    assert_eq!(describe(&tokens), vec!["text:a<\u{338}b"]);
    let tokens = Token::lex("<p>e\u{301}</p>");
    assert_eq!(describe(&tokens), vec!["tag:p", "text:e\u{301}", "tag:/p"]);
}

#[test]
fn lex_round_trip_on_alternating_delimiters() {
    for source in ["<div>x</div>y", "text only", "<a href=\"x\">t</a><br>", ""] {
        let tokens = Token::lex(source);
        assert_eq!(unlex(&tokens), source);
    }
}

#[test]
fn lex_graphemes_follows_the_given_clusters() {
    let source = "<p>a<\u{338}</p>";
    let gs = vec!["<", "p", ">", "a", "<\u{338}", "<", "/p", ">"];
    let tokens = Token::lex_graphemes(source, &gs);
    assert_eq!(describe(&tokens), vec!["tag:p", "text:a<\u{338}", "tag:/p"]);
    // The same text split into single characters: `<` is then a delimiter.
    let chars = vec!["<", "p", ">", "a", "<", "\u{338}", "<", "/", "p", ">"];
    let tokens = Token::lex_graphemes(source, &chars);
    assert_eq!(describe(&tokens), vec!["tag:p", "text:a", "text:\u{338}", "tag:/p"]);
}
