use bazelrc::tokenizer::{tokenize, LexError, LexErrorKind, Span, Spanned, Token};

fn text(s: &str, span: Span) -> Spanned<Token> {
    (Token::Text(s.to_string()), span)
}

fn comment(s: &str, span: Span) -> Spanned<Token> {
    (Token::Comment(s.to_string()), span)
}

fn texts(source: &str) -> Vec<String> {
    tokenize(source)
        .0
        .into_iter()
        .filter_map(|t| match t.0 {
            Token::Text(s) => Some(s),
            _ => None,
        })
        .collect()
}

#[test]
fn empty_source_has_no_tokens() {
    assert_eq!(tokenize(""), (vec![], vec![]));
    assert_eq!(tokenize(" \t  "), (vec![], vec![]));
}

#[test]
fn escapes_drop_the_backslash() {
    assert_eq!(texts("a\\bc\\d"), vec!["abcd"]);
    assert_eq!(texts("a\\\\b"), vec!["a\\b"]);
    assert_eq!(texts("a\\ b\\\tc"), vec!["a b\tc"]);
    assert_eq!(tokenize("a\\ b\\\tc"), (vec![text("a b\tc", 0..7)], vec![]));
}

#[test]
fn quotes_are_resolved() {
    assert_eq!(texts("\"a b\tc\""), vec!["a b\tc"]);
    assert_eq!(texts("'a\"b\\'c'"), vec!["a\"b'c"]);
    assert_eq!(texts("abc' cd\t e\\''fg\"h i\"j"), vec!["abc cd\t e'fgh ij"]);
    assert_eq!(
        tokenize("abc' cd\t e\\''fg\"h i\"j"),
        (vec![text("abc cd\t e'fgh ij", 0..21)], vec![])
    );
    assert_eq!(tokenize("''"), (vec![text("", 0..2)], vec![]));
    assert_eq!(tokenize("'#' \"'\""), (vec![text("#", 0..3), text("'", 4..7)], vec![]));
}

#[test]
fn continuation_joins_lines() {
    assert_eq!(tokenize("a\\\nbc"), (vec![text("abc", 0..5)], vec![]));
    assert_eq!(tokenize("a\\\r\nbc"), (vec![text("abc", 0..6)], vec![]));
    assert_eq!(tokenize("'my\\\ntoken'"), (vec![text("mytoken", 0..11)], vec![]));
    assert_eq!(tokenize("a\\\n b"), (vec![text("a", 0..3), text("b", 4..5)], vec![]));
}

#[test]
fn continuation_between_tokens_is_a_token() {
    assert_eq!(
        tokenize("a \\\n b\\\r\n"),
        (
            vec![text("a", 0..1), (Token::SuppressedLineBreak, 2..4), text("b", 5..9)],
            vec![]
        )
    );
    assert_eq!(
        tokenize("\\\r\nx"),
        (vec![(Token::SuppressedLineBreak, 0..3), text("x", 3..4)], vec![])
    );
}

#[test]
fn line_breaks() {
    assert_eq!(
        tokenize("a\nb\r\nc"),
        (
            vec![
                text("a", 0..1),
                (Token::LineBreak, 1..2),
                text("b", 2..3),
                (Token::LineBreak, 3..5),
                text("c", 5..6)
            ],
            vec![]
        )
    );
}

#[test]
fn comments_run_to_the_end_of_the_line() {
    assert_eq!(
        tokenize("a#b 'c\" \\d\nx"),
        (
            vec![
                text("a", 0..1),
                comment("b 'c\" \\d", 1..10),
                (Token::LineBreak, 10..11),
                text("x", 11..12)
            ],
            vec![]
        )
    );
    assert_eq!(tokenize("#"), (vec![comment("", 0..1)], vec![]));
    // An escaped line break continues the comment and adds nothing to it.
    assert_eq!(tokenize("#a\\\nb\\\r\nc\nd").0[0], comment("abc", 0..9));
    // A backslash in front of anything else is content.
    assert_eq!(tokenize("#a\\"), (vec![comment("a\\", 0..3)], vec![]));
    // A carriage return without a line feed does not end a comment.
    assert_eq!(
        tokenize("#a\rb\\\rc\r\nd"),
        (
            vec![comment("a\rb\\\rc", 0..7), (Token::LineBreak, 7..9), text("d", 9..10)],
            vec![]
        )
    );
}

#[test]
fn a_comment_is_the_last_token_of_its_line() {
    for source in ["#a", "#a\n#b", "x #a\r#b\r\n#c\\\n#d\n", "'#' #\\\r\n# \n"] {
        let tokens = tokenize(source).0;
        for (k, token) in tokens.iter().enumerate() {
            if matches!(token.0, Token::Comment(_)) {
                assert!(k + 1 == tokens.len() || tokens[k + 1].0 == Token::LineBreak);
            }
        }
    }
}

#[test]
fn bare_line_break_in_quote() {
    assert_eq!(
        tokenize("'my\ntoken'"),
        (
            vec![text("my", 0..3), (Token::LineBreak, 3..4), text("token", 4..10)],
            vec![
                LexError { kind: LexErrorKind::BareLineBreakInQuote, span: 3..4 },
                LexError { kind: LexErrorKind::UnterminatedQuote, span: 9..10 },
            ]
        )
    );
    assert_eq!(
        tokenize("a\"b\r\nc").1,
        vec![LexError { kind: LexErrorKind::BareLineBreakInQuote, span: 3..5 }]
    );
}

#[test]
fn unterminated_quote() {
    assert_eq!(
        tokenize("ab \"cd e"),
        (
            vec![text("ab", 0..2), text("cd e", 3..8)],
            vec![LexError { kind: LexErrorKind::UnterminatedQuote, span: 3..8 }]
        )
    );
    assert_eq!(
        tokenize("'"),
        (vec![text("", 0..1)], vec![LexError { kind: LexErrorKind::UnterminatedQuote, span: 0..1 }])
    );
}

#[test]
fn malformed_sequences() {
    // A backslash at the end of the input escapes nothing.
    assert_eq!(
        tokenize("ab\\"),
        (
            vec![text("ab", 0..2)],
            vec![LexError { kind: LexErrorKind::MalformedSequence, span: 2..3 }]
        )
    );
    // A carriage return without a line feed is no line terminator.
    assert_eq!(
        tokenize("a\rb"),
        (
            vec![text("a", 0..1), text("b", 2..3)],
            vec![LexError { kind: LexErrorKind::MalformedSequence, span: 1..2 }]
        )
    );
    // Neither is it one behind a backslash.
    assert_eq!(
        tokenize("\\\rb").1,
        vec![
            LexError { kind: LexErrorKind::MalformedSequence, span: 0..1 },
            LexError { kind: LexErrorKind::MalformedSequence, span: 1..2 },
        ]
    );
    // Inside a quote both close the quote where they stand.
    assert_eq!(
        tokenize("'a\rb'c"),
        (
            vec![text("a", 0..2), text("bc", 3..6)],
            vec![
                LexError { kind: LexErrorKind::MalformedSequence, span: 2..3 },
                LexError { kind: LexErrorKind::UnterminatedQuote, span: 4..6 },
            ]
        )
    );
}

#[test]
fn recovery_keeps_the_rest() {
    let (tokens, errors) = tokenize("build 'x\ntest --y\n");
    assert_eq!(errors.len(), 1);
    assert_eq!(
        tokens,
        vec![
            text("build", 0..5),
            text("x", 6..8),
            (Token::LineBreak, 8..9),
            text("test", 9..13),
            text("--y", 14..17),
            (Token::LineBreak, 17..18),
        ]
    );
}

#[test]
fn spans_are_byte_offsets() {
    // Two bytes for each of the letters with a diaeresis, three for the sign.
    let source = "ä \\ö'€' #ü";
    assert_eq!(
        tokenize(source),
        (vec![text("ä", 0..2), text("ö€", 3..11), comment("ü", 12..15)], vec![])
    );
    for (token, span) in tokenize(source).0 {
        let raw = &source[span];
        let again = tokenize(raw).0;
        assert_eq!(again, vec![(token, 0..raw.len())]);
    }
}

#[test]
fn raw_slice_decodes_to_the_token() {
    let source = "b\"uil\"d':o'pt --\"x\"='y' a\\\nb #c\\\nd\n'open\nx\\ y\\";
    let (tokens, _) = tokenize(source);
    assert_eq!(tokens.len(), 8);
    for (token, span) in tokens {
        let raw = &source[span];
        assert_eq!(tokenize(raw).0, vec![(token, 0..raw.len())], "raw slice {:?}", raw);
    }
}

#[test]
fn tokens_are_in_source_order() {
    let (tokens, _) = tokenize("a 'b' #c\n\\\n d\\ e \r f");
    let mut at = 0;
    for (_, span) in &tokens {
        assert!(at <= span.start && span.start <= span.end);
        at = span.end;
    }
}

#[test]
fn clones_are_equal() {
    let e = LexError { kind: LexErrorKind::UnterminatedQuote, span: 2..5 };
    assert_eq!(e.clone(), e);
    for token in tokenize("a #b\n\\\n").0 {
        assert_eq!(token.clone(), token);
    }
}
