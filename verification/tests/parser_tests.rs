use bazelrc::parser::{assemble, parse, parser, Flag, Line};
use bazelrc::tokenizer::{tokenize, LexError, LexErrorKind, Span, Spanned, Token};

fn text(s: &str, span: Span) -> Option<Spanned<String>> {
    Some((s.to_string(), span))
}

fn named(name: &str, span: Span) -> Flag {
    Flag { name: text(name, span), value: None }
}

fn positional(value: &str, span: Span) -> Flag {
    Flag { name: None, value: text(value, span) }
}

fn flag_text(flag: &Flag) -> String {
    match (&flag.name, &flag.value) {
        (Some(name), Some(value)) => format!("{}={}", name.0, value.0),
        (Some(name), None) => name.0.clone(),
        (None, Some(value)) => value.0.clone(),
        (None, None) => panic!("a flag without name and value"),
    }
}

fn flags_only(e: &str) -> Result<Vec<Vec<String>>, Vec<LexError>> {
    let source = "command ".to_string() + e;
    parser().parse(&source).map(|v| {
        v.iter()
            // Remove empty lines
            .filter(|l| !l.flags.is_empty() || l.comment.is_some())
            // Remove positions
            .map(|v2| v2.flags.iter().map(flag_text).collect::<Vec<_>>())
            .collect::<Vec<_>>()
    })
}

fn single_line(t: &[String]) -> Result<Vec<Vec<String>>, Vec<LexError>> {
    Ok(Vec::from([Vec::from(t)]))
}

fn assert_single_flag(a1: &str, a2: &str) {
    assert_eq!(flags_only(a1), single_line(&[a2.to_string()]));
}

#[test]
fn test_newlines() {
    // Our parser accepts empty strings
    assert_eq!(parser().parse(""), Ok(Vec::from([Line::default()])));

    // `\n` and `\r\n``separate lines.
    // Lines can have leading and trailing whitespace.
    // We also preserve empty lines
    assert_eq!(
        parser().parse("cmd\n\r\n\ncmd -x \n"),
        Ok(Vec::from([
            Line {
                command: Some(("cmd".to_string(), 0..3)),
                span: 0..3,
                ..Default::default()
            },
            // The empty lines are recorded
            Line::default(),
            Line::default(),
            // This line has content again
            Line {
                command: Some(("cmd".to_string(), 7..10)),
                flags: Vec::from([named("-x", 11..13)]),
                span: 7..13,
                ..Default::default()
            },
            // The final newline is also preserved
            Line::default(),
        ]))
    );
}

#[test]
fn test_command_specifier() {
    // The first token is the command name
    assert_eq!(
        parser().parse("cmd"),
        Ok(Vec::from([Line {
            command: Some(("cmd".to_string(), 0..3)),
            span: 0..3,
            ..Default::default()
        },]))
    );

    // The command name might be followed by `:config-name`
    assert_eq!(
        parser().parse("cmd:my-config"),
        Ok(Vec::from([Line {
            command: Some(("cmd".to_string(), 0..3)),
            config: Some(("my-config".to_string(), 3..13)),
            span: 0..13,
            ..Default::default()
        },]))
    );

    // The config might contain arbitrarily complex escaped tokens
    assert_eq!(
        parser().parse("cmd:my-\\ con'f ig'"),
        Ok(Vec::from([Line {
            command: Some(("cmd".to_string(), 0..3)),
            config: Some(("my- conf ig".to_string(), 3..18)),
            span: 0..18,
            ..Default::default()
        },]))
    );

    // The command combined with some actual arguments
    assert_eq!(
        parser().parse("build:opt --x=y"),
        Ok(Vec::from([Line {
            command: Some(("build".to_string(), 0..5)),
            config: Some(("opt".to_string(), 5..9)),
            flags: Vec::from([Flag {
                name: Some(("--x".to_string(), 10..13)),
                value: Some(("y".to_string(), 13..15)),
            }]),
            span: 0..15,
            ..Default::default()
        },]))
    );
    assert_eq!(
        flag_text(&parser().parse("build:opt --x=y").unwrap()[0].flags[0]),
        "--x=y".to_string()
    );
}

#[test]
fn test_flag_parsing() {
    // A simple token without escaped characters
    assert_single_flag("abc", "abc");
    // Characters inside tokens can be escaped using `\`
    assert_single_flag("a\\bc\\d", "abcd");
    // A `\` is escaped using another `\`
    assert_single_flag("a\\\\b", "a\\b");
    // A `\` can also be used to escape whitespaces or tabs
    assert_single_flag("a\\ b\\\tc", "a b\tc");

    // A token can contain be escaped using `"`
    assert_single_flag("\"a b\tc\"", "a b\tc");
    // Instead of `"`, one can also use `'` to escape
    assert_single_flag("'a b\tc'", "a b\tc");
    // Inside `"`, other `"` can be escaped. `'` can be included unescaped
    assert_single_flag("\"a\\\"b'c\"", "a\"b'c");
    // Inside `'`, other `'` can be escaped. `"` can be included unescaped
    assert_single_flag("'a\"b\\'c'", "a\"b'c");

    // Quoted parts can also appear in the middle of tokens
    assert_single_flag("abc' cd\t e\\''fg\"h i\"j", "abc cd\t e'fgh ij");

    // A whitespace seperates two tokens
    assert_eq!(
        flags_only("ab c"),
        single_line(&["ab".to_string(), "c".to_string()])
    );
    // Instead of a whitespace, one can also use a tab
    assert_eq!(
        flags_only("ab\tc"),
        single_line(&["ab".to_string(), "c".to_string()])
    );
    // Two tokens can also be separated by multiple whitespaces
    assert_eq!(
        flags_only("ab\t \t  c"),
        single_line(&["ab".to_string(), "c".to_string()])
    );
    // Multiple quoted tokens
    assert_eq!(
        flags_only("\"t 1\" 't 2'"),
        single_line(&["t 1".to_string(), "t 2".to_string()])
    );

    // A token can be continued on the next line using a `\`
    assert_single_flag("a\\\nbc", "abc");
    // A quoted token does not continue across lines
    assert!(parser().parse("'my\ntoken'").is_err());
    // But a quoted token can contain escaped newlines
    assert_single_flag("'my\\\ntoken'", "mytoken");

    // `#` inside a quoted token does not start a token
    assert_single_flag("'a#c'", "a#c");
    // `#` can be escaped as part of a token
    assert_single_flag("a\\#c", "a#c");
}

#[test]
fn test_comments() {
    // Comments
    assert_eq!(
        parser().parse(" # my comment\n#2nd comment"),
        Ok(Vec::from([
            Line {
                comment: Some((" my comment".to_string(), 1..13)),
                span: 1..1,
                ..Default::default()
            },
            Line {
                comment: Some(("2nd comment".to_string(), 14..26)),
                span: 14..14,
                ..Default::default()
            }
        ]))
    );
    // Comments can be continued across lines with `\`
    assert_eq!(
        parser().parse(" # my\\\nco\\mment"),
        Ok(Vec::from([Line {
            comment: Some((" myco\\mment".to_string(), 1..15)),
            span: 1..1,
            ..Default::default()
        }]))
    );

    // Comments can even start in the middle of a token, without a whitespace
    assert_eq!(
        parser().parse("cmd flag#comment"),
        Ok(Vec::from([Line {
            command: Some(("cmd".to_string(), 0..3)),
            flags: Vec::from([positional("flag", 4..8)]),
            comment: Some(("comment".to_string(), 8..16)),
            span: 0..8,
            ..Default::default()
        }]))
    );
}

#[test]
fn plain_split_on_blanks() {
    let lines = parse("ab c").lines;
    assert_eq!(lines.len(), 1);
    assert_eq!(lines[0].command, text("ab", 0..2));
    assert_eq!(lines[0].flags, vec![positional("c", 3..4)]);
    let tokens = parse("ab\t \t  c").tokens;
    assert_eq!(
        tokens,
        vec![
            (Token::Text("ab".to_string()), 0..2),
            (Token::Text("c".to_string()), 7..8)
        ]
    );
    assert_eq!(flags_only("ab c"), flags_only("ab\t \t  c"));
}

#[test]
fn command_and_config_spans() {
    let outcome = parse("cmd:my-config");
    assert!(outcome.errors.is_empty());
    assert_eq!(outcome.lines.len(), 1);
    let line = &outcome.lines[0];
    assert_eq!(line.command, text("cmd", 0..3));
    assert_eq!(line.config, text("my-config", 3..13));
    assert!(line.flags.is_empty());
    assert_eq!(line.comment, None);
    // The two spans are disjoint and the second starts at the separator.
    assert_eq!(&"cmd:my-config"[0..3], "cmd");
    assert_eq!(&"cmd:my-config"[3..13], ":my-config");
}

#[test]
fn command_config_and_flag() {
    let outcome = parse("build:opt --x=y");
    let line = &outcome.lines[0];
    assert_eq!(line.command.as_ref().unwrap().0, "build");
    assert_eq!(line.config.as_ref().unwrap().0, "opt");
    assert_eq!(line.flags.len(), 1);
    assert_eq!(line.flags[0].name.as_ref().unwrap().0, "--x");
    assert_eq!(line.flags[0].value.as_ref().unwrap().0, "y");
}

#[test]
fn commandless_line() {
    let outcome = parse("--x y");
    assert_eq!(outcome.lines.len(), 1);
    let line = &outcome.lines[0];
    assert_eq!(line.command, None);
    assert_eq!(line.config, None);
    assert_eq!(line.flags, vec![named("--x", 0..3), positional("y", 4..5)]);
    assert_eq!(line.span, 0..5);
}

#[test]
fn comment_follows_token_directly() {
    let outcome = parse("cmd flag#comment");
    let line = &outcome.lines[0];
    assert_eq!(line.command, text("cmd", 0..3));
    assert_eq!(line.flags, vec![positional("flag", 4..8)]);
    assert_eq!(line.comment, text("comment", 8..16));
}

#[test]
fn blank_lines_are_kept() {
    let outcome = parse("cmd\n\r\n\ncmd -x \n");
    assert!(outcome.errors.is_empty());
    assert_eq!(outcome.lines.len(), 5);
    assert_eq!(outcome.lines[0].command, text("cmd", 0..3));
    assert_eq!(outcome.lines[1], Line::default());
    assert_eq!(outcome.lines[2], Line::default());
    assert_eq!(outcome.lines[3].command, text("cmd", 7..10));
    assert_eq!(outcome.lines[3].flags, vec![named("-x", 11..13)]);
    assert_eq!(outcome.lines[4], Line::default());
    let breaks = outcome
        .tokens
        .iter()
        .filter(|t| t.0 == Token::LineBreak)
        .map(|t| t.1.clone())
        .collect::<Vec<_>>();
    assert_eq!(breaks, vec![3..4, 4..6, 6..7, 14..15]);
}

#[test]
fn line_count_is_breaks_plus_one() {
    for source in ["", "\n", "a\nb", "a\nb\n", "\\\n", "'x\ny'", "# c\n\n\n"] {
        let outcome = parse(source);
        let breaks = outcome.tokens.iter().filter(|t| t.0 == Token::LineBreak).count();
        assert_eq!(outcome.lines.len(), breaks + 1, "source {:?}", source);
    }
}

#[test]
fn parse_is_deterministic() {
    for source in ["build:opt --x=y # c\n'a\nb' \\", "common --a='b c' d\\\ne\r\n\r"] {
        assert_eq!(parse(source), parse(source));
    }
}

#[test]
fn parse_combines_tokenize_and_assemble() {
    let source = "build:opt --x=y #c\n-k 'v\n";
    let outcome = parse(source);
    let (tokens, errors) = tokenize(source);
    assert_eq!(outcome.lines, assemble(&tokens, source));
    assert_eq!(outcome.tokens, tokens);
    assert_eq!(outcome.errors, errors);
}

#[test]
fn strict_parser_returns_the_errors() {
    assert_eq!(
        parser().parse("'my\ntoken'"),
        Err(vec![
            LexError { kind: LexErrorKind::BareLineBreakInQuote, span: 3..4 },
            LexError { kind: LexErrorKind::UnterminatedQuote, span: 9..10 },
        ])
    );
    // The lenient entry point still gives the lines.
    let outcome = parse("'my\ntoken'");
    assert_eq!(outcome.lines.len(), 2);
    assert_eq!(outcome.lines[0].command, text("my", 0..3));
    assert_eq!(outcome.lines[1].command, text("token", 4..10));
}

#[test]
fn every_span_lies_in_the_source() {
    let source = "b\"uil\"d':o'pt --\"x\"='y' é\\ü #c\\\nd\n'open\n\\";
    let outcome = parse(source);
    let len = source.len();
    let ok = |s: &Span| s.start <= s.end && s.end <= len;
    for t in &outcome.tokens {
        assert!(ok(&t.1));
        assert!(source.is_char_boundary(t.1.start) && source.is_char_boundary(t.1.end));
    }
    for e in &outcome.errors {
        assert!(ok(&e.span));
    }
    for l in &outcome.lines {
        assert!(ok(&l.span));
        for part in [&l.command, &l.config, &l.comment].into_iter().flatten() {
            assert!(ok(&part.1));
        }
        for f in &l.flags {
            assert!(f.name.is_some() || f.value.is_some());
            for part in [&f.name, &f.value].into_iter().flatten() {
                assert!(ok(&part.1));
            }
        }
    }
}

#[test]
fn exotic_quoting_splits_at_the_raw_separator() {
    let outcome = parse("b\"uil\"d':o'pt --\"x\"='y'");
    assert!(outcome.errors.is_empty());
    let line = &outcome.lines[0];
    assert_eq!(line.command, text("build", 0..8));
    assert_eq!(line.config, text("opt", 8..13));
    assert_eq!(
        line.flags,
        vec![Flag { name: text("--x", 14..19), value: text("y", 19..23) }]
    );
}

#[test]
fn flag_forms() {
    let line = &parse("run -c opt --copt=-O2=x --flag= pos=1 -")
        .lines[0];
    assert_eq!(line.command, text("run", 0..3));
    assert_eq!(
        line.flags,
        vec![
            named("-c", 4..6),
            positional("opt", 7..10),
            Flag { name: text("--copt", 11..17), value: text("-O2=x", 17..23) },
            Flag { name: text("--flag", 24..30), value: text("", 30..31) },
            positional("pos=1", 32..37),
            named("-", 38..39),
        ]
    );
}

#[test]
fn assemble_accepts_any_tokens() {
    // Spans that do not fit the source, two comments, text behind a comment.
    let tokens = vec![
        (Token::Comment("one".to_string()), 50..40),
        (Token::Text("a:b".to_string()), 7..900),
        (Token::SuppressedLineBreak, 0..0),
        (Token::Comment("two".to_string()), 1..2),
        (Token::Text("--k=v".to_string()), 0..5),
        (Token::LineBreak, 3..3),
    ];
    let lines = assemble(&tokens, "x=y:z");
    assert_eq!(lines.len(), 2);
    assert_eq!(lines[0].command, text("a", 7..7));
    assert_eq!(lines[0].config, text("b", 7..900));
    assert_eq!(lines[0].comment, text("two", 1..2));
    assert_eq!(
        lines[0].flags,
        vec![Flag { name: text("--k", 0..1), value: text("v", 1..5) }]
    );
    assert_eq!(lines[0].span, 50..5);
    assert_eq!(lines[1], Line::default());
}

#[test]
fn split_without_raw_separator() {
    // The decoded text holds a separator that the raw source does not.
    let tokens = vec![(Token::Text("a:b".to_string()), 0..3)];
    let lines = assemble(&tokens, "abc");
    assert_eq!(lines[0].command, text("a", 0..3));
    assert_eq!(lines[0].config, text("b", 3..3));
}

#[test]
fn line_clone_is_equal() {
    let line = parse("build:opt --x=y z # c").lines.remove(0);
    assert_eq!(line.clone(), line);
}

#[test]
fn parts_of_a_line_are_in_source_order() {
    let source = "build:opt --a=b c -d 'e f'=g # h\nrun:x y";
    for line in parse(source).lines {
        let mut at = line.span.start;
        let mut parts = vec![];
        parts.extend(line.command.iter());
        parts.extend(line.config.iter());
        for flag in &line.flags {
            parts.extend(flag.name.iter());
            parts.extend(flag.value.iter());
        }
        assert!(!parts.is_empty());
        for part in parts {
            assert!(at <= part.1.start && part.1.start <= part.1.end);
            at = part.1.end;
        }
        assert_eq!(at, line.span.end);
    }
}
