use bazelrc::parser::{parse, Flag, Line};
use bazelrc::tokenizer::{tokenize, Span, Spanned, Token};

const ALPHABET: [&str; 14] = ["a", "b", " ", "\t", "\n", "\r", "\\", "'", "\"", "#", ":", "=", "-", "é"];

/// A fixed sequence of source texts over the characters that matter.
fn sources(count: usize) -> Vec<String> {
    let mut state: u64 = 0x2545f4914f6cdd1d;
    let mut next = move |bound: u64| {
        state = state.wrapping_mul(6364136223846793005).wrapping_add(1442695040888963407);
        (state >> 33) % bound
    };
    let mut all = Vec::new();
    for _ in 0..count {
        let len = next(14);
        let mut s = String::new();
        for _ in 0..len {
            s.push_str(ALPHABET[next(ALPHABET.len() as u64) as usize]);
        }
        all.push(s);
    }
    all
}

fn sliceable(source: &str, span: &Span) -> bool {
    span.start <= span.end
        && span.end <= source.len()
        && source.is_char_boundary(span.start)
        && source.is_char_boundary(span.end)
}

fn parts(line: &Line) -> Vec<&Spanned<String>> {
    let mut parts = vec![];
    parts.extend(line.command.iter());
    parts.extend(line.config.iter());
    for flag in &line.flags {
        parts.extend(flag.name.iter());
        parts.extend(flag.value.iter());
    }
    parts
}

#[test]
fn generated_sources_have_sliceable_spans() {
    for source in sources(4000) {
        let outcome = parse(&source);
        for token in &outcome.tokens {
            assert!(sliceable(&source, &token.1), "{:?}", source);
        }
        for error in &outcome.errors {
            assert!(sliceable(&source, &error.span), "{:?}", source);
        }
        for line in &outcome.lines {
            assert!(sliceable(&source, &line.span), "{:?}", source);
            for part in parts(line) {
                assert!(sliceable(&source, &part.1), "{:?}", source);
            }
            for part in line.comment.iter() {
                assert!(sliceable(&source, &part.1), "{:?}", source);
            }
        }
    }
}

#[test]
fn generated_sources_decode_again_from_their_raw_slices() {
    for source in sources(4000) {
        let mut at = 0;
        for (token, span) in tokenize(&source).0 {
            assert!(at <= span.start, "{:?}", source);
            at = span.end;
            let raw = &source[span];
            assert_eq!(tokenize(raw).0, vec![(token, 0..raw.len())], "{:?}", source);
        }
    }
}

#[test]
fn generated_sources_give_well_shaped_lines() {
    for source in sources(4000) {
        let outcome = parse(&source);
        assert_eq!(outcome, parse(&source));
        let breaks = outcome.tokens.iter().filter(|t| t.0 == Token::LineBreak).count();
        assert_eq!(outcome.lines.len(), breaks + 1, "{:?}", source);
        for line in &outcome.lines {
            if let Some(config) = &line.config {
                assert_eq!(line.command.as_ref().unwrap().1.end, config.1.start);
            }
            for Flag { name, value } in &line.flags {
                assert!(name.is_some() || value.is_some());
                if let (Some(name), Some(value)) = (name, value) {
                    assert_eq!(name.1.end, value.1.start);
                    assert_eq!(&source[value.1.start..value.1.start + 1], "=");
                }
            }
            let mut at = line.span.start;
            for part in parts(line) {
                assert!(at <= part.1.start && part.1.start <= part.1.end, "{:?}", source);
                at = part.1.end;
            }
            assert!(at <= line.span.end, "{:?}", source);
        }
        let comments = outcome.tokens.iter().filter(|t| matches!(t.0, Token::Comment(_))).count();
        let commented = outcome.lines.iter().filter(|l| l.comment.is_some()).count();
        assert_eq!(comments, commented, "{:?}", source);
    }
}
