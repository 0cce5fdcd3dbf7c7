//! The tokenizer: from source text to spanned tokens and lexical errors.
//!
//! The rules are stated over the UTF-8 bytes of the source. Every byte with a
//! meaning of its own (blank, line terminator, quote, `#`, backslash) is ASCII, so
//! reading bytes and reading characters recognise the same tokens, and the spans
//! are byte offsets into the source as it was given.
//!
//! The `spec` functions below say what is read at each offset; they end in
//! [`tokens_of`] and [`errors_of`], and [`tokenize`] computes exactly those.
use crate::tokenizer_proofs::{
    errors_sliceable, errors_within, lemma_lex_step_well_formed, lemma_token_spans_valid,
    lemma_tokens_sliceable, tokens_ordered, tokens_sliceable,
};
use crate::utf8::string_of_bytes;
use vstd::prelude::*;
use vstd::string::*;
use vstd::utf8::*;

verus! {

/// A half-open range `start..end` of byte offsets into the source text.
pub type Span = std::ops::Range<usize>;

/// A value together with the span of the source text it was read from.
pub type Spanned<T> = (T, Span);

/// The bytes that mean something to the tokenizer.
pub const SPACE: u8 = 0x20;

/// `\t`
pub const TAB: u8 = 0x09;

/// `\n`
pub const LINE_FEED: u8 = 0x0a;

/// `\r`
pub const CARRIAGE_RETURN: u8 = 0x0d;

/// `"`
pub const DOUBLE_QUOTE: u8 = 0x22;

/// `'`
pub const SINGLE_QUOTE: u8 = 0x27;

/// `#`
pub const HASH: u8 = 0x23;

/// `\`
pub const BACKSLASH: u8 = 0x5c;

/// A lexical unit of a bazelrc file.
#[derive(Debug, PartialEq, Eq)]
pub enum Token {
    /// Literal text, with quotes and escapes already resolved.
    Text(String),
    /// The content of a comment, without the leading `#`.
    Comment(String),
    /// An unescaped line terminator (`\n` or `\r\n`).
    LineBreak,
    /// A line terminator escaped by a backslash, standing between tokens.
    SuppressedLineBreak,
}

/// Why the tokenizer rejected a piece of the source.
#[derive(Clone, Copy, Debug, PartialEq, Eq)]
pub enum LexErrorKind {
    /// A quote was opened and the input ended before it was closed. The span
    /// runs from the opening quote to the end of the input.
    UnterminatedQuote,
    /// An unescaped line terminator stands inside an open quote. The span is
    /// that of the line terminator.
    BareLineBreakInQuote,
    /// A byte that can neither start nor continue a token: a carriage return
    /// without a line feed, or a backslash that escapes nothing. The span is
    /// that byte.
    MalformedSequence,
}

/// A recoverable lexical error: what was wrong, and where.
#[derive(Debug, PartialEq, Eq)]
pub struct LexError {
    pub kind: LexErrorKind,
    pub span: Span,
}

impl Clone for Token {
    fn clone(&self) -> (r: Self)
        ensures
            r == *self,
    {
        match self {
            Token::Text(s) => Token::Text(s.clone()),
            Token::Comment(s) => Token::Comment(s.clone()),
            Token::LineBreak => Token::LineBreak,
            Token::SuppressedLineBreak => Token::SuppressedLineBreak,
        }
    }
}

impl Clone for LexError {
    fn clone(&self) -> (r: Self)
        ensures
            r == *self,
    {
        LexError { kind: self.kind, span: self.span.start..self.span.end }
    }
}

/// A span as a pair of mathematical integers.
pub struct Extent {
    pub start: int,
    pub end: int,
}

/// The mathematical value of a token: its kind and the UTF-8 bytes of its text.
pub enum TokenView {
    Text(Seq<u8>),
    Comment(Seq<u8>),
    LineBreak,
    SuppressedLineBreak,
}

/// A token and its span, as mathematical values.
pub struct TokenAt {
    pub token: TokenView,
    pub span: Extent,
}

/// The mathematical value of a lexical error.
pub struct LexErrorView {
    pub kind: LexErrorKind,
    pub span: Extent,
}

/// The mathematical value of a span.
pub open spec fn extent(span: Span) -> Extent {
    Extent { start: span.start as int, end: span.end as int }
}

impl View for Token {
    type V = TokenView;

    open spec fn view(&self) -> TokenView {
        match self {
            Token::Text(s) => TokenView::Text(encode_utf8(s@)),
            Token::Comment(s) => TokenView::Comment(encode_utf8(s@)),
            Token::LineBreak => TokenView::LineBreak,
            Token::SuppressedLineBreak => TokenView::SuppressedLineBreak,
        }
    }
}

impl View for LexError {
    type V = LexErrorView;

    open spec fn view(&self) -> LexErrorView {
        LexErrorView { kind: self.kind, span: extent(self.span) }
    }
}

/// The mathematical value of a spanned token.
pub open spec fn token_at(t: Spanned<Token>) -> TokenAt {
    TokenAt { token: t.0@, span: extent(t.1) }
}

/// The mathematical value of a token list.
pub open spec fn tokens_view(tokens: Seq<Spanned<Token>>) -> Seq<TokenAt> {
    tokens.map_values(|t: Spanned<Token>| token_at(t))
}

/// The mathematical value of an error list.
pub open spec fn errors_view(errors: Seq<LexError>) -> Seq<LexErrorView> {
    errors.map_values(|e: LexError| e@)
}

/// The mathematical value of an error, if there is one.
pub open spec fn error_view(error: Option<LexError>) -> Option<LexErrorView> {
    match error {
        Some(e) => Some(e@),
        None => None,
    }
}

/// The length of the line terminator that starts at offset `i`: 1 for a line
/// feed, 2 for a carriage return and a line feed, 0 where none starts.
pub open spec fn newline_len(src: Seq<u8>, i: int) -> int {
    if 0 <= i < src.len() && src[i] == LINE_FEED {
        1
    } else if 0 <= i && i + 1 < src.len() && src[i] == CARRIAGE_RETURN && src[i + 1] == LINE_FEED {
        2
    } else {
        0
    }
}

/// The length of the continuation that starts at offset `i`: a backslash and
/// the line terminator after it, or 0 where there is none.
pub open spec fn continuation_len(src: Seq<u8>, i: int) -> int {
    if 0 <= i < src.len() && src[i] == BACKSLASH && newline_len(src, i + 1) > 0 {
        1 + newline_len(src, i + 1)
    } else {
        0
    }
}

/// True when offset `i` holds a backslash that escapes the byte after it, which
/// is any byte but a carriage return or a line feed.
pub open spec fn escape_at(src: Seq<u8>, i: int) -> bool {
    0 <= i && i + 1 < src.len() && src[i] == BACKSLASH && src[i + 1] != CARRIAGE_RETURN && src[i
        + 1] != LINE_FEED
}

/// The outcome of reading a text token: where it ends, its decoded bytes, and
/// the error that cut it short, if any.
pub struct TextScan {
    pub end: int,
    pub text: Seq<u8>,
    pub error: Option<LexErrorView>,
}

/// Reads on in a text token from offset `i`. `quote` is the quote byte of the
/// quoted region that is open at `i`, 0 outside of quotes, and `opened` is the
/// offset of that quote; `acc` holds the bytes decoded so far.
///
/// A continuation decodes to nothing and an escape to the escaped byte, inside
/// and outside of quotes. Outside of quotes a quote byte opens a region and a
/// blank, a `#`, a carriage return or a line feed ends the token. Inside, the
/// matching quote closes the region and every other byte is literal. The token
/// also ends, with the quote closed by force, where the input ends, in front of
/// a carriage return or a line feed, and in front of a backslash that escapes
/// nothing.
pub open spec fn text_scan(src: Seq<u8>, i: int, quote: u8, opened: int, acc: Seq<u8>) -> TextScan
    decreases src.len() - i,
{
    if !(0 <= i < src.len()) {
        TextScan {
            end: i,
            text: acc,
            error: if quote != 0 {
                Some(
                    LexErrorView {
                        kind: LexErrorKind::UnterminatedQuote,
                        span: Extent { start: opened, end: i },
                    },
                )
            } else {
                None
            },
        }
    } else if continuation_len(src, i) > 0 {
        text_scan(src, i + continuation_len(src, i), quote, opened, acc)
    } else if escape_at(src, i) {
        text_scan(src, i + 2, quote, opened, acc.push(src[i + 1]))
    } else if src[i] == BACKSLASH || src[i] == CARRIAGE_RETURN || src[i] == LINE_FEED {
        TextScan {
            end: i,
            text: acc,
            error: if quote != 0 && newline_len(src, i) > 0 {
                Some(
                    LexErrorView {
                        kind: LexErrorKind::BareLineBreakInQuote,
                        span: Extent { start: i, end: i + newline_len(src, i) },
                    },
                )
            } else {
                None
            },
        }
    } else if quote == 0 {
        if src[i] == DOUBLE_QUOTE || src[i] == SINGLE_QUOTE {
            text_scan(src, i + 1, src[i], i, acc)
        } else if src[i] == SPACE || src[i] == TAB || src[i] == HASH {
            TextScan { end: i, text: acc, error: None }
        } else {
            text_scan(src, i + 1, quote, opened, acc.push(src[i]))
        }
    } else {
        if src[i] == quote {
            text_scan(src, i + 1, 0, opened, acc)
        } else {
            text_scan(src, i + 1, quote, opened, acc.push(src[i]))
        }
    }
}

/// The outcome of reading a comment: where it ends and its decoded bytes.
pub struct CommentScan {
    pub end: int,
    pub text: Seq<u8>,
}

/// Reads on in a comment from offset `i`, with `acc` decoded so far. A
/// continuation decodes to nothing; the comment ends in front of the first
/// other line terminator, or with the input. Every other byte is content, a
/// backslash and a carriage return without a line feed too.
pub open spec fn comment_scan(src: Seq<u8>, i: int, acc: Seq<u8>) -> CommentScan
    decreases src.len() - i,
{
    if !(0 <= i < src.len()) {
        CommentScan { end: i, text: acc }
    } else if continuation_len(src, i) > 0 {
        comment_scan(src, i + continuation_len(src, i), acc)
    } else if newline_len(src, i) > 0 {
        CommentScan { end: i, text: acc }
    } else {
        comment_scan(src, i + 1, acc.push(src[i]))
    }
}

/// What the tokenizer does at one offset between tokens: the token and the
/// error it produces there, if any, and the offset at which it goes on.
pub struct LexStep {
    pub token: Option<TokenAt>,
    pub error: Option<LexErrorView>,
    pub next: int,
}

/// True when a text token starts at offset `i`: the byte there is no blank,
/// starts no line terminator, continuation or comment, and is neither a lone
/// carriage return nor a backslash that escapes nothing.
pub open spec fn text_starts_at(src: Seq<u8>, i: int) -> bool {
    &&& 0 <= i < src.len()
    &&& src[i] != SPACE
    &&& src[i] != TAB
    &&& src[i] != LINE_FEED
    &&& src[i] != CARRIAGE_RETURN
    &&& src[i] != HASH
    &&& (src[i] == BACKSLASH ==> escape_at(src, i))
}

/// The step taken at offset `i`, which lies between tokens and inside the source.
pub open spec fn lex_step(src: Seq<u8>, i: int) -> LexStep {
    if src[i] == SPACE || src[i] == TAB {
        LexStep { token: None, error: None, next: i + 1 }
    } else if newline_len(src, i) > 0 {
        let end = i + newline_len(src, i);
        LexStep {
            token: Some(TokenAt { token: TokenView::LineBreak, span: Extent { start: i, end } }),
            error: None,
            next: end,
        }
    } else if continuation_len(src, i) > 0 {
        let end = i + continuation_len(src, i);
        LexStep {
            token: Some(
                TokenAt { token: TokenView::SuppressedLineBreak, span: Extent { start: i, end } },
            ),
            error: None,
            next: end,
        }
    } else if src[i] == HASH {
        let c = comment_scan(src, i + 1, Seq::empty());
        LexStep {
            token: Some(
                TokenAt { token: TokenView::Comment(c.text), span: Extent { start: i, end: c.end } },
            ),
            error: None,
            next: c.end,
        }
    } else if text_starts_at(src, i) {
        let t = text_scan(src, i, 0, 0, Seq::empty());
        LexStep {
            token: Some(
                TokenAt { token: TokenView::Text(t.text), span: Extent { start: i, end: t.end } },
            ),
            error: t.error,
            next: t.end,
        }
    } else {
        LexStep {
            token: None,
            error: Some(
                LexErrorView {
                    kind: LexErrorKind::MalformedSequence,
                    span: Extent { start: i, end: i + 1 },
                },
            ),
            next: i + 1,
        }
    }
}

/// Reading a text token never moves backwards and never leaves the source.
pub proof fn lemma_text_scan_bounds(src: Seq<u8>, i: int, quote: u8, opened: int, acc: Seq<u8>)
    requires
        0 <= i <= src.len(),
    ensures
        i <= text_scan(src, i, quote, opened, acc).end <= src.len(),
    decreases src.len() - i,
{
    if i < src.len() {
        if continuation_len(src, i) > 0 {
            lemma_text_scan_bounds(src, i + continuation_len(src, i), quote, opened, acc);
        } else if escape_at(src, i) {
            lemma_text_scan_bounds(src, i + 2, quote, opened, acc.push(src[i + 1]));
        } else if src[i] == BACKSLASH || src[i] == CARRIAGE_RETURN || src[i] == LINE_FEED {
        } else if quote == 0 {
            if src[i] == DOUBLE_QUOTE || src[i] == SINGLE_QUOTE {
                lemma_text_scan_bounds(src, i + 1, src[i], i, acc);
            } else if src[i] == SPACE || src[i] == TAB || src[i] == HASH {
            } else {
                lemma_text_scan_bounds(src, i + 1, quote, opened, acc.push(src[i]));
            }
        } else {
            if src[i] == quote {
                lemma_text_scan_bounds(src, i + 1, 0, opened, acc);
            } else {
                lemma_text_scan_bounds(src, i + 1, quote, opened, acc.push(src[i]));
            }
        }
    }
}

/// The same for a comment.
pub proof fn lemma_comment_scan_bounds(src: Seq<u8>, i: int, acc: Seq<u8>)
    requires
        0 <= i <= src.len(),
    ensures
        i <= comment_scan(src, i, acc).end <= src.len(),
    decreases src.len() - i,
{
    if i < src.len() {
        if continuation_len(src, i) > 0 {
            lemma_comment_scan_bounds(src, i + continuation_len(src, i), acc);
        } else if newline_len(src, i) > 0 {
        } else {
            lemma_comment_scan_bounds(src, i + 1, acc.push(src[i]));
        }
    }
}

/// Every step consumes at least one byte and stays inside the source.
pub proof fn lemma_lex_step_advances(src: Seq<u8>, i: int)
    requires
        0 <= i < src.len(),
    ensures
        i < lex_step(src, i).next <= src.len(),
{
    if src[i] == SPACE || src[i] == TAB {
    } else if newline_len(src, i) > 0 {
    } else if continuation_len(src, i) > 0 {
    } else if src[i] == HASH {
        lemma_comment_scan_bounds(src, i + 1, Seq::empty());
    } else if text_starts_at(src, i) {
        let e = Seq::<u8>::empty();
        if escape_at(src, i) {
            lemma_text_scan_bounds(src, i + 2, 0, 0, e.push(src[i + 1]));
        } else if src[i] == DOUBLE_QUOTE || src[i] == SINGLE_QUOTE {
            lemma_text_scan_bounds(src, i + 1, src[i], i, e);
        } else {
            lemma_text_scan_bounds(src, i + 1, 0, 0, e.push(src[i]));
        }
    } else {
    }
}

/// The tokens read from offset `i`, which lies between tokens, to the end.
pub open spec fn tokens_from(src: Seq<u8>, i: int) -> Seq<TokenAt>
    decreases src.len() - i,
{
    if !(0 <= i < src.len()) {
        Seq::empty()
    } else {
        proof {
            lemma_lex_step_advances(src, i);
        }
        let step = lex_step(src, i);
        match step.token {
            Some(t) => seq![t] + tokens_from(src, step.next),
            None => tokens_from(src, step.next),
        }
    }
}

/// The errors found from offset `i`, which lies between tokens, to the end.
pub open spec fn errors_from(src: Seq<u8>, i: int) -> Seq<LexErrorView>
    decreases src.len() - i,
{
    if !(0 <= i < src.len()) {
        Seq::empty()
    } else {
        proof {
            lemma_lex_step_advances(src, i);
        }
        let step = lex_step(src, i);
        match step.error {
            Some(e) => seq![e] + errors_from(src, step.next),
            None => errors_from(src, step.next),
        }
    }
}

/// The tokens of a source text, in source order.
pub open spec fn tokens_of(src: Seq<u8>) -> Seq<TokenAt> {
    tokens_from(src, 0)
}

/// The lexical errors of a source text, in source order.
pub open spec fn errors_of(src: Seq<u8>) -> Seq<LexErrorView> {
    errors_from(src, 0)
}

fn newline_len_at(src: &[u8], i: usize) -> (k: usize)
    ensures
        k == newline_len(src@, i as int),
{
    let n = src.len();
    if i < n && src[i] == LINE_FEED {
        1
    } else if i < n && n - i >= 2 && src[i] == CARRIAGE_RETURN && src[i + 1] == LINE_FEED {
        2
    } else {
        0
    }
}

fn continuation_len_at(src: &[u8], i: usize) -> (k: usize)
    ensures
        k == continuation_len(src@, i as int),
{
    if i < src.len() && src[i] == BACKSLASH {
        let k = newline_len_at(src, i + 1);
        if k > 0 {
            1 + k
        } else {
            0
        }
    } else {
        0
    }
}

fn is_escape_at(src: &[u8], i: usize) -> (b: bool)
    ensures
        b == escape_at(src@, i as int),
{
    let n = src.len();
    i < n && n - i >= 2 && src[i] == BACKSLASH && src[i + 1] != CARRIAGE_RETURN && src[i + 1]
        != LINE_FEED
}

fn is_text_start(src: &[u8], i: usize) -> (b: bool)
    ensures
        b == text_starts_at(src@, i as int),
{
    if i < src.len() {
        let c = src[i];
        c != SPACE && c != TAB && c != LINE_FEED && c != CARRIAGE_RETURN && c != HASH && (c
            != BACKSLASH || is_escape_at(src, i))
    } else {
        false
    }
}

/// Reads the text token that starts at `start`. Returns where it ends, its
/// decoded bytes and the error that cut it short, if any.
fn scan_text(src: &[u8], start: usize) -> (r: (usize, Vec<u8>, Option<LexError>))
    requires
        start <= src@.len(),
    ensures
        (TextScan { end: r.0 as int, text: r.1@, error: error_view(r.2) }) == text_scan(
            src@,
            start as int,
            0,
            0,
            Seq::empty(),
        ),
        start <= r.0 <= src@.len(),
{
    let n = src.len();
    let ghost whole = src@;
    let ghost goal = text_scan(whole, start as int, 0, 0, Seq::empty());
    let mut i = start;
    let mut quote: u8 = 0;
    let mut opened: usize = 0;
    let mut text: Vec<u8> = Vec::new();
    let mut error: Option<LexError> = None;
    let mut done = false;
    while !done
        invariant
            n == whole.len(),
            whole == src@,
            start <= i <= n,
            opened <= n,
            goal == text_scan(whole, start as int, 0, 0, Seq::empty()),
            !done ==> error is None,
            !done ==> text_scan(whole, i as int, quote, opened as int, text@) == goal,
            done ==> (TextScan { end: i as int, text: text@, error: error_view(error) }) == goal,
        decreases n - i + (if done { 0int } else { 1int }),
    {
        if i >= n {
            if quote != 0 {
                error = Some(LexError { kind: LexErrorKind::UnterminatedQuote, span: opened..i });
            }
            done = true;
        } else {
            let b = src[i];
            let c = continuation_len_at(src, i);
            if c > 0 {
                i = i + c;
            } else if is_escape_at(src, i) {
                text.push(src[i + 1]);
                i = i + 2;
            } else if b == BACKSLASH || b == CARRIAGE_RETURN || b == LINE_FEED {
                let k = newline_len_at(src, i);
                if quote != 0 && k > 0 {
                    error =
                    Some(LexError { kind: LexErrorKind::BareLineBreakInQuote, span: i..i + k });
                }
                done = true;
            } else if quote == 0 {
                if b == DOUBLE_QUOTE || b == SINGLE_QUOTE {
                    quote = b;
                    opened = i;
                    i = i + 1;
                } else if b == SPACE || b == TAB || b == HASH {
                    done = true;
                } else {
                    text.push(b);
                    i = i + 1;
                }
            } else {
                if b == quote {
                    quote = 0;
                    i = i + 1;
                } else {
                    text.push(b);
                    i = i + 1;
                }
            }
        }
    }
    (i, text, error)
}

/// Reads the comment whose content starts at `start`, behind the `#`. Returns
/// where it ends and its decoded bytes.
fn scan_comment(src: &[u8], start: usize) -> (r: (usize, Vec<u8>))
    requires
        start <= src@.len(),
    ensures
        (CommentScan { end: r.0 as int, text: r.1@ }) == comment_scan(
            src@,
            start as int,
            Seq::empty(),
        ),
        start <= r.0 <= src@.len(),
{
    let n = src.len();
    let ghost whole = src@;
    let ghost goal = comment_scan(whole, start as int, Seq::empty());
    let mut i = start;
    let mut text: Vec<u8> = Vec::new();
    let mut done = false;
    while !done
        invariant
            n == whole.len(),
            whole == src@,
            start <= i <= n,
            goal == comment_scan(whole, start as int, Seq::empty()),
            !done ==> comment_scan(whole, i as int, text@) == goal,
            done ==> (CommentScan { end: i as int, text: text@ }) == goal,
        decreases n - i + (if done { 0int } else { 1int }),
    {
        if i >= n {
            done = true;
        } else {
            let b = src[i];
            let c = continuation_len_at(src, i);
            if c > 0 {
                i = i + c;
            } else if newline_len_at(src, i) > 0 {
                done = true;
            } else {
                text.push(b);
                i = i + 1;
            }
        }
    }
    (i, text)
}

/// Splits a source text into tokens and collects the lexical errors.
///
/// The tokenizer never fails: where the source is malformed it records an
/// error, ends the token it was reading and goes on from the offending
/// place. The result is exactly [`tokens_of`] and [`errors_of`] of the source's
/// bytes; the tokens stand in source order and every span is a valid span of
/// the source by which the source can be sliced.
pub fn tokenize(source: &str) -> (r: (Vec<Spanned<Token>>, Vec<LexError>))
    ensures
        tokens_view(r.0@) == tokens_of(source.spec_bytes()),
        errors_view(r.1@) == errors_of(source.spec_bytes()),
        tokens_ordered(tokens_view(r.0@), 0, source.spec_bytes().len() as int),
        errors_within(errors_view(r.1@), source.spec_bytes().len() as int),
        tokens_sliceable(tokens_view(r.0@), source.spec_bytes()),
        errors_sliceable(errors_view(r.1@), source.spec_bytes()),
{
    let src = source.as_bytes();
    let n = src.len();
    let ghost whole = src@;
    let mut tokens: Vec<Spanned<Token>> = Vec::new();
    let mut errors: Vec<LexError> = Vec::new();
    let mut i: usize = 0;
    proof {
        broadcast use encode_utf8_valid_utf8;

        assert(whole.subrange(0, n as int) =~= whole);
        assert(tokens_view(tokens@) =~= Seq::empty());
        assert(errors_view(errors@) =~= Seq::empty());
    }
    while i < n
        invariant
            n == whole.len(),
            whole == src@,
            i <= n,
            valid_utf8(whole.subrange(i as int, n as int)),
            tokens_view(tokens@) + tokens_from(whole, i as int) == tokens_from(whole, 0),
            errors_view(errors@) + errors_from(whole, i as int) == errors_from(whole, 0),
        decreases n - i,
    {
        let ghost step = lex_step(whole, i as int);
        let ghost old_tokens = tokens@;
        let ghost old_errors = errors@;
        proof {
            lemma_lex_step_advances(whole, i as int);
            lemma_lex_step_well_formed(whole, i as int);
        }
        let b = src[i];
        let nl = newline_len_at(src, i);
        let cl = continuation_len_at(src, i);
        let next: usize;
        if b == SPACE || b == TAB {
            next = i + 1;
        } else if nl > 0 {
            tokens.push((Token::LineBreak, i..i + nl));
            next = i + nl;
        } else if cl > 0 {
            tokens.push((Token::SuppressedLineBreak, i..i + cl));
            next = i + cl;
        } else if b == HASH {
            let (end, bytes) = scan_comment(src, i + 1);
            let text = string_of_bytes(bytes);
            tokens.push((Token::Comment(text), i..end));
            next = end;
        } else if is_text_start(src, i) {
            let (end, bytes, error) = scan_text(src, i);
            let text = string_of_bytes(bytes);
            tokens.push((Token::Text(text), i..end));
            match error {
                Some(e) => {
                    errors.push(e);
                },
                None => {},
            }
            next = end;
        } else {
            errors.push(LexError { kind: LexErrorKind::MalformedSequence, span: i..i + 1 });
            next = i + 1;
        }
        proof {
            assert(next == step.next);
            match step.token {
                Some(t) => {
                    assert(tokens_view(tokens@) =~= tokens_view(old_tokens).push(t));
                    assert(tokens_view(tokens@) + tokens_from(whole, next as int) =~= tokens_view(
                        old_tokens,
                    ) + tokens_from(whole, i as int));
                },
                None => {
                    assert(tokens@ == old_tokens);
                },
            }
            match step.error {
                Some(e) => {
                    assert(errors_view(errors@) =~= errors_view(old_errors).push(e));
                    assert(errors_view(errors@) + errors_from(whole, next as int) =~= errors_view(
                        old_errors,
                    ) + errors_from(whole, i as int));
                },
                None => {
                    assert(errors@ == old_errors);
                },
            }
        }
        i = next;
    }
    proof {
        assert(tokens_view(tokens@) + tokens_from(whole, n as int) =~= tokens_view(tokens@));
        assert(errors_view(errors@) + errors_from(whole, n as int) =~= errors_view(errors@));
        lemma_token_spans_valid(whole);
        lemma_tokens_sliceable(whole);
    }
    (tokens, errors)
}

} // verus!
