//! The line assembler: from spanned tokens to line records.
//!
//! One pass over the tokens groups them into lines, takes the command and the
//! named configuration from the first text token of a line and turns every
//! other text token into a flag. Where a token is split in two, the span of
//! the token is split as well, at the separator's offset in the raw source.
//!
//! [`lines_of`] says what the lines of a token sequence are; [`assemble`]
//! computes exactly that, and [`parse`] runs the tokenizer and the assembler
//! together.
use crate::tokenizer::{
    errors_of, errors_view, extent, tokenize, tokens_of, tokens_view, Extent, LexError,
    LexErrorView, Span, Spanned, Token, TokenAt, TokenView,
};
use crate::parser_proofs::{
    lemma_line_count, lemma_lines_shaped, lemma_parse_sliceable, lemma_parse_spans_valid,
    line_breaks, line_shaped, outcome_sliceable, outcome_within,
};
use crate::utf8::lemma_boundary_after_ascii;
use vstd::prelude::*;
use vstd::slice::slice_subrange;
use vstd::string::*;
use vstd::utf8::*;

verus! {

/// `:`, which separates a command from its configuration.
pub const COLON: u8 = 0x3a;

/// `=`, which separates the name of a flag from its value.
pub const EQUALS: u8 = 0x3d;

/// `-`, with which a named flag starts.
pub const DASH: u8 = 0x2d;

/// One argument of a line, taken apart at its first `=`.
///
/// A flag that starts with a dash has a name, and a value if an `=` follows the
/// name. Any other flag is positional: it has a value and no name.
#[derive(Debug, PartialEq, Eq)]
pub struct Flag {
    pub name: Option<Spanned<String>>,
    pub value: Option<Spanned<String>>,
}

/// One line of a bazelrc file.
#[derive(Debug, PartialEq, Eq)]
pub struct Line {
    pub command: Option<Spanned<String>>,
    pub config: Option<Spanned<String>>,
    pub flags: Vec<Flag>,
    pub comment: Option<Spanned<String>>,
    /// The span of this line, without the comment: from the start of its first
    /// token to the end of its last text token. A blank line has the span `0..0`.
    pub span: Span,
}

/// All that parsing a source text yields: its tokens, its lines, and the
/// lexical errors found on the way.
#[derive(Debug, PartialEq, Eq)]
pub struct ParseOutcome {
    pub tokens: Vec<Spanned<Token>>,
    pub lines: Vec<Line>,
    pub errors: Vec<LexError>,
}

/// A text and its span, as mathematical values: the UTF-8 bytes of the text
/// and the two offsets.
pub struct TextAt {
    pub text: Seq<u8>,
    pub span: Extent,
}

/// The mathematical value of a flag.
pub struct FlagView {
    pub name: Option<TextAt>,
    pub value: Option<TextAt>,
}

/// The mathematical value of a line.
pub struct LineView {
    pub command: Option<TextAt>,
    pub config: Option<TextAt>,
    pub flags: Seq<FlagView>,
    pub comment: Option<TextAt>,
    pub span: Extent,
}

/// The mathematical value of a parse outcome.
pub struct ParseOutcomeView {
    pub tokens: Seq<TokenAt>,
    pub lines: Seq<LineView>,
    pub errors: Seq<LexErrorView>,
}

/// The mathematical value of a spanned string.
pub open spec fn text_at(s: Spanned<String>) -> TextAt {
    TextAt { text: encode_utf8(s.0@), span: extent(s.1) }
}

/// The mathematical value of a spanned string, if there is one.
pub open spec fn opt_text_at(s: Option<Spanned<String>>) -> Option<TextAt> {
    match s {
        Some(s) => Some(text_at(s)),
        None => None,
    }
}

impl View for Flag {
    type V = FlagView;

    open spec fn view(&self) -> FlagView {
        FlagView { name: opt_text_at(self.name), value: opt_text_at(self.value) }
    }
}

/// The mathematical value of a flag list.
pub open spec fn flags_view(flags: Seq<Flag>) -> Seq<FlagView> {
    flags.map_values(|f: Flag| f@)
}

impl View for Line {
    type V = LineView;

    open spec fn view(&self) -> LineView {
        LineView {
            command: opt_text_at(self.command),
            config: opt_text_at(self.config),
            flags: flags_view(self.flags@),
            comment: opt_text_at(self.comment),
            span: extent(self.span),
        }
    }
}

/// The mathematical value of a line list.
pub open spec fn lines_view(lines: Seq<Line>) -> Seq<LineView> {
    lines.map_values(|l: Line| l@)
}

impl View for ParseOutcome {
    type V = ParseOutcomeView;

    open spec fn view(&self) -> ParseOutcomeView {
        ParseOutcomeView {
            tokens: tokens_view(self.tokens@),
            lines: lines_view(self.lines@),
            errors: errors_view(self.errors@),
        }
    }
}

/// The line without content: what a blank source line is recorded as.
pub open spec fn empty_line() -> LineView {
    LineView {
        command: None,
        config: None,
        flags: Seq::empty(),
        comment: None,
        span: Extent { start: 0, end: 0 },
    }
}

impl Default for Line {
    fn default() -> (line: Line)
        ensures
            line@ == empty_line(),
    {
        let line = Line { command: None, config: None, flags: Vec::new(), comment: None, span: 0..0 };
        proof {
            assert(flags_view(line.flags@) =~= Seq::empty());
        }
        line
    }
}

fn clone_text(text: &Option<Spanned<String>>) -> (r: Option<Spanned<String>>)
    ensures
        opt_text_at(r) == opt_text_at(*text),
{
    match text {
        Some(t) => Some((t.0.clone(), t.1.start..t.1.end)),
        None => None,
    }
}

impl Clone for Flag {
    fn clone(&self) -> (flag: Flag)
        ensures
            flag@ == self@,
    {
        Flag { name: clone_text(&self.name), value: clone_text(&self.value) }
    }
}

impl Clone for Line {
    fn clone(&self) -> (line: Line)
        ensures
            line@ == self@,
    {
        let mut flags: Vec<Flag> = Vec::new();
        let mut i: usize = 0;
        while i < self.flags.len()
            invariant
                i <= self.flags.len(),
                flags.len() == i,
                forall|j: int| 0 <= j < i ==> (#[trigger] flags@[j])@ == self.flags@[j]@,
            decreases self.flags.len() - i,
        {
            flags.push(self.flags[i].clone());
            i = i + 1;
        }
        proof {
            assert(flags_view(flags@) =~= flags_view(self.flags@));
        }
        Line {
            command: clone_text(&self.command),
            config: clone_text(&self.config),
            flags,
            comment: clone_text(&self.comment),
            span: self.span.start..self.span.end,
        }
    }
}

/// The offset of the first `b` in `s` at or behind offset `from`, or the
/// length of `s` where there is none.
pub open spec fn position_of(s: Seq<u8>, b: u8, from: int) -> int
    decreases s.len() - from,
{
    if !(0 <= from < s.len()) {
        s.len() as int
    } else if s[from] == b {
        from
    } else {
        position_of(s, b, from + 1)
    }
}

/// The first `b` at or behind `from` lies inside `s` and nothing before it is `b`.
pub proof fn lemma_position_of(s: Seq<u8>, b: u8, from: int)
    requires
        0 <= from <= s.len(),
    ensures
        from <= position_of(s, b, from) <= s.len(),
        position_of(s, b, from) < s.len() ==> s[position_of(s, b, from)] == b,
        forall|j: int| from <= j < position_of(s, b, from) ==> s[j] != b,
    decreases s.len() - from,
{
    if from < s.len() && s[from] != b {
        lemma_position_of(s, b, from + 1);
    }
}

/// The bytes of the source that a span covers; none where the span does not
/// lie inside the source.
pub open spec fn raw_slice(src: Seq<u8>, span: Extent) -> Seq<u8> {
    if 0 <= span.start <= span.end <= src.len() {
        src.subrange(span.start, span.end)
    } else {
        Seq::empty()
    }
}

/// True when the text starts with a dash.
pub open spec fn starts_with_dash(text: Seq<u8>) -> bool {
    text.len() > 0 && text[0] == DASH
}

/// Splits a token at its first separator byte `sep`, if it has one.
///
/// The decoded text is cut at the first `sep` in it, which goes to neither
/// part. The span is cut at the offset of the first `sep` in the raw source
/// that the span covers, so that the second span starts with the separator;
/// where the raw source holds no `sep`, the first part gets the whole span.
pub open spec fn split_at_separator(token: TextAt, sep: u8, src: Seq<u8>) -> Option<
    (TextAt, TextAt),
> {
    let at = position_of(token.text, sep, 0);
    if at == token.text.len() {
        None
    } else {
        let cut = token.span.start + position_of(raw_slice(src, token.span), sep, 0);
        Some(
            (
                TextAt {
                    text: token.text.subrange(0, at),
                    span: Extent { start: token.span.start, end: cut },
                },
                TextAt {
                    text: token.text.subrange(at + 1, token.text.len() as int),
                    span: Extent { start: cut, end: token.span.end },
                },
            ),
        )
    }
}

/// The flag that a text token stands for.
pub open spec fn flag_of(token: TextAt, src: Seq<u8>) -> FlagView {
    if starts_with_dash(token.text) {
        match split_at_separator(token, EQUALS, src) {
            Some((name, value)) => FlagView { name: Some(name), value: Some(value) },
            None => FlagView { name: Some(token), value: None },
        }
    } else {
        FlagView { name: None, value: Some(token) }
    }
}

/// The line that is being filled: `current` if a token of this line came
/// before, else a fresh line that starts at offset `start`.
pub open spec fn open_line(current: Option<LineView>, start: int) -> LineView {
    match current {
        Some(line) => line,
        None => LineView { span: Extent { start, end: start }, ..empty_line() },
    }
}

/// The line after a text token was added to it. The first text token of a
/// line names the command, and the configuration behind a `:`, unless it
/// starts with a dash; every other text token is a flag. The line's span then
/// ends where the token ends.
pub open spec fn add_text(line: LineView, token: TextAt, src: Seq<u8>) -> LineView {
    let span = Extent { start: line.span.start, end: token.span.end };
    if line.command is None && line.flags.len() == 0 && !starts_with_dash(token.text) {
        match split_at_separator(token, COLON, src) {
            Some((command, config)) => LineView {
                command: Some(command),
                config: Some(config),
                span,
                ..line
            },
            None => LineView { command: Some(token), span, ..line },
        }
    } else {
        LineView { flags: line.flags.push(flag_of(token, src)), span, ..line }
    }
}

/// The line being filled after one more token that is no line break. An
/// escaped line break changes nothing.
pub open spec fn absorb(current: Option<LineView>, token: TokenAt, src: Seq<u8>) -> Option<
    LineView,
> {
    match token.token {
        TokenView::Text(text) => Some(
            add_text(
                open_line(current, token.span.start),
                TextAt { text, span: token.span },
                src,
            ),
        ),
        TokenView::Comment(text) => Some(
            LineView {
                comment: Some(TextAt { text, span: token.span }),
                ..open_line(current, token.span.start)
            },
        ),
        _ => current,
    }
}

/// The line that is emitted when a line ends: the line being filled, or the
/// empty line if the line had no token.
pub open spec fn close_line(current: Option<LineView>) -> LineView {
    match current {
        Some(line) => line,
        None => empty_line(),
    }
}

/// The lines that the tokens from index `i` on give, with `current` being
/// filled. Every line break emits a line, and the end of the tokens emits the
/// last one.
pub open spec fn lines_from(
    tokens: Seq<TokenAt>,
    src: Seq<u8>,
    i: int,
    current: Option<LineView>,
) -> Seq<LineView>
    decreases tokens.len() - i,
{
    if !(0 <= i < tokens.len()) {
        seq![close_line(current)]
    } else if tokens[i].token is LineBreak {
        seq![close_line(current)] + lines_from(tokens, src, i + 1, None)
    } else {
        lines_from(tokens, src, i + 1, absorb(current, tokens[i], src))
    }
}

/// The lines of a token sequence read from the source `src`.
pub open spec fn lines_of(tokens: Seq<TokenAt>, src: Seq<u8>) -> Seq<LineView> {
    lines_from(tokens, src, 0, None)
}

/// What parsing the source `src` yields.
pub open spec fn outcome_of(src: Seq<u8>) -> ParseOutcomeView {
    ParseOutcomeView {
        tokens: tokens_of(src),
        lines: lines_of(tokens_of(src), src),
        errors: errors_of(src),
    }
}

fn find_byte(s: &[u8], b: u8) -> (at: usize)
    ensures
        at == position_of(s@, b, 0),
        at <= s@.len(),
{
    let n = s.len();
    let mut i: usize = 0;
    while i < n && s[i] != b
        invariant
            n == s@.len(),
            i <= n,
            position_of(s@, b, i as int) == position_of(s@, b, 0),
        decreases n - i,
    {
        i = i + 1;
    }
    i
}

fn text_starts_with_dash(text: &String) -> (b: bool)
    ensures
        b == starts_with_dash(encode_utf8(text@)),
{
    let bytes = text.as_str().as_bytes();
    bytes.len() > 0 && bytes[0] == DASH
}

fn spanned(text: &str, start: usize, end: usize) -> (s: Spanned<String>)
    ensures
        text_at(s) == (TextAt {
            text: text.spec_bytes(),
            span: Extent { start: start as int, end: end as int },
        }),
{
    (text.to_owned(), start..end)
}

/// Splits the token `text` read from `span` at its first `sep`.
fn split_token(text: &String, span: &Span, sep: u8, source: &str) -> (r: Option<
    (Spanned<String>, Spanned<String>),
>)
    requires
        sep < 0x80,
    ensures
        match r {
            Some((head, tail)) => Some((text_at(head), text_at(tail))),
            None => None,
        } == split_at_separator(
            TextAt { text: encode_utf8(text@), span: extent(*span) },
            sep,
            source.spec_bytes(),
        ),
{
    let whole = text.as_str();
    let bytes = whole.as_bytes();
    let at = find_byte(bytes, sep);
    if at == bytes.len() {
        return None;
    }
    proof {
        broadcast use encode_utf8_valid_utf8;

        lemma_position_of(bytes@, sep, 0);
        is_char_boundary_iff_not_is_continuation_byte(bytes@, at as int);
    }
    let (head, rest) = whole.split_at(at);
    proof {
        broadcast use encode_utf8_valid_utf8;

        assert(rest.spec_bytes()[0] == bytes@[at as int]);
        lemma_boundary_after_ascii(rest.spec_bytes());
    }
    let (_, tail) = rest.split_at(1);
    assert(tail.spec_bytes() =~= bytes@.subrange(at + 1, bytes@.len() as int));
    let raw = source.as_bytes();
    let offset = if span.start <= span.end && span.end <= raw.len() {
        find_byte(slice_subrange(raw, span.start, span.end), sep)
    } else {
        0
    };
    let cut = span.start + offset;
    Some((spanned(head, span.start, cut), spanned(tail, cut, span.end)))
}

fn parse_flag(text: &String, span: &Span, source: &str) -> (flag: Flag)
    ensures
        flag@ == flag_of(
            TextAt { text: encode_utf8(text@), span: extent(*span) },
            source.spec_bytes(),
        ),
{
    if text_starts_with_dash(text) {
        match split_token(text, span, EQUALS, source) {
            Some((name, value)) => Flag { name: Some(name), value: Some(value) },
            None => Flag { name: Some(spanned(text.as_str(), span.start, span.end)), value: None },
        }
    } else {
        Flag { name: None, value: Some(spanned(text.as_str(), span.start, span.end)) }
    }
}

fn take_line(current: Option<Line>, start: usize) -> (line: Line)
    ensures
        line@ == open_line(
            match current {
                Some(l) => Some(l@),
                None => None,
            },
            start as int,
        ),
{
    match current {
        Some(line) => line,
        None => {
            let line = Line {
                command: None,
                config: None,
                flags: Vec::new(),
                comment: None,
                span: start..start,
            };
            proof {
                assert(flags_view(line.flags@) =~= Seq::empty());
            }
            line
        },
    }
}

fn add_text_to(line: Line, text: &String, span: &Span, source: &str) -> (r: Line)
    ensures
        r@ == add_text(
            line@,
            TextAt { text: encode_utf8(text@), span: extent(*span) },
            source.spec_bytes(),
        ),
{
    let mut line = line;
    let ghost before = line@;
    if line.command.is_none() && line.flags.len() == 0 && !text_starts_with_dash(text) {
        match split_token(text, span, COLON, source) {
            Some((command, config)) => {
                line.command = Some(command);
                line.config = Some(config);
            },
            None => {
                line.command = Some(spanned(text.as_str(), span.start, span.end));
            },
        }
    } else {
        let flag = parse_flag(text, span, source);
        line.flags.push(flag);
        proof {
            assert(flags_view(line.flags@) =~= before.flags.push(flag@));
        }
    }
    line.span = line.span.start..span.end;
    line
}

/// The mathematical value of a line, if there is one.
pub open spec fn opt_line_view(line: Option<Line>) -> Option<LineView> {
    match line {
        Some(l) => Some(l@),
        None => None,
    }
}

fn finish_line(current: Option<Line>) -> (line: Line)
    ensures
        line@ == close_line(opt_line_view(current)),
{
    match current {
        Some(line) => line,
        None => Line::default(),
    }
}

/// Groups tokens into lines.
///
/// `source` is the text that the tokens were read from; it is consulted only
/// to split the span of a token that is split in two. The function is total:
/// it accepts every token sequence, also one whose spans do not fit the
/// source. The result is exactly [`lines_of`] of the tokens: one line more
/// than there are line breaks, each of the shape that [`line_shaped`] states.
pub fn assemble(tokens: &Vec<Spanned<Token>>, source: &str) -> (lines: Vec<Line>)
    ensures
        lines_view(lines@) == lines_of(tokens_view(tokens@), source.spec_bytes()),
        lines@.len() == line_breaks(tokens_view(tokens@), 0) + 1,
        forall|k: int| 0 <= k < lines@.len() ==> line_shaped(#[trigger] lines_view(lines@)[k]),
{
    let ghost tv = tokens_view(tokens@);
    let ghost src = source.spec_bytes();
    let mut lines: Vec<Line> = Vec::new();
    let mut current: Option<Line> = None;
    let mut i: usize = 0;
    proof {
        assert(lines_view(lines@) =~= Seq::empty());
        assert(lines_view(lines@) + lines_from(tv, src, 0, None) =~= lines_from(tv, src, 0, None));
    }
    while i < tokens.len()
        invariant
            i <= tokens.len(),
            tv == tokens_view(tokens@),
            src == source.spec_bytes(),
            lines_view(lines@) + lines_from(tv, src, i as int, opt_line_view(current))
                == lines_from(tv, src, 0, None),
        decreases tokens.len() - i,
    {
        let ghost before = lines@;
        let ghost filling = opt_line_view(current);
        proof {
            assert(tv[i as int] == crate::tokenizer::token_at(tokens@[i as int]));
        }
        let token = &tokens[i];
        match &token.0 {
            Token::Text(text) => {
                let line = take_line(current, token.1.start);
                current = Some(add_text_to(line, text, &token.1, source));
            },
            Token::Comment(text) => {
                let mut line = take_line(current, token.1.start);
                line.comment = Some(spanned(text.as_str(), token.1.start, token.1.end));
                current = Some(line);
            },
            Token::LineBreak => {
                let line = finish_line(current);
                lines.push(line);
                current = None;
                proof {
                    assert(lines_view(lines@) =~= lines_view(before).push(close_line(filling)));
                    assert(lines_view(lines@) + lines_from(tv, src, i + 1, None) =~= lines_view(
                        before,
                    ) + lines_from(tv, src, i as int, filling));
                }
            },
            Token::SuppressedLineBreak => {},
        }
        i = i + 1;
    }
    let ghost before = lines@;
    let ghost filling = opt_line_view(current);
    let line = finish_line(current);
    lines.push(line);
    proof {
        assert(lines_view(lines@) =~= lines_view(before).push(close_line(filling)));
        assert(lines_view(lines@) =~= lines_view(before) + lines_from(
            tv,
            src,
            i as int,
            filling,
        ));
        lemma_line_count(tv, src);
        lemma_lines_shaped(tv, src);
    }
    lines
}

/// Parses a bazelrc source text.
///
/// The function never fails: the outcome always holds the tokens and the
/// lines that could be read, beside the lexical errors. It is a function of
/// the source's bytes alone, [`outcome_of`], and every span in it is a valid
/// span of the source by which the source can be sliced.
pub fn parse(source: &str) -> (outcome: ParseOutcome)
    ensures
        outcome@ == outcome_of(source.spec_bytes()),
        outcome_within(outcome@, source.spec_bytes().len() as int),
        outcome_sliceable(outcome@, source.spec_bytes()),
{
    let (tokens, errors) = tokenize(source);
    let lines = assemble(&tokens, source);
    proof {
        broadcast use encode_utf8_valid_utf8;

        lemma_parse_spans_valid(source.spec_bytes());
        lemma_parse_sliceable(source.spec_bytes());
    }
    ParseOutcome { tokens, lines, errors }
}

/// A parser of bazelrc source texts that accepts only texts without lexical
/// errors.
#[derive(Clone, Copy, Debug)]
pub struct LineParser {}

/// The strict parser: see [`LineParser::parse`].
pub fn parser() -> LineParser {
    LineParser {  }
}

impl LineParser {
    /// Parses `source` and returns its lines, or its lexical errors if there
    /// are any.
    pub fn parse(&self, source: &str) -> (r: Result<Vec<Line>, Vec<LexError>>)
        ensures
            match r {
                Ok(lines) => errors_of(source.spec_bytes()).len() == 0 && lines_view(lines@)
                    == outcome_of(source.spec_bytes()).lines,
                Err(errors) => errors.len() > 0 && errors_view(errors@) == errors_of(
                    source.spec_bytes(),
                ),
            },
    {
        let outcome = parse(source);
        if outcome.errors.len() == 0 {
            Ok(outcome.lines)
        } else {
            Err(outcome.errors)
        }
    }
}

} // verus!
