//! What holds of the lines of every token sequence, and of every parse
//! outcome: the shape of a line, the number of lines, the validity of all
//! spans, and that parsing is a function of the source.
use crate::parser::{
    absorb, add_text, close_line, empty_line, flag_of, lemma_position_of, lines_from, lines_of,
    open_line, outcome_of, position_of, raw_slice, split_at_separator, FlagView, LineView,
    ParseOutcome, ParseOutcomeView, TextAt, COLON, EQUALS,
};
use crate::tokenizer::{tokens_of, Extent, TokenAt, TokenView};
use crate::tokenizer_proofs::{
    alone, errors_sliceable, errors_within, lemma_raw_source_decodes_to_token,
    lemma_token_spans_valid, lemma_tokens_sliceable, on_boundaries, tokens_ordered,
    tokens_sliceable, within,
};
use crate::utf8::lemma_boundaries_at_ascii;
use vstd::prelude::*;
use vstd::utf8::*;

verus! {

/// True when the two halves of a split token meet: the first span ends where
/// the second starts.
pub open spec fn adjacent(first: TextAt, second: TextAt) -> bool {
    first.span.end == second.span.start
}

/// True when the flag has a name or a value, and its name's span meets its
/// value's span where it has both.
pub open spec fn flag_shaped(flag: FlagView) -> bool {
    &&& flag.name is Some || flag.value is Some
    &&& flag.name is Some && flag.value is Some ==> adjacent(flag.name->0, flag.value->0)
}

/// True when the line has the shape that the assembler gives every line: a
/// configuration only behind a command, whose span it then meets, and only
/// flags of the shape above.
pub open spec fn line_shaped(line: LineView) -> bool {
    &&& line.config is Some ==> line.command is Some && adjacent(line.command->0, line.config->0)
    &&& forall|j: int| 0 <= j < line.flags.len() ==> flag_shaped(#[trigger] line.flags[j])
}

/// True when the span of the text, if there is one, lies inside a source of
/// `len` bytes.
pub open spec fn text_within(text: Option<TextAt>, len: int) -> bool {
    text matches Some(t) ==> within(t.span, len)
}

/// True when every span of the line lies inside a source of `len` bytes.
pub open spec fn line_within(line: LineView, len: int) -> bool {
    &&& text_within(line.command, len)
    &&& text_within(line.config, len)
    &&& text_within(line.comment, len)
    &&& within(line.span, len)
    &&& forall|j: int|
        0 <= j < line.flags.len() ==> text_within((#[trigger] line.flags[j]).name, len)
            && text_within(line.flags[j].value, len)
}

/// True when every span of every line lies inside a source of `len` bytes.
pub open spec fn lines_within(lines: Seq<LineView>, len: int) -> bool {
    forall|k: int| 0 <= k < lines.len() ==> line_within(#[trigger] lines[k], len)
}

/// True when every span of the outcome lies inside a source of `len` bytes.
pub open spec fn outcome_within(outcome: ParseOutcomeView, len: int) -> bool {
    &&& tokens_ordered(outcome.tokens, 0, len)
    &&& errors_within(outcome.errors, len)
    &&& lines_within(outcome.lines, len)
}

/// The number of line breaks among the tokens from index `from` on.
pub open spec fn line_breaks(tokens: Seq<TokenAt>, from: int) -> nat
    decreases tokens.len() - from,
{
    if !(0 <= from < tokens.len()) {
        0
    } else if tokens[from].token is LineBreak {
        1 + line_breaks(tokens, from + 1)
    } else {
        line_breaks(tokens, from + 1)
    }
}

/// The halves of a split token share the token's span: the first starts
/// where the token starts, the second ends where it ends, and they meet. If
/// the token's span lies inside the source, both halves do.
pub proof fn lemma_split_spans(token: TextAt, sep: u8, src: Seq<u8>)
    ensures
        split_at_separator(token, sep, src) matches Some((first, second)) ==> {
            &&& first.span.start == token.span.start
            &&& second.span.end == token.span.end
            &&& adjacent(first, second)
            &&& within(token.span, src.len() as int) ==> within(first.span, src.len() as int)
                && within(second.span, src.len() as int)
        },
{
    lemma_position_of(raw_slice(src, token.span), sep, 0);
}

/// Adding a text token keeps the shape of a line.
pub proof fn lemma_add_text_shaped(line: LineView, token: TextAt, src: Seq<u8>)
    requires
        line_shaped(line),
    ensures
        line_shaped(add_text(line, token, src)),
{
    lemma_split_spans(token, COLON, src);
    lemma_split_spans(token, EQUALS, src);
    let after = add_text(line, token, src);
    assert forall|j: int| 0 <= j < after.flags.len() implies flag_shaped(
        #[trigger] after.flags[j],
    ) by {
        if j < line.flags.len() {
            assert(after.flags[j] == line.flags[j]);
        }
    }
}

/// Every line that the tokens from index `i` on give has the shape above, if
/// the line being filled has it.
pub proof fn lemma_lines_shaped_from(
    tokens: Seq<TokenAt>,
    src: Seq<u8>,
    i: int,
    current: Option<LineView>,
)
    requires
        0 <= i <= tokens.len(),
        current matches Some(line) ==> line_shaped(line),
    ensures
        forall|k: int|
            0 <= k < lines_from(tokens, src, i, current).len() ==> line_shaped(
                #[trigger] lines_from(tokens, src, i, current)[k],
            ),
    decreases tokens.len() - i,
{
    let all = lines_from(tokens, src, i, current);
    if i < tokens.len() {
        if tokens[i].token is LineBreak {
            lemma_lines_shaped_from(tokens, src, i + 1, None);
            let rest = lines_from(tokens, src, i + 1, None);
            assert(all =~= seq![close_line(current)] + rest);
            assert forall|k: int| 0 <= k < all.len() implies line_shaped(#[trigger] all[k]) by {
                if k > 0 {
                    assert(all[k] == rest[k - 1]);
                }
            }
        } else {
            let line = open_line(current, tokens[i].span.start);
            let next = absorb(current, tokens[i], src);
            assert(line_shaped(line));
            match tokens[i].token {
                TokenView::Text(text) => {
                    lemma_add_text_shaped(line, TextAt { text, span: tokens[i].span }, src);
                },
                _ => {},
            }
            assert(next matches Some(l) ==> line_shaped(l));
            lemma_lines_shaped_from(tokens, src, i + 1, next);
            assert(all == lines_from(tokens, src, i + 1, next));
        }
    } else {
        assert(line_shaped(close_line(current)));
        assert(all[0] == close_line(current));
    }
}

/// Every line has a configuration only behind a command, whose span the
/// configuration's span then meets, and every flag has a name or a value.
pub proof fn lemma_lines_shaped(tokens: Seq<TokenAt>, src: Seq<u8>)
    ensures
        forall|k: int|
            0 <= k < lines_of(tokens, src).len() ==> line_shaped(#[trigger] lines_of(tokens, src)[k]),
{
    lemma_lines_shaped_from(tokens, src, 0, None);
}

/// There is one line more than there are line breaks.
pub proof fn lemma_line_count_from(
    tokens: Seq<TokenAt>,
    src: Seq<u8>,
    i: int,
    current: Option<LineView>,
)
    requires
        0 <= i <= tokens.len(),
    ensures
        lines_from(tokens, src, i, current).len() == line_breaks(tokens, i) + 1,
    decreases tokens.len() - i,
{
    if i < tokens.len() {
        if tokens[i].token is LineBreak {
            lemma_line_count_from(tokens, src, i + 1, None);
        } else {
            lemma_line_count_from(tokens, src, i + 1, absorb(current, tokens[i], src));
        }
    }
}

/// The number of lines is the number of line break tokens plus one.
pub proof fn lemma_line_count(tokens: Seq<TokenAt>, src: Seq<u8>)
    ensures
        lines_of(tokens, src).len() == line_breaks(tokens, 0) + 1,
{
    lemma_line_count_from(tokens, src, 0, None);
}

/// Adding a text token that lies inside the source, behind the line so far,
/// keeps the line inside the source.
pub proof fn lemma_add_text_within(line: LineView, token: TextAt, src: Seq<u8>)
    requires
        line_within(line, src.len() as int),
        within(token.span, src.len() as int),
        line.span.start <= token.span.start,
    ensures
        line_within(add_text(line, token, src), src.len() as int),
{
    lemma_split_spans(token, COLON, src);
    lemma_split_spans(token, EQUALS, src);
    let after = add_text(line, token, src);
    let len = src.len() as int;
    assert forall|j: int| 0 <= j < after.flags.len() implies text_within(
        (#[trigger] after.flags[j]).name,
        len,
    ) && text_within(after.flags[j].value, len) by {
        if j < line.flags.len() {
            assert(after.flags[j] == line.flags[j]);
        }
    }
}

/// Every line that ordered tokens from index `i` on give lies inside the
/// source, if the line being filled does and ends before those tokens.
pub proof fn lemma_lines_within_from(
    tokens: Seq<TokenAt>,
    src: Seq<u8>,
    i: int,
    current: Option<LineView>,
)
    requires
        0 <= i <= tokens.len(),
        tokens_ordered(tokens, 0, src.len() as int),
        current matches Some(line) ==> line_within(line, src.len() as int) && forall|k: int|
            i <= k < tokens.len() ==> line.span.end <= (#[trigger] tokens[k]).span.start,
    ensures
        lines_within(lines_from(tokens, src, i, current), src.len() as int),
    decreases tokens.len() - i,
{
    let len = src.len() as int;
    let all = lines_from(tokens, src, i, current);
    if i < tokens.len() {
        let token = tokens[i];
        if token.token is LineBreak {
            lemma_lines_within_from(tokens, src, i + 1, None);
            let rest = lines_from(tokens, src, i + 1, None);
            assert(all =~= seq![close_line(current)] + rest);
            assert forall|k: int| 0 <= k < all.len() implies line_within(#[trigger] all[k], len) by {
                if k > 0 {
                    assert(all[k] == rest[k - 1]);
                }
            }
        } else {
            let next = absorb(current, token, src);
            let line = open_line(current, token.span.start);
            assert(within(token.span, len));
            assert(line_within(line, len));
            match token.token {
                TokenView::Text(text) => {
                    lemma_add_text_within(line, TextAt { text, span: token.span }, src);
                },
                _ => {},
            }
            assert(next matches Some(l) ==> line_within(l, len) && l.span.end <= token.span.end);
            assert forall|k: int| i + 1 <= k < tokens.len() implies token.span.end <= (
            #[trigger] tokens[k]).span.start by {
                assert(tokens[i].span.end <= tokens[k].span.start);
            }
            lemma_lines_within_from(tokens, src, i + 1, next);
        }
    }
}

/// The lines of tokens that stand in source order inside the source have all
/// their spans inside the source.
pub proof fn lemma_lines_within(tokens: Seq<TokenAt>, src: Seq<u8>)
    requires
        tokens_ordered(tokens, 0, src.len() as int),
    ensures
        lines_within(lines_of(tokens, src), src.len() as int),
{
    lemma_lines_within_from(tokens, src, 0, None);
}

/// The part of the source that a flag was read from: from the start of its
/// first part to the end of its last.
pub open spec fn flag_extent(flag: FlagView) -> Extent {
    Extent {
        start: match flag.name {
            Some(name) => name.span.start,
            None => flag.value->0.span.start,
        },
        end: match flag.value {
            Some(value) => value.span.end,
            None => flag.name->0.span.end,
        },
    }
}

/// True when the parts of the line stand in source order inside the line's
/// span: the command, then the configuration, then the flags one after the
/// other.
pub open spec fn line_in_order(line: LineView) -> bool {
    &&& line.span.start <= line.span.end
    &&& line.command matches Some(c) ==> line.span.start <= c.span.start <= c.span.end
        <= line.span.end
    &&& line.config matches Some(g) ==> line.span.start <= g.span.start <= g.span.end
        <= line.span.end
    &&& line.config is Some ==> line.command is Some && line.command->0.span.end
        <= line.config->0.span.start
    &&& forall|j: int|
        0 <= j < line.flags.len() ==> line.span.start <= flag_extent(
            #[trigger] line.flags[j],
        ).start <= flag_extent(line.flags[j]).end <= line.span.end
    &&& forall|j: int|
        0 <= j < line.flags.len() ==> (line.command matches Some(c) ==> c.span.end <= flag_extent(
            #[trigger] line.flags[j],
        ).start) && (line.config matches Some(g) ==> g.span.end <= flag_extent(
            line.flags[j],
        ).start)
    &&& forall|j: int, k: int|
        0 <= j < k < line.flags.len() ==> flag_extent(#[trigger] line.flags[j]).end <= flag_extent(
            #[trigger] line.flags[k],
        ).start
}

/// A flag is read from the whole of its token.
pub proof fn lemma_flag_extent(token: TextAt, src: Seq<u8>)
    ensures
        flag_extent(flag_of(token, src)) == token.span,
{
    lemma_split_spans(token, EQUALS, src);
}

/// Adding a text token that lies behind the line so far keeps the line in
/// source order.
pub proof fn lemma_add_text_in_order(line: LineView, token: TextAt, src: Seq<u8>)
    requires
        line_in_order(line),
        within(token.span, src.len() as int),
        line.span.end <= token.span.start,
    ensures
        line_in_order(add_text(line, token, src)),
{
    lemma_split_spans(token, COLON, src);
    lemma_flag_extent(token, src);
    let after = add_text(line, token, src);
    assert forall|j: int| 0 <= j < after.flags.len() implies line.span.start <= flag_extent(
        #[trigger] after.flags[j],
    ).start <= flag_extent(after.flags[j]).end <= after.span.end && (after.command matches Some(
        c,
    ) ==> c.span.end <= flag_extent(after.flags[j]).start) && (after.config matches Some(g)
        ==> g.span.end <= flag_extent(after.flags[j]).start) by {
        if j < line.flags.len() {
            assert(after.flags[j] == line.flags[j]);
        }
    }
    assert forall|j: int, k: int| 0 <= j < k < after.flags.len() implies flag_extent(
        #[trigger] after.flags[j],
    ).end <= flag_extent(#[trigger] after.flags[k]).start by {
        assert(after.flags[j] == line.flags[j]);
        if k < line.flags.len() {
            assert(after.flags[k] == line.flags[k]);
        }
    }
}

/// Every line that ordered tokens from index `i` on give is in source order,
/// if the line being filled is and ends before those tokens.
pub proof fn lemma_lines_in_order_from(
    tokens: Seq<TokenAt>,
    src: Seq<u8>,
    i: int,
    current: Option<LineView>,
)
    requires
        0 <= i <= tokens.len(),
        tokens_ordered(tokens, 0, src.len() as int),
        current matches Some(line) ==> line_in_order(line) && forall|k: int|
            i <= k < tokens.len() ==> line.span.end <= (#[trigger] tokens[k]).span.start,
    ensures
        forall|k: int|
            0 <= k < lines_from(tokens, src, i, current).len() ==> line_in_order(
                #[trigger] lines_from(tokens, src, i, current)[k],
            ),
    decreases tokens.len() - i,
{
    let len = src.len() as int;
    let all = lines_from(tokens, src, i, current);
    assert(line_in_order(empty_line()));
    if i < tokens.len() {
        let token = tokens[i];
        if token.token is LineBreak {
            lemma_lines_in_order_from(tokens, src, i + 1, None);
            let rest = lines_from(tokens, src, i + 1, None);
            assert(all =~= seq![close_line(current)] + rest);
            assert forall|k: int| 0 <= k < all.len() implies line_in_order(#[trigger] all[k]) by {
                if k > 0 {
                    assert(all[k] == rest[k - 1]);
                }
            }
        } else {
            let next = absorb(current, token, src);
            let line = open_line(current, token.span.start);
            assert(within(token.span, len));
            assert(line_in_order(line));
            match token.token {
                TokenView::Text(text) => {
                    lemma_add_text_in_order(line, TextAt { text, span: token.span }, src);
                },
                _ => {},
            }
            assert(next matches Some(l) ==> line_in_order(l) && l.span.end <= token.span.end);
            assert forall|k: int| i + 1 <= k < tokens.len() implies token.span.end <= (
            #[trigger] tokens[k]).span.start by {
                assert(tokens[i].span.end <= tokens[k].span.start);
            }
            lemma_lines_in_order_from(tokens, src, i + 1, next);
            assert(all == lines_from(tokens, src, i + 1, next));
        }
    } else {
        assert(all[0] == close_line(current));
    }
}

/// The lines of tokens that stand in source order keep that order: in every
/// line the command, the configuration and the flags follow each other as in
/// the source, inside the line's span.
pub proof fn lemma_lines_in_order(tokens: Seq<TokenAt>, src: Seq<u8>)
    requires
        tokens_ordered(tokens, 0, src.len() as int),
    ensures
        forall|k: int|
            0 <= k < lines_of(tokens, src).len() ==> line_in_order(
                #[trigger] lines_of(tokens, src)[k],
            ),
{
    lemma_lines_in_order_from(tokens, src, 0, None);
}

/// Every span of a parse outcome is a valid span of the source:
/// `0 <= start <= end <= len`.
pub proof fn lemma_parse_spans_valid(src: Seq<u8>)
    ensures
        outcome_within(outcome_of(src), src.len() as int),
{
    lemma_token_spans_valid(src);
    lemma_lines_within(tokens_of(src), src);
}

/// True when the span of the text, if there is one, spans whole characters
/// of the source.
pub open spec fn text_sliceable(text: Option<TextAt>, src: Seq<u8>) -> bool {
    text matches Some(t) ==> on_boundaries(src, t.span)
}

/// True when every span of the line spans whole characters of the source.
pub open spec fn line_sliceable(line: LineView, src: Seq<u8>) -> bool {
    &&& text_sliceable(line.command, src)
    &&& text_sliceable(line.config, src)
    &&& text_sliceable(line.comment, src)
    &&& on_boundaries(src, line.span)
    &&& forall|j: int|
        0 <= j < line.flags.len() ==> text_sliceable((#[trigger] line.flags[j]).name, src)
            && text_sliceable(line.flags[j].value, src)
}

/// True when every span of every line spans whole characters of the source.
pub open spec fn lines_sliceable(lines: Seq<LineView>, src: Seq<u8>) -> bool {
    forall|k: int| 0 <= k < lines.len() ==> line_sliceable(#[trigger] lines[k], src)
}

/// True when every span of the outcome spans whole characters of the source,
/// so that the source can be sliced by it.
pub open spec fn outcome_sliceable(outcome: ParseOutcomeView, src: Seq<u8>) -> bool {
    &&& tokens_sliceable(outcome.tokens, src)
    &&& errors_sliceable(outcome.errors, src)
    &&& lines_sliceable(outcome.lines, src)
}

/// The halves of a token that spans whole characters span whole characters:
/// the span is cut in front of an ASCII separator or at its end.
pub proof fn lemma_split_on_boundaries(token: TextAt, sep: u8, src: Seq<u8>)
    requires
        valid_utf8(src),
        sep < 0x80,
        on_boundaries(src, token.span),
    ensures
        split_at_separator(token, sep, src) matches Some((first, second)) ==> on_boundaries(
            src,
            first.span,
        ) && on_boundaries(src, second.span),
{
    let raw = raw_slice(src, token.span);
    let at = position_of(raw, sep, 0);
    lemma_position_of(raw, sep, 0);
    if at < raw.len() {
        assert(raw[at] == src[token.span.start + at]);
        lemma_boundaries_at_ascii(src, token.span.start + at);
    }
}

/// Adding a text token that spans whole characters keeps the line so.
pub proof fn lemma_add_text_sliceable(line: LineView, token: TextAt, src: Seq<u8>)
    requires
        valid_utf8(src),
        line_sliceable(line, src),
        on_boundaries(src, token.span),
    ensures
        line_sliceable(add_text(line, token, src), src),
{
    lemma_split_on_boundaries(token, COLON, src);
    lemma_split_on_boundaries(token, EQUALS, src);
    let after = add_text(line, token, src);
    assert forall|j: int| 0 <= j < after.flags.len() implies text_sliceable(
        (#[trigger] after.flags[j]).name,
        src,
    ) && text_sliceable(after.flags[j].value, src) by {
        if j < line.flags.len() {
            assert(after.flags[j] == line.flags[j]);
        }
    }
}

/// Every line that tokens spanning whole characters give from index `i` on
/// spans whole characters, if the line being filled does.
pub proof fn lemma_lines_sliceable_from(
    tokens: Seq<TokenAt>,
    src: Seq<u8>,
    i: int,
    current: Option<LineView>,
)
    requires
        valid_utf8(src),
        0 <= i <= tokens.len(),
        forall|k: int| 0 <= k < tokens.len() ==> on_boundaries(src, (#[trigger] tokens[k]).span),
        current matches Some(line) ==> line_sliceable(line, src),
    ensures
        lines_sliceable(lines_from(tokens, src, i, current), src),
    decreases tokens.len() - i,
{
    let all = lines_from(tokens, src, i, current);
    assert(line_sliceable(empty_line(), src));
    if i < tokens.len() {
        let token = tokens[i];
        if token.token is LineBreak {
            lemma_lines_sliceable_from(tokens, src, i + 1, None);
            let rest = lines_from(tokens, src, i + 1, None);
            assert(all =~= seq![close_line(current)] + rest);
            assert forall|k: int| 0 <= k < all.len() implies line_sliceable(
                #[trigger] all[k],
                src,
            ) by {
                if k > 0 {
                    assert(all[k] == rest[k - 1]);
                }
            }
        } else {
            let next = absorb(current, token, src);
            let line = open_line(current, token.span.start);
            assert(on_boundaries(src, token.span));
            assert(line_sliceable(line, src));
            match token.token {
                TokenView::Text(text) => {
                    lemma_add_text_sliceable(line, TextAt { text, span: token.span }, src);
                },
                _ => {},
            }
            assert(next matches Some(l) ==> line_sliceable(l, src));
            lemma_lines_sliceable_from(tokens, src, i + 1, next);
            assert(all == lines_from(tokens, src, i + 1, next));
        }
    } else {
        assert(all[0] == close_line(current));
    }
}

/// In a source that is well-formed UTF-8, as every `str` is, every span of
/// the parse outcome spans whole characters: the source can be sliced by any
/// of them.
pub proof fn lemma_parse_sliceable(src: Seq<u8>)
    requires
        valid_utf8(src),
    ensures
        outcome_sliceable(outcome_of(src), src),
{
    lemma_tokens_sliceable(src);
    lemma_lines_sliceable_from(tokens_of(src), src, 0, None);
}

/// The raw source under the span of any token of a parse outcome decodes to
/// that token again.
pub proof fn lemma_parse_raw_source_decodes(src: Seq<u8>, k: int)
    requires
        0 <= k < outcome_of(src).tokens.len(),
    ensures
        ({
            let t = outcome_of(src).tokens[k];
            outcome_of(src.subrange(t.span.start, t.span.end)).tokens == seq![alone(t)]
        }),
{
    lemma_raw_source_decodes_to_token(src, k);
}

/// A token either has no separator and is not split, or it is split into the
/// text before its first separator and the text behind that separator.
pub proof fn lemma_split_text(token: TextAt, sep: u8, src: Seq<u8>)
    ensures
        match split_at_separator(token, sep, src) {
            Some((first, second)) => first.text + seq![sep] + second.text == token.text
                && !first.text.contains(sep),
            None => !token.text.contains(sep),
        },
{
    let at = position_of(token.text, sep, 0);
    lemma_position_of(token.text, sep, 0);
    match split_at_separator(token, sep, src) {
        Some((first, second)) => {
            assert(first.text + seq![sep] + second.text =~= token.text);
            assert forall|j: int| 0 <= j < first.text.len() implies first.text[j] != sep by {
                assert(first.text[j] == token.text[j]);
            }
        },
        None => {},
    }
}

/// True when `part` is the text and the span of a text token among `tokens`.
pub open spec fn is_text_token(tokens: Seq<TokenAt>, part: TextAt) -> bool {
    exists|k: int|
        0 <= k < tokens.len() && #[trigger] tokens[k] == (TokenAt {
            token: TokenView::Text(part.text),
            span: part.span,
        })
}

/// True when `part` is the text and the span of a comment token among `tokens`.
pub open spec fn is_comment_token(tokens: Seq<TokenAt>, part: TextAt) -> bool {
    exists|k: int|
        0 <= k < tokens.len() && #[trigger] tokens[k] == (TokenAt {
            token: TokenView::Comment(part.text),
            span: part.span,
        })
}

/// True when the flag, unless it was split into a name and a value, is a
/// text token among `tokens`.
pub open spec fn flag_traced(flag: FlagView, tokens: Seq<TokenAt>) -> bool {
    &&& flag.value is None ==> flag.name is Some && is_text_token(tokens, flag.name->0)
    &&& flag.name is None ==> flag.value is Some && is_text_token(tokens, flag.value->0)
}

/// True when each part of the line that was not split off a token is a
/// token among `tokens`, with its text and its span: the comment, the command
/// of a line without configuration, and every flag that is only a name or
/// only a value.
pub open spec fn line_traced(line: LineView, tokens: Seq<TokenAt>) -> bool {
    &&& line.command is Some && line.config is None ==> is_text_token(tokens, line.command->0)
    &&& line.comment is Some ==> is_comment_token(tokens, line.comment->0)
    &&& forall|j: int| 0 <= j < line.flags.len() ==> flag_traced(#[trigger] line.flags[j], tokens)
}

/// Every line that the tokens from index `i` on give is traced to the
/// tokens, if the line being filled is.
pub proof fn lemma_lines_traced_from(
    tokens: Seq<TokenAt>,
    src: Seq<u8>,
    i: int,
    current: Option<LineView>,
)
    requires
        0 <= i <= tokens.len(),
        current matches Some(line) ==> line_traced(line, tokens),
    ensures
        forall|k: int|
            0 <= k < lines_from(tokens, src, i, current).len() ==> line_traced(
                #[trigger] lines_from(tokens, src, i, current)[k],
                tokens,
            ),
    decreases tokens.len() - i,
{
    let all = lines_from(tokens, src, i, current);
    if i < tokens.len() {
        if tokens[i].token is LineBreak {
            lemma_lines_traced_from(tokens, src, i + 1, None);
            let rest = lines_from(tokens, src, i + 1, None);
            assert(line_traced(close_line(current), tokens));
            assert(all =~= seq![close_line(current)] + rest);
            assert forall|k: int| 0 <= k < all.len() implies line_traced(
                #[trigger] all[k],
                tokens,
            ) by {
                if k > 0 {
                    assert(all[k] == rest[k - 1]);
                }
            }
        } else {
            let line = open_line(current, tokens[i].span.start);
            let next = absorb(current, tokens[i], src);
            assert(line_traced(line, tokens));
            match tokens[i].token {
                TokenView::Text(text) => {
                    let part = TextAt { text, span: tokens[i].span };
                    assert(tokens[i] == (TokenAt {
                        token: TokenView::Text(part.text),
                        span: part.span,
                    }));
                    assert(is_text_token(tokens, part));
                    let after = add_text(line, part, src);
                    assert(flag_traced(flag_of(part, src), tokens));
                    assert forall|j: int| 0 <= j < after.flags.len() implies flag_traced(
                        #[trigger] after.flags[j],
                        tokens,
                    ) by {
                        if j < line.flags.len() {
                            assert(after.flags[j] == line.flags[j]);
                        }
                    }
                    assert(line_traced(after, tokens));
                },
                TokenView::Comment(text) => {
                    let part = TextAt { text, span: tokens[i].span };
                    assert(tokens[i] == (TokenAt {
                        token: TokenView::Comment(part.text),
                        span: part.span,
                    }));
                    assert(is_comment_token(tokens, part));
                },
                _ => {},
            }
            assert(next matches Some(l) ==> line_traced(l, tokens));
            lemma_lines_traced_from(tokens, src, i + 1, next);
            assert(all == lines_from(tokens, src, i + 1, next));
        }
    } else {
        assert(line_traced(close_line(current), tokens));
        assert(all[0] == close_line(current));
    }
}

/// In every line, each part that was not split off a token is one of the
/// tokens, with its text and its span.
pub proof fn lemma_lines_traced(tokens: Seq<TokenAt>, src: Seq<u8>)
    ensures
        forall|k: int|
            0 <= k < lines_of(tokens, src).len() ==> line_traced(
                #[trigger] lines_of(tokens, src)[k],
                tokens,
            ),
{
    lemma_lines_traced_from(tokens, src, 0, None);
}

/// The raw source under the span of a text that is a whole text token of the
/// source decodes to that text again.
pub proof fn lemma_whole_text_decodes(src: Seq<u8>, part: TextAt)
    requires
        is_text_token(tokens_of(src), part),
    ensures
        within(part.span, src.len() as int),
        tokens_of(src.subrange(part.span.start, part.span.end)) == seq![
            TokenAt {
                token: TokenView::Text(part.text),
                span: Extent { start: 0, end: part.span.end - part.span.start },
            },
        ],
{
    let tokens = tokens_of(src);
    let k = choose|k: int|
        0 <= k < tokens.len() && #[trigger] tokens[k] == (TokenAt {
            token: TokenView::Text(part.text),
            span: part.span,
        });
    lemma_raw_source_decodes_to_token(src, k);
}

/// The raw source under the span of a comment of the source decodes to that
/// comment again.
pub proof fn lemma_whole_comment_decodes(src: Seq<u8>, part: TextAt)
    requires
        is_comment_token(tokens_of(src), part),
    ensures
        within(part.span, src.len() as int),
        tokens_of(src.subrange(part.span.start, part.span.end)) == seq![
            TokenAt {
                token: TokenView::Comment(part.text),
                span: Extent { start: 0, end: part.span.end - part.span.start },
            },
        ],
{
    let tokens = tokens_of(src);
    let k = choose|k: int|
        0 <= k < tokens.len() && #[trigger] tokens[k] == (TokenAt {
            token: TokenView::Comment(part.text),
            span: part.span,
        });
    lemma_raw_source_decodes_to_token(src, k);
}

/// Strings with the same UTF-8 bytes are the same strings: the mathematical
/// value of a text loses nothing of it.
pub proof fn lemma_text_is_faithful(a: Seq<char>, b: Seq<char>)
    requires
        encode_utf8(a) == encode_utf8(b),
    ensures
        a == b,
{
    encode_utf8_decode_utf8(a);
    encode_utf8_decode_utf8(b);
}

/// Parsing is a function of the source text: two outcomes of parsing the same
/// text are equal in all they hold.
pub proof fn lemma_parse_deterministic(
    first: ParseOutcome,
    second: ParseOutcome,
    source: Seq<char>,
)
    requires
        first@ == outcome_of(encode_utf8(source)),
        second@ == outcome_of(encode_utf8(source)),
    ensures
        first@ == second@,
{
}

} // verus!
