//! What holds of the tokens and errors of every source text: the spans lie
//! inside the source, the tokens stand in source order, and the raw source
//! that a token was read from decodes to that token again.
use crate::tokenizer::{
    comment_scan, continuation_len, errors_from, errors_of, escape_at, lemma_comment_scan_bounds,
    lemma_lex_step_advances, lemma_text_scan_bounds, lex_step, newline_len, text_scan,
    text_starts_at, tokens_from, tokens_of, Extent, LexErrorView, TokenAt, TokenView, BACKSLASH,
    CARRIAGE_RETURN, DOUBLE_QUOTE, HASH, LINE_FEED, SINGLE_QUOTE, SPACE, TAB,
};
use crate::utf8::{
    lemma_boundaries_at_ascii, lemma_boundary_of_valid_suffix, lemma_remove_ascii,
    lemma_skip_ascii, lemma_split_before_ascii,
};
use vstd::prelude::*;
use vstd::utf8::*;

verus! {

/// True when the span lies inside a source of `len` bytes.
pub open spec fn within(span: Extent, len: int) -> bool {
    0 <= span.start <= span.end <= len
}

/// True when the tokens stand in source order between offset `from` and the
/// end of a source of `len` bytes: every span lies in that range, and every
/// token ends before the next one starts.
pub open spec fn tokens_ordered(tokens: Seq<TokenAt>, from: int, len: int) -> bool {
    &&& forall|k: int|
        0 <= k < tokens.len() ==> from <= (#[trigger] tokens[k]).span.start && within(
            tokens[k].span,
            len,
        )
    &&& forall|j: int, k: int|
        0 <= j < k < tokens.len() ==> (#[trigger] tokens[j]).span.end <= (
        #[trigger] tokens[k]).span.start
}

/// True when every error's span lies inside a source of `len` bytes.
pub open spec fn errors_within(errors: Seq<LexErrorView>, len: int) -> bool {
    forall|k: int| 0 <= k < errors.len() ==> within((#[trigger] errors[k]).span, len)
}

/// The token of a step spans the bytes that the step consumes.
pub proof fn lemma_step_token_span(src: Seq<u8>, i: int)
    requires
        0 <= i < src.len(),
    ensures
        lex_step(src, i).token matches Some(t) ==> t.span.start == i && t.span.end == lex_step(
            src,
            i,
        ).next,
{
}

/// The tokens read from offset `from` on stand in source order behind it.
pub proof fn lemma_tokens_ordered_from(src: Seq<u8>, from: int)
    requires
        0 <= from <= src.len(),
    ensures
        tokens_ordered(tokens_from(src, from), from, src.len() as int),
    decreases src.len() - from,
{
    if from < src.len() {
        let step = lex_step(src, from);
        lemma_lex_step_advances(src, from);
        lemma_step_token_span(src, from);
        lemma_tokens_ordered_from(src, step.next);
        let rest = tokens_from(src, step.next);
        let all = tokens_from(src, from);
        match step.token {
            Some(t) => {
                assert(all =~= seq![t] + rest);
                assert forall|k: int| 0 <= k < all.len() implies from <= (
                #[trigger] all[k]).span.start && within(all[k].span, src.len() as int) by {
                    if k > 0 {
                        assert(all[k] == rest[k - 1]);
                    }
                }
                assert forall|j: int, k: int| 0 <= j < k < all.len() implies (
                #[trigger] all[j]).span.end <= (#[trigger] all[k]).span.start by {
                    assert(all[k] == rest[k - 1]);
                    if j > 0 {
                        assert(all[j] == rest[j - 1]);
                    }
                }
            },
            None => {
                assert(all == rest);
            },
        }
    }
}

/// The error that ends a text token, if any, spans a part of the source.
pub proof fn lemma_text_scan_error_within(
    src: Seq<u8>,
    i: int,
    quote: u8,
    opened: int,
    acc: Seq<u8>,
)
    requires
        0 <= opened <= i <= src.len(),
    ensures
        text_scan(src, i, quote, opened, acc).error matches Some(e) ==> within(
            e.span,
            src.len() as int,
        ),
    decreases src.len() - i,
{
    if i < src.len() {
        if continuation_len(src, i) > 0 {
            lemma_text_scan_error_within(src, i + continuation_len(src, i), quote, opened, acc);
        } else if escape_at(src, i) {
            lemma_text_scan_error_within(src, i + 2, quote, opened, acc.push(src[i + 1]));
        } else if src[i] == BACKSLASH || src[i] == CARRIAGE_RETURN || src[i] == LINE_FEED {
        } else if quote == 0 {
            if src[i] == DOUBLE_QUOTE || src[i] == SINGLE_QUOTE {
                lemma_text_scan_error_within(src, i + 1, src[i], i, acc);
            } else if src[i] == SPACE || src[i] == TAB || src[i] == HASH {
            } else {
                lemma_text_scan_error_within(src, i + 1, quote, opened, acc.push(src[i]));
            }
        } else {
            if src[i] == quote {
                lemma_text_scan_error_within(src, i + 1, 0, opened, acc);
            } else {
                lemma_text_scan_error_within(src, i + 1, quote, opened, acc.push(src[i]));
            }
        }
    }
}

/// The errors found from offset `from` on span parts of the source.
pub proof fn lemma_errors_within_from(src: Seq<u8>, from: int)
    requires
        0 <= from <= src.len(),
    ensures
        errors_within(errors_from(src, from), src.len() as int),
    decreases src.len() - from,
{
    if from < src.len() {
        let step = lex_step(src, from);
        lemma_lex_step_advances(src, from);
        lemma_errors_within_from(src, step.next);
        lemma_text_scan_error_within(src, from, 0, 0, Seq::empty());
        let rest = errors_from(src, step.next);
        let all = errors_from(src, from);
        match step.error {
            Some(e) => {
                assert(all =~= seq![e] + rest);
                assert forall|k: int| 0 <= k < all.len() implies within(
                    (#[trigger] all[k]).span,
                    src.len() as int,
                ) by {
                    if k > 0 {
                        assert(all[k] == rest[k - 1]);
                    }
                }
            },
            None => {
                assert(all == rest);
            },
        }
    }
}

/// Every span that the tokenizer reports lies inside the source, and the
/// tokens stand in source order without overlap.
pub proof fn lemma_token_spans_valid(src: Seq<u8>)
    ensures
        tokens_ordered(tokens_of(src), 0, src.len() as int),
        errors_within(errors_of(src), src.len() as int),
{
    lemma_tokens_ordered_from(src, 0);
    lemma_errors_within_from(src, 0);
}

/// Dropping the ASCII byte at offset `i` of the source keeps the decoded bytes
/// and the unread rest well formed together.
proof fn lemma_drop_ascii(src: Seq<u8>, acc: Seq<u8>, i: int)
    requires
        0 <= i < src.len(),
        src[i] < 0x80,
        valid_utf8(acc + src.subrange(i, src.len() as int)),
    ensures
        valid_utf8(acc + src.subrange(i + 1, src.len() as int)),
{
    let whole = acc + src.subrange(i, src.len() as int);
    lemma_remove_ascii(whole, acc.len() as int);
    assert(whole.remove(acc.len() as int) =~= acc + src.subrange(i + 1, src.len() as int));
}

/// Dropping the continuation at offset `i` keeps them well formed as well.
proof fn lemma_drop_continuation(src: Seq<u8>, acc: Seq<u8>, i: int)
    requires
        continuation_len(src, i) > 0,
        valid_utf8(acc + src.subrange(i, src.len() as int)),
    ensures
        valid_utf8(acc + src.subrange(i + continuation_len(src, i), src.len() as int)),
{
    lemma_drop_ascii(src, acc, i);
    lemma_drop_ascii(src, acc, i + 1);
    if continuation_len(src, i) == 3 {
        lemma_drop_ascii(src, acc, i + 2);
    }
}

/// Moving the byte at offset `i` from the unread rest to the decoded bytes
/// changes nothing of the two together.
proof fn lemma_keep_byte(src: Seq<u8>, acc: Seq<u8>, i: int)
    requires
        0 <= i < src.len(),
    ensures
        acc.push(src[i]) + src.subrange(i + 1, src.len() as int) == acc + src.subrange(
            i,
            src.len() as int,
        ),
{
    assert(acc.push(src[i]) + src.subrange(i + 1, src.len() as int) =~= acc + src.subrange(
        i,
        src.len() as int,
    ));
}

/// Skipping `k` ASCII bytes at offset `i` leaves a well-formed rest.
proof fn lemma_skip_ascii_run(src: Seq<u8>, i: int, k: int)
    requires
        0 <= i,
        0 <= k,
        i + k <= src.len(),
        forall|j: int| i <= j < i + k ==> src[j] < 0x80,
        valid_utf8(src.subrange(i, src.len() as int)),
    ensures
        valid_utf8(src.subrange(i + k, src.len() as int)),
    decreases k,
{
    if k > 0 {
        let rest = src.subrange(i, src.len() as int);
        assert(rest[0] == src[i]);
        lemma_skip_ascii(rest);
        assert(rest.subrange(1, rest.len() as int) =~= src.subrange(i + 1, src.len() as int));
        lemma_skip_ascii_run(src, i + 1, k - 1);
    }
}

/// If the bytes decoded so far and the unread rest of the source are
/// well-formed UTF-8 together, the text of the token is well-formed UTF-8, and
/// so is the source from the token's end on: the tokenizer drops ASCII bytes
/// only and stops in front of ASCII bytes only.
pub proof fn lemma_text_scan_well_formed(
    src: Seq<u8>,
    i: int,
    quote: u8,
    opened: int,
    acc: Seq<u8>,
)
    requires
        0 <= i <= src.len(),
        quote < 0x80,
        valid_utf8(acc + src.subrange(i, src.len() as int)),
    ensures
        valid_utf8(text_scan(src, i, quote, opened, acc).text),
        valid_utf8(src.subrange(text_scan(src, i, quote, opened, acc).end, src.len() as int)),
    decreases src.len() - i,
{
    let len = src.len() as int;
    if i >= len {
        lemma_split_before_ascii(acc, src.subrange(i, len));
    } else if continuation_len(src, i) > 0 {
        lemma_drop_continuation(src, acc, i);
        lemma_text_scan_well_formed(src, i + continuation_len(src, i), quote, opened, acc);
    } else if escape_at(src, i) {
        lemma_drop_ascii(src, acc, i);
        lemma_keep_byte(src, acc, i + 1);
        lemma_text_scan_well_formed(src, i + 2, quote, opened, acc.push(src[i + 1]));
    } else if src[i] == BACKSLASH || src[i] == CARRIAGE_RETURN || src[i] == LINE_FEED {
        assert(src.subrange(i, len)[0] == src[i]);
        lemma_split_before_ascii(acc, src.subrange(i, len));
    } else if quote == 0 {
        if src[i] == DOUBLE_QUOTE || src[i] == SINGLE_QUOTE {
            lemma_drop_ascii(src, acc, i);
            lemma_text_scan_well_formed(src, i + 1, src[i], i, acc);
        } else if src[i] == SPACE || src[i] == TAB || src[i] == HASH {
            assert(src.subrange(i, len)[0] == src[i]);
            lemma_split_before_ascii(acc, src.subrange(i, len));
        } else {
            lemma_keep_byte(src, acc, i);
            lemma_text_scan_well_formed(src, i + 1, quote, opened, acc.push(src[i]));
        }
    } else {
        if src[i] == quote {
            lemma_drop_ascii(src, acc, i);
            lemma_text_scan_well_formed(src, i + 1, 0, opened, acc);
        } else {
            lemma_keep_byte(src, acc, i);
            lemma_text_scan_well_formed(src, i + 1, quote, opened, acc.push(src[i]));
        }
    }
}

/// The same for a comment.
pub proof fn lemma_comment_scan_well_formed(src: Seq<u8>, i: int, acc: Seq<u8>)
    requires
        0 <= i <= src.len(),
        valid_utf8(acc + src.subrange(i, src.len() as int)),
    ensures
        valid_utf8(comment_scan(src, i, acc).text),
        valid_utf8(src.subrange(comment_scan(src, i, acc).end, src.len() as int)),
    decreases src.len() - i,
{
    let len = src.len() as int;
    if i >= len {
        lemma_split_before_ascii(acc, src.subrange(i, len));
    } else if continuation_len(src, i) > 0 {
        lemma_drop_continuation(src, acc, i);
        lemma_comment_scan_well_formed(src, i + continuation_len(src, i), acc);
    } else if newline_len(src, i) > 0 {
        assert(src.subrange(i, len)[0] == src[i]);
        lemma_split_before_ascii(acc, src.subrange(i, len));
    } else {
        lemma_keep_byte(src, acc, i);
        lemma_comment_scan_well_formed(src, i + 1, acc.push(src[i]));
    }
}

/// True when the text of the token, if it has one, is well-formed UTF-8.
pub open spec fn token_well_formed(token: TokenView) -> bool {
    match token {
        TokenView::Text(text) => valid_utf8(text),
        TokenView::Comment(text) => valid_utf8(text),
        _ => true,
    }
}

/// A step that starts where the rest of the source is well-formed UTF-8 ends
/// at such an offset, and the text of its token is well-formed UTF-8.
pub proof fn lemma_lex_step_well_formed(src: Seq<u8>, i: int)
    requires
        0 <= i < src.len(),
        valid_utf8(src.subrange(i, src.len() as int)),
    ensures
        valid_utf8(src.subrange(lex_step(src, i).next, src.len() as int)),
        lex_step(src, i).token matches Some(t) ==> token_well_formed(t.token),
{
    let len = src.len() as int;
    let empty = Seq::<u8>::empty();
    if src[i] == SPACE || src[i] == TAB {
        lemma_skip_ascii_run(src, i, 1);
    } else if newline_len(src, i) > 0 {
        lemma_skip_ascii_run(src, i, newline_len(src, i));
    } else if continuation_len(src, i) > 0 {
        lemma_skip_ascii_run(src, i, continuation_len(src, i));
    } else if src[i] == HASH {
        lemma_skip_ascii_run(src, i, 1);
        assert(empty + src.subrange(i + 1, len) =~= src.subrange(i + 1, len));
        lemma_comment_scan_well_formed(src, i + 1, empty);
    } else if text_starts_at(src, i) {
        assert(empty + src.subrange(i, len) =~= src.subrange(i, len));
        lemma_text_scan_well_formed(src, i, 0, 0, empty);
    } else {
        lemma_skip_ascii_run(src, i, 1);
    }
}

/// True when both ends of the span are character boundaries of the source,
/// so that the source can be sliced by the span.
pub open spec fn on_boundaries(src: Seq<u8>, span: Extent) -> bool {
    is_char_boundary(src, span.start) && is_char_boundary(src, span.end)
}

/// The error that ends a text token, if any, spans whole characters.
pub proof fn lemma_text_scan_error_on_boundaries(
    src: Seq<u8>,
    i: int,
    quote: u8,
    opened: int,
    acc: Seq<u8>,
)
    requires
        valid_utf8(src),
        0 <= i <= src.len(),
        quote != 0 ==> is_char_boundary(src, opened),
    ensures
        text_scan(src, i, quote, opened, acc).error matches Some(e) ==> on_boundaries(src, e.span),
    decreases src.len() - i,
{
    if i < src.len() {
        if continuation_len(src, i) > 0 {
            lemma_text_scan_error_on_boundaries(
                src,
                i + continuation_len(src, i),
                quote,
                opened,
                acc,
            );
        } else if escape_at(src, i) {
            lemma_text_scan_error_on_boundaries(src, i + 2, quote, opened, acc.push(src[i + 1]));
        } else if src[i] == BACKSLASH || src[i] == CARRIAGE_RETURN || src[i] == LINE_FEED {
            lemma_boundaries_at_ascii(src, i);
            if newline_len(src, i) == 2 {
                lemma_boundaries_at_ascii(src, i + 1);
            }
        } else if quote == 0 {
            if src[i] == DOUBLE_QUOTE || src[i] == SINGLE_QUOTE {
                lemma_boundaries_at_ascii(src, i);
                lemma_text_scan_error_on_boundaries(src, i + 1, src[i], i, acc);
            } else if src[i] == SPACE || src[i] == TAB || src[i] == HASH {
            } else {
                lemma_text_scan_error_on_boundaries(src, i + 1, quote, opened, acc.push(src[i]));
            }
        } else {
            if src[i] == quote {
                lemma_text_scan_error_on_boundaries(src, i + 1, 0, opened, acc);
            } else {
                lemma_text_scan_error_on_boundaries(src, i + 1, quote, opened, acc.push(src[i]));
            }
        }
    } else {
        is_char_boundary_start_end_of_seq(src);
    }
}

/// True when every token spans whole characters and has well-formed text.
pub open spec fn tokens_sliceable(tokens: Seq<TokenAt>, src: Seq<u8>) -> bool {
    forall|k: int|
        0 <= k < tokens.len() ==> on_boundaries(src, (#[trigger] tokens[k]).span)
            && token_well_formed(tokens[k].token)
}

/// True when every error spans whole characters.
pub open spec fn errors_sliceable(errors: Seq<LexErrorView>, src: Seq<u8>) -> bool {
    forall|k: int| 0 <= k < errors.len() ==> on_boundaries(src, (#[trigger] errors[k]).span)
}

/// The tokens and errors read from an offset where the rest of a well-formed
/// source is well formed span whole characters.
pub proof fn lemma_sliceable_from(src: Seq<u8>, from: int)
    requires
        valid_utf8(src),
        0 <= from <= src.len(),
        valid_utf8(src.subrange(from, src.len() as int)),
    ensures
        tokens_sliceable(tokens_from(src, from), src),
        errors_sliceable(errors_from(src, from), src),
    decreases src.len() - from,
{
    if from < src.len() {
        let step = lex_step(src, from);
        lemma_lex_step_advances(src, from);
        lemma_step_token_span(src, from);
        lemma_lex_step_well_formed(src, from);
        lemma_boundary_of_valid_suffix(src, from);
        lemma_boundary_of_valid_suffix(src, step.next);
        lemma_text_scan_error_on_boundaries(src, from, 0, 0, Seq::empty());
        lemma_sliceable_from(src, step.next);
        let rest = tokens_from(src, step.next);
        let all = tokens_from(src, from);
        match step.token {
            Some(t) => {
                assert(all =~= seq![t] + rest);
                assert forall|k: int| 0 <= k < all.len() implies on_boundaries(
                    src,
                    (#[trigger] all[k]).span,
                ) && token_well_formed(all[k].token) by {
                    if k > 0 {
                        assert(all[k] == rest[k - 1]);
                    }
                }
            },
            None => {
                assert(all == rest);
            },
        }
        let rest = errors_from(src, step.next);
        let all = errors_from(src, from);
        match step.error {
            Some(e) => {
                assert(all =~= seq![e] + rest);
                assert forall|k: int| 0 <= k < all.len() implies on_boundaries(
                    src,
                    (#[trigger] all[k]).span,
                ) by {
                    if k > 0 {
                        assert(all[k] == rest[k - 1]);
                    }
                }
            },
            None => {
                assert(all == rest);
            },
        }
    }
}

/// In a source that is well-formed UTF-8, as every `str` is, all tokens and
/// errors span whole characters, so that the source can be sliced by each of
/// their spans, and the text of every token is well-formed UTF-8.
pub proof fn lemma_tokens_sliceable(src: Seq<u8>)
    requires
        valid_utf8(src),
    ensures
        tokens_sliceable(tokens_of(src), src),
        errors_sliceable(errors_of(src), src),
{
    assert(src.subrange(0, src.len() as int) =~= src);
    lemma_sliceable_from(src, 0);
}

/// A comment ends in front of a line terminator or with the source.
pub proof fn lemma_comment_scan_ends_line(src: Seq<u8>, i: int, acc: Seq<u8>)
    requires
        0 <= i <= src.len(),
    ensures
        ({
            let end = comment_scan(src, i, acc).end;
            end == src.len() || newline_len(src, end) > 0
        }),
    decreases src.len() - i,
{
    if i < src.len() {
        if continuation_len(src, i) > 0 {
            lemma_comment_scan_ends_line(src, i + continuation_len(src, i), acc);
        } else if newline_len(src, i) > 0 {
        } else {
            lemma_comment_scan_ends_line(src, i + 1, acc.push(src[i]));
        }
    }
}

/// Among the tokens read from offset `from` on, a comment is followed by a
/// line break or by nothing.
pub proof fn lemma_comment_ends_line_from(src: Seq<u8>, from: int, k: int)
    requires
        0 <= from <= src.len(),
        0 <= k < tokens_from(src, from).len(),
        tokens_from(src, from)[k].token is Comment,
    ensures
        k + 1 == tokens_from(src, from).len() || tokens_from(src, from)[k + 1].token is LineBreak,
    decreases src.len() - from,
{
    let step = lex_step(src, from);
    lemma_lex_step_advances(src, from);
    let rest = tokens_from(src, step.next);
    match step.token {
        Some(t) => {
            assert(tokens_from(src, from) =~= seq![t] + rest);
            if k > 0 {
                assert(tokens_from(src, from)[k] == rest[k - 1]);
                lemma_comment_ends_line_from(src, step.next, k - 1);
                if k < rest.len() {
                    assert(tokens_from(src, from)[k + 1] == rest[k]);
                }
            } else {
                lemma_comment_scan_ends_line(src, from + 1, Seq::empty());
                if step.next < src.len() {
                    let after = lex_step(src, step.next);
                    assert(after.token is Some && after.token->0.token is LineBreak);
                    assert(rest =~= seq![after.token->0] + tokens_from(src, after.next));
                    assert(tokens_from(src, from)[1] == rest[0]);
                } else {
                    assert(rest =~= Seq::<TokenAt>::empty());
                }
            }
        },
        None => {
            lemma_comment_ends_line_from(src, step.next, k);
        },
    }
}

/// A comment is the last token of its line: the token behind it, if there is
/// one, is a line break. So no line has two comments.
pub proof fn lemma_comment_ends_line(src: Seq<u8>, k: int)
    requires
        0 <= k < tokens_of(src).len(),
        tokens_of(src)[k].token is Comment,
    ensures
        k + 1 == tokens_of(src).len() || tokens_of(src)[k + 1].token is LineBreak,
{
    lemma_comment_ends_line_from(src, 0, k);
}

/// A text token that ends where reading went on from was complete there.
proof fn lemma_text_scan_stopped(src: Seq<u8>, i: int, quote: u8, opened: int, acc: Seq<u8>)
    requires
        0 <= i <= src.len(),
        text_scan(src, i, quote, opened, acc).end == i,
    ensures
        text_scan(src, i, quote, opened, acc).text == acc,
{
    if i < src.len() {
        if continuation_len(src, i) > 0 {
            lemma_text_scan_bounds(src, i + continuation_len(src, i), quote, opened, acc);
        } else if escape_at(src, i) {
            lemma_text_scan_bounds(src, i + 2, quote, opened, acc.push(src[i + 1]));
        } else if src[i] == BACKSLASH || src[i] == CARRIAGE_RETURN || src[i] == LINE_FEED {
        } else if quote == 0 {
            if src[i] == DOUBLE_QUOTE || src[i] == SINGLE_QUOTE {
                lemma_text_scan_bounds(src, i + 1, src[i], i, acc);
            } else if src[i] == SPACE || src[i] == TAB || src[i] == HASH {
            } else {
                lemma_text_scan_bounds(src, i + 1, quote, opened, acc.push(src[i]));
            }
        } else {
            if src[i] == quote {
                lemma_text_scan_bounds(src, i + 1, 0, opened, acc);
            } else {
                lemma_text_scan_bounds(src, i + 1, quote, opened, acc.push(src[i]));
            }
        }
    }
}

/// Reading a text token looks at nothing behind its end: on the source cut
/// from `from` to the token's end, reading goes the same way, stops at the
/// end of the cut and decodes the same bytes. (Where the quote was opened
/// does not matter for that.)
pub proof fn lemma_text_scan_local(
    src: Seq<u8>,
    from: int,
    i: int,
    quote: u8,
    opened: int,
    opened_in_cut: int,
    acc: Seq<u8>,
)
    requires
        0 <= from <= i <= src.len(),
    ensures
        ({
            let whole = text_scan(src, i, quote, opened, acc);
            let cut = text_scan(src.subrange(from, whole.end), i - from, quote, opened_in_cut, acc);
            &&& i <= whole.end <= src.len()
            &&& cut.end == whole.end - from
            &&& cut.text == whole.text
        }),
    decreases src.len() - i,
{
    let whole = text_scan(src, i, quote, opened, acc);
    lemma_text_scan_bounds(src, i, quote, opened, acc);
    let part = src.subrange(from, whole.end);
    let j = i - from;
    if i == whole.end {
        lemma_text_scan_stopped(src, i, quote, opened, acc);
    } else {
        assert(part[j] == src[i]);
        if continuation_len(src, i) > 0 {
            let c = continuation_len(src, i);
            lemma_text_scan_bounds(src, i + c, quote, opened, acc);
            lemma_text_scan_local(src, from, i + c, quote, opened, opened_in_cut, acc);
            assert(part[j + 1] == src[i + 1]);
            if c == 3 {
                assert(part[j + 2] == src[i + 2]);
            }
            assert(continuation_len(part, j) == c);
        } else if escape_at(src, i) {
            lemma_text_scan_bounds(src, i + 2, quote, opened, acc.push(src[i + 1]));
            lemma_text_scan_local(
                src,
                from,
                i + 2,
                quote,
                opened,
                opened_in_cut,
                acc.push(src[i + 1]),
            );
            assert(part[j + 1] == src[i + 1]);
            assert(continuation_len(part, j) == 0);
            assert(escape_at(part, j));
        } else if src[i] == BACKSLASH || src[i] == CARRIAGE_RETURN || src[i] == LINE_FEED {
        } else if quote == 0 {
            assert(continuation_len(part, j) == 0);
            assert(!escape_at(part, j));
            if src[i] == DOUBLE_QUOTE || src[i] == SINGLE_QUOTE {
                lemma_text_scan_bounds(src, i + 1, src[i], i, acc);
                lemma_text_scan_local(src, from, i + 1, src[i], i, j, acc);
            } else if src[i] == SPACE || src[i] == TAB || src[i] == HASH {
            } else {
                lemma_text_scan_bounds(src, i + 1, quote, opened, acc.push(src[i]));
                lemma_text_scan_local(
                    src,
                    from,
                    i + 1,
                    quote,
                    opened,
                    opened_in_cut,
                    acc.push(src[i]),
                );
            }
        } else {
            assert(continuation_len(part, j) == 0);
            assert(!escape_at(part, j));
            if src[i] == quote {
                lemma_text_scan_bounds(src, i + 1, 0, opened, acc);
                lemma_text_scan_local(src, from, i + 1, 0, opened, opened_in_cut, acc);
            } else {
                lemma_text_scan_bounds(src, i + 1, quote, opened, acc.push(src[i]));
                lemma_text_scan_local(
                    src,
                    from,
                    i + 1,
                    quote,
                    opened,
                    opened_in_cut,
                    acc.push(src[i]),
                );
            }
        }
    }
}

/// A comment that ends where reading went on from was complete there.
proof fn lemma_comment_scan_stopped(src: Seq<u8>, i: int, acc: Seq<u8>)
    requires
        0 <= i <= src.len(),
        comment_scan(src, i, acc).end == i,
    ensures
        comment_scan(src, i, acc).text == acc,
{
    if i < src.len() {
        if continuation_len(src, i) > 0 {
            lemma_comment_scan_bounds(src, i + continuation_len(src, i), acc);
        } else if newline_len(src, i) > 0 {
        } else {
            lemma_comment_scan_bounds(src, i + 1, acc.push(src[i]));
        }
    }
}

/// Reading a comment looks at nothing behind its end: on the source cut from
/// `from` to the comment's end, reading stops at the end of the cut and
/// decodes the same bytes.
pub proof fn lemma_comment_scan_local(src: Seq<u8>, from: int, i: int, acc: Seq<u8>)
    requires
        0 <= from <= i <= src.len(),
    ensures
        ({
            let whole = comment_scan(src, i, acc);
            let cut = comment_scan(src.subrange(from, whole.end), i - from, acc);
            &&& i <= whole.end <= src.len()
            &&& cut.end == whole.end - from
            &&& cut.text == whole.text
        }),
    decreases src.len() - i,
{
    let whole = comment_scan(src, i, acc);
    lemma_comment_scan_bounds(src, i, acc);
    let part = src.subrange(from, whole.end);
    let j = i - from;
    if i == whole.end {
        lemma_comment_scan_stopped(src, i, acc);
    } else {
        assert(part[j] == src[i]);
        if continuation_len(src, i) > 0 {
            let c = continuation_len(src, i);
            lemma_comment_scan_bounds(src, i + c, acc);
            lemma_comment_scan_local(src, from, i + c, acc);
            assert(part[j + 1] == src[i + 1]);
            if c == 3 {
                assert(part[j + 2] == src[i + 2]);
            }
            assert(continuation_len(part, j) == c);
        } else if newline_len(src, i) > 0 {
        } else {
            assert(continuation_len(part, j) == 0);
            assert(newline_len(part, j) == 0);
            lemma_comment_scan_bounds(src, i + 1, acc.push(src[i]));
            lemma_comment_scan_local(src, from, i + 1, acc.push(src[i]));
        }
    }
}

/// The token that a span holds when it is read as a source of its own.
pub open spec fn alone(token: TokenAt) -> TokenAt {
    TokenAt {
        token: token.token,
        span: Extent { start: 0, end: token.span.end - token.span.start },
    }
}

/// The raw source of the token that starts at offset `i`, tokenized by
/// itself, gives that one token.
pub proof fn lemma_step_token_alone(src: Seq<u8>, i: int)
    requires
        0 <= i < src.len(),
        lex_step(src, i).token is Some,
    ensures
        ({
            let t = lex_step(src, i).token->0;
            &&& t.span.start == i
            &&& i < t.span.end <= src.len()
            &&& tokens_of(src.subrange(i, t.span.end)) == seq![alone(t)]
        }),
{
    let step = lex_step(src, i);
    let t = step.token->0;
    lemma_lex_step_advances(src, i);
    lemma_step_token_span(src, i);
    let part = src.subrange(i, t.span.end);
    assert(part[0] == src[i]);
    let empty = Seq::<u8>::empty();
    if src[i] == SPACE || src[i] == TAB {
    } else if newline_len(src, i) > 0 {
        if newline_len(src, i) == 2 {
            assert(part[1] == src[i + 1]);
        }
        assert(newline_len(part, 0) == newline_len(src, i));
    } else if continuation_len(src, i) > 0 {
        let c = continuation_len(src, i);
        assert(part[1] == src[i + 1]);
        if c == 3 {
            assert(part[2] == src[i + 2]);
        }
        assert(newline_len(part, 0) == 0);
        assert(continuation_len(part, 0) == c);
    } else if src[i] == HASH {
        lemma_comment_scan_local(src, i, i + 1, empty);
        assert(newline_len(part, 0) == 0);
        assert(continuation_len(part, 0) == 0);
    } else if text_starts_at(src, i) {
        lemma_text_scan_local(src, i, i, 0, 0, 0, empty);
        assert(newline_len(part, 0) == 0);
        if src[i] == BACKSLASH {
            lemma_text_scan_bounds(src, i + 2, 0, 0, empty.push(src[i + 1]));
            assert(part[1] == src[i + 1]);
            assert(escape_at(part, 0));
        }
        assert(continuation_len(part, 0) == 0);
        assert(text_starts_at(part, 0));
    } else {
    }
    let again = lex_step(part, 0);
    assert(again.token == Some(alone(t)));
    assert(again.next == part.len());
    assert(tokens_from(part, again.next) =~= Seq::<TokenAt>::empty());
    assert(tokens_from(part, 0) =~= seq![alone(t)]);
}

/// Every token read from offset `from` on is the token of the step at the
/// offset where it starts.
pub proof fn lemma_token_origin(src: Seq<u8>, from: int, k: int)
    requires
        0 <= from <= src.len(),
        0 <= k < tokens_from(src, from).len(),
    ensures
        ({
            let t = tokens_from(src, from)[k];
            &&& from <= t.span.start < src.len()
            &&& lex_step(src, t.span.start).token == Some(t)
        }),
    decreases src.len() - from,
{
    let step = lex_step(src, from);
    lemma_lex_step_advances(src, from);
    lemma_step_token_span(src, from);
    let rest = tokens_from(src, step.next);
    match step.token {
        Some(t) => {
            assert(tokens_from(src, from) =~= seq![t] + rest);
            if k > 0 {
                assert(tokens_from(src, from)[k] == rest[k - 1]);
                lemma_token_origin(src, step.next, k - 1);
            }
        },
        None => {
            lemma_token_origin(src, step.next, k);
        },
    }
}

/// Each token's span lies inside the source, and the raw source under the
/// span, tokenized by itself, gives that token again: the same kind and the
/// same decoded text, spanning the whole of it.
pub proof fn lemma_raw_source_decodes_to_token(src: Seq<u8>, k: int)
    requires
        0 <= k < tokens_of(src).len(),
    ensures
        ({
            let t = tokens_of(src)[k];
            &&& within(t.span, src.len() as int)
            &&& tokens_of(src.subrange(t.span.start, t.span.end)) == seq![alone(t)]
        }),
{
    lemma_token_origin(src, 0, k);
    lemma_step_token_alone(src, tokens_of(src)[k].span.start);
}

} // verus!
