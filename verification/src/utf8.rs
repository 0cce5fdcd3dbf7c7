//! Facts about UTF-8 byte strings, and the conversion of decoded bytes to a `String`.
//!
//! The tokenizer works on the bytes of the source text. Every byte it gives a
//! meaning to is ASCII, so it removes only ASCII bytes from well-formed UTF-8 and
//! cuts only in front of ASCII bytes; the lemmas here show that both keep the
//! bytes well formed.
use vstd::prelude::*;
use vstd::utf8::*;

verus! {

/// Dropping a leading ASCII byte from well-formed UTF-8 leaves well-formed UTF-8.
pub proof fn lemma_skip_ascii(bytes: Seq<u8>)
    requires
        valid_utf8(bytes),
        bytes.len() > 0,
        bytes[0] < 0x80,
    ensures
        valid_utf8(bytes.subrange(1, bytes.len() as int)),
{
    assert(length_of_first_scalar(bytes) == 1);
    assert(pop_first_scalar(bytes) == bytes.subrange(1, bytes.len() as int));
}

/// Well-formed UTF-8 cut in front of an ASCII byte, or at its end, gives two
/// well-formed halves.
pub proof fn lemma_split_before_ascii(a: Seq<u8>, b: Seq<u8>)
    requires
        valid_utf8(a + b),
        b.len() == 0 || b[0] < 0x80,
    ensures
        valid_utf8(a),
        valid_utf8(b),
{
    let whole = a + b;
    let k = a.len() as int;
    if b.len() == 0 {
        assert(whole =~= a);
    } else {
        assert(whole[k] == b[0]);
        is_char_boundary_iff_not_is_continuation_byte(whole, k);
        valid_utf8_split(whole, k);
        assert(whole.subrange(0, k) =~= a);
        assert(whole.subrange(k, whole.len() as int) =~= b);
    }
}

/// Removing one ASCII byte from well-formed UTF-8 leaves well-formed UTF-8.
pub proof fn lemma_remove_ascii(bytes: Seq<u8>, k: int)
    requires
        valid_utf8(bytes),
        0 <= k < bytes.len(),
        bytes[k] < 0x80,
    ensures
        valid_utf8(bytes.remove(k)),
{
    let head = bytes.subrange(0, k);
    let tail = bytes.subrange(k, bytes.len() as int);
    assert(bytes =~= head + tail);
    lemma_split_before_ascii(head, tail);
    lemma_skip_ascii(tail);
    let rest = tail.subrange(1, tail.len() as int);
    valid_utf8_concat(head, rest);
    assert(bytes.remove(k) =~= head + rest);
}

/// In well-formed UTF-8 that begins with an ASCII byte, offset 1 is a character
/// boundary.
pub proof fn lemma_boundary_after_ascii(bytes: Seq<u8>)
    requires
        valid_utf8(bytes),
        bytes.len() > 0,
        bytes[0] < 0x80,
    ensures
        is_char_boundary(bytes, 1),
{
    reveal_with_fuel(is_char_boundary, 2);
    assert(length_of_first_scalar(bytes) == 1);
    lemma_skip_ascii(bytes);
    assert(pop_first_scalar(bytes) == bytes.subrange(1, bytes.len() as int));
}

/// In well-formed UTF-8, an offset from which on the bytes are well formed
/// is a character boundary.
pub proof fn lemma_boundary_of_valid_suffix(bytes: Seq<u8>, at: int)
    requires
        valid_utf8(bytes),
        0 <= at <= bytes.len(),
        valid_utf8(bytes.subrange(at, bytes.len() as int)),
    ensures
        is_char_boundary(bytes, at),
{
    if at == bytes.len() {
        is_char_boundary_start_end_of_seq(bytes);
    } else {
        let rest = bytes.subrange(at, bytes.len() as int);
        assert(rest[0] == bytes[at]);
        assert(valid_first_scalar(rest));
        is_char_boundary_iff_not_is_continuation_byte(bytes, at);
    }
}

/// In well-formed UTF-8, the offset of an ASCII byte and the offset behind it
/// are character boundaries.
pub proof fn lemma_boundaries_at_ascii(bytes: Seq<u8>, at: int)
    requires
        valid_utf8(bytes),
        0 <= at < bytes.len(),
        bytes[at] < 0x80,
    ensures
        is_char_boundary(bytes, at),
        is_char_boundary(bytes, at + 1),
{
    is_char_boundary_iff_not_is_continuation_byte(bytes, at);
    valid_utf8_split(bytes, at);
    let rest = bytes.subrange(at, bytes.len() as int);
    assert(rest[0] == bytes[at]);
    lemma_skip_ascii(rest);
    assert(rest.subrange(1, rest.len() as int) =~= bytes.subrange(at + 1, bytes.len() as int));
    lemma_boundary_of_valid_suffix(bytes, at + 1);
}

/// `String::from_utf8`: the conversion succeeds exactly when the bytes are
/// well-formed UTF-8, and the string it gives is made of those bytes. Nothing
/// is proved of this; it is what the standard library documents.
#[verifier::external_body]
pub(crate) fn string_from_utf8(bytes: Vec<u8>) -> (r: Option<String>)
    ensures
        r is Some <==> valid_utf8(bytes@),
        r matches Some(s) ==> encode_utf8(s@) == bytes@,
{
    match String::from_utf8(bytes) {
        Ok(s) => Some(s),
        Err(_) => None,
    }
}

/// The string whose UTF-8 encoding is `bytes`.
pub(crate) fn string_of_bytes(bytes: Vec<u8>) -> (s: String)
    requires
        valid_utf8(bytes@),
    ensures
        encode_utf8(s@) == bytes@,
{
    match string_from_utf8(bytes) {
        Some(s) => s,
        None => String::new(),
    }
}

} // verus!
