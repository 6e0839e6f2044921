//! Rewriting the content of one file.
//!
//! The content is taken in chunks, each reaching up to and including the
//! next carriage return, or to the end. A chunk is decoded, its occurrences
//! of the signature are replaced, and the result is written out as UTF-8.
//! A signature that straddles two chunks is therefore not found. Whoever
//! wants the whole buffer taken as one unit hands it to `replace_chunk`.

use crate::encoding::{decodable_len, decode, decoded_text, legacy_text, DecodeError};
use crate::text::{
    delimited, foreign_to, joined, lemma_replace_all_concat, lemma_replace_keeps_unmatched,
    lemma_replace_leaves_no_occurrence, lemma_replace_without_occurrence, occurs_in, replace_all,
    replace_text, unmatched,
};
use vstd::prelude::*;
use vstd::slice::{slice_subrange, slice_to_vec};
use vstd::string::{StrSliceExecFns, StringExecFns};
use vstd::utf8::{
    decode_first_scalar, decode_utf8, decode_utf8_encode_utf8, encode_scalar, encode_utf8,
    encode_utf8_decode_utf8, encode_utf8_valid_utf8,
    is_char_boundary_iff_not_is_continuation_byte, pop_first_scalar, valid_utf8,
    valid_utf8_concat, valid_utf8_split,
};

verus! {

/// The byte that ends a chunk: a carriage return.
pub const CHUNK_DELIMITER: u8 = 0x0d;

/// How the rewriting of one file ended.
#[derive(Debug)]
pub enum ReplacementOutcome {
    /// The file holds the rewritten content.
    Success,
    /// The content is text in neither encoding; the file was left alone.
    DecodeFailure(String),
    /// Reading or writing failed.
    IoFailure(String),
}

/// The length of the first chunk of `bytes`: up to and including the first
/// carriage return, or all of `bytes` where there is none.
pub open spec fn first_chunk_len(bytes: Seq<u8>) -> int
    decreases bytes.len(),
{
    if bytes.len() == 0 {
        0
    } else if bytes[0] == CHUNK_DELIMITER {
        1
    } else {
        1 + first_chunk_len(bytes.skip(1))
    }
}

/// What one unit of content becomes: its text with the signature replaced,
/// encoded as UTF-8; nothing where the unit cannot be decoded.
pub open spec fn rewritten_unit(unit: Seq<u8>, signature: Seq<char>, replacement: Seq<char>) -> Option<
    Seq<u8>,
> {
    match decoded_text(unit) {
        Some(text) => Some(encode_utf8(replace_all(text, signature, replacement))),
        None => None,
    }
}

/// The chunks of `bytes`, in order. None of them is empty.
pub open spec fn chunks(bytes: Seq<u8>) -> Seq<Seq<u8>>
    decreases bytes.len(),
{
    let n = first_chunk_len(bytes);
    if 0 < n <= bytes.len() {
        seq![bytes.take(n)] + chunks(bytes.skip(n))
    } else {
        Seq::empty()
    }
}

/// What a run of units becomes: each unit rewritten, one after the other;
/// nothing where some unit cannot be decoded.
pub open spec fn rewritten_units(
    units: Seq<Seq<u8>>,
    signature: Seq<char>,
    replacement: Seq<char>,
) -> Option<Seq<u8>>
    decreases units.len(),
{
    if units.len() == 0 {
        Some(Seq::empty())
    } else {
        match rewritten_unit(units.first(), signature, replacement) {
            Some(head) => match rewritten_units(units.drop_first(), signature, replacement) {
                Some(tail) => Some(head + tail),
                None => None,
            },
            None => None,
        }
    }
}

/// What a file's content becomes: its chunks, each rewritten as a unit, one
/// after the other; nothing where some chunk cannot be decoded.
pub open spec fn rewritten_stream(
    bytes: Seq<u8>,
    signature: Seq<char>,
    replacement: Seq<char>,
) -> Option<Seq<u8>> {
    rewritten_units(chunks(bytes), signature, replacement)
}

/// The first chunk of a buffer that is not empty is not empty either, lies
/// within the buffer, holds no carriage return before its last byte, and
/// ends with one unless it reaches the end of the buffer.
pub proof fn lemma_first_chunk_len(bytes: Seq<u8>)
    requires
        bytes.len() > 0,
    ensures
        0 < first_chunk_len(bytes) <= bytes.len(),
        forall|j: int| 0 <= j < first_chunk_len(bytes) - 1 ==> bytes[j] != CHUNK_DELIMITER,
        first_chunk_len(bytes) == bytes.len() || bytes[first_chunk_len(bytes) - 1]
            == CHUNK_DELIMITER,
    decreases bytes.len(),
{
    if bytes[0] != CHUNK_DELIMITER {
        if bytes.len() == 1 {
            reveal_with_fuel(first_chunk_len, 2);
        } else {
            let rest = bytes.skip(1);
            lemma_first_chunk_len(rest);
            assert forall|j: int| 0 <= j < first_chunk_len(bytes) - 1 implies bytes[j]
                != CHUNK_DELIMITER by {
                if j > 0 {
                    assert(rest[j - 1] == bytes[j]);
                }
            }
        }
    }
}

/// The chunks of a buffer, put together again, are the buffer.
pub proof fn lemma_chunks_flatten(bytes: Seq<u8>)
    ensures
        chunks(bytes).flatten() == bytes,
    decreases bytes.len(),
{
    if bytes.len() > 0 {
        lemma_first_chunk_len(bytes);
        let n = first_chunk_len(bytes);
        lemma_chunks_flatten(bytes.skip(n));
        assert(chunks(bytes).drop_first() == chunks(bytes.skip(n)));
    }
}

/// A unit that the legacy decoder reads without a malformed sequence is
/// rewritten, and the result is well-formed UTF-8 whose text is the unit's
/// text with the signature replaced.
pub proof fn lemma_legacy_unit_round_trip(
    unit: Seq<u8>,
    signature: Seq<char>,
    replacement: Seq<char>,
)
    requires
        legacy_text(unit) is Some,
    ensures
        rewritten_unit(unit, signature, replacement) matches Some(out) && valid_utf8(out)
            && decode_utf8(out) == replace_all(legacy_text(unit)->0, signature, replacement),
{
    let replaced = replace_all(legacy_text(unit)->0, signature, replacement);
    encode_utf8_valid_utf8(replaced);
    encode_utf8_decode_utf8(replaced);
}

/// A unit that is well-formed UTF-8, and in which the legacy decoder meets
/// a malformed sequence, is rewritten, and the result is well-formed UTF-8
/// whose text is the unit's text with the signature replaced. If the
/// signature does not stand in the text, the result is the unit, byte for
/// byte.
pub proof fn lemma_utf8_unit_round_trip(
    unit: Seq<u8>,
    signature: Seq<char>,
    replacement: Seq<char>,
)
    requires
        legacy_text(unit) is None,
        valid_utf8(unit),
    ensures
        rewritten_unit(unit, signature, replacement) matches Some(out) && valid_utf8(out)
            && decode_utf8(out) == replace_all(decode_utf8(unit), signature, replacement),
        !occurs_in(decode_utf8(unit), signature) ==> rewritten_unit(unit, signature, replacement)
            == Some(unit),
{
    let replaced = replace_all(decode_utf8(unit), signature, replacement);
    encode_utf8_valid_utf8(replaced);
    encode_utf8_decode_utf8(replaced);
    if !occurs_in(decode_utf8(unit), signature) {
        lemma_replace_without_occurrence(decode_utf8(unit), signature, replacement);
        decode_utf8_encode_utf8(unit);
    }
}

/// The encoding of two texts, one after the other, is their encodings,
/// one after the other.
pub proof fn lemma_encode_utf8_concat(a: Seq<char>, b: Seq<char>)
    ensures
        encode_utf8(a + b) == encode_utf8(a) + encode_utf8(b),
    decreases a.len(),
{
    if a.len() > 0 {
        assert((a + b).drop_first() == a.drop_first() + b);
        lemma_encode_utf8_concat(a.drop_first(), b);
    }
}

/// The encodings of `parts`, each on its own.
pub open spec fn encoded(parts: Seq<Seq<char>>) -> Seq<Seq<u8>> {
    parts.map_values(|part: Seq<char>| encode_utf8(part))
}

/// The encoding of stretches joined by a separator is the encodings of the
/// stretches, joined by the encoding of the separator.
pub proof fn lemma_encode_joined(parts: Seq<Seq<char>>, sep: Seq<char>)
    ensures
        encode_utf8(joined(parts, sep)) == joined(encoded(parts), encode_utf8(sep)),
    decreases parts.len(),
{
    if parts.len() > 1 {
        let rest = parts.drop_first();
        lemma_encode_joined(rest, sep);
        lemma_encode_utf8_concat(parts.first() + sep, joined(rest, sep));
        lemma_encode_utf8_concat(parts.first(), sep);
        assert(encoded(parts).drop_first() == encoded(rest));
    }
}

/// What lies outside the replaced occurrences is kept byte for byte where
/// the unit is read as UTF-8: the unit is the encodings of its unmatched
/// stretches with the signature's bytes between them, and the result is
/// the same encodings with the replacement's bytes between them.
pub proof fn lemma_utf8_unit_keeps_unmatched(
    unit: Seq<u8>,
    signature: Seq<char>,
    replacement: Seq<char>,
)
    requires
        legacy_text(unit) is None,
        valid_utf8(unit),
        signature.len() > 0,
    ensures
        unit == joined(encoded(unmatched(decode_utf8(unit), signature)), encode_utf8(signature)),
        rewritten_unit(unit, signature, replacement) == Some(
            joined(encoded(unmatched(decode_utf8(unit), signature)), encode_utf8(replacement)),
        ),
{
    let text = decode_utf8(unit);
    let parts = unmatched(text, signature);
    lemma_replace_keeps_unmatched(text, signature, replacement);
    lemma_encode_joined(parts, signature);
    lemma_encode_joined(parts, replacement);
    decode_utf8_encode_utf8(unit);
}

/// A unit that is well-formed in neither encoding is not rewritten.
pub proof fn lemma_undecodable_unit(unit: Seq<u8>, signature: Seq<char>, replacement: Seq<char>)
    requires
        legacy_text(unit) is None,
        !valid_utf8(unit),
    ensures
        rewritten_unit(unit, signature, replacement) is None,
{
}

/// A run of units is rewritten exactly if each of its units can be decoded.
pub proof fn lemma_rewritten_units_some(
    units: Seq<Seq<u8>>,
    signature: Seq<char>,
    replacement: Seq<char>,
)
    ensures
        rewritten_units(units, signature, replacement) is Some <==> forall|i: int|
            0 <= i < units.len() ==> decoded_text(#[trigger] units[i]) is Some,
    decreases units.len(),
{
    if units.len() > 0 {
        let rest = units.drop_first();
        lemma_rewritten_units_some(rest, signature, replacement);
        if rewritten_units(units, signature, replacement) is Some {
            assert forall|i: int| 0 <= i < units.len() implies decoded_text(
                #[trigger] units[i],
            ) is Some by {
                if i > 0 {
                    assert(units[i] == rest[i - 1]);
                }
            }
        } else if decoded_text(units.first()) is Some {
            // Some unit of the rest cannot be decoded: it is a unit of the run.
            let i = choose|i: int| 0 <= i < rest.len() && decoded_text(#[trigger] rest[i]) is None;
            assert(units[i + 1] == rest[i]);
        }
    }
}

/// Whatever is written out is well-formed UTF-8.
pub proof fn lemma_rewritten_units_utf8(
    units: Seq<Seq<u8>>,
    signature: Seq<char>,
    replacement: Seq<char>,
)
    ensures
        rewritten_units(units, signature, replacement) matches Some(out) ==> valid_utf8(out),
    decreases units.len(),
{
    if units.len() > 0 {
        lemma_rewritten_units_utf8(units.drop_first(), signature, replacement);
        match decoded_text(units.first()) {
            Some(text) => {
                encode_utf8_valid_utf8(replace_all(text, signature, replacement));
                match rewritten_units(units.drop_first(), signature, replacement) {
                    Some(tail) => {
                        valid_utf8_concat(
                            encode_utf8(replace_all(text, signature, replacement)),
                            tail,
                        );
                    },
                    None => {},
                }
            },
            None => {},
        }
    }
}

/// Where the replacement is delimited by characters that the signature
/// does not hold, the signature stands nowhere in the text of a rewritten
/// unit.
pub proof fn lemma_rewritten_unit_clean(
    unit: Seq<u8>,
    signature: Seq<char>,
    replacement: Seq<char>,
)
    requires
        signature.len() > 0,
        delimited(signature, replacement),
    ensures
        rewritten_unit(unit, signature, replacement) matches Some(out) ==> valid_utf8(out)
            && !occurs_in(decode_utf8(out), signature),
{
    match decoded_text(unit) {
        Some(text) => {
            let replaced = replace_all(text, signature, replacement);
            lemma_replace_leaves_no_occurrence(text, signature, replacement);
            encode_utf8_valid_utf8(replaced);
            encode_utf8_decode_utf8(replaced);
        },
        None => {},
    }
}

/// A unit is settled if a pass over it has nothing to do: it is
/// well-formed UTF-8, it is read back as the text that it spells, and the
/// signature does not stand in that text.
pub open spec fn settled(unit: Seq<u8>, signature: Seq<char>) -> bool {
    &&& valid_utf8(unit)
    &&& decoded_text(unit) == Some(decode_utf8(unit))
    &&& !occurs_in(decode_utf8(unit), signature)
}

/// A settled unit is rewritten to itself, byte for byte.
pub proof fn lemma_settled_unit(unit: Seq<u8>, signature: Seq<char>, replacement: Seq<char>)
    requires
        settled(unit, signature),
    ensures
        rewritten_unit(unit, signature, replacement) == Some(unit),
{
    lemma_replace_without_occurrence(decode_utf8(unit), signature, replacement);
    decode_utf8_encode_utf8(unit);
}

/// The chunks of well-formed UTF-8 are well-formed UTF-8: a carriage
/// return is a character of its own, so no chunk ends within a character.
pub proof fn lemma_chunks_utf8(bytes: Seq<u8>)
    requires
        valid_utf8(bytes),
    ensures
        forall|i: int| 0 <= i < chunks(bytes).len() ==> valid_utf8(#[trigger] chunks(bytes)[i]),
    decreases bytes.len(),
{
    if bytes.len() > 0 {
        lemma_first_chunk_len(bytes);
        let n = first_chunk_len(bytes);
        let head = bytes.take(n);
        let tail = bytes.skip(n);
        if n == bytes.len() {
            assert(head == bytes);
        } else {
            // The chunk ends with a carriage return, at which a character
            // begins and, one byte on, ends.
            let cr = n - 1;
            is_char_boundary_iff_not_is_continuation_byte(bytes, cr);
            valid_utf8_split(bytes, cr);
            let before = bytes.subrange(0, cr);
            let from_cr = bytes.subrange(cr, bytes.len() as int);
            assert(pop_first_scalar(from_cr) == tail);
            let one = from_cr.subrange(0, 1);
            assert(valid_utf8(one)) by {
                reveal_with_fuel(valid_utf8, 2);
            }
            valid_utf8_concat(before, one);
            assert(before + one == head);
        }
        lemma_chunks_utf8(tail);
        assert forall|i: int| 0 <= i < chunks(bytes).len() implies valid_utf8(
            #[trigger] chunks(bytes)[i],
        ) by {
            if i > 0 {
                assert(chunks(bytes)[i] == chunks(tail)[i - 1]);
            }
        }
    }
}

/// Idempotence: a second pass over content that a first pass has written
/// changes nothing, where the legacy decoder reads no chunk of that content
/// as a text other than the one it spells in UTF-8, and the replacement has
/// not brought the signature back into any of them.
pub proof fn lemma_second_pass_changes_nothing(
    bytes: Seq<u8>,
    out: Seq<u8>,
    signature: Seq<char>,
    replacement: Seq<char>,
)
    requires
        rewritten_stream(bytes, signature, replacement) == Some(out),
        forall|i: int|
            0 <= i < chunks(out).len() ==> decoded_text(#[trigger] chunks(out)[i]) == Some(
                decode_utf8(chunks(out)[i]),
            ),
        forall|i: int|
            0 <= i < chunks(out).len() ==> !occurs_in(
                decode_utf8(#[trigger] chunks(out)[i]),
                signature,
            ),
    ensures
        rewritten_stream(out, signature, replacement) == Some(out),
{
    lemma_rewritten_units_utf8(chunks(bytes), signature, replacement);
    lemma_chunks_utf8(out);
    lemma_settled_stream(out, signature, replacement);
}

/// A pass over content whose chunks are all settled changes nothing.
pub proof fn lemma_settled_stream(bytes: Seq<u8>, signature: Seq<char>, replacement: Seq<char>)
    requires
        forall|i: int| 0 <= i < chunks(bytes).len() ==> settled(#[trigger] chunks(bytes)[i], signature),
    ensures
        rewritten_stream(bytes, signature, replacement) == Some(bytes),
{
    lemma_settled_units(chunks(bytes), signature, replacement);
    lemma_chunks_flatten(bytes);
}

/// A run of settled units is rewritten to the units, put together.
proof fn lemma_settled_units(units: Seq<Seq<u8>>, signature: Seq<char>, replacement: Seq<char>)
    requires
        forall|i: int| 0 <= i < units.len() ==> settled(#[trigger] units[i], signature),
    ensures
        rewritten_units(units, signature, replacement) == Some(units.flatten()),
    decreases units.len(),
{
    if units.len() > 0 {
        let rest = units.drop_first();
        assert forall|i: int| 0 <= i < rest.len() implies settled(#[trigger] rest[i], signature) by {
            assert(rest[i] == units[i + 1]);
        }
        lemma_settled_units(rest, signature, replacement);
        lemma_settled_unit(units.first(), signature, replacement);
    }
}

/// The carriage return, as a character.
pub open spec fn line_end() -> char {
    '\r'
}

/// The text of a run of units: the text of each, one after the other;
/// none where some unit cannot be decoded.
pub open spec fn units_text(units: Seq<Seq<u8>>) -> Option<Seq<char>>
    decreases units.len(),
{
    if units.len() == 0 {
        Some(Seq::empty())
    } else {
        match decoded_text(units.first()) {
            Some(head) => match units_text(units.drop_first()) {
                Some(tail) => Some(head + tail),
                None => None,
            },
            None => None,
        }
    }
}

/// The text of a file's content: the text of each chunk, one after the
/// other; none where some chunk cannot be decoded.
pub open spec fn stream_text(bytes: Seq<u8>) -> Option<Seq<char>> {
    units_text(chunks(bytes))
}

/// The text of the unit ends where the unit does: if the unit ends with a
/// carriage return and has a text, the text ends with one. A unit that is
/// read as UTF-8 does, as `lemma_utf8_keeps_line_end` shows. Of a unit that
/// the legacy decoder reads this is not known here, and it is not so for
/// all of them: behind a UTF-16 byte-order mark the last byte of a unit
/// may be half a character.
pub open spec fn keeps_line_end(unit: Seq<u8>) -> bool {
    (unit.len() > 0 && unit.last() == CHUNK_DELIMITER) ==> (decoded_text(unit) matches Some(text)
        ==> text.len() > 0 && text.last() == line_end())
}

/// The text of two well-formed UTF-8 buffers, one after the other, is
/// their texts, one after the other.
pub proof fn lemma_decode_utf8_concat(a: Seq<u8>, b: Seq<u8>)
    requires
        valid_utf8(a),
        valid_utf8(b),
    ensures
        valid_utf8(a + b),
        decode_utf8(a + b) == decode_utf8(a) + decode_utf8(b),
{
    valid_utf8_concat(a, b);
    decode_utf8_encode_utf8(a);
    decode_utf8_encode_utf8(b);
    lemma_encode_utf8_concat(decode_utf8(a), decode_utf8(b));
    encode_utf8_decode_utf8(decode_utf8(a) + decode_utf8(b));
}

/// Well-formed UTF-8 that ends with a carriage return spells a text that
/// ends with one.
pub proof fn lemma_utf8_keeps_line_end(unit: Seq<u8>)
    requires
        valid_utf8(unit),
        unit.len() > 0,
        unit.last() == CHUNK_DELIMITER,
    ensures
        decode_utf8(unit).len() > 0,
        decode_utf8(unit).last() == line_end(),
{
    let cr = unit.len() - 1;
    is_char_boundary_iff_not_is_continuation_byte(unit, cr);
    valid_utf8_split(unit, cr);
    let before = unit.subrange(0, cr);
    let one = unit.subrange(cr, unit.len() as int);
    assert(one == seq![CHUNK_DELIMITER]);
    assert(pop_first_scalar(one) == Seq::<u8>::empty());
    assert(decode_utf8(one) == seq![line_end()]) by {
        reveal_with_fuel(decode_utf8, 2);
        assert(0x0du8 & 0x7f == 0x0d) by (bit_vector);
        assert(decode_first_scalar(one) == 0x0d);
    }
    lemma_decode_utf8_concat(before, one);
    assert(before + one == unit);
}

/// All chunks of a buffer but the last end with a carriage return.
pub proof fn lemma_chunks_end_lines(bytes: Seq<u8>)
    ensures
        forall|i: int|
            0 <= i < chunks(bytes).len() - 1 ==> (#[trigger] chunks(bytes)[i]).len() > 0
                && chunks(bytes)[i].last() == CHUNK_DELIMITER,
    decreases bytes.len(),
{
    if bytes.len() > 0 {
        lemma_first_chunk_len(bytes);
        let n = first_chunk_len(bytes);
        let tail = bytes.skip(n);
        lemma_chunks_end_lines(tail);
        assert(chunks(bytes).drop_first() == chunks(tail));
        assert forall|i: int| 0 <= i < chunks(bytes).len() - 1 implies (#[trigger] chunks(
            bytes,
        )[i]).len() > 0 && chunks(bytes)[i].last() == CHUNK_DELIMITER by {
            if i == 0 {
                // There is a chunk behind the first, so the first does
                // not reach the end of the buffer.
                if n == bytes.len() {
                    assert(tail.len() == 0);
                    assert(chunks(tail).len() == 0);
                }
                assert(bytes.take(n).last() == bytes[n - 1]);
            } else {
                assert(chunks(bytes)[i] == chunks(tail)[i - 1]);
            }
        }
    }
}

/// A run of units of which all but the last end with a carriage return,
/// and the texts of those end with one as well, is rewritten as one text:
/// no occurrence of a signature that holds no carriage return reaches from
/// one unit into the next.
pub proof fn lemma_rewritten_units_as_text(
    units: Seq<Seq<u8>>,
    signature: Seq<char>,
    replacement: Seq<char>,
)
    requires
        signature.len() > 0,
        foreign_to(line_end(), signature),
        forall|i: int|
            0 <= i < units.len() - 1 ==> (#[trigger] units[i]).len() > 0 && units[i].last()
                == CHUNK_DELIMITER && keeps_line_end(units[i]),
    ensures
        match units_text(units) {
            Some(text) => rewritten_units(units, signature, replacement) == Some(
                encode_utf8(replace_all(text, signature, replacement)),
            ),
            None => rewritten_units(units, signature, replacement) is None,
        },
    decreases units.len(),
{
    if units.len() > 0 {
        let rest = units.drop_first();
        assert forall|i: int| 0 <= i < rest.len() - 1 implies (#[trigger] rest[i]).len() > 0
            && rest[i].last() == CHUNK_DELIMITER && keeps_line_end(rest[i]) by {
            assert(rest[i] == units[i + 1]);
        }
        lemma_rewritten_units_as_text(rest, signature, replacement);
        match (decoded_text(units.first()), units_text(rest)) {
            (Some(head), Some(tail)) => {
                if rest.len() > 0 {
                    assert(keeps_line_end(units[0]));
                } else {
                    assert(tail == Seq::<char>::empty());
                    assert(head + tail == head);
                }
                if rest.len() > 0 || head.len() == 0 {
                    lemma_replace_all_concat(head, tail, signature, replacement);
                } else {
                    assert(replace_all(tail, signature, replacement) == tail);
                    assert(replace_all(head, signature, replacement) + tail == replace_all(
                        head,
                        signature,
                        replacement,
                    ));
                }
                lemma_encode_utf8_concat(
                    replace_all(head, signature, replacement),
                    replace_all(tail, signature, replacement),
                );
            },
            _ => {},
        }
    }
}

/// Whether each chunk of `bytes` that the legacy decoder reads keeps its
/// line end. Chunks that are read as UTF-8 always do.
pub open spec fn legacy_chunks_keep_line_ends(bytes: Seq<u8>) -> bool {
    forall|i: int|
        0 <= i < chunks(bytes).len() && legacy_text(#[trigger] chunks(bytes)[i]) is Some
            ==> keeps_line_end(chunks(bytes)[i])
}

/// A file's content is rewritten as one text, where the signature holds no
/// carriage return and the chunks keep their line ends: the result is the
/// encoding of the content's text with every occurrence of the signature
/// replaced, and there is none exactly where some chunk cannot be decoded.
pub proof fn lemma_stream_as_text(bytes: Seq<u8>, signature: Seq<char>, replacement: Seq<char>)
    requires
        signature.len() > 0,
        foreign_to(line_end(), signature),
        legacy_chunks_keep_line_ends(bytes),
    ensures
        match stream_text(bytes) {
            Some(text) => rewritten_stream(bytes, signature, replacement) == Some(
                encode_utf8(replace_all(text, signature, replacement)),
            ),
            None => rewritten_stream(bytes, signature, replacement) is None,
        },
{
    let units = chunks(bytes);
    lemma_chunks_end_lines(bytes);
    assert forall|i: int| 0 <= i < units.len() - 1 implies (#[trigger] units[i]).len() > 0
        && units[i].last() == CHUNK_DELIMITER && keeps_line_end(units[i]) by {
        if legacy_text(units[i]) is None && valid_utf8(units[i]) {
            lemma_utf8_keeps_line_end(units[i]);
        }
    }
    lemma_rewritten_units_as_text(units, signature, replacement);
}

/// The signature stands nowhere in the text of a rewritten file, where it
/// holds no carriage return, the replacement is delimited by characters
/// that it does not hold, and the chunks keep their line ends.
pub proof fn lemma_rewritten_stream_clean(
    bytes: Seq<u8>,
    out: Seq<u8>,
    signature: Seq<char>,
    replacement: Seq<char>,
)
    requires
        signature.len() > 0,
        foreign_to(line_end(), signature),
        delimited(signature, replacement),
        legacy_chunks_keep_line_ends(bytes),
        rewritten_stream(bytes, signature, replacement) == Some(out),
    ensures
        valid_utf8(out),
        !occurs_in(decode_utf8(out), signature),
{
    lemma_stream_as_text(bytes, signature, replacement);
    let text = stream_text(bytes)->0;
    let replaced = replace_all(text, signature, replacement);
    lemma_replace_leaves_no_occurrence(text, signature, replacement);
    encode_utf8_valid_utf8(replaced);
    encode_utf8_decode_utf8(replaced);
}

/// What lies outside the replaced occurrences of a file's text is kept:
/// the result is the encodings of the text's unmatched stretches with the
/// replacement's bytes between them, none added and none dropped, and the
/// text is the same stretches with the signature between them.
pub proof fn lemma_rewritten_stream_keeps_unmatched(
    bytes: Seq<u8>,
    out: Seq<u8>,
    signature: Seq<char>,
    replacement: Seq<char>,
)
    requires
        signature.len() > 0,
        foreign_to(line_end(), signature),
        legacy_chunks_keep_line_ends(bytes),
        rewritten_stream(bytes, signature, replacement) == Some(out),
    ensures
        stream_text(bytes) matches Some(text) && text == joined(
            unmatched(text, signature),
            signature,
        ) && out == joined(encoded(unmatched(text, signature)), encode_utf8(replacement)),
{
    lemma_stream_as_text(bytes, signature, replacement);
    let text = stream_text(bytes)->0;
    lemma_replace_keeps_unmatched(text, signature, replacement);
    lemma_encode_joined(unmatched(text, signature), replacement);
}

/// The text of a run of units that are all read as UTF-8 is the text that
/// the units, put together, spell in UTF-8.
proof fn lemma_utf8_units_text(units: Seq<Seq<u8>>)
    requires
        forall|i: int|
            0 <= i < units.len() ==> legacy_text(#[trigger] units[i]) is None && valid_utf8(
                units[i],
            ),
    ensures
        valid_utf8(units.flatten()),
        units_text(units) == Some(decode_utf8(units.flatten())),
    decreases units.len(),
{
    if units.len() > 0 {
        let rest = units.drop_first();
        assert forall|i: int| 0 <= i < rest.len() implies legacy_text(#[trigger] rest[i]) is None
            && valid_utf8(rest[i]) by {
            assert(rest[i] == units[i + 1]);
        }
        lemma_utf8_units_text(rest);
        lemma_decode_utf8_concat(units.first(), rest.flatten());
    }
}

/// Where every chunk of a file is read as UTF-8, what lies outside the
/// replaced occurrences is kept byte for byte: the content is the
/// encodings of its unmatched stretches with the signature's bytes between
/// them, and the result is the same encodings with the replacement's bytes
/// between them.
pub proof fn lemma_utf8_stream_keeps_unmatched(
    bytes: Seq<u8>,
    signature: Seq<char>,
    replacement: Seq<char>,
)
    requires
        signature.len() > 0,
        foreign_to(line_end(), signature),
        valid_utf8(bytes),
        forall|i: int| 0 <= i < chunks(bytes).len() ==> legacy_text(#[trigger] chunks(bytes)[i]) is None,
    ensures
        bytes == joined(encoded(unmatched(decode_utf8(bytes), signature)), encode_utf8(signature)),
        rewritten_stream(bytes, signature, replacement) == Some(
            joined(encoded(unmatched(decode_utf8(bytes), signature)), encode_utf8(replacement)),
        ),
{
    let text = decode_utf8(bytes);
    lemma_chunks_utf8(bytes);
    lemma_chunks_flatten(bytes);
    lemma_utf8_units_text(chunks(bytes));
    lemma_stream_as_text(bytes, signature, replacement);
    lemma_replace_keeps_unmatched(text, signature, replacement);
    lemma_encode_joined(unmatched(text, signature), signature);
    lemma_encode_joined(unmatched(text, signature), replacement);
    decode_utf8_encode_utf8(bytes);
}

/// The end of the chunk of `content` that begins at `start`: the index just
/// past the next carriage return, or the length of `content`.
pub fn chunk_end(content: &[u8], start: usize) -> (end: usize)
    requires
        start < content@.len(),
    ensures
        end == start + first_chunk_len(content@.skip(start as int)),
        start < end <= content@.len(),
{
    let mut end: usize = start;
    proof {
        lemma_first_chunk_len(content@.skip(start as int));
    }
    while end < content.len() && content[end] != CHUNK_DELIMITER
        invariant
            start <= end <= content@.len(),
            start < content@.len(),
            start + first_chunk_len(content@.skip(start as int)) == end + first_chunk_len(
                content@.skip(end as int),
            ),
        decreases content@.len() - end,
    {
        assert(content@.skip(end as int).skip(1) == content@.skip(end + 1));
        end += 1;
    }
    if end < content.len() {
        end += 1;
    }
    end
}

/// Rewrites one unit of content: the bytes are decoded, every occurrence of
/// `signature` in the text gives way to `replacement`, and the text is
/// encoded as UTF-8. A unit that is text in neither encoding is an error.
pub fn replace_chunk(chunk: Vec<u8>, signature: &str, replacement: &str) -> (r: Result<
    Vec<u8>,
    DecodeError,
>)
    requires
        decodable_len(chunk@.len()),
    ensures
        match rewritten_unit(chunk@, signature@, replacement@) {
            Some(out) => r matches Ok(bytes) && bytes@ == out,
            None => r is Err,
        },
{
    match decode(chunk) {
        Ok(text) => {
            let replaced = replace_text(text.as_str(), signature, replacement);
            Ok(replaced.as_str().as_bytes_vec())
        },
        Err(e) => Err(e),
    }
}

/// Rewrites the content of a file, chunk by chunk. The first chunk that is
/// text in neither encoding ends the rewriting with an error, and nothing
/// is handed back.
pub fn replace_stream(content: &[u8], signature: &str, replacement: &str) -> (r: Result<
    Vec<u8>,
    DecodeError,
>)
    requires
        decodable_len(content@.len()),
    ensures
        match rewritten_stream(content@, signature@, replacement@) {
            Some(out) => r matches Ok(bytes) && bytes@ == out,
            None => r is Err,
        },
{
    let mut out: Vec<u8> = Vec::new();
    let mut start: usize = 0;
    assert(content@.skip(0) == content@);
    while start < content.len()
        invariant
            start <= content@.len(),
            decodable_len(content@.len()),
            rewritten_stream(content@, signature@, replacement@) == match rewritten_stream(
                content@.skip(start as int),
                signature@,
                replacement@,
            ) {
                Some(tail) => Some(out@ + tail),
                None => None,
            },
        decreases content@.len() - start,
    {
        let ghost rest = content@.skip(start as int);
        let end = chunk_end(content, start);
        let chunk = slice_to_vec(slice_subrange(content, start, end));
        proof {
            assert(rest.skip(end - start) == content@.skip(end as int));
            assert(chunks(rest).first() == chunk@);
            assert(chunks(rest).drop_first() == chunks(content@.skip(end as int)));
        }
        match replace_chunk(chunk, signature, replacement) {
            Ok(bytes) => {
                let mut bytes = bytes;
                out.append(&mut bytes);
            },
            Err(e) => {
                return Err(e);
            },
        }
        start = end;
    }
    Ok(out)
}

/// The next name to try for the temporary file that takes the rewritten
/// content: the name tried before, or the file's own path at first, with
/// `.tmp` added.
pub fn next_temp_path(path: &str) -> (next: String)
    ensures
        next@ == path@ + ".tmp"@,
{
    let mut next = path.to_owned();
    next.append(".tmp");
    next
}

} // verus!
