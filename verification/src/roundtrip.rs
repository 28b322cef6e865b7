//! Decoding inverts encoding, and waits for an encoding that has not all arrived.

use crate::decode::{
    crlf_at, decimal_value, head, is_decimal, is_digit, lemma_line_end, lemma_parse_bounds, line_end,
    parse, parse_items, Head, Parsed,
};
use crate::resp::{
    crlf, decimal, wire, wire_all, ValueView, CR, LF, MINUS, ONE, TAG_ARRAY, TAG_BULK, TAG_ERROR,
    TAG_SIMPLE,
};
use vstd::prelude::*;
use vstd::utf8::*;

verus! {

/// A value that can be read back from its encoding: no line of text in it holds
/// a carriage return, which would end the line early.
pub open spec fn representable(v: ValueView) -> bool
    decreases v,
{
    match v {
        ValueView::SimpleString(text) => !text.contains('\r'),
        ValueView::Error(text) => !text.contains('\r'),
        ValueView::Array(items) => forall|i: int|
            0 <= i < items.len() ==> representable(#[trigger] items[i]),
        ValueView::BulkString(_) => true,
        ValueView::Null => true,
    }
}

/// The digits written for `n` are digits, and denote `n`.
pub proof fn lemma_decimal_value_of_decimal(n: nat)
    ensures
        is_decimal(decimal(n)),
        decimal_value(decimal(n)) == n,
    decreases n,
{
    if n < 10 {
        assert(decimal(n).drop_last() =~= Seq::<u8>::empty());
        reveal_with_fuel(decimal_value, 2);
    } else {
        lemma_decimal_value_of_decimal(n / 10);
        assert(decimal(n).drop_last() =~= decimal(n / 10));
    }
}

/// The first line of `line + crlf() + rest` is `line`, where `line` holds no
/// carriage return.
proof fn lemma_first_line(line: Seq<u8>, rest: Seq<u8>)
    requires
        forall|j: int| 0 <= j < line.len() ==> line[j] != CR,
    ensures
        line_end(line + crlf() + rest) == Some(line.len() as int),
{
    let s = line + crlf() + rest;
    lemma_line_end(s);
    assert(crlf_at(s, line.len() as int));
    assert forall|j: int| 0 <= j < line.len() implies !crlf_at(s, j) by {
        assert(s[j] == line[j]);
    }
}

/// No byte of the UTF-8 encoding of a scalar other than the carriage return is
/// a carriage return.
proof fn lemma_scalar_no_cr(c: u32)
    requires
        c != 13,
    ensures
        forall|j: int| 0 <= j < encode_scalar(c).len() ==> encode_scalar(c)[j] != CR,
{
    if has_width_1_encoding(c) {
        assert((c & 0x7F) as u8 != 13u8) by (bit_vector)
            requires
                c <= 0x7F,
                c != 13,
        ;
    } else {
        assert((0xC0u8 | ((c >> 6) & 0x1F) as u8) != 13u8) by (bit_vector);
        assert((0xE0u8 | ((c >> 12) & 0x0F) as u8) != 13u8) by (bit_vector);
        assert((0xF0u8 | ((c >> 18) & 0x7) as u8) != 13u8) by (bit_vector);
        assert((0x80u8 | (c & 0x3F) as u8) != 13u8) by (bit_vector);
        assert((0x80u8 | ((c >> 6) & 0x3F) as u8) != 13u8) by (bit_vector);
        assert((0x80u8 | ((c >> 12) & 0x3F) as u8) != 13u8) by (bit_vector);
    }
}

/// The UTF-8 encoding of text without a carriage return holds no carriage
/// return byte.
pub proof fn lemma_encoded_text_no_cr(text: Seq<char>)
    requires
        !text.contains('\r'),
    ensures
        forall|j: int| 0 <= j < encode_utf8(text).len() ==> encode_utf8(text)[j] != CR,
    decreases text.len(),
{
    if text.len() > 0 {
        let first = encode_scalar(text[0] as u32);
        let tail = text.drop_first();
        assert(text.contains(text[0]));
        assert(text[0] as u32 != 13) by {
            if text[0] as u32 == 13 {
                char_u32_cast(text[0], 13);
                char_u32_cast('\r', 13);
            }
        }
        lemma_scalar_no_cr(text[0] as u32);
        assert(!tail.contains('\r')) by {
            if tail.contains('\r') {
                let i = choose|i: int| 0 <= i < tail.len() && tail[i] == '\r';
                assert(text[i + 1] == '\r');
            }
        }
        lemma_encoded_text_no_cr(tail);
        assert forall|j: int| 0 <= j < encode_utf8(text).len() implies encode_utf8(text)[j]
            != CR by {
            if j < first.len() {
                assert(encode_utf8(text)[j] == first[j]);
            } else {
                assert(encode_utf8(text)[j] == encode_utf8(tail)[j - first.len()]);
            }
        }
    }
}

/// The head of an encoded line of text is that text.
proof fn lemma_head_text(tag: u8, text: Seq<char>, rest: Seq<u8>)
    requires
        tag == TAG_SIMPLE || tag == TAG_ERROR,
        !text.contains('\r'),
    ensures
        head(seq![tag] + encode_utf8(text) + crlf() + rest) == Head::Scalar(
            if tag == TAG_SIMPLE {
                ValueView::SimpleString(text)
            } else {
                ValueView::Error(text)
            },
            (encode_utf8(text).len() + 3) as nat,
        ),
{
    reveal(head);
    let line = encode_utf8(text);
    let s = seq![tag] + line + crlf() + rest;
    lemma_encoded_text_no_cr(text);
    lemma_first_line(line, rest);
    assert(s.skip(1) =~= line + crlf() + rest);
    assert(s.subrange(1, 1 + line.len() as int) =~= line);
    encode_utf8_valid_utf8(text);
    encode_utf8_decode_utf8(text);
}

/// The head of an encoded bulk string is that bulk string.
proof fn lemma_head_bulk(bytes: Seq<u8>, rest: Seq<u8>)
    ensures
        head(seq![TAG_BULK] + decimal(bytes.len()) + crlf() + bytes + crlf() + rest) == Head::Scalar(
            ValueView::BulkString(bytes),
            (decimal(bytes.len()).len() + bytes.len() + 5) as nat,
        ),
{
    reveal(head);
    let line = decimal(bytes.len());
    let after = bytes + crlf() + rest;
    let s = seq![TAG_BULK] + line + crlf() + bytes + crlf() + rest;
    lemma_decimal_value_of_decimal(bytes.len());
    lemma_first_line(line, after);
    assert(s.skip(1) =~= line + crlf() + after);
    assert(s.subrange(1, 1 + line.len() as int) =~= line);
    assert(line != seq![MINUS, ONE]) by {
        assert(is_digit(line[0]));
    }
    let next = line.len() as int + 3;
    assert(s.subrange(next, next + bytes.len() as int) =~= bytes);
    assert(s[next + bytes.len() as int] == CR);
    assert(s[next + bytes.len() as int + 1] == LF);
}

/// The head of the encoded absent value is the absent value.
proof fn lemma_head_null(rest: Seq<u8>)
    ensures
        head(seq![TAG_BULK, MINUS, ONE, CR, LF] + rest) == Head::Scalar(ValueView::Null, 5),
{
    reveal(head);
    let line = seq![MINUS, ONE];
    let s = seq![TAG_BULK, MINUS, ONE, CR, LF] + rest;
    lemma_first_line(line, rest);
    assert(s.skip(1) =~= line + crlf() + rest);
    assert(s.subrange(1, 3) =~= line);
}

/// The head of an encoded array is its header.
proof fn lemma_head_array(count: nat, rest: Seq<u8>)
    ensures
        head(seq![TAG_ARRAY] + decimal(count) + crlf() + rest) == Head::Array(
            count,
            (decimal(count).len() + 3) as nat,
        ),
{
    reveal(head);
    let line = decimal(count);
    let s = seq![TAG_ARRAY] + line + crlf() + rest;
    lemma_decimal_value_of_decimal(count);
    lemma_first_line(line, rest);
    assert(s.skip(1) =~= line + crlf() + rest);
    assert(s.subrange(1, 1 + line.len() as int) =~= line);
}

/// Decoding inverts encoding: the bytes of a representable value, whatever
/// follows them, decode to that value and to the length of its encoding.
pub proof fn lemma_decode_encode(v: ValueView, rest: Seq<u8>)
    requires
        representable(v),
    ensures
        parse(wire(v) + rest) == Parsed::Complete(v, wire(v).len()),
    decreases v, 0nat,
{
    match v {
        ValueView::SimpleString(text) => {
            lemma_head_text(TAG_SIMPLE, text, rest);
        },
        ValueView::Error(text) => {
            lemma_head_text(TAG_ERROR, text, rest);
        },
        ValueView::BulkString(bytes) => {
            lemma_head_bulk(bytes, rest);
        },
        ValueView::Null => {
            lemma_head_null(rest);
        },
        ValueView::Array(items) => {
            let tail = wire_all(items) + rest;
            let next = decimal(items.len()).len() + 3;
            lemma_head_array(items.len(), tail);
            assert(wire(v) + rest =~= seq![TAG_ARRAY] + decimal(items.len()) + crlf() + tail);
            assert((wire(v) + rest).skip(next as int) =~= tail);
            lemma_decode_encode_all(items, rest);
        },
    }
}

/// The encodings of representable values, one after the other and whatever
/// follows them, decode to those values.
pub proof fn lemma_decode_encode_all(items: Seq<ValueView>, rest: Seq<u8>)
    requires
        forall|i: int| 0 <= i < items.len() ==> representable(#[trigger] items[i]),
    ensures
        parse_items(wire_all(items) + rest, items.len()) == Parsed::Complete(
            items,
            wire_all(items).len(),
        ),
    decreases items, 1nat,
{
    if items.len() == 0 {
        assert(items =~= Seq::<ValueView>::empty());
    } else {
        let first = items[0];
        let tail = items.drop_first();
        let after = wire_all(tail) + rest;
        assert(wire_all(items) + rest =~= wire(first) + after);
        lemma_decode_encode(first, after);
        lemma_parse_bounds(wire(first) + after);
        assert((wire(first) + after).skip(wire(first).len() as int) =~= after);
        assert forall|i: int| 0 <= i < tail.len() implies representable(#[trigger] tail[i]) by {
            assert(tail[i] == items[i + 1]);
        }
        lemma_decode_encode_all(tail, rest);
        assert(seq![first] + tail =~= items);
    }
}

/// Bytes that end before the first line of a value does are the beginning of a value.
proof fn lemma_head_cut_line(tag: u8, line: Seq<u8>, after: Seq<u8>, n: int)
    requires
        tag == TAG_SIMPLE || tag == TAG_ERROR || tag == TAG_BULK || tag == TAG_ARRAY,
        forall|j: int| 0 <= j < line.len() ==> line[j] != CR,
        0 <= n < line.len() + 3,
    ensures
        head((seq![tag] + line + crlf() + after).take(n)) == Head::Incomplete,
{
    reveal(head);
    let s = seq![tag] + line + crlf() + after;
    let cut = s.take(n);
    if n > 0 {
        lemma_line_end(cut.skip(1));
        assert forall|j: int| !crlf_at(cut.skip(1), j) by {
            if 0 <= j && j + 1 < cut.skip(1).len() {
                assert(cut.skip(1)[j] == s[j + 1]);
                if j < line.len() {
                    assert(s[j + 1] == line[j]);
                }
            }
        }
    }
}

/// A bulk string whose bytes have not all arrived is the beginning of a value.
proof fn lemma_head_bulk_cut(bytes: Seq<u8>, n: int)
    requires
        0 <= n < wire(ValueView::BulkString(bytes)).len(),
    ensures
        head(wire(ValueView::BulkString(bytes)).take(n)) == Head::Incomplete,
{
    let line = decimal(bytes.len());
    let next = line.len() as int + 3;
    let s = wire(ValueView::BulkString(bytes));
    lemma_decimal_value_of_decimal(bytes.len());
    assert(s =~= seq![TAG_BULK] + line + crlf() + (bytes + crlf()));
    if n < next {
        lemma_head_cut_line(TAG_BULK, line, bytes + crlf(), n);
    } else {
        reveal(head);
        let rest = (bytes + crlf()).take(n - next);
        let cut = s.take(n);
        assert(cut =~= seq![TAG_BULK] + line + crlf() + rest);
        lemma_first_line(line, rest);
        assert(cut.skip(1) =~= line + crlf() + rest);
        assert(cut.subrange(1, 1 + line.len() as int) =~= line);
        assert(line != seq![MINUS, ONE]) by {
            assert(is_digit(line[0]));
        }
    }
}

/// The bytes of a representable value that have not all arrived are the
/// beginning of a value: the decoder waits for the rest and refuses nothing.
pub proof fn lemma_prefix_incomplete(v: ValueView, n: int)
    requires
        representable(v),
        0 <= n < wire(v).len(),
    ensures
        parse(wire(v).take(n)) == Parsed::<ValueView>::Incomplete,
    decreases v, 0nat,
{
    match v {
        ValueView::SimpleString(text) => {
            lemma_encoded_text_no_cr(text);
            assert(wire(v) =~= seq![TAG_SIMPLE] + encode_utf8(text) + crlf() + Seq::<u8>::empty());
            lemma_head_cut_line(TAG_SIMPLE, encode_utf8(text), Seq::empty(), n);
        },
        ValueView::Error(text) => {
            lemma_encoded_text_no_cr(text);
            assert(wire(v) =~= seq![TAG_ERROR] + encode_utf8(text) + crlf() + Seq::<u8>::empty());
            lemma_head_cut_line(TAG_ERROR, encode_utf8(text), Seq::empty(), n);
        },
        ValueView::BulkString(bytes) => {
            lemma_head_bulk_cut(bytes, n);
        },
        ValueView::Null => {
            assert(wire(v) =~= seq![TAG_BULK] + seq![MINUS, ONE] + crlf() + Seq::<u8>::empty());
            lemma_head_cut_line(TAG_BULK, seq![MINUS, ONE], Seq::empty(), n);
        },
        ValueView::Array(items) => {
            let line = decimal(items.len());
            let next = line.len() as int + 3;
            lemma_decimal_value_of_decimal(items.len());
            assert(wire(v) =~= seq![TAG_ARRAY] + line + crlf() + wire_all(items));
            if n < next {
                lemma_head_cut_line(TAG_ARRAY, line, wire_all(items), n);
            } else {
                let rest = wire_all(items).take(n - next);
                let cut = wire(v).take(n);
                assert(cut =~= seq![TAG_ARRAY] + line + crlf() + rest);
                lemma_head_array(items.len(), rest);
                assert(cut.skip(next) =~= rest);
                lemma_prefix_incomplete_all(items, n - next);
            }
        },
    }
}

/// The bytes of a run of representable values that have not all arrived are
/// the beginning of that run.
pub proof fn lemma_prefix_incomplete_all(items: Seq<ValueView>, n: int)
    requires
        forall|i: int| 0 <= i < items.len() ==> representable(#[trigger] items[i]),
        0 <= n < wire_all(items).len(),
    ensures
        parse_items(wire_all(items).take(n), items.len()) == Parsed::<Seq<ValueView>>::Incomplete,
    decreases items, 1nat,
{
    let first = items[0];
    let tail = items.drop_first();
    let w = wire(first);
    if n < w.len() {
        assert(wire_all(items).take(n) =~= w.take(n));
        lemma_prefix_incomplete(first, n);
    } else {
        let rest = wire_all(tail).take(n - w.len());
        assert(wire_all(items).take(n) =~= w + rest);
        lemma_decode_encode(first, rest);
        lemma_parse_bounds(w + rest);
        assert((w + rest).skip(w.len() as int) =~= rest);
        assert forall|i: int| 0 <= i < tail.len() implies representable(#[trigger] tail[i]) by {
            assert(tail[i] == items[i + 1]);
        }
        lemma_prefix_incomplete_all(tail, n - w.len());
    }
}

} // verus!
