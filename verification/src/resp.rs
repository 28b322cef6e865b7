//! The values of the wire protocol and their byte encoding.

use vstd::prelude::*;
use vstd::utf8::*;

verus! {

/// The carriage return, first byte of the line terminator.
pub const CR: u8 = 13;

/// The line feed, second byte of the line terminator.
pub const LF: u8 = 10;

/// `+`, the tag of a simple string.
pub const TAG_SIMPLE: u8 = 43;

/// `-`, the tag of an error.
pub const TAG_ERROR: u8 = 45;

/// `$`, the tag of a bulk string.
pub const TAG_BULK: u8 = 36;

/// `*`, the tag of an array.
pub const TAG_ARRAY: u8 = 42;

/// The digit `0`.
pub const ZERO: u8 = 48;

/// The digit `1`.
pub const ONE: u8 = 49;

/// The digit `9`.
pub const NINE: u8 = 57;

/// The sign `-`.
pub const MINUS: u8 = 45;

/// The sign `+`.
pub const PLUS: u8 = 43;

/// A wire value as mathematical data.
pub enum ValueView {
    SimpleString(Seq<char>),
    BulkString(Seq<u8>),
    Array(Seq<ValueView>),
    Null,
    Error(Seq<char>),
}

/// A value of the wire protocol.
#[derive(Debug, PartialEq, Eq)]
pub enum Value {
    /// A line of text.
    SimpleString(String),
    /// A length-prefixed byte string.
    BulkString(Vec<u8>),
    /// A sequence of values.
    Array(Vec<Value>),
    /// The absent value.
    Null,
    /// A line of text that reports an error.
    Error(String),
}

impl View for Value {
    type V = ValueView;

    open spec fn view(&self) -> ValueView
        decreases self,
    {
        match self {
            Value::SimpleString(text) => ValueView::SimpleString(text@),
            Value::BulkString(bytes) => ValueView::BulkString(bytes@),
            Value::Array(items) => ValueView::Array(
                Seq::new(
                    items.len() as nat,
                    |i: int|
                        if 0 <= i < items.len() {
                            items[i]@
                        } else {
                            ValueView::Null
                        },
                ),
            ),
            Value::Null => ValueView::Null,
            Value::Error(text) => ValueView::Error(text@),
        }
    }
}

/// The views of a sequence of values.
pub open spec fn views_of(items: Seq<Value>) -> Seq<ValueView> {
    Seq::new(items.len(), |i: int| items[i]@)
}

/// `std::string::String::from_utf8`: the text that `bytes` hold in UTF-8, and
/// `None` exactly where they are not valid UTF-8.
#[verifier::external_body]
pub(crate) fn text_from_utf8(bytes: Vec<u8>) -> (text: Option<String>)
    ensures
        text is Some <==> valid_utf8(bytes@),
        text matches Some(t) ==> t@ == decode_utf8(bytes@),
{
    match String::from_utf8(bytes) {
        Ok(text) => Some(text),
        Err(_) => None,
    }
}

/// The line terminator.
pub open spec fn crlf() -> Seq<u8> {
    seq![CR, LF]
}

/// The decimal digits of `n`, most significant first.
pub open spec fn decimal(n: nat) -> Seq<u8>
    decreases n,
{
    if n < 10 {
        seq![(ZERO + n) as u8]
    } else {
        decimal(n / 10).push((ZERO + n % 10) as u8)
    }
}

/// The byte encoding of a value.
pub open spec fn wire(v: ValueView) -> Seq<u8>
    decreases v, 0nat,
{
    match v {
        ValueView::SimpleString(text) => seq![TAG_SIMPLE] + encode_utf8(text) + crlf(),
        ValueView::Error(text) => seq![TAG_ERROR] + encode_utf8(text) + crlf(),
        ValueView::BulkString(bytes) => seq![TAG_BULK] + decimal(bytes.len()) + crlf() + bytes
            + crlf(),
        ValueView::Null => seq![TAG_BULK, MINUS, ONE, CR, LF],
        ValueView::Array(items) => seq![TAG_ARRAY] + decimal(items.len()) + crlf() + wire_all(items),
    }
}

/// The encodings of `items`, one after the other.
pub open spec fn wire_all(items: Seq<ValueView>) -> Seq<u8>
    decreases items, 1nat,
{
    if items.len() == 0 {
        Seq::empty()
    } else {
        wire(items[0]) + wire_all(items.drop_first())
    }
}

/// Appends the decimal digits of `n`.
fn push_decimal(out: &mut Vec<u8>, n: usize)
    ensures
        final(out)@ == old(out)@ + decimal(n as nat),
    decreases n,
{
    if n < 10 {
        out.push(ZERO + n as u8);
    } else {
        push_decimal(out, n / 10);
        out.push(ZERO + (n % 10) as u8);
    }
}

/// The encoding of a sequence of values is the encoding of its front part followed
/// by that of the rest.
pub proof fn lemma_wire_all_concat(a: Seq<ValueView>, b: Seq<ValueView>)
    ensures
        wire_all(a + b) == wire_all(a) + wire_all(b),
    decreases a.len(),
{
    if a.len() == 0 {
        assert(a + b =~= b);
    } else {
        lemma_wire_all_concat(a.drop_first(), b);
        assert((a + b).drop_first() =~= a.drop_first() + b);
        assert(wire_all(a + b) =~= wire_all(a) + wire_all(b));
    }
}

/// Appends the encoding of `value`.
fn encode_into(value: &Value, out: &mut Vec<u8>)
    ensures
        final(out)@ == old(out)@ + wire(value@),
    decreases value,
{
    let ghost before = out@;
    match value {
        Value::SimpleString(text) => {
            out.push(TAG_SIMPLE);
            out.extend_from_slice(text.as_str().as_bytes());
            out.push(CR);
            out.push(LF);
            assert(out@ =~= before + wire(value@));
        },
        Value::Error(text) => {
            out.push(TAG_ERROR);
            out.extend_from_slice(text.as_str().as_bytes());
            out.push(CR);
            out.push(LF);
            assert(out@ =~= before + wire(value@));
        },
        Value::BulkString(bytes) => {
            out.push(TAG_BULK);
            push_decimal(out, bytes.len());
            out.push(CR);
            out.push(LF);
            out.extend_from_slice(bytes.as_slice());
            out.push(CR);
            out.push(LF);
            assert(out@ =~= before + wire(value@));
        },
        Value::Null => {
            out.push(TAG_BULK);
            out.push(MINUS);
            out.push(ONE);
            out.push(CR);
            out.push(LF);
            assert(out@ =~= before + wire(value@));
        },
        Value::Array(items) => {
            out.push(TAG_ARRAY);
            push_decimal(out, items.len());
            out.push(CR);
            out.push(LF);
            let ghost head = out@;
            let ghost views = value@->Array_0;
            assert(head =~= before + (seq![TAG_ARRAY] + decimal(items.len() as nat) + crlf()));
            let mut i: usize = 0;
            while i < items.len()
                invariant
                    i <= items.len(),
                    views.len() == items.len(),
                    forall|j: int| 0 <= j < items.len() ==> views[j] == items[j]@,
                    forall|j: int| 0 <= j < items.len() ==> decreases_to!(value => items[j]),
                    out@ == head + wire_all(views.take(i as int)),
                decreases items.len() - i,
            {
                encode_into(&items[i], out);
                proof {
                    lemma_wire_all_concat(views.take(i as int), seq![views[i as int]]);
                    assert(views.take(i as int + 1) =~= views.take(i as int) + seq![views[i as int]]);
                    assert(wire_all(seq![views[i as int]]) =~= wire(views[i as int])) by {
                        reveal_with_fuel(wire_all, 2);
                        assert(seq![views[i as int]].drop_first() =~= Seq::<ValueView>::empty());
                    }
                }
                i += 1;
            }
            assert(views.take(i as int) =~= views);
            assert(out@ =~= before + wire(value@));
        },
    }
}

/// Serializes a value to its wire bytes.
pub fn encode(value: &Value) -> (out: Vec<u8>)
    ensures
        out@ == wire(value@),
{
    let mut out: Vec<u8> = Vec::new();
    encode_into(value, &mut out);
    assert(out@ =~= wire(value@));
    out
}

} // verus!
