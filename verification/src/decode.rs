//! The decoder: the grammar of the wire format as a function on byte
//! sequences, and the executable parser that computes it.

use crate::error::ErrorKind;
use crate::resp::{
    text_from_utf8, views_of, Value, ValueView, CR, LF, MINUS, NINE, ONE, TAG_ARRAY, TAG_BULK,
    TAG_ERROR, TAG_SIMPLE, ZERO,
};
use vstd::prelude::*;
use vstd::slice::{slice_subrange, slice_to_vec};
use vstd::utf8::*;

verus! {

/// The outcome of reading from the front of a byte sequence.
pub enum Parsed<T> {
    /// What was read, and the number of bytes it took.
    Complete(T, nat),
    /// The bytes end before the value does.
    Incomplete,
    /// Nothing well-formed begins with these bytes.
    Malformed,
}

/// A line terminator stands at index `i` of `s`.
pub open spec fn crlf_at(s: Seq<u8>, i: int) -> bool {
    0 <= i && i + 1 < s.len() && s[i] == CR && s[i + 1] == LF
}

/// The index of the first line terminator in `s`, which is the length of the first line.
#[verifier::opaque]
pub open spec fn line_end(s: Seq<u8>) -> Option<int> {
    if exists|i: int| crlf_at(s, i) {
        Some(choose|i: int| crlf_at(s, i) && forall|j: int| 0 <= j < i ==> !crlf_at(s, j))
    } else {
        None
    }
}

/// `b` is an ASCII decimal digit.
pub open spec fn is_digit(b: u8) -> bool {
    ZERO <= b <= NINE
}

/// `s` is a non-empty run of decimal digits.
pub open spec fn is_decimal(s: Seq<u8>) -> bool {
    s.len() > 0 && forall|i: int| 0 <= i < s.len() ==> is_digit(#[trigger] s[i])
}

/// The number that the digits of `s` denote.
pub open spec fn decimal_value(s: Seq<u8>) -> nat
    decreases s.len(),
{
    if s.len() == 0 {
        0
    } else {
        decimal_value(s.drop_last()) * 10 + (s.last() - ZERO) as nat
    }
}

/// Where a first line terminator exists, it lies within `s` and is the first one.
pub proof fn lemma_line_end(s: Seq<u8>)
    ensures
        line_end(s) matches Some(n) ==> crlf_at(s, n) && forall|j: int|
            0 <= j < n ==> !crlf_at(s, j),
        line_end(s) is None ==> forall|j: int| !crlf_at(s, j),
{
    reveal(line_end);
    if exists|i: int| crlf_at(s, i) {
        let w = choose|i: int| crlf_at(s, i);
        lemma_least_crlf(s, w);
    }
}

/// Below an index with a line terminator stands a first one.
proof fn lemma_least_crlf(s: Seq<u8>, i: int)
    requires
        crlf_at(s, i),
    ensures
        exists|k: int| crlf_at(s, k) && forall|j: int| 0 <= j < k ==> !crlf_at(s, j),
    decreases i,
{
    if exists|j: int| 0 <= j < i && crlf_at(s, j) {
        let j = choose|j: int| 0 <= j < i && crlf_at(s, j);
        lemma_least_crlf(s, j);
    } else {
        assert(crlf_at(s, i) && forall|j: int| 0 <= j < i ==> !crlf_at(s, j));
    }
}

/// What stands at the front of a byte sequence, read without its array elements.
pub enum Head {
    /// A value that is no array, and the number of bytes it took.
    Scalar(ValueView, nat),
    /// The header of an array: the number of its elements, and the number of
    /// bytes that the header took.
    Array(nat, nat),
    /// The bytes end before the value or header does.
    Incomplete,
    /// Nothing well-formed begins with these bytes.
    Malformed,
}

/// A line of text: valid UTF-8, taken as the characters it encodes.
pub open spec fn parse_text(line: Seq<u8>) -> Option<Seq<char>> {
    if valid_utf8(line) {
        Some(decode_utf8(line))
    } else {
        None
    }
}

/// The bulk string whose header line `line` ends before index `next` of `s`: the
/// line holds the byte count, then come that many bytes and a line terminator.
/// The line `-1` stands for the absent value.
pub open spec fn parse_bulk(s: Seq<u8>, line: Seq<u8>, next: int) -> Head {
    if line == seq![MINUS, ONE] {
        Head::Scalar(ValueView::Null, next as nat)
    } else if !is_decimal(line) {
        Head::Malformed
    } else {
        let len = decimal_value(line);
        if s.len() < next + len + 2 {
            Head::Incomplete
        } else if s[next + len] == CR && s[next + len + 1] == LF {
            Head::Scalar(
                ValueView::BulkString(s.subrange(next, next + len)),
                (next + len + 2) as nat,
            )
        } else {
            Head::Malformed
        }
    }
}

/// The front of `s`, up to where the elements of an array would begin.
///
/// Every value opens with a tag byte and a line. `+` and `-` take the line as
/// UTF-8 text. `$` takes it as a byte count and `*` as an element count.
#[verifier::opaque]
pub open spec fn head(s: Seq<u8>) -> Head {
    if s.len() == 0 {
        Head::Incomplete
    } else if s[0] != TAG_SIMPLE && s[0] != TAG_ERROR && s[0] != TAG_BULK && s[0] != TAG_ARRAY {
        Head::Malformed
    } else {
        match line_end(s.skip(1)) {
            None => Head::Incomplete,
            Some(n) => {
                let line = s.subrange(1, 1 + n);
                let next = 1 + n + 2;
                if s[0] == TAG_SIMPLE {
                    match parse_text(line) {
                        Some(text) => Head::Scalar(ValueView::SimpleString(text), next as nat),
                        None => Head::Malformed,
                    }
                } else if s[0] == TAG_ERROR {
                    match parse_text(line) {
                        Some(text) => Head::Scalar(ValueView::Error(text), next as nat),
                        None => Head::Malformed,
                    }
                } else if s[0] == TAG_BULK {
                    parse_bulk(s, line, next)
                } else if is_decimal(line) {
                    Head::Array(decimal_value(line), next as nat)
                } else {
                    Head::Malformed
                }
            },
        }
    }
}

/// What `head` reads lies within the bytes it was read from, and is not empty.
pub proof fn lemma_head_bounds(s: Seq<u8>)
    ensures
        head(s) matches Head::Scalar(_, used) ==> 0 < used <= s.len(),
        head(s) matches Head::Array(_, next) ==> 0 < next <= s.len(),
{
    reveal(head);
    if s.len() > 0 {
        lemma_line_end(s.skip(1));
    }
}

/// The value at the front of `s`: what `head` reads and, for an array, its
/// elements after the header.
pub open spec fn parse(s: Seq<u8>) -> Parsed<ValueView>
    decreases s.len(), 0nat,
{
    match head(s) {
        Head::Scalar(value, used) => Parsed::Complete(value, used),
        Head::Array(count, next) => {
            proof {
                lemma_head_bounds(s);
            }
            after_header(next, parse_items(s.skip(next as int), count))
        },
        Head::Incomplete => Parsed::Incomplete,
        Head::Malformed => Parsed::Malformed,
    }
}

/// An array whose elements `items` were read after a header of `head` bytes.
pub open spec fn after_header(head: nat, items: Parsed<Seq<ValueView>>) -> Parsed<ValueView> {
    match items {
        Parsed::Complete(items, used) => Parsed::Complete(ValueView::Array(items), head + used),
        Parsed::Incomplete => Parsed::Incomplete,
        Parsed::Malformed => Parsed::Malformed,
    }
}

/// The `count` values at the front of `s`, one after the other.
///
/// A value that was read took at least one byte and ended within `s`
/// (`lemma_parse_bounds`); the test for it is there to make the definition
/// well-founded.
pub open spec fn parse_items(s: Seq<u8>, count: nat) -> Parsed<Seq<ValueView>>
    decreases s.len(), count + 1,
{
    if count == 0 {
        Parsed::Complete(Seq::empty(), 0)
    } else {
        match parse(s) {
            Parsed::Complete(first, used) => {
                if 0 < used <= s.len() {
                    prepend(seq![first], used, parse_items(s.skip(used as int), (count - 1) as nat))
                } else {
                    Parsed::Malformed
                }
            },
            Parsed::Incomplete => Parsed::Incomplete,
            Parsed::Malformed => Parsed::Malformed,
        }
    }
}

/// `rest`, read after `items` had been read from `used` bytes.
pub open spec fn prepend(items: Seq<ValueView>, used: nat, rest: Parsed<Seq<ValueView>>) -> Parsed<
    Seq<ValueView>,
> {
    match rest {
        Parsed::Complete(more, n) => Parsed::Complete(items + more, used + n),
        Parsed::Incomplete => Parsed::Incomplete,
        Parsed::Malformed => Parsed::Malformed,
    }
}

/// A complete value ends within the bytes it was read from, and takes at least one.
pub proof fn lemma_parse_bounds(s: Seq<u8>)
    ensures
        parse(s) matches Parsed::Complete(_, used) ==> 0 < used <= s.len(),
    decreases s.len(), 0nat,
{
    lemma_head_bounds(s);
    if let Head::Array(count, next) = head(s) {
        lemma_parse_items_bounds(s.skip(next as int), count);
    }
}

/// A complete run of values ends within the bytes it was read from, holds as many
/// values as were asked for, and takes at least one byte for each.
pub proof fn lemma_parse_items_bounds(s: Seq<u8>, count: nat)
    ensures
        parse_items(s, count) matches Parsed::Complete(items, used) ==> count <= used <= s.len()
            && items.len() == count,
    decreases s.len(), count + 1,
{
    if count > 0 {
        lemma_parse_bounds(s);
        if let Parsed::Complete(_, used) = parse(s) {
            lemma_parse_items_bounds(s.skip(used as int), (count - 1) as nat);
        }
    }
}

/// The number that a run of digits denotes grows with each digit appended.
proof fn lemma_decimal_value_step(s: Seq<u8>, i: int)
    requires
        0 <= i < s.len(),
        is_digit(s[i]),
    ensures
        decimal_value(s.take(i + 1)) == decimal_value(s.take(i)) * 10 + (s[i] - ZERO),
{
    assert(s.take(i + 1).drop_last() =~= s.take(i));
}

/// The outcome of decoding from the front of a buffer.
#[derive(Debug, PartialEq, Eq)]
pub enum Decoded {
    /// A whole value, and the number of bytes it took.
    Complete(Value, usize),
    /// The buffer ends before the value does.
    Incomplete,
    /// No value begins with these bytes.
    Malformed,
}

impl View for Decoded {
    type V = Parsed<ValueView>;

    open spec fn view(&self) -> Parsed<ValueView> {
        match self {
            Decoded::Complete(value, used) => Parsed::Complete(value@, *used as nat),
            Decoded::Incomplete => Parsed::Incomplete,
            Decoded::Malformed => Parsed::Malformed,
        }
    }
}

/// A count read from a header line.
#[derive(Clone, Copy)]
pub(crate) enum Count {
    Exact(usize),
    /// A number, but larger than any buffer.
    TooLarge,
    /// Not a number.
    Invalid,
}

/// A decoded value that is no array, as a head.
pub open spec fn head_of(d: Decoded) -> Head {
    match d {
        Decoded::Complete(value, used) => Head::Scalar(value@, used as nat),
        Decoded::Incomplete => Head::Incomplete,
        Decoded::Malformed => Head::Malformed,
    }
}

/// The index of the first line terminator at or after `from`.
fn find_crlf(buf: &[u8], from: usize) -> (r: Option<usize>)
    requires
        from <= buf.len(),
    ensures
        match line_end(buf@.skip(from as int)) {
            Some(n) => r == Some((from + n) as usize) && 0 <= n && from + n + 2 <= buf.len(),
            None => r is None,
        },
{
    let ghost s = buf@.skip(from as int);
    let mut i: usize = from;
    while buf.len() - i > 1
        invariant
            from <= i <= buf.len(),
            s == buf@.skip(from as int),
            forall|j: int| 0 <= j < i - from ==> !crlf_at(s, j),
        decreases buf.len() - i,
    {
        if buf[i] == CR && buf[i + 1] == LF {
            proof {
                assert(crlf_at(s, i - from));
                lemma_line_end(s);
            }
            return Some(i);
        }
        i += 1;
    }
    proof {
        lemma_line_end(s);
        assert forall|j: int| !crlf_at(s, j) by {
            if 0 <= j < i - from {
            }
        }
    }
    None
}

/// Reads the bytes from `from` up to `to` as a decimal number.
pub(crate) fn read_count(buf: &[u8], from: usize, to: usize) -> (c: Count)
    requires
        from <= to <= buf.len(),
    ensures
        match c {
            Count::Invalid => !is_decimal(buf@.subrange(from as int, to as int)),
            Count::Exact(n) => is_decimal(buf@.subrange(from as int, to as int)) && decimal_value(
                buf@.subrange(from as int, to as int),
            ) == n,
            Count::TooLarge => is_decimal(buf@.subrange(from as int, to as int)) && decimal_value(
                buf@.subrange(from as int, to as int),
            ) > usize::MAX,
        },
{
    let ghost field = buf@.subrange(from as int, to as int);
    if from == to {
        return Count::Invalid;
    }
    let mut value: usize = 0;
    let mut over = false;
    let mut i: usize = from;
    while i < to
        invariant
            from <= i <= to <= buf.len(),
            field == buf@.subrange(from as int, to as int),
            forall|j: int| 0 <= j < i - from ==> is_digit(#[trigger] field[j]),
            !over ==> value == decimal_value(field.take(i - from)),
            over ==> decimal_value(field.take(i - from)) > usize::MAX,
        decreases to - i,
    {
        let b = buf[i];
        if b < ZERO || b > NINE {
            assert(!is_digit(field[i - from]));
            return Count::Invalid;
        }
        let digit = (b - ZERO) as usize;
        proof {
            lemma_decimal_value_step(field, i - from);
        }
        if !over {
            if value > (usize::MAX - digit) / 10 {
                over = true;
            } else {
                value = value * 10 + digit;
            }
        }
        i += 1;
    }
    assert(field.take(to - from) =~= field);
    if over {
        Count::TooLarge
    } else {
        Count::Exact(value)
    }
}

/// Decodes the body of a bulk string whose tag stands at `pos` and whose header
/// line ends at `end`.
fn decode_bulk(buf: &[u8], pos: usize, end: usize) -> (d: Decoded)
    requires
        pos < end,
        end + 2 <= buf.len(),
    ensures
        head_of(d) == parse_bulk(
            buf@.skip(pos as int),
            buf@.subrange(pos + 1, end as int),
            end + 2 - pos,
        ),
{
    let ghost s = buf@.skip(pos as int);
    let ghost line = buf@.subrange(pos + 1, end as int);
    let next = end + 2;
    if end - pos == 3 && buf[pos + 1] == MINUS && buf[pos + 2] == ONE {
        assert(line =~= seq![MINUS, ONE]);
        return Decoded::Complete(Value::Null, next - pos);
    }
    assert(line != seq![MINUS, ONE]) by {
        if line == seq![MINUS, ONE] {
            assert(line.len() == 2);
            assert(line[0] == MINUS && line[1] == ONE);
        }
    }
    match read_count(buf, pos + 1, end) {
        Count::Invalid => Decoded::Malformed,
        Count::TooLarge => Decoded::Incomplete,
        Count::Exact(len) => {
            let remaining = buf.len() - next;
            if remaining < 2 || remaining - 2 < len {
                Decoded::Incomplete
            } else if buf[next + len] == CR && buf[next + len + 1] == LF {
                let bytes = slice_to_vec(slice_subrange(buf, next, next + len));
                assert(bytes@ =~= s.subrange(next - pos, next - pos + len));
                Decoded::Complete(Value::BulkString(bytes), next + len + 2 - pos)
            } else {
                Decoded::Malformed
            }
        },
    }
}

/// Decodes the elements of an array whose tag stands at `pos` and whose header
/// line, which holds `count`, ends at `end`.
fn decode_array(buf: &[u8], pos: usize, end: usize, count: Count, Ghost(total): Ghost<nat>) -> (d:
    Decoded)
    requires
        pos < end,
        end + 2 <= buf.len(),
        count matches Count::Exact(c) ==> c == total,
        count is TooLarge ==> total > usize::MAX,
        !(count is Invalid),
    ensures
        d@ == after_header((end + 2 - pos) as nat, parse_items(buf@.skip(end + 2), total)),
    decreases buf.len() - pos, 0nat,
{
    let next = end + 2;
    let ghost body = buf@.skip(next as int);
    let mut items: Vec<Value> = Vec::new();
    let mut p: usize = next;
    assert(views_of(items@) =~= Seq::<ValueView>::empty());
    loop
        invariant
            pos < next <= p <= buf.len(),
            next == end + 2,
            body == buf@.skip(next as int),
            items.len() <= p - next,
            items.len() <= total,
            count matches Count::Exact(c) ==> c == total,
            count is TooLarge ==> total > usize::MAX,
            !(count is Invalid),
            parse_items(body, total) == prepend(
                views_of(items@),
                (p - next) as nat,
                parse_items(buf@.skip(p as int), (total - items.len()) as nat),
            ),
        decreases buf.len() - p,
    {
        let done = match count {
            Count::Exact(c) => items.len() >= c,
            _ => false,
        };
        if done {
            assert(views_of(items@) + Seq::<ValueView>::empty() =~= views_of(items@));
            let ghost views = views_of(items@);
            let value = Value::Array(items);
            assert(value@ == ValueView::Array(views)) by {
                assert(value@->Array_0 =~= views);
            }
            return Decoded::Complete(value, p - pos);
        }
        match decode_at(buf, p) {
            Decoded::Complete(item, used) => {
                proof {
                    lemma_parse_bounds(buf@.skip(p as int));
                    assert(buf@.skip(p as int).skip(used as int) =~= buf@.skip(p + used));
                    assert(views_of(items@.push(item)) =~= views_of(items@) + seq![item@]);
                    let rest = parse_items(
                        buf@.skip(p + used),
                        (total - items.len() - 1) as nat,
                    );
                    assert(parse_items(buf@.skip(p as int), (total - items.len()) as nat)
                        == prepend(seq![item@], used as nat, rest));
                    lemma_prepend_twice(views_of(items@), (p - next) as nat, seq![item@], used as nat, rest);
                }
                items.push(item);
                p = p + used;
            },
            Decoded::Incomplete => {
                return Decoded::Incomplete;
            },
            Decoded::Malformed => {
                return Decoded::Malformed;
            },
        }
    }
}

/// Reading `b` after `a`, and `rest` after both.
proof fn lemma_prepend_twice(
    a: Seq<ValueView>,
    used_a: nat,
    b: Seq<ValueView>,
    used_b: nat,
    rest: Parsed<Seq<ValueView>>,
)
    ensures
        prepend(a, used_a, prepend(b, used_b, rest)) == prepend(a + b, used_a + used_b, rest),
{
    if let Parsed::Complete(more, n) = rest {
        assert(a + (b + more) =~= (a + b) + more);
    }
}

/// Decodes the value that begins at index `pos` of `buf`.
fn decode_at(buf: &[u8], pos: usize) -> (d: Decoded)
    requires
        pos <= buf.len(),
    ensures
        d@ == parse(buf@.skip(pos as int)),
    decreases buf.len() - pos, 1nat,
{
    reveal(head);
    let ghost s = buf@.skip(pos as int);
    if pos == buf.len() {
        return Decoded::Incomplete;
    }
    let tag = buf[pos];
    if tag != TAG_SIMPLE && tag != TAG_ERROR && tag != TAG_BULK && tag != TAG_ARRAY {
        return Decoded::Malformed;
    }
    assert(s.skip(1) =~= buf@.skip(pos + 1));
    proof {
        lemma_line_end(s.skip(1));
    }
    let end = match find_crlf(buf, pos + 1) {
        None => {
            return Decoded::Incomplete;
        },
        Some(end) => end,
    };
    let next = end + 2;
    let ghost line = s.subrange(1, end - pos);
    assert(line =~= buf@.subrange(pos + 1, end as int));
    if tag == TAG_SIMPLE || tag == TAG_ERROR {
        let bytes = slice_to_vec(slice_subrange(buf, pos + 1, end));
        match text_from_utf8(bytes) {
            Some(text) => {
                if tag == TAG_SIMPLE {
                    Decoded::Complete(Value::SimpleString(text), next - pos)
                } else {
                    Decoded::Complete(Value::Error(text), next - pos)
                }
            },
            None => Decoded::Malformed,
        }
    } else if tag == TAG_BULK {
        decode_bulk(buf, pos, end)
    } else {
        let count = read_count(buf, pos + 1, end);
        if let Count::Invalid = count {
            return Decoded::Malformed;
        }
        assert(s.skip(next - pos) =~= buf@.skip(next as int));
        decode_array(buf, pos, end, count, Ghost(decimal_value(line)))
    }
}

/// Decodes the value at the front of `buf`.
pub fn decode(buf: &[u8]) -> (d: Decoded)
    ensures
        d@ == parse(buf@),
{
    assert(buf@.skip(0) =~= buf@);
    decode_at(buf, 0)
}

/// What a reader finds at the front of the bytes that have arrived.
#[derive(Debug, PartialEq, Eq)]
pub enum Next {
    /// A whole value, and the number of bytes it took.
    Value(Value, usize),
    /// The beginning of a value: more bytes have to arrive.
    More,
    /// Nothing, and nothing more will come: the stream ended between two values.
    End,
}

/// Reads the next value from the bytes `buf` that have arrived on a stream;
/// `closed` tells that no more will arrive.
///
/// A stream that ends within a value is malformed, as are bytes with which no
/// value begins.
pub fn decode_next(buf: &[u8], closed: bool) -> (r: Result<Next, ErrorKind>)
    ensures
        match r {
            Ok(Next::Value(value, used)) => parse(buf@) == Parsed::Complete(value@, used as nat),
            Ok(Next::More) => parse(buf@) is Incomplete && !closed,
            Ok(Next::End) => parse(buf@) is Incomplete && closed && buf@.len() == 0,
            Err(kind) => kind == ErrorKind::MalformedInput && (parse(buf@) is Malformed || (parse(
                buf@,
            ) is Incomplete && closed && buf@.len() > 0)),
        },
{
    match decode(buf) {
        Decoded::Complete(value, used) => Ok(Next::Value(value, used)),
        Decoded::Incomplete => {
            if !closed {
                Ok(Next::More)
            } else if buf.len() == 0 {
                Ok(Next::End)
            } else {
                Err(ErrorKind::MalformedInput)
            }
        },
        Decoded::Malformed => Err(ErrorKind::MalformedInput),
    }
}

} // verus!
