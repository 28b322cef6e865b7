//! The command dispatcher: a request is a name and arguments, and is answered
//! from the store.

use crate::decode::{decimal_value, is_decimal, read_count, Count};
use crate::error::ErrorKind;
use crate::resp::{text_from_utf8, views_of, Value, ValueView, PLUS};
use crate::storage::{lookup, put, sweep, ItemView, Storage};
use vstd::prelude::*;
use vstd::slice::slice_to_vec;
use vstd::utf8::*;

verus! {

/// The commands that the server knows.
#[derive(Clone, Copy, Debug, PartialEq, Eq, Structural)]
pub enum Verb {
    /// `PING`: answered with `PONG`.
    Ping,
    /// `ECHO`: answered with its argument.
    Echo,
    /// `SET`: writes a value under a key, with or without a time-to-live.
    SetKey,
    /// `GET`: reads the value under a key.
    GetKey,
}

/// An ASCII letter (`A` to `Z` are 65 to 90) in lower case; any other byte as
/// it is.
pub open spec fn lower(b: u8) -> u8 {
    if 65 <= b <= 90 {
        (b + 32) as u8
    } else {
        b
    }
}

/// `name` with its ASCII letters in lower case.
pub open spec fn lowered(name: Seq<u8>) -> Seq<u8> {
    Seq::new(name.len(), |i: int| lower(name[i]))
}

/// `name` spells the ASCII word `word`, which is in lower case, in whatever
/// case `name` is written.
pub open spec fn is_word(name: Seq<u8>, word: Seq<char>) -> bool {
    lowered(name) == encode_utf8(word)
}

/// The command that `name` stands for, in whatever case it is written.
pub open spec fn verb_of(name: Seq<u8>) -> Option<Verb> {
    if is_word(name, "ping"@) {
        Some(Verb::Ping)
    } else if is_word(name, "echo"@) {
        Some(Verb::Echo)
    } else if is_word(name, "set"@) {
        Some(Verb::SetKey)
    } else if is_word(name, "get"@) {
        Some(Verb::GetKey)
    } else {
        None
    }
}

/// The bytes of a string argument: those of a bulk string, none for the absent
/// value. No other value is a string.
pub open spec fn bulk_of(v: ValueView) -> Option<Seq<u8>> {
    match v {
        ValueView::BulkString(bytes) => Some(bytes),
        ValueView::Null => Some(Seq::empty()),
        _ => None,
    }
}

/// The text of a key argument: a string argument that is valid UTF-8.
pub open spec fn key_of(v: ValueView) -> Option<Seq<char>> {
    match bulk_of(v) {
        Some(bytes) => if valid_utf8(bytes) {
            Some(decode_utf8(bytes))
        } else {
            None
        },
        None => None,
    }
}

/// The number that `field` denotes: decimal digits after an optional `+`, with a
/// value that fits the machine word. Anything else counts as 0.
pub open spec fn number_or_zero(field: Seq<u8>) -> nat {
    let digits = if field.len() > 0 && field[0] == PLUS {
        field.skip(1)
    } else {
        field
    };
    if is_decimal(digits) && decimal_value(digits) <= usize::MAX {
        decimal_value(digits)
    } else {
        0
    }
}

/// The time-to-live that the arguments of a SET ask for, in milliseconds: the
/// number in the fourth argument where the third is `PX` in whatever case, and
/// none (0) otherwise.
pub open spec fn expiry_of(args: Seq<ValueView>) -> nat {
    if args.len() >= 4 && asks_for_millis(args[2]) {
        match bulk_of(args[3]) {
            Some(field) => number_or_zero(field),
            None => 0,
        }
    } else {
        0
    }
}

/// The argument is the string `PX`, in whatever case.
pub open spec fn asks_for_millis(v: ValueView) -> bool {
    match bulk_of(v) {
        Some(option) => is_word(option, "px"@),
        None => false,
    }
}

/// The name and the arguments of a request: the request is an array, whose
/// first element is a string, the name, and whose other elements are the
/// arguments. The empty array has the empty name and no arguments.
pub open spec fn name_and_args(request: ValueView) -> Option<(Seq<u8>, Seq<ValueView>)> {
    match request {
        ValueView::Array(items) => if items.len() == 0 {
            Some((Seq::empty(), Seq::empty()))
        } else {
            match bulk_of(items[0]) {
                Some(name) => Some((name, items.skip(1))),
                None => None,
            }
        },
        _ => None,
    }
}

/// The text with which the server answers a command `name` that failed with `kind`.
pub open spec fn error_text(name: Seq<u8>, kind: ErrorKind) -> Seq<char> {
    match kind {
        ErrorKind::MissingArgument => if verb_of(name) == Some(Verb::SetKey) {
            "ERROR: SET requires at least a key and value"@
        } else {
            "ERROR: GET requires one argument"@
        },
        ErrorKind::UnknownCommand => "ERROR: Unknown command"@,
        ErrorKind::InvalidCommandFormat => "ERROR: Command is not a valid bulk string"@,
        ErrorKind::MalformedInput => "ERROR: Malformed input"@,
    }
}

/// What the server sends back for `request`, received at `now` with the store
/// `store`: the answer to its command, an error text where the command fails,
/// and nothing where the request is no command at all.
pub open spec fn answer(request: ValueView, store: Map<Seq<char>, ItemView>, now: nat) -> Option<
    ValueView,
> {
    match name_and_args(request) {
        None => None,
        Some((name, args)) => match reply(name, args, store, now) {
            Ok(value) => Some(value),
            Err(kind) => Some(ValueView::SimpleString(error_text(name, kind))),
        },
    }
}

/// The store after `request` was answered at `now`.
pub open spec fn after(request: ValueView, store: Map<Seq<char>, ItemView>, now: nat) -> Map<
    Seq<char>,
    ItemView,
> {
    match name_and_args(request) {
        None => store,
        Some((name, args)) => effect(name, args, store, now),
    }
}

/// The answer to the command `name` with arguments `args`, given at `now` from
/// the store `store`.
pub open spec fn reply(
    name: Seq<u8>,
    args: Seq<ValueView>,
    store: Map<Seq<char>, ItemView>,
    now: nat,
) -> Result<ValueView, ErrorKind> {
    match verb_of(name) {
        None => Err(ErrorKind::UnknownCommand),
        Some(Verb::Ping) => Ok(ValueView::SimpleString("PONG"@)),
        Some(Verb::Echo) => if args.len() == 0 {
            Ok(ValueView::Null)
        } else {
            match bulk_of(args[0]) {
                Some(bytes) => Ok(ValueView::BulkString(bytes)),
                None => Ok(ValueView::BulkString(Seq::empty())),
            }
        },
        Some(Verb::SetKey) => if args.len() < 2 {
            Err(ErrorKind::MissingArgument)
        } else if key_of(args[0]) is None || bulk_of(args[1]) is None {
            Err(ErrorKind::InvalidCommandFormat)
        } else {
            Ok(ValueView::SimpleString("OK"@))
        },
        Some(Verb::GetKey) => if args.len() < 1 {
            Err(ErrorKind::MissingArgument)
        } else {
            match key_of(args[0]) {
                None => Err(ErrorKind::InvalidCommandFormat),
                Some(key) => match lookup(store, key, now) {
                    Some(item) => Ok(ValueView::BulkString(item.value)),
                    None => Ok(ValueView::Null),
                },
            }
        },
    }
}

/// The store after the command `name` with arguments `args` was answered at
/// `now`: a SET that succeeds writes, a GET that succeeds sweeps, and nothing
/// else touches the store.
pub open spec fn effect(
    name: Seq<u8>,
    args: Seq<ValueView>,
    store: Map<Seq<char>, ItemView>,
    now: nat,
) -> Map<Seq<char>, ItemView> {
    if reply(name, args, store, now) is Err {
        store
    } else {
        match verb_of(name) {
            Some(Verb::SetKey) => put(
                store,
                key_of(args[0])->0,
                bulk_of(args[1])->0,
                expiry_of(args),
                now,
            ),
            Some(Verb::GetKey) => sweep(store, now),
            _ => store,
        }
    }
}

/// Names that differ only in the case of their letters are the same command:
/// they are answered alike, leave the store alike, and fail alike.
pub proof fn lemma_names_ignore_case(
    a: Seq<u8>,
    b: Seq<u8>,
    args: Seq<ValueView>,
    store: Map<Seq<char>, ItemView>,
    now: nat,
)
    requires
        lowered(a) == lowered(b),
    ensures
        verb_of(a) == verb_of(b),
        reply(a, args, store, now) == reply(b, args, store, now),
        effect(a, args, store, now) == effect(b, args, store, now),
        forall|kind: ErrorKind| error_text(a, kind) == error_text(b, kind),
{
}

/// An ASCII letter in lower case; any other byte as it is.
fn to_lower(b: u8) -> (l: u8)
    ensures
        l == lower(b),
{
    if 65 <= b && b <= 90 {
        b + 32
    } else {
        b
    }
}

/// Whether `name` spells `word`, in whatever case `name` is written.
fn spells(name: &[u8], word: &str) -> (r: bool)
    ensures
        r == is_word(name@, word@),
{
    let bytes = word.as_bytes();
    if name.len() != bytes.len() {
        return false;
    }
    let mut i: usize = 0;
    while i < name.len()
        invariant
            i <= name.len() == bytes.len(),
            bytes@ == encode_utf8(word@),
            forall|j: int| 0 <= j < i ==> lower(name[j]) == bytes[j],
        decreases name.len() - i,
    {
        if to_lower(name[i]) != bytes[i] {
            assert(lowered(name@)[i as int] != bytes@[i as int]);
            return false;
        }
        i += 1;
    }
    assert(lowered(name@) =~= bytes@);
    true
}

/// The command that `name` stands for.
pub fn verb(name: &[u8]) -> (v: Option<Verb>)
    ensures
        v == verb_of(name@),
{
    if spells(name, "ping") {
        Some(Verb::Ping)
    } else if spells(name, "echo") {
        Some(Verb::Echo)
    } else if spells(name, "set") {
        Some(Verb::SetKey)
    } else if spells(name, "get") {
        Some(Verb::GetKey)
    } else {
        None
    }
}

/// The bytes of a string value: those of a bulk string, none for the absent
/// value. Any other value is refused.
pub fn unpack_bulk_str(value: Value) -> (r: Result<Vec<u8>, ErrorKind>)
    ensures
        match r {
            Ok(bytes) => bulk_of(value@) == Some(bytes@),
            Err(kind) => bulk_of(value@) is None && kind == ErrorKind::InvalidCommandFormat,
        },
{
    match value {
        Value::BulkString(bytes) => Ok(bytes),
        Value::Null => Ok(Vec::new()),
        _ => Err(ErrorKind::InvalidCommandFormat),
    }
}

/// A copy of the bytes of a string argument.
fn bulk_arg(value: &Value) -> (r: Option<Vec<u8>>)
    ensures
        match r {
            Some(bytes) => bulk_of(value@) == Some(bytes@),
            None => bulk_of(value@) is None,
        },
{
    match value {
        Value::BulkString(bytes) => Some(slice_to_vec(bytes.as_slice())),
        Value::Null => Some(Vec::new()),
        _ => None,
    }
}

/// The text of a key argument.
fn key_arg(value: &Value) -> (r: Option<String>)
    ensures
        match r {
            Some(key) => key_of(value@) == Some(key@),
            None => key_of(value@) is None,
        },
{
    match bulk_arg(value) {
        Some(bytes) => text_from_utf8(bytes),
        None => None,
    }
}

/// The number that `field` denotes, or 0 where it denotes none.
fn read_number_or_zero(field: &[u8]) -> (n: usize)
    ensures
        n == number_or_zero(field@),
{
    let from: usize = if field.len() > 0 && field[0] == PLUS {
        1
    } else {
        0
    };
    assert(field@.subrange(from as int, field.len() as int) =~= if from == 1 {
        field@.skip(1)
    } else {
        field@
    });
    match read_count(field, from, field.len()) {
        Count::Exact(n) => n,
        _ => 0,
    }
}

/// The time-to-live that the arguments of a SET ask for.
fn expiry_arg(args: &Vec<Value>) -> (expires: usize)
    ensures
        expires == expiry_of(views_of(args@)),
{
    if args.len() < 4 {
        return 0;
    }
    let option = match bulk_arg(&args[2]) {
        Some(option) => option,
        None => {
            return 0;
        },
    };
    if spells(option.as_slice(), "px") {
        match bulk_arg(&args[3]) {
            Some(field) => read_number_or_zero(field.as_slice()),
            None => 0,
        }
    } else {
        0
    }
}

/// Takes a request apart: the command's name and its arguments.
///
/// A request is an array whose first element is a string, the name; an empty
/// array has the empty name. Anything else is refused.
pub fn extract_command(value: Value) -> (r: Result<(Vec<u8>, Vec<Value>), ErrorKind>)
    ensures
        match r {
            Ok((name, args)) => name_and_args(value@) == Some((name@, views_of(args@))),
            Err(kind) => name_and_args(value@) is None && kind == ErrorKind::InvalidCommandFormat,
        },
{
    match value {
        Value::Array(items) => {
            let ghost views = views_of(items@);
            assert(value@->Array_0 =~= views);
            let mut items = items;
            if items.len() == 0 {
                assert(views_of(items@) =~= Seq::<ValueView>::empty());
                return Ok((Vec::new(), items));
            }
            let first = items.remove(0);
            assert(views_of(items@) =~= views.skip(1));
            match unpack_bulk_str(first) {
                Ok(name) => Ok((name, items)),
                Err(kind) => Err(kind),
            }
        },
        _ => Err(ErrorKind::InvalidCommandFormat),
    }
}

/// Answers the command `name` with arguments `args` from `storage` at time `now`.
pub fn handle_command(name: &[u8], args: &Vec<Value>, storage: &mut Storage, now: u128) -> (r:
    Result<Value, ErrorKind>)
    ensures
        match r {
            Ok(value) => reply(name@, views_of(args@), old(storage)@, now as nat) == Ok::<
                ValueView,
                ErrorKind,
            >(value@),
            Err(kind) => reply(name@, views_of(args@), old(storage)@, now as nat) == Err::<
                ValueView,
                ErrorKind,
            >(kind),
        },
        final(storage)@ == effect(name@, views_of(args@), old(storage)@, now as nat),
{
    match verb(name) {
        None => Err(ErrorKind::UnknownCommand),
        Some(Verb::Ping) => Ok(Value::SimpleString("PONG".to_owned())),
        Some(Verb::Echo) => {
            if args.len() == 0 {
                Ok(Value::Null)
            } else {
                match bulk_arg(&args[0]) {
                    Some(bytes) => Ok(Value::BulkString(bytes)),
                    None => Ok(Value::BulkString(Vec::new())),
                }
            }
        },
        Some(Verb::SetKey) => {
            if args.len() < 2 {
                return Err(ErrorKind::MissingArgument);
            }
            let key = match key_arg(&args[0]) {
                Some(key) => key,
                None => {
                    return Err(ErrorKind::InvalidCommandFormat);
                },
            };
            let value = match bulk_arg(&args[1]) {
                Some(value) => value,
                None => {
                    return Err(ErrorKind::InvalidCommandFormat);
                },
            };
            let expires = expiry_arg(args);
            storage.set_at(key.as_str(), value.as_slice(), expires, now);
            Ok(Value::SimpleString("OK".to_owned()))
        },
        Some(Verb::GetKey) => {
            if args.len() < 1 {
                return Err(ErrorKind::MissingArgument);
            }
            let key = match key_arg(&args[0]) {
                Some(key) => key,
                None => {
                    return Err(ErrorKind::InvalidCommandFormat);
                },
            };
            match storage.get_at(key.as_str(), now) {
                Some(item) => Ok(Value::BulkString(slice_to_vec(item.value.as_slice()))),
                None => Ok(Value::Null),
            }
        },
    }
}

/// The reply that tells a client that its command `name` failed with `kind`.
pub fn error_reply(name: &[u8], kind: ErrorKind) -> (value: Value)
    ensures
        value@ == ValueView::SimpleString(error_text(name@, kind)),
{
    let text = match kind {
        ErrorKind::MissingArgument => match verb(name) {
            Some(Verb::SetKey) => "ERROR: SET requires at least a key and value",
            _ => "ERROR: GET requires one argument",
        },
        ErrorKind::UnknownCommand => "ERROR: Unknown command",
        ErrorKind::InvalidCommandFormat => "ERROR: Command is not a valid bulk string",
        ErrorKind::MalformedInput => "ERROR: Malformed input",
    };
    Value::SimpleString(text.to_owned())
}

/// Answers one request from `storage` at time `now`.
///
/// A request that is no command is passed over: the store stays as it is and
/// nothing is sent back. A command that fails is answered with an error text.
pub fn respond(request: Value, storage: &mut Storage, now: u128) -> (sent: Option<Value>)
    ensures
        match sent {
            Some(value) => answer(request@, old(storage)@, now as nat) == Some(value@),
            None => answer(request@, old(storage)@, now as nat) is None,
        },
        final(storage)@ == after(request@, old(storage)@, now as nat),
{
    match extract_command(request) {
        Err(_) => None,
        Ok((name, args)) => match handle_command(name.as_slice(), &args, storage, now) {
            Ok(value) => Some(value),
            Err(kind) => Some(error_reply(name.as_slice(), kind)),
        },
    }
}

} // verus!
