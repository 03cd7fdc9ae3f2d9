//! Reader for the line- and length-framed request/reply protocol (RESP).
use crate::error::{ProtocolFault, TinkvError};
use crate::util::{
    all_digits, digits_value, is_digit, lemma_digits_prefix, read_line, ByteLineReader, CR, LF,
};
use vstd::prelude::*;
use vstd::std_specs::iter::IteratorSpec;
use vstd::string::StrSliceExecFns;

verus! {

/// First byte of a simple string line.
pub const SIMPLE_STR_PREFIX: u8 = 43u8;

/// First byte of an error line.
pub const ERROR_PREFIX: u8 = 45u8;

/// First byte of an integer line.
pub const INTEGER_PREFIX: u8 = 58u8;

/// First byte of the line that announces a bulk string.
pub const BULK_STR_PREFIX: u8 = 36u8;

/// First byte of the line that announces an array.
pub const ARRAY_PREFIX: u8 = 42u8;

/// The mathematical content of a protocol value.
pub enum ValueView {
    SimpleString(Seq<char>),
    Error { name: Seq<char>, msg: Seq<char> },
    Integer(i64),
    BulkString(Seq<u8>),
    NullBulkString,
    Array(Seq<ValueView>),
    NullArray,
}

/// A borrowed error reply: its name and its message.
pub struct Error<'s> {
    pub name: &'s str,
    pub msg: &'s str,
}

impl<'s> Error<'s> {
    /// An error reply with the given name and message.
    pub fn new(name: &'s str, msg: &'s str) -> (e: Self)
        ensures
            e.name@ == name@,
            e.msg@ == msg@,
    {
        Self { name, msg }
    }

    /// The owned error value with this name and message.
    pub fn as_error_value(&self) -> (v: Value)
        ensures
            v@ == (ValueView::Error { name: self.name@, msg: self.msg@ }),
    {
        Value::Error { name: self.name.to_owned(), msg: self.msg.to_owned() }
    }
}

/// Protocol values. Every part of the protocol ends with `\r\n`.
#[derive(Debug, PartialEq)]
pub enum Value {
    /// A short string that holds no line break.
    SimpleString(String),
    /// An error reply.
    Error { name: String, msg: String },
    /// A signed 64-bit integer.
    Integer(i64),
    /// A binary-safe string.
    BulkString(Vec<u8>),
    /// The absent string, announced with length -1.
    NullBulkString,
    /// A sequence of values of any kind, arrays included.
    Array(Vec<Value>),
    /// The absent array, announced with length -1.
    NullArray,
}

impl View for Value {
    type V = ValueView;

    open spec fn view(&self) -> ValueView
        decreases self,
    {
        match self {
            Value::SimpleString(s) => ValueView::SimpleString(s@),
            Value::Error { name, msg } => ValueView::Error { name: name@, msg: msg@ },
            Value::Integer(i) => ValueView::Integer(*i),
            Value::BulkString(b) => ValueView::BulkString(b@),
            Value::NullBulkString => ValueView::NullBulkString,
            Value::Array(items) => ValueView::Array(
                Seq::new(
                    items@.len(),
                    |i: int|
                        if 0 <= i < items@.len() {
                            items@[i].view()
                        } else {
                            ValueView::NullArray
                        },
                ),
            ),
            Value::NullArray => ValueView::NullArray,
        }
    }
}

impl Clone for Value {
    #[verifier::loop_isolation(false)]
    fn clone(&self) -> (v: Self)
        ensures
            v@ == self@,
        decreases self,
    {
        match self {
            Value::SimpleString(s) => Value::SimpleString(s.clone()),
            Value::Error { name, msg } => Value::Error { name: name.clone(), msg: msg.clone() },
            Value::Integer(i) => Value::Integer(*i),
            Value::BulkString(b) => Value::BulkString(vstd::slice::slice_to_vec(b.as_slice())),
            Value::NullBulkString => Value::NullBulkString,
            Value::Array(items) => {
                let mut copies: Vec<Value> = Vec::new();
                let mut i: usize = 0;
                while i < items.len()
                    invariant
                        i <= items.len(),
                        copies.len() == i,
                        forall|j: int| 0 <= j < i ==> copies@[j]@ == items@[j]@,
                    decreases items.len() - i,
                {
                    let item = &items[i];
                    proof {
                        vstd::std_specs::vec::axiom_vec_index_decreases(*items, i as int);
                    }
                    copies.push(item.clone());
                    i = i + 1;
                }
                let v = Value::Array(copies);
                assert(v@ =~= self@) by {
                    assert(v@->Array_0 =~= self@->Array_0);
                }
                v
            },
            Value::NullArray => Value::NullArray,
        }
    }
}

impl Default for Value {
    fn default() -> (v: Self)
        ensures
            v@ == ValueView::NullBulkString,
    {
        Value::NullBulkString
    }
}

impl Value {
    pub fn is_simple_string(&self) -> (b: bool)
        ensures
            b == (self@ is SimpleString),
    {
        self.as_simple_string().is_some()
    }

    pub fn as_simple_string(&self) -> (r: Option<&str>)
        ensures
            match self@ {
                ValueView::SimpleString(s) => r.is_some() && r.unwrap()@ == s,
                _ => r.is_none(),
            },
    {
        match self {
            Value::SimpleString(s) => Some(s.as_str()),
            _ => None,
        }
    }

    pub fn is_error(&self) -> (b: bool)
        ensures
            b == (self@ is Error),
    {
        self.as_error().is_some()
    }

    pub fn as_error(&self) -> (r: Option<Error<'_>>)
        ensures
            match self@ {
                ValueView::Error { name, msg } => r.is_some() && r.unwrap().name@ == name
                    && r.unwrap().msg@ == msg,
                _ => r.is_none(),
            },
    {
        match self {
            Value::Error { name, msg } => Some(Error::new(name.as_str(), msg.as_str())),
            _ => None,
        }
    }

    pub fn is_integer(&self) -> (b: bool)
        ensures
            b == (self@ is Integer),
    {
        self.as_integer().is_some()
    }

    pub fn as_integer(&self) -> (r: Option<i64>)
        ensures
            match self@ {
                ValueView::Integer(i) => r == Some(i),
                _ => r.is_none(),
            },
    {
        match self {
            Value::Integer(i) => Some(*i),
            _ => None,
        }
    }

    pub fn is_bulk_string(&self) -> (b: bool)
        ensures
            b == (self@ is BulkString),
    {
        self.as_bulk_string().is_some()
    }

    pub fn as_bulk_string(&self) -> (r: Option<&[u8]>)
        ensures
            match self@ {
                ValueView::BulkString(bytes) => r.is_some() && r.unwrap()@ == bytes,
                _ => r.is_none(),
            },
    {
        match self {
            Value::BulkString(v) => Some(v.as_slice()),
            _ => None,
        }
    }

    pub fn is_array(&self) -> (b: bool)
        ensures
            b == (self@ is Array),
    {
        self.as_array().is_some()
    }

    pub fn as_array(&self) -> (r: Option<&Vec<Value>>)
        ensures
            match self {
                Value::Array(items) => r == Some(items),
                _ => r.is_none(),
            },
    {
        match self {
            Value::Array(v) => Some(v),
            _ => None,
        }
    }

    pub fn is_null(&self) -> (b: bool)
        ensures
            b == (self@ is NullArray || self@ is NullBulkString),
    {
        self.is_null_array() || self.is_null_bulk_string()
    }

    pub fn is_null_bulk_string(&self) -> (b: bool)
        ensures
            b == (self@ is NullBulkString),
    {
        self.as_null_bulk_string().is_some()
    }

    pub fn as_null_bulk_string(&self) -> (r: Option<()>)
        ensures
            r.is_some() == (self@ is NullBulkString),
    {
        match self {
            Value::NullBulkString => Some(()),
            _ => None,
        }
    }

    pub fn is_null_array(&self) -> (b: bool)
        ensures
            b == (self@ is NullArray),
    {
        self.as_null_array().is_some()
    }

    pub fn as_null_array(&self) -> (r: Option<()>)
        ensures
            r.is_some() == (self@ is NullArray),
    {
        match self {
            Value::NullArray => Some(()),
            _ => None,
        }
    }
}


/// The signed 64-bit integer that `text` writes in decimal: an optional `+`
/// or `-`, then at least one digit and nothing else. `None` for any other
/// text and for a number outside the 64-bit range.
pub open spec fn parse_decimal(text: Seq<u8>) -> Option<i64> {
    let negative = text.len() > 0 && text[0] == 45u8;
    let signed = text.len() > 0 && (text[0] == 45u8 || text[0] == 43u8);
    let digits = if signed {
        text.skip(1)
    } else {
        text
    };
    let value = if negative {
        -digits_value(digits)
    } else {
        digits_value(digits)
    };
    if digits.len() > 0 && all_digits(digits) && i64::MIN <= value <= i64::MAX {
        Some(value as i64)
    } else {
        None
    }
}

/// Reads a signed 64-bit decimal integer.
#[verifier::loop_isolation(false)]
pub fn parse_i64(text: &[u8]) -> (r: Option<i64>)
    ensures
        r == parse_decimal(text@),
{
    let n: usize = text.len();
    if n == 0 {
        return None;
    }
    let negative: bool = text[0] == 45u8;
    let start: usize = if text[0] == 45u8 || text[0] == 43u8 {
        1
    } else {
        0
    };
    if start == n {
        return None;
    }
    let ghost digits = text@.skip(start as int);
    let limit: u64 = 9223372036854775808u64;
    let mut acc: u64 = 0;
    let mut i: usize = start;
    while i < n
        invariant
            start <= i <= n,
            n == text@.len(),
            digits == text@.skip(start as int),
            limit == 9223372036854775808u64,
            all_digits(digits.take(i - start)),
            acc == digits_value(digits.take(i - start)),
            acc <= limit,
        decreases n - i,
    {
        let b: u8 = text[i];
        assert(digits[i - start] == b);
        if b < 48u8 || b > 57u8 {
            assert(!is_digit(digits[i - start]));
            return None;
        }
        let d: u64 = (b - 48u8) as u64;
        proof {
            let longer = digits.take(i - start + 1);
            assert(longer.drop_last() =~= digits.take(i - start));
            assert(longer.last() == b);
            assert(all_digits(longer)) by {
                assert forall|j: int| 0 <= j < longer.len() implies is_digit(
                    #[trigger] longer[j],
                ) by {
                    if j < i - start {
                        assert(longer[j] == digits.take(i - start)[j]);
                    }
                }
            }
            if all_digits(digits) {
                lemma_digits_prefix(digits, i - start + 1);
            }
        }
        if acc > 922337203685477580u64 {
            proof {
                let signed = text@.len() > 0 && (text@[0] == 45u8 || text@[0] == 43u8);
                assert(digits == if signed { text@.skip(1) } else { text@ });
                assert(acc * 10 + d == digits_value(digits.take(i - start + 1)));
                assert(all_digits(digits) ==> digits_value(digits) > limit);
            }
            return None;
        }
        let next: u64 = acc * 10 + d;
        if next > limit {
            proof {
                let signed = text@.len() > 0 && (text@[0] == 45u8 || text@[0] == 43u8);
                assert(digits == if signed { text@.skip(1) } else { text@ });
                assert(next == digits_value(digits.take(i - start + 1)));
                assert(all_digits(digits) ==> digits_value(digits) > limit);
            }
            return None;
        }
        acc = next;
        i = i + 1;
    }
    proof {
        assert(digits.take(n - start) =~= digits);
        assert(digits.len() > 0);
        assert(all_digits(digits));
        assert(acc == digits_value(digits));
        let signed = text@.len() > 0 && (text@[0] == 45u8 || text@[0] == 43u8);
        assert(digits == if signed { text@.skip(1) } else { text@ });
    }
    if negative {
        if acc == limit {
            Some(i64::MIN)
        } else {
            Some(-(acc as i64))
        }
    } else if acc == limit {
        None
    } else {
        Some(acc as i64)
    }
}

/// The text that `String::from_utf8_lossy` makes of `bytes`.
pub uninterp spec fn utf8_lossy(bytes: Seq<u8>) -> Seq<char>;

/// Calls `String::from_utf8_lossy` and takes ownership of what it returns.
/// Nothing is claimed of the text but that it is a function of the bytes.
#[verifier::external_body]
fn string_from_utf8_lossy(bytes: &[u8]) -> (s: String)
    ensures
        s@ == utf8_lossy(bytes@),
{
    String::from_utf8_lossy(bytes).into_owned()
}

/// Whether `char::is_whitespace` holds of `c`.
pub uninterp spec fn is_whitespace(c: char) -> bool;

/// Calls `char::is_whitespace`, which tests the Unicode property White_Space.
#[verifier::external_body]
fn char_is_whitespace(c: char) -> (b: bool)
    ensures
        b == is_whitespace(c),
{
    c.is_whitespace()
}

/// The number of characters of `s` before its first whitespace character.
pub open spec fn first_whitespace(s: Seq<char>) -> nat
    decreases s.len(),
{
    if s.len() == 0 || is_whitespace(s[0]) {
        0
    } else {
        1 + first_whitespace(s.skip(1))
    }
}

proof fn lemma_first_whitespace_unique(s: Seq<char>, n: int)
    requires
        0 <= n <= s.len(),
        forall|j: int| 0 <= j < n ==> !is_whitespace(s[j]),
        n == s.len() || is_whitespace(s[n]),
    ensures
        first_whitespace(s) == n,
    decreases n,
{
    if n > 0 {
        let t = s.skip(1);
        assert forall|j: int| 0 <= j < n - 1 implies !is_whitespace(t[j]) by {
            assert(t[j] == s[j + 1]);
        }
        lemma_first_whitespace_unique(t, n - 1);
    }
}

/// The error that an error line's text stands for: the name is what stands
/// before the first whitespace character and the message what follows it;
/// text without whitespace is the message of an error named `ERR`.
pub open spec fn error_view(text: Seq<char>) -> ValueView {
    let idx = first_whitespace(text) as int;
    if idx < text.len() {
        ValueView::Error { name: text.take(idx), msg: text.skip(idx + 1) }
    } else {
        ValueView::Error { name: "ERR"@, msg: text }
    }
}

/// The views of the values in `items`, in order.
pub open spec fn views(items: Seq<Value>) -> Seq<ValueView> {
    Seq::new(items.len(), |i: int| items[i]@)
}

/// An array's view holds the views of its elements.
pub proof fn lemma_array_view(items: Vec<Value>)
    ensures
        Value::Array(items)@ == ValueView::Array(views(items@)),
{
    reveal_with_fuel(<Value as View>::view, 2);
    assert(Value::Array(items)@->Array_0 =~= views(items@));
}

/// What reading one frame from the input comes to.
pub enum Outcome {
    /// The input was at its end.
    End,
    /// A complete value was read.
    Value(ValueView),
    /// The frame is malformed.
    Fault(ProtocolFault),
}

/// The outcome of reading from an input, and the input that is left.
pub struct Step {
    pub outcome: Outcome,
    pub rest: Seq<u8>,
}

/// Reading a bulk string of the announced `length` from `input`.
pub open spec fn bulk_step(length: int, input: Seq<u8>) -> Step {
    if length == -1 {
        Step { outcome: Outcome::Value(ValueView::NullBulkString), rest: input }
    } else if length < -1 {
        Step { outcome: Outcome::Fault(ProtocolFault::NegativeLength), rest: input }
    } else if length + 2 > input.len() {
        Step {
            outcome: Outcome::Fault(ProtocolFault::TruncatedBulkString),
            rest: Seq::<u8>::empty(),
        }
    } else if input[length] == CR && input[length + 1] == LF {
        Step {
            outcome: Outcome::Value(ValueView::BulkString(input.take(length))),
            rest: input.skip(length + 2),
        }
    } else {
        Step {
            outcome: Outcome::Fault(ProtocolFault::MissingTerminator),
            rest: input.skip(length + 2),
        }
    }
}

/// Reading the value that the line `line` starts, with `rest` behind it.
pub open spec fn value_step(line: Seq<u8>, rest: Seq<u8>) -> Step
    decreases rest.len(), 2int,
{
    if line.len() == 0 {
        Step { outcome: Outcome::Fault(ProtocolFault::InvalidPrefix), rest }
    } else {
        let tail = line.skip(1);
        if line[0] == SIMPLE_STR_PREFIX {
            Step { outcome: Outcome::Value(ValueView::SimpleString(utf8_lossy(tail))), rest }
        } else if line[0] == ERROR_PREFIX {
            Step { outcome: Outcome::Value(error_view(utf8_lossy(tail))), rest }
        } else if line[0] == INTEGER_PREFIX {
            match parse_decimal(tail) {
                Some(i) => Step { outcome: Outcome::Value(ValueView::Integer(i)), rest },
                None => Step { outcome: Outcome::Fault(ProtocolFault::InvalidInteger), rest },
            }
        } else if line[0] == BULK_STR_PREFIX {
            match parse_decimal(tail) {
                Some(n) => bulk_step(n as int, rest),
                None => Step { outcome: Outcome::Fault(ProtocolFault::InvalidLength), rest },
            }
        } else if line[0] == ARRAY_PREFIX {
            match parse_decimal(tail) {
                Some(n) => if n == -1 {
                    Step { outcome: Outcome::Value(ValueView::NullArray), rest }
                } else {
                    elements_step(
                        rest,
                        if n > 0 {
                            n as nat
                        } else {
                            0
                        },
                        Seq::<ValueView>::empty(),
                    )
                },
                None => Step { outcome: Outcome::Fault(ProtocolFault::InvalidLength), rest },
            }
        } else {
            Step { outcome: Outcome::Fault(ProtocolFault::InvalidPrefix), rest }
        }
    }
}

/// Reading `count` more elements of an array of which `done` were read.
pub open spec fn elements_step(input: Seq<u8>, count: nat, done: Seq<ValueView>) -> Step
    decreases input.len(), 1int,
{
    if count == 0 {
        Step { outcome: Outcome::Value(ValueView::Array(done)), rest: input }
    } else {
        let step = frame_step(input);
        match step.outcome {
            Outcome::End => Step {
                outcome: Outcome::Fault(ProtocolFault::MissingElements),
                rest: step.rest,
            },
            Outcome::Fault(_) => step,
            Outcome::Value(v) => if step.rest.len() < input.len() {
                elements_step(step.rest, (count - 1) as nat, done.push(v))
            } else {
                Step { outcome: Outcome::Fault(ProtocolFault::MissingElements), rest: step.rest }
            },
        }
    }
}

/// Reading one frame from `input`: a line, and whatever its first byte
/// announces behind it.
pub open spec fn frame_step(input: Seq<u8>) -> Step
    decreases input.len(), 0int,
{
    match read_line(input) {
        Some((line, rest)) => if rest.len() < input.len() {
            value_step(line, rest)
        } else {
            Step { outcome: Outcome::End, rest: input }
        },
        None => Step { outcome: Outcome::End, rest: input },
    }
}

/// Whether `r` reports `outcome`, for a reader that must deliver a value.
pub open spec fn value_matches(r: Result<Value, TinkvError>, outcome: Outcome) -> bool {
    match outcome {
        Outcome::Value(v) => r.is_ok() && r.unwrap()@ == v,
        Outcome::Fault(f) => r.is_err() && r.unwrap_err() == TinkvError::Protocol(f),
        Outcome::End => false,
    }
}

/// Whether `r` reports `outcome`, for a reader that may find the input ended.
pub open spec fn reply_matches(r: Result<Option<Value>, TinkvError>, outcome: Outcome) -> bool {
    match outcome {
        Outcome::Value(v) => r.is_ok() && r.unwrap().is_some() && r.unwrap().unwrap()@ == v,
        Outcome::Fault(f) => r.is_err() && r.unwrap_err() == TinkvError::Protocol(f),
        Outcome::End => r.is_ok() && r.unwrap().is_none(),
    }
}

impl Value {
    /// The simple string that the bytes after the prefix write.
    pub fn simple_string_from_slice(value: &[u8]) -> (v: Value)
        ensures
            v@ == ValueView::SimpleString(utf8_lossy(value@)),
    {
        Value::SimpleString(string_from_utf8_lossy(value))
    }

    /// The error that the bytes after the prefix write.
    pub fn error_from_slice(value: &[u8]) -> (v: Value)
        ensures
            v@ == error_view(utf8_lossy(value@)),
    {
        let s = string_from_utf8_lossy(value);
        let text: &str = s.as_str();
        let total: usize = text.unicode_len();
        let mut it = text.chars();
        let mut idx: usize = 0;
        let mut found: bool = false;
        let mut done: bool = false;
        proof {
            vstd::string::axiom_spec_iter(text);
            assert(text@.skip(0) =~= text@);
        }
        while !done
            invariant
                total == text@.len(),
                idx <= total,
                forall|j: int| 0 <= j < idx ==> !is_whitespace(text@[j]),
                !done ==> it.remaining() == text@.skip(idx as int),
                !done ==> !found,
                found ==> idx < total && is_whitespace(text@[idx as int]),
                done && !found ==> idx == total,
            decreases (total - idx) + (if done { 0int } else { 1int }),
        {
            let ghost before = it;
            match it.next() {
                None => {
                    proof {
                        vstd::string::next_postcondition(&before, &it, None);
                    }
                    done = true;
                },
                Some(c) => {
                    proof {
                        vstd::string::next_postcondition(&before, &it, Some(c));
                        assert(text@.skip(idx as int)[0] == text@[idx as int]);
                        assert(text@.skip(idx as int).drop_first() =~= text@.skip(idx + 1));
                    }
                    if char_is_whitespace(c) {
                        found = true;
                        done = true;
                    } else {
                        idx = idx + 1;
                    }
                },
            }
        }
        proof {
            lemma_first_whitespace_unique(text@, idx as int);
        }
        if found {
            let name = text.substring_char(0, idx).to_owned();
            let msg = text.substring_char(idx + 1, total).to_owned();
            proof {
                assert(text@.subrange(0, idx as int) =~= text@.take(idx as int));
                assert(text@.subrange(idx + 1, total as int) =~= text@.skip(idx + 1));
            }
            Value::Error { name, msg }
        } else {
            Value::Error { name: "ERR".to_owned(), msg: s }
        }
    }

    /// The integer that the bytes after the prefix write.
    pub fn integer_from_slice(value: &[u8]) -> (r: Result<Value, TinkvError>)
        ensures
            match parse_decimal(value@) {
                Some(i) => r.is_ok() && r.unwrap()@ == ValueView::Integer(i),
                None => r.is_err() && r.unwrap_err() == TinkvError::Protocol(
                    ProtocolFault::InvalidInteger,
                ),
            },
    {
        match parse_i64(value) {
            Some(v) => Ok(Value::Integer(v)),
            None => Err(TinkvError::Protocol(ProtocolFault::InvalidInteger)),
        }
    }

    /// Reads a bulk string of the announced `length`, and the `\r\n` behind
    /// it, from `reader`.
    pub fn bulk_string_from_slice(length: i64, reader: &mut ByteLineReader) -> (r: Result<
        Value,
        TinkvError,
    >)
        ensures
            final(reader)@ == bulk_step(length as int, old(reader)@).rest,
            value_matches(r, bulk_step(length as int, old(reader)@).outcome),
    {
        if length == -1 {
            return Ok(Value::NullBulkString);
        }
        if length < -1 {
            return Err(TinkvError::Protocol(ProtocolFault::NegativeLength));
        }
        let avail: usize = reader.remaining();
        if avail < 2 || length as u64 > (avail - 2) as u64 {
            reader.skip_to_end();
            return Err(TinkvError::Protocol(ProtocolFault::TruncatedBulkString));
        }
        let body: usize = length as usize;
        let ghost input = reader@;
        match reader.read_exact(body + 2) {
            Some(block) => {
                let mut buf = block;
                if buf[body] == CR && buf[body + 1] == LF {
                    buf.truncate(body);
                    assert(buf@ =~= input.take(body as int));
                    Ok(Value::BulkString(buf))
                } else {
                    Err(TinkvError::Protocol(ProtocolFault::MissingTerminator))
                }
            },
            None => Err(TinkvError::Protocol(ProtocolFault::TruncatedBulkString)),
        }
    }
}

/// Reads the length that an announcing line gives after its prefix.
pub fn parse_length(value: &[u8]) -> (r: Result<i64, TinkvError>)
    ensures
        match parse_decimal(value@) {
            Some(n) => r == Ok::<i64, TinkvError>(n),
            None => r == Err::<i64, TinkvError>(
                TinkvError::Protocol(ProtocolFault::InvalidLength),
            ),
        },
{
    match parse_i64(value) {
        Some(n) => Ok(n),
        None => Err(TinkvError::Protocol(ProtocolFault::InvalidLength)),
    }
}


/// A frame never hands back more input than it was given, and a value takes
/// at least one byte.
pub proof fn lemma_frame_consumes(input: Seq<u8>)
    ensures
        frame_step(input).rest.len() <= input.len(),
        frame_step(input).outcome is Value ==> frame_step(input).rest.len() < input.len(),
    decreases input.len(), 0int,
{
    match read_line(input) {
        Some((line, rest)) => {
            if rest.len() < input.len() {
                lemma_value_consumes(line, rest);
            }
        },
        None => {},
    }
}

/// The value behind a line never hands back more than stood behind the line.
pub proof fn lemma_value_consumes(line: Seq<u8>, rest: Seq<u8>)
    ensures
        value_step(line, rest).rest.len() <= rest.len(),
    decreases rest.len(), 2int,
{
    if line.len() > 0 && line[0] == ARRAY_PREFIX {
        match parse_decimal(line.skip(1)) {
            Some(n) => {
                if n != -1 {
                    lemma_elements_consume(
                        rest,
                        if n > 0 {
                            n as nat
                        } else {
                            0
                        },
                        Seq::<ValueView>::empty(),
                    );
                }
            },
            None => {},
        }
    }
}

/// The elements of an array never hand back more input than they were given.
pub proof fn lemma_elements_consume(input: Seq<u8>, count: nat, done: Seq<ValueView>)
    ensures
        elements_step(input, count, done).rest.len() <= input.len(),
    decreases input.len(), 1int,
{
    if count > 0 {
        lemma_frame_consumes(input);
        let step = frame_step(input);
        match step.outcome {
            Outcome::Value(v) => {
                lemma_elements_consume(step.rest, (count - 1) as nat, done.push(v));
            },
            _ => {},
        }
    }
}

/// Reads protocol values, one after another, from a byte buffer.
pub struct Deserializer {
    inner: ByteLineReader,
}

impl View for Deserializer {
    type V = Seq<u8>;

    /// The input that has not been read yet.
    closed spec fn view(&self) -> Seq<u8> {
        self.inner@
    }
}

impl Deserializer {
    /// A deserializer at the start of a copy of `inner`.
    pub fn from_reader(inner: &[u8]) -> (de: Self)
        ensures
            de@ == inner@,
    {
        Self { inner: ByteLineReader::new(inner) }
    }

    /// The same deserializer, to be drained value by value.
    pub fn into_iter(self) -> (it: ValueIter)
        ensures
            it@ == self@,
    {
        ValueIter { de: self }
    }

    /// Reads the next value: `Ok(None)` at the end of the input, the value
    /// of the next frame, or the fault that makes the frame malformed.
    pub fn next(&mut self) -> (r: Result<Option<Value>, TinkvError>)
        ensures
            final(self)@ == frame_step(old(self)@).rest,
            reply_matches(r, frame_step(old(self)@).outcome),
        decreases old(self)@.len(), 0int,
    {
        proof {
            crate::util::lemma_read_line_consumes(self@);
        }
        match self.next_line() {
            Ok(None) => Ok(None),
            Ok(Some(line)) => {
                match self.next_value(line.as_slice()) {
                    Ok(v) => Ok(Some(v)),
                    Err(e) => Err(e),
                }
            },
            Err(e) => Err(e),
        }
    }

    /// Reads the next line of the input. A buffer in memory never fails.
    pub fn next_line(&mut self) -> (r: Result<Option<Vec<u8>>, TinkvError>)
        ensures
            r.is_ok(),
            match read_line(old(self)@) {
                Some((text, rest)) => r.unwrap().is_some() && r.unwrap().unwrap()@ == text
                    && final(self)@ == rest,
                None => r.unwrap().is_none() && final(self)@ == old(self)@,
            },
    {
        Ok(self.inner.next_line())
    }

    /// Reads the value that `value_line` starts.
    #[verifier::loop_isolation(false)]
    pub fn next_value(&mut self, value_line: &[u8]) -> (r: Result<Value, TinkvError>)
        ensures
            final(self)@ == value_step(value_line@, old(self)@).rest,
            value_matches(r, value_step(value_line@, old(self)@).outcome),
        decreases old(self)@.len(), 2int,
    {
        if value_line.len() == 0 {
            return Err(TinkvError::Protocol(ProtocolFault::InvalidPrefix));
        }
        let remaining = vstd::slice::slice_subrange(value_line, 1, value_line.len());
        assert(remaining@ =~= value_line@.skip(1));
        let prefix: u8 = value_line[0];
        if prefix == SIMPLE_STR_PREFIX {
            Ok(Value::simple_string_from_slice(remaining))
        } else if prefix == ERROR_PREFIX {
            Ok(Value::error_from_slice(remaining))
        } else if prefix == INTEGER_PREFIX {
            Value::integer_from_slice(remaining)
        } else if prefix == BULK_STR_PREFIX {
            match parse_length(remaining) {
                Ok(length) => Value::bulk_string_from_slice(length, &mut self.inner),
                Err(e) => Err(e),
            }
        } else if prefix == ARRAY_PREFIX {
            let len: i64 = match parse_length(remaining) {
                Ok(n) => n,
                Err(e) => {
                    return Err(e);
                },
            };
            if len == -1 {
                return Ok(Value::NullArray);
            }
            let ghost start = self@;
            let ghost count: nat = if len > 0 {
                len as nat
            } else {
                0
            };
            let mut elements: Vec<Value> = Vec::new();
            let mut i: i64 = 0;
            assert(views(elements@) =~= Seq::<ValueView>::empty());
            while i < len
                invariant
                    0 <= i,
                    i <= count,
                    count == (if len > 0 { len as nat } else { 0 }),
                    self@.len() <= start.len(),
                    start == old(self)@,
                    elements_step(start, count, Seq::<ValueView>::empty()) == elements_step(
                        self@,
                        (count - i) as nat,
                        views(elements@),
                    ),
                decreases len - i,
            {
                let ghost before = self@;
                let ghost seen = views(elements@);
                proof {
                    lemma_frame_consumes(before);
                }
                match self.next() {
                    Ok(Some(v)) => {
                        elements.push(v);
                        i = i + 1;
                        assert(views(elements@) =~= seen.push(v@));
                    },
                    Ok(None) => {
                        return Err(TinkvError::Protocol(ProtocolFault::MissingElements));
                    },
                    Err(e) => {
                        return Err(e);
                    },
                }
            }
            proof {
                lemma_array_view(elements);
            }
            Ok(Value::Array(elements))
        } else {
            Err(TinkvError::Protocol(ProtocolFault::InvalidPrefix))
        }
    }
}

/// Drains a deserializer value by value.
pub struct ValueIter {
    de: Deserializer,
}

impl View for ValueIter {
    type V = Seq<u8>;

    /// The input that has not been read yet.
    closed spec fn view(&self) -> Seq<u8> {
        self.de@
    }
}

impl ValueIter {
    /// The next value or fault, or `None` at the end of the input.
    pub fn next(&mut self) -> (r: Option<Result<Value, TinkvError>>)
        ensures
            final(self)@ == frame_step(old(self)@).rest,
            match frame_step(old(self)@).outcome {
                Outcome::End => r.is_none(),
                outcome => r.is_some() && value_matches(r.unwrap(), outcome),
            },
    {
        match self.de.next() {
            Ok(None) => None,
            Ok(Some(v)) => Some(Ok(v)),
            Err(e) => Some(Err(e)),
        }
    }
}

} // verus!
