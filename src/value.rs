use vstd::prelude::*;
use vstd::utf8::encode_utf8;

verus! {

broadcast use vstd::std_specs::vec::group_vec_axioms;

/// The carriage-return byte of the line terminator.
pub const CR: u8 = 13;

/// The line-feed byte of the line terminator.
pub const LF: u8 = 10;

/// A protocol value.
#[derive(Debug)]
pub enum Value {
    /// No value: a key that is not present.
    Null,
    /// A short status line; it holds no line terminator.
    SimpleString(String),
    /// A short failure line; it holds no line terminator.
    Error(String),
    /// A length-prefixed, binary-safe string.
    BulkString(String),
    /// An ordered list of values.
    Array(Vec<Value>),
}

/// The mathematical model of a `Value`: strings become their characters.
pub enum SpecValue {
    Null,
    Simple(Seq<char>),
    Error(Seq<char>),
    Bulk(Seq<char>),
    Array(Seq<SpecValue>),
}

impl View for Value {
    type V = SpecValue;

    open spec fn view(&self) -> SpecValue
        decreases self,
    {
        match self {
            Value::Null => SpecValue::Null,
            Value::SimpleString(s) => SpecValue::Simple(s@),
            Value::Error(s) => SpecValue::Error(s@),
            Value::BulkString(s) => SpecValue::Bulk(s@),
            Value::Array(items) => SpecValue::Array(
                Seq::new(items.len() as nat, |i: int| { if 0 <= i < items.len() { items[i]@ } else { SpecValue::Null } }),
            ),
        }
    }
}

impl Clone for Value {
    fn clone(&self) -> (r: Self)
        ensures
            r@ == self@,
        decreases self,
    {
        match self {
            Value::Null => Value::Null,
            Value::SimpleString(s) => Value::SimpleString(s.clone()),
            Value::Error(s) => Value::Error(s.clone()),
            Value::BulkString(s) => Value::BulkString(s.clone()),
            Value::Array(items) => {
                let mut out: Vec<Value> = Vec::new();
                let mut i: usize = 0;
                while i < items.len()
                    invariant
                        *self == Value::Array(*items),
                        i <= items.len(),
                        out.len() == i,
                        forall|j: int| 0 <= j < i ==> #[trigger] out[j]@ == items[j]@,
                    decreases items.len() - i,
                {
                    proof {
                        assert(decreases_to!(*self => (*self)->Array_0));
                        assert(decreases_to!(*items => items[i as int]));
                    }
                    let c = items[i].clone();
                    out.push(c);
                    i = i + 1;
                }
                let r = Value::Array(out);
                assert(r@ == self@) by {
                    let a = r@->Array_0;
                    let b = self@->Array_0;
                    assert(a.len() == b.len());
                    assert forall|j: int| 0 <= j < a.len() implies a[j] == b[j] by {
                        assert(out[j]@ == items[j]@);
                    }
                    assert(a =~= b);
                }
                r
            },
        }
    }
}

impl PartialEq for Value {
    fn eq(&self, other: &Value) -> (r: bool)
        decreases self,
    {
        match (self, other) {
            (Value::Null, Value::Null) => true,
            (Value::SimpleString(a), Value::SimpleString(b)) => a.eq(b),
            (Value::Error(a), Value::Error(b)) => a.eq(b),
            (Value::BulkString(a), Value::BulkString(b)) => a.eq(b),
            (Value::Array(a), Value::Array(b)) => {
                if a.len() != b.len() {
                    assert(self@->Array_0.len() != other@->Array_0.len());
                    return false;
                }
                let mut i: usize = 0;
                while i < a.len()
                    invariant
                        *self == Value::Array(*a),
                        *other == Value::Array(*b),
                        a.len() == b.len(),
                        i <= a.len(),
                        forall|j: int| 0 <= j < i ==> #[trigger] a[j]@ == b[j]@,
                    decreases a.len() - i,
                {
                    proof {
                        assert(decreases_to!(*self => (*self)->Array_0));
                        assert(decreases_to!(*a => a[i as int]));
                    }
                    if !a[i].eq(&b[i]) {
                        assert(self@->Array_0[i as int] != other@->Array_0[i as int]);
                        return false;
                    }
                    i = i + 1;
                }
                assert forall|j: int| 0 <= j < a.len() implies self@->Array_0[j] == other@->Array_0[j] by {
                    assert(self@->Array_0[j] == a[j]@);
                    assert(other@->Array_0[j] == b[j]@);
                }
                assert(self@->Array_0 =~= other@->Array_0);
                true
            },
            _ => false,
        }
    }
}

impl vstd::std_specs::cmp::PartialEqSpecImpl for Value {
    open spec fn obeys_eq_spec() -> bool {
        true
    }

    open spec fn eq_spec(&self, other: &Value) -> bool {
        self@ == other@
    }
}

/// Why a value cannot be read as a command.
#[derive(Clone, Copy, Debug, PartialEq, Eq, Structural)]
pub enum CommandError {
    /// The value is not an array.
    NotAnArray,
    /// The array has no elements, so no command name.
    EmptyArray,
    /// The first element of the array is not a bulk string.
    NameNotBulk,
}

/// The line terminator as bytes.
pub open spec fn crlf() -> Seq<u8> {
    seq![CR, LF]
}

/// The decimal digits of `n`, most significant first, with no leading zero.
pub open spec fn decimal(n: nat) -> Seq<u8>
    decreases n,
{
    if n < 10 {
        seq![(48 + n) as u8]
    } else {
        decimal(n / 10).push((48 + n % 10) as u8)
    }
}

/// The wire form of a value. Arrays are not encoded by this library.
pub open spec fn encoding(v: SpecValue) -> Seq<u8> {
    match v {
        SpecValue::Null => seq![36u8, 45u8, 49u8] + crlf(),
        SpecValue::Simple(s) => seq![43u8] + encode_utf8(s) + crlf(),
        SpecValue::Error(s) => seq![45u8] + encode_utf8(s) + crlf(),
        SpecValue::Bulk(s) => seq![36u8] + decimal(encode_utf8(s).len()) + crlf() + encode_utf8(s) + crlf(),
        SpecValue::Array(_) => Seq::empty(),
    }
}

/// What `to_command` yields for a value: the command name and the arguments,
/// or why the value is no command.
pub open spec fn command_of(v: SpecValue) -> Result<(Seq<char>, Seq<SpecValue>), CommandError> {
    match v {
        SpecValue::Array(items) => {
            if items.len() == 0 {
                Err(CommandError::EmptyArray)
            } else {
                match items[0] {
                    SpecValue::Bulk(name) => Ok((name, items.skip(1))),
                    _ => Err(CommandError::NameNotBulk),
                }
            }
        },
        _ => Err(CommandError::NotAnArray),
    }
}

/// The models of a vector of values.
pub open spec fn models(items: Seq<Value>) -> Seq<SpecValue> {
    items.map_values(|x: Value| x@)
}

fn push_bytes(out: &mut Vec<u8>, bytes: &[u8])
    ensures
        final(out)@ == old(out)@ + bytes@,
{
    out.extend_from_slice(bytes);
    assert(final(out)@ =~= old(out)@ + bytes@);
}

fn push_decimal(out: &mut Vec<u8>, n: usize)
    ensures
        final(out)@ == old(out)@ + decimal(n as nat),
    decreases n,
{
    if n >= 10 {
        push_decimal(out, n / 10);
    }
    let d: u8 = (n % 10) as u8;
    out.push(48 + d);
    assert(final(out)@ =~= old(out)@ + decimal(n as nat));
}

fn push_crlf(out: &mut Vec<u8>)
    ensures
        final(out)@ == old(out)@ + crlf(),
{
    out.push(CR);
    out.push(LF);
    assert(final(out)@ =~= old(out)@ + crlf());
}

impl Value {
    /// Reads an array value as a command: its first element, a bulk string,
    /// is the name; the other elements are the arguments, unchanged.
    pub fn to_command(&self) -> (r: Result<(String, Vec<Value>), CommandError>)
        ensures
            match (r, command_of(self@)) {
                (Ok((name, args)), Ok((n, a))) => name@ == n && models(args@) == a,
                (Err(e), Err(f)) => e == f,
                _ => false,
            },
    {
        match self {
            Value::Array(items) => {
                if items.len() == 0 {
                    return Err(CommandError::EmptyArray);
                }
                if !matches!(items[0], Value::BulkString(_)) {
                    return Err(CommandError::NameNotBulk);
                }
                let name = items[0].unwrap_bulk();
                let mut args: Vec<Value> = Vec::new();
                let mut i: usize = 1;
                while i < items.len()
                    invariant
                        1 <= i <= items.len(),
                        args.len() == i - 1,
                        forall|j: int| 0 <= j < args.len() ==> #[trigger] args[j]@ == items[j + 1]@,
                    decreases items.len() - i,
                {
                    args.push(items[i].clone());
                    i = i + 1;
                }
                proof {
                    let a = self@->Array_0;
                    assert(a.len() == items.len());
                    assert(a[0] == items[0]@);
                    assert(models(args@) =~= a.skip(1));
                }
                Ok((name, args))
            },
            _ => Err(CommandError::NotAnArray),
        }
    }

    /// The text of a bulk string.
    pub fn unwrap_bulk(&self) -> (r: String)
        requires
            self is BulkString,
        ensures
            self@ == SpecValue::Bulk(r@),
    {
        match self {
            Value::BulkString(s) => s.clone(),
            _ => String::new(),
        }
    }

    /// The wire form of the value. Arrays are never encoded, so they are
    /// excluded.
    pub fn encode(self) -> (r: Vec<u8>)
        requires
            !(self@ is Array),
        ensures
            r@ == encoding(self@),
    {
        let mut out: Vec<u8> = Vec::new();
        match &self {
            Value::Null => {
                out.push(36);
                out.push(45);
                out.push(49);
                push_crlf(&mut out);
            },
            Value::SimpleString(s) => {
                out.push(43);
                push_bytes(&mut out, s.as_str().as_bytes());
                push_crlf(&mut out);
            },
            Value::Error(s) => {
                out.push(45);
                push_bytes(&mut out, s.as_str().as_bytes());
                push_crlf(&mut out);
            },
            Value::BulkString(s) => {
                let bytes = s.as_str().as_bytes();
                out.push(36);
                push_decimal(&mut out, bytes.len());
                push_crlf(&mut out);
                push_bytes(&mut out, bytes);
                push_crlf(&mut out);
            },
            Value::Array(_) => {},
        }
        assert(out@ =~= encoding(self@));
        out
    }
}

} // verus!
