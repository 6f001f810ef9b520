use vstd::prelude::*;
use vstd::slice::slice_subrange;
use vstd::string::StringSliceAdditionalSpecFns;
use vstd::utf8::{decode_utf8, encode_utf8, encode_utf8_decode_utf8, encode_utf8_valid_utf8, valid_utf8};
use crate::value::{crlf, decimal, encoding, models, CR, LF, SpecValue, Value};

verus! {

broadcast use vstd::std_specs::vec::group_vec_axioms;

/// Why a buffer cannot be decoded. Each of these ends the connection.
#[derive(Clone, Copy, Debug, PartialEq, Eq, Structural)]
pub enum ParseError {
    /// The first byte of a frame is no known type marker.
    UnrecognizedType,
    /// A length or count line is not a decimal number that fits in `usize`.
    InvalidLength,
    /// A string is not well-formed UTF-8.
    InvalidText,
    /// The bytes after a bulk string's content are not the line terminator.
    MissingTerminator,
}

/// The outcome of decoding one frame at the start of a byte sequence.
pub enum Parsed {
    /// A whole frame: its value and the number of bytes it takes.
    Done(SpecValue, nat),
    /// Well-formed so far; more bytes are needed.
    Incomplete,
    /// Malformed.
    Failed(ParseError),
}

/// The outcome of decoding several frames one after the other.
pub enum ParsedItems {
    Done(Seq<SpecValue>, nat),
    Incomplete,
    Failed(ParseError),
}

/// The position of the first line terminator in `s` at or after `i`.
pub open spec fn crlf_from(s: Seq<u8>, i: nat) -> Option<nat>
    decreases s.len() - i,
{
    if i + 1 >= s.len() {
        None
    } else if s[i as int] == CR && s[i + 1int] == LF {
        Some(i)
    } else {
        crlf_from(s, i + 1)
    }
}

/// The line terminator stands at `j` in `s`.
pub open spec fn crlf_at(s: Seq<u8>, j: int) -> bool {
    0 <= j && j + 1 < s.len() && s[j] == CR && s[j + 1] == LF
}

/// `crlf_from` finds the first terminator at or after `i`, if there is one.
pub proof fn lemma_crlf_from(s: Seq<u8>, i: nat)
    ensures
        match crlf_from(s, i) {
            Some(p) => i <= p && crlf_at(s, p as int) && forall|j: int| i <= j < p ==> !crlf_at(s, j),
            None => forall|j: int| i <= j ==> !crlf_at(s, j),
        },
    decreases s.len() - i,
{
    if i + 1 < s.len() && !(s[i as int] == CR && s[i + 1int] == LF) {
        lemma_crlf_from(s, i + 1);
    }
}

/// Every byte is an ASCII digit, and there is at least one.
pub open spec fn is_digits(s: Seq<u8>) -> bool {
    s.len() > 0 && forall|i: int| 0 <= i < s.len() ==> 48 <= #[trigger] s[i] <= 57
}

/// The number that a run of decimal digits stands for.
pub open spec fn digits_value(s: Seq<u8>) -> nat
    decreases s.len(),
{
    if s.len() == 0 {
        0
    } else {
        digits_value(s.drop_last()) * 10 + (s.last() - 48) as nat
    }
}

/// The number on a length or count line, if it is one that fits in `usize`.
pub open spec fn count_of(line: Seq<u8>) -> Option<nat> {
    if is_digits(line) && digits_value(line) <= usize::MAX {
        Some(digits_value(line))
    } else {
        None
    }
}

/// Decodes the frame at the start of `s`.
pub open spec fn parse(s: Seq<u8>) -> Parsed
    decreases s.len(), 0nat, 0nat,
{
    if s.len() == 0 {
        Parsed::Incomplete
    } else if s[0] != 43 && s[0] != 36 && s[0] != 42 {
        Parsed::Failed(ParseError::UnrecognizedType)
    } else {
        match crlf_from(s, 1) {
            None => Parsed::Incomplete,
            Some(p) => {
                let line = s.subrange(1, p as int);
                if s[0] == 43 {
                    if valid_utf8(line) {
                        Parsed::Done(SpecValue::Simple(decode_utf8(line)), p + 2)
                    } else {
                        Parsed::Failed(ParseError::InvalidText)
                    }
                } else {
                    match count_of(line) {
                        None => Parsed::Failed(ParseError::InvalidLength),
                        Some(n) => {
                            if s[0] == 36 {
                                parse_bulk_body(s, p + 2, n)
                            } else {
                                proof {
                                    lemma_crlf_from(s, 1);
                                }
                                as_array(parse_items(s.skip(p + 2int), n), p + 2)
                            }
                        },
                    }
                }
            },
        }
    }
}

/// Decodes the content of a bulk string of `n` bytes that starts at `start`.
pub open spec fn parse_bulk_body(s: Seq<u8>, start: nat, n: nat) -> Parsed {
    let end = start + n;
    if end + 2 > s.len() {
        Parsed::Incomplete
    } else if s[end as int] != CR || s[end + 1int] != LF {
        Parsed::Failed(ParseError::MissingTerminator)
    } else if !valid_utf8(s.subrange(start as int, end as int)) {
        Parsed::Failed(ParseError::InvalidText)
    } else {
        Parsed::Done(SpecValue::Bulk(decode_utf8(s.subrange(start as int, end as int))), end + 2)
    }
}

/// The outcome for an array whose header line takes `header` bytes and whose
/// elements decode to `r`.
pub open spec fn as_array(r: ParsedItems, header: nat) -> Parsed {
    match r {
        ParsedItems::Done(items, c) => Parsed::Done(SpecValue::Array(items), header + c),
        ParsedItems::Incomplete => Parsed::Incomplete,
        ParsedItems::Failed(e) => Parsed::Failed(e),
    }
}

/// Prepends items already decoded, which took `c` bytes, to a later outcome.
pub open spec fn prepend(vs: Seq<SpecValue>, c: nat, rest: ParsedItems) -> ParsedItems {
    match rest {
        ParsedItems::Done(ws, d) => ParsedItems::Done(vs + ws, c + d),
        ParsedItems::Incomplete => ParsedItems::Incomplete,
        ParsedItems::Failed(e) => ParsedItems::Failed(e),
    }
}

/// Decodes `k` frames one after the other at the start of `t`.
pub open spec fn parse_items(t: Seq<u8>, k: nat) -> ParsedItems
    decreases t.len(), 1nat, k,
{
    if k == 0 {
        ParsedItems::Done(Seq::empty(), 0)
    } else {
        match parse(t) {
            Parsed::Done(v, c) => {
                // a frame never takes more bytes than it is given
                if c <= t.len() {
                    prepend(seq![v], c, parse_items(t.skip(c as int), (k - 1) as nat))
                } else {
                    ParsedItems::Incomplete
                }
            },
            Parsed::Incomplete => ParsedItems::Incomplete,
            Parsed::Failed(e) => ParsedItems::Failed(e),
        }
    }
}

/// `r` is the executable form of the outcome `p`.
pub open spec fn agrees(r: Result<Option<(Value, usize)>, ParseError>, p: Parsed) -> bool {
    match (r, p) {
        (Ok(Some((v, c))), Parsed::Done(w, d)) => v@ == w && c == d,
        (Ok(None), Parsed::Incomplete) => true,
        (Err(e), Parsed::Failed(f)) => e == f,
        _ => false,
    }
}

/// The bytes of `buffer` from `start` on.
pub open spec fn tail(buffer: Seq<u8>, start: int) -> Seq<u8> {
    buffer.subrange(start, buffer.len() as int)
}

/// `r` is the executable form of `parse(s)`, and a decoded frame fits in `s`.
pub open spec fn decodes(r: Result<Option<(Value, usize)>, ParseError>, s: Seq<u8>) -> bool {
    &&& agrees(r, parse(s))
    &&& r matches Ok(Some((_, c))) ==> c <= s.len()
}

/// A prefix of a run of digits stands for no larger a number.
pub proof fn lemma_digits_prefix(s: Seq<u8>, n: int)
    requires
        0 <= n <= s.len(),
    ensures
        digits_value(s.subrange(0, n)) <= digits_value(s),
    decreases s.len(),
{
    if n < s.len() {
        lemma_digits_prefix(s.drop_last(), n);
        assert(s.drop_last().subrange(0, n) =~= s.subrange(0, n));
    } else {
        assert(s.subrange(0, n) =~= s);
    }
}

proof fn lemma_prepend_prepend(vs: Seq<SpecValue>, a: nat, v: SpecValue, c: nat, r: ParsedItems)
    ensures
        prepend(vs, a, prepend(seq![v], c, r)) == prepend(vs.push(v), a + c, r),
{
    if let ParsedItems::Done(ws, d) = r {
        assert(vs + (seq![v] + ws) =~= vs.push(v) + ws);
    }
}

/// Relies on std::str::from_utf8: it succeeds exactly on well-formed UTF-8,
/// and the text it returns is made of the given bytes.
#[verifier::external_body]
fn utf8_text(bytes: &[u8]) -> (r: Option<&str>)
    ensures
        r is Some <==> valid_utf8(bytes@),
        r matches Some(t) ==> t.spec_bytes() == bytes@,
{
    std::str::from_utf8(bytes).ok()
}

/// The text that `bytes` encode in UTF-8, if they are well-formed.
fn parse_string(bytes: &[u8]) -> (r: Option<String>)
    ensures
        r is Some <==> valid_utf8(bytes@),
        r matches Some(t) ==> t@ == decode_utf8(bytes@),
{
    match utf8_text(bytes) {
        Some(t) => {
            proof {
                encode_utf8_decode_utf8(t@);
            }
            Some(t.to_owned())
        },
        None => None,
    }
}

/// The number written in `buffer[from..to]`, if it is a run of digits that
/// fits in `usize`.
fn parse_integer(buffer: &[u8], from: usize, to: usize) -> (r: Option<usize>)
    requires
        from <= to <= buffer.len(),
    ensures
        match count_of(buffer@.subrange(from as int, to as int)) {
            Some(n) => r == Some(n as usize),
            None => r is None,
        },
{
    let ghost line = buffer@.subrange(from as int, to as int);
    if from == to {
        return None;
    }
    let mut v: usize = 0;
    let mut i: usize = from;
    while i < to
        invariant
            from <= i <= to <= buffer.len(),
            line == buffer@.subrange(from as int, to as int),
            forall|j: int| from <= j < i ==> 48 <= #[trigger] buffer@[j] <= 57,
            v == digits_value(buffer@.subrange(from as int, i as int)),
        decreases to - i,
    {
        let b = buffer[i];
        if b < 48 || b > 57 {
            proof {
                assert(line[i - from] == b);
            }
            return None;
        }
        let ghost next = buffer@.subrange(from as int, i + 1);
        proof {
            assert(next.drop_last() =~= buffer@.subrange(from as int, i as int));
        }
        let d: usize = (b - 48) as usize;
        let w = match v.checked_mul(10) {
            Some(m) => m.checked_add(d),
            None => None,
        };
        match w {
            Some(w) => {
                v = w;
            },
            None => {
                proof {
                    assert(line.subrange(0, i + 1 - from) =~= next);
                    lemma_digits_prefix(line, i + 1 - from);
                }
                return None;
            },
        }
        i = i + 1;
    }
    proof {
        assert(buffer@.subrange(from as int, i as int) =~= line);
        assert forall|j: int| 0 <= j < line.len() implies 48 <= #[trigger] line[j] <= 57 by {
            assert(line[j] == buffer@[from + j]);
        }
    }
    Some(v)
}

/// The position, relative to `start`, of the first line terminator after
/// the type marker at `start`.
pub fn read_until_crlf(buffer: &[u8], start: usize) -> (r: Option<usize>)
    requires
        start < buffer.len(),
    ensures
        match crlf_from(tail(buffer@, start as int), 1) {
            Some(p) => r == Some(p as usize),
            None => r is None,
        },
{
    let ghost t = tail(buffer@, start as int);
    let mut i: usize = start + 1;
    while i < buffer.len() - 1
        invariant
            start < i <= buffer.len(),
            start < buffer.len(),
            t == tail(buffer@, start as int),
            crlf_from(t, 1) == crlf_from(t, (i - start) as nat),
        decreases buffer.len() - i,
    {
        if buffer[i] == CR && buffer[i + 1] == LF {
            return Some(i - start);
        }
        i = i + 1;
    }
    None
}

fn decode_simple_string(buffer: &[u8], start: usize) -> (r: Result<Option<(Value, usize)>, ParseError>)
    requires
        start < buffer.len(),
        buffer@[start as int] == 43,
    ensures
        decodes(r, tail(buffer@, start as int)),
{
    let ghost t = tail(buffer@, start as int);
    proof {
        lemma_crlf_from(t, 1);
    }
    match read_until_crlf(buffer, start) {
        None => Ok(None),
        Some(p) => {
            let line = slice_subrange(buffer, start + 1, start + p);
            assert(line@ =~= t.subrange(1, p as int));
            match parse_string(line) {
                Some(text) => Ok(Some((Value::SimpleString(text), p + 2))),
                None => Err(ParseError::InvalidText),
            }
        },
    }
}

fn decode_bulk_string(buffer: &[u8], start: usize) -> (r: Result<Option<(Value, usize)>, ParseError>)
    requires
        start < buffer.len(),
        buffer@[start as int] == 36,
    ensures
        decodes(r, tail(buffer@, start as int)),
{
    let ghost t = tail(buffer@, start as int);
    proof {
        lemma_crlf_from(t, 1);
    }
    let p = match read_until_crlf(buffer, start) {
        None => return Ok(None),
        Some(p) => p,
    };
    assert(buffer@.subrange(start + 1, start + p) =~= t.subrange(1, p as int));
    let n = match parse_integer(buffer, start + 1, start + p) {
        None => return Err(ParseError::InvalidLength),
        Some(n) => n,
    };
    let body = start + p + 2;
    if n > buffer.len() - body || buffer.len() - body - n < 2 {
        return Ok(None);
    }
    let end = body + n;
    if buffer[end] != CR || buffer[end + 1] != LF {
        return Err(ParseError::MissingTerminator);
    }
    let content = slice_subrange(buffer, body, end);
    assert(content@ =~= t.subrange(p + 2, p + 2 + n));
    match parse_string(content) {
        Some(text) => Ok(Some((Value::BulkString(text), p + 4 + n))),
        None => Err(ParseError::InvalidText),
    }
}

fn decode_array(buffer: &[u8], start: usize) -> (r: Result<Option<(Value, usize)>, ParseError>)
    requires
        start < buffer.len(),
        buffer@[start as int] == 42,
    ensures
        decodes(r, tail(buffer@, start as int)),
    decreases buffer.len() - start, 0nat,
{
    let ghost t = tail(buffer@, start as int);
    proof {
        lemma_crlf_from(t, 1);
    }
    let p = match read_until_crlf(buffer, start) {
        None => return Ok(None),
        Some(p) => p,
    };
    assert(buffer@.subrange(start + 1, start + p) =~= t.subrange(1, p as int));
    let k = match parse_integer(buffer, start + 1, start + p) {
        None => return Err(ParseError::InvalidLength),
        Some(k) => k,
    };
    let header = start + p + 2;
    let ghost whole = parse_items(tail(buffer@, header as int), k as nat);
    assert(t.skip(p + 2) =~= tail(buffer@, header as int));
    let mut items: Vec<Value> = Vec::new();
    let mut offset: usize = header;
    let mut j: usize = 0;
    while j < k
        invariant
            start < header <= offset <= buffer.len(),
            header == start + p + 2,
            j <= k,
            whole == parse_items(tail(buffer@, header as int), k as nat),
            t == tail(buffer@, start as int),
            parse(t) == as_array(whole, (p + 2) as nat),
            whole == prepend(models(items@), (offset - header) as nat, parse_items(tail(buffer@, offset as int), (k - j) as nat)),
        decreases k - j,
    {
        match parse_at(buffer, offset) {
            Err(e) => {
                assert(parse_items(tail(buffer@, offset as int), (k - j) as nat) == ParsedItems::Failed(e));
                assert(whole == ParsedItems::Failed(e));
                return Err(e);
            },
            Ok(None) => {
                assert(parse_items(tail(buffer@, offset as int), (k - j) as nat) == ParsedItems::Incomplete);
                assert(whole == ParsedItems::Incomplete);
                return Ok(None);
            },
            Ok(Some((v, c))) => {
                proof {
                    let rest = tail(buffer@, offset as int);
                    assert(rest.skip(c as int) =~= tail(buffer@, offset + c));
                    lemma_prepend_prepend(models(items@), (offset - header) as nat, v@, c as nat,
                        parse_items(tail(buffer@, offset + c), (k - j - 1) as nat));
                    assert(models(items@).push(v@) =~= models(items@.push(v)));
                }
                items.push(v);
                offset = offset + c;
                j = j + 1;
            },
        }
    }
    let r = Value::Array(items);
    proof {
        assert(models(items@) + Seq::empty() =~= models(items@));
        assert(r@->Array_0 =~= models(items@));
    }
    Ok(Some((r, offset - start)))
}

fn parse_at(buffer: &[u8], start: usize) -> (r: Result<Option<(Value, usize)>, ParseError>)
    requires
        start <= buffer.len(),
    ensures
        decodes(r, tail(buffer@, start as int)),
    decreases buffer.len() - start, 1nat,
{
    if start == buffer.len() {
        return Ok(None);
    }
    let marker = buffer[start];
    if marker == 43 {
        decode_simple_string(buffer, start)
    } else if marker == 36 {
        decode_bulk_string(buffer, start)
    } else if marker == 42 {
        decode_array(buffer, start)
    } else {
        Err(ParseError::UnrecognizedType)
    }
}

/// Decodes the frame at the start of `buffer`: the value and the number of
/// bytes it takes, `None` when more bytes are needed, or the reason the
/// bytes are malformed.
pub fn parse_message(buffer: &[u8]) -> (r: Result<Option<(Value, usize)>, ParseError>)
    ensures
        decodes(r, buffer@),
{
    assert(tail(buffer@, 0) =~= buffer@);
    parse_at(buffer, 0)
}

/// No line terminator stands anywhere in `s`.
pub open spec fn no_crlf(s: Seq<u8>) -> bool {
    forall|j: int| !crlf_at(s, j)
}

/// `crlf_from` stops at the first terminator at or after `i`.
proof fn lemma_crlf_first(s: Seq<u8>, i: nat, p: nat)
    requires
        i <= p,
        crlf_at(s, p as int),
        forall|j: int| i <= j < p ==> !crlf_at(s, j),
    ensures
        crlf_from(s, i) == Some(p),
    decreases p - i,
{
    if i < p {
        assert(!crlf_at(s, i as int));
        lemma_crlf_first(s, i + 1, p);
    }
}

/// The decimal form of a number is a run of digits that stands for it.
proof fn lemma_decimal(n: nat)
    ensures
        is_digits(decimal(n)),
        digits_value(decimal(n)) == n,
    decreases n,
{
    if n >= 10 {
        lemma_decimal(n / 10);
        let d = decimal(n);
        assert(d.drop_last() =~= decimal(n / 10));
        assert(d.last() == (48 + n % 10) as u8);
        assert((d.last() - 48) as nat == n % 10);
        assert(digits_value(d) == (n / 10) * 10 + n % 10);
        assert forall|i: int| 0 <= i < d.len() implies 48 <= #[trigger] d[i] <= 57 by {
            if i < d.len() - 1 {
                assert(d[i] == decimal(n / 10)[i]);
            }
        }
    } else {
        let d = decimal(n);
        assert(d.drop_last() =~= Seq::<u8>::empty());
        assert(digits_value(d) == digits_value(d.drop_last()) * 10 + (d.last() - 48) as nat);
    }
}

/// Decoding the wire form of a status line that holds no terminator, or of a
/// bulk string, gives the value back and takes every byte of it.
pub proof fn lemma_round_trip(v: SpecValue)
    requires
        match v {
            SpecValue::Simple(t) => no_crlf(encode_utf8(t)),
            SpecValue::Bulk(t) => encode_utf8(t).len() <= usize::MAX,
            _ => false,
        },
    ensures
        parse(encoding(v)) == Parsed::Done(v, encoding(v).len()),
{
    broadcast use encode_utf8_valid_utf8, encode_utf8_decode_utf8;

    let s = encoding(v);
    match v {
        SpecValue::Simple(t) => {
            let b = encode_utf8(t);
            let p = b.len() + 1;
            assert forall|j: int| 1 <= j < p implies !crlf_at(s, j) by {
                if j + 1 < p {
                    assert(s[j] == b[j - 1] && s[j + 1] == b[j]);
                    assert(!crlf_at(b, j - 1));
                }
            }
            lemma_crlf_first(s, 1, p as nat);
            assert(s.subrange(1, p as int) =~= b);
        },
        SpecValue::Bulk(t) => {
            let b = encode_utf8(t);
            let d = decimal(b.len());
            lemma_decimal(b.len());
            let p = d.len() + 1;
            assert forall|j: int| 1 <= j < p implies !crlf_at(s, j) by {
                assert(s[j] == d[j - 1]);
            }
            lemma_crlf_first(s, 1, p as nat);
            assert(s.subrange(1, p as int) =~= d);
            assert(s.subrange(p + 2int, p + 2int + b.len()) =~= b);
        },
        _ => {},
    }
}

/// `s` and `t` hold the same bytes below `m`.
pub open spec fn agree(s: Seq<u8>, t: Seq<u8>, m: int) -> bool {
    &&& 0 <= m <= s.len()
    &&& m <= t.len()
    &&& forall|j: int| 0 <= j < m ==> s[j] == t[j]
}

proof fn lemma_crlf_agree(s: Seq<u8>, t: Seq<u8>, m: int)
    requires
        crlf_from(s, 1) matches Some(p) && m == p + 2,
        agree(s, t, m),
    ensures
        crlf_from(t, 1) == crlf_from(s, 1),
{
    lemma_crlf_from(s, 1);
    let p = crlf_from(s, 1)->Some_0;
    assert forall|j: int| 1 <= j < p implies !crlf_at(t, j) by {
        assert(!crlf_at(s, j));
    }
    lemma_crlf_first(t, 1, p);
}

proof fn lemma_crlf_short(s: Seq<u8>, t: Seq<u8>)
    requires
        crlf_from(s, 1) matches Some(p) && t.len() < p + 2,
        agree(s, t, t.len() as int),
    ensures
        crlf_from(t, 1) is None,
{
    lemma_crlf_from(s, 1);
    lemma_crlf_from(t, 1);
    if let Some(q) = crlf_from(t, 1) {
        assert(crlf_at(s, q as int));
    }
}

/// A frame is decided by its own bytes: any byte sequence that starts with
/// the `n` bytes of a decoded frame decodes to the same value and `n`, and
/// any shorter start of those bytes asks for more.
pub proof fn lemma_frame_prefix(s: Seq<u8>, t: Seq<u8>)
    requires
        parse(s) is Done,
        agree(s, t, if t.len() < parse(s)->Done_1 { t.len() as int } else { parse(s)->Done_1 as int }),
    ensures
        t.len() >= parse(s)->Done_1 ==> parse(t) == parse(s),
        t.len() < parse(s)->Done_1 ==> parse(t) is Incomplete,
    decreases s.len(), 0nat, 0nat,
{
    let n = parse(s)->Done_1;
    lemma_crlf_from(s, 1);
    let p = crlf_from(s, 1)->Some_0;
    if t.len() == 0 {
        return;
    }
    assert(t[0] == s[0]);
    if t.len() < p + 2 {
        lemma_crlf_short(s, t);
        return;
    }
    lemma_crlf_agree(s, t, (p + 2) as int);
    assert(t.subrange(1, p as int) =~= s.subrange(1, p as int));
    if s[0] == 36 {
        let c = count_of(s.subrange(1, p as int))->Some_0;
        let start = p + 2;
        let end = start + c;
        if t.len() >= n {
            assert(t.subrange(start as int, end as int) =~= s.subrange(start as int, end as int));
            assert(t[end as int] == s[end as int] && t[end + 1int] == s[end + 1int]);
        }
    } else if s[0] == 42 {
        let k = count_of(s.subrange(1, p as int))->Some_0;
        let st = s.skip(p + 2int);
        let tt = t.skip(p + 2int);
        let c = parse_items(st, k)->Done_1;
        assert(agree(st, tt, if tt.len() < c { tt.len() as int } else { c as int })) by {
            assert forall|j: int| 0 <= j < (if tt.len() < c { tt.len() as int } else { c as int }) implies st[j] == tt[j] by {
                assert(st[j] == s[j + p + 2] && tt[j] == t[j + p + 2]);
            }
        }
        lemma_items_prefix(st, tt, k);
    }
}

proof fn lemma_items_prefix(s: Seq<u8>, t: Seq<u8>, k: nat)
    requires
        parse_items(s, k) is Done,
        agree(s, t, if t.len() < parse_items(s, k)->Done_1 { t.len() as int } else { parse_items(s, k)->Done_1 as int }),
    ensures
        t.len() >= parse_items(s, k)->Done_1 ==> parse_items(t, k) == parse_items(s, k),
        t.len() < parse_items(s, k)->Done_1 ==> parse_items(t, k) is Incomplete,
    decreases s.len(), 1nat, k,
{
    if k == 0 {
        return;
    }
    let c1 = parse(s)->Done_1;
    let c = parse_items(s, k)->Done_1;
    let rest = parse_items(s.skip(c1 as int), (k - 1) as nat);
    let c2 = rest->Done_1;
    assert(c == c1 + c2);
    assert(agree(s, t, if t.len() < c1 { t.len() as int } else { c1 as int }));
    lemma_frame_prefix(s, t);
    if t.len() < c1 {
        return;
    }
    let st = s.skip(c1 as int);
    let tt = t.skip(c1 as int);
    let m = if tt.len() < c2 { tt.len() as int } else { c2 as int };
    assert(agree(st, tt, m)) by {
        assert forall|j: int| 0 <= j < m implies st[j] == tt[j] by {
            assert(st[j] == s[j + c1] && tt[j] == t[j + c1]);
        }
    }
    lemma_items_prefix(st, tt, (k - 1) as nat);
}

/// A whole frame split anywhere: its first part alone asks for more bytes,
/// and once the rest is appended the frame decodes as it does in one piece.
pub proof fn lemma_split_delivery(frame: Seq<u8>, i: int)
    requires
        parse(frame) matches Parsed::Done(_, n) && n == frame.len(),
        0 <= i < frame.len(),
    ensures
        parse(frame.subrange(0, i)) is Incomplete,
        parse(frame.subrange(0, i) + frame.subrange(i, frame.len() as int)) == parse(frame),
{
    lemma_frame_prefix(frame, frame.subrange(0, i));
    assert(frame.subrange(0, i) + frame.subrange(i, frame.len() as int) =~= frame);
}

/// Bytes after a whole frame do not change how it decodes; they stay for
/// the next frame.
pub proof fn lemma_trailing_bytes(frame: Seq<u8>, rest: Seq<u8>)
    requires
        parse(frame) matches Parsed::Done(_, n) && n == frame.len(),
    ensures
        parse(frame + rest) == parse(frame),
{
    lemma_frame_prefix(frame, frame + rest);
}

/// The bytes taken by each of `k` frames decoded one after the other at the
/// start of `t`, as far as they decode.
pub open spec fn spans(t: Seq<u8>, k: nat) -> Seq<nat>
    decreases k,
{
    if k == 0 {
        Seq::empty()
    } else {
        match parse(t) {
            Parsed::Done(_, c) => if c <= t.len() {
                seq![c] + spans(t.skip(c as int), (k - 1) as nat)
            } else {
                Seq::empty()
            },
            _ => Seq::empty(),
        }
    }
}

/// The sum of a sequence of byte counts.
pub open spec fn total(xs: Seq<nat>) -> nat
    decreases xs.len(),
{
    if xs.len() == 0 {
        0
    } else {
        xs[0] + total(xs.skip(1))
    }
}

proof fn lemma_items_spans(t: Seq<u8>, k: nat)
    requires
        parse_items(t, k) is Done,
    ensures
        ({
            let vs = parse_items(t, k)->Done_0;
            let sp = spans(t, k);
            &&& vs.len() == k
            &&& sp.len() == k
            &&& parse_items(t, k)->Done_1 == total(sp)
            &&& forall|j: int| 0 <= j < k ==> total(#[trigger] sp.take(j)) <= t.len()
                && parse(t.skip(total(sp.take(j)) as int)) == Parsed::Done(vs[j], sp[j])
        }),
    decreases k,
{
    if k == 0 {
        return;
    }
    let c1 = parse(t)->Done_1;
    let v = parse(t)->Done_0;
    let rest_t = t.skip(c1 as int);
    lemma_items_spans(rest_t, (k - 1) as nat);
    let vs = parse_items(t, k)->Done_0;
    let ws = parse_items(rest_t, (k - 1) as nat)->Done_0;
    let sp = spans(t, k);
    let sq = spans(rest_t, (k - 1) as nat);
    assert(sp.skip(1) =~= sq);
    assert forall|j: int| 0 <= j < k implies total(#[trigger] sp.take(j)) <= t.len()
        && parse(t.skip(total(sp.take(j)) as int)) == Parsed::Done(vs[j], sp[j]) by {
        if j == 0 {
            assert(sp.take(0).len() == 0);
            assert(t.skip(0) =~= t);
        } else {
            assert(sp.take(j).skip(1) =~= sq.take(j - 1));
            assert(total(sp.take(j)) == c1 + total(sq.take(j - 1)));
            assert(t.skip(total(sp.take(j)) as int) =~= rest_t.skip(total(sq.take(j - 1)) as int));
            assert(vs[j] == ws[j - 1]);
        }
    }
}

/// An array's frame takes its header line and then each element's frame in
/// order: element `j` decodes at the header's length plus the bytes of the
/// elements before it, and the array takes the header plus all of them.
pub proof fn lemma_array_spans(s: Seq<u8>)
    requires
        parse(s) matches Parsed::Done(SpecValue::Array(_), _),
    ensures
        crlf_from(s, 1) is Some,
        ({
            let items = parse(s)->Done_0->Array_0;
            let header = crlf_from(s, 1)->Some_0 + 2;
            let sp = spans(s.skip(header as int), items.len());
            &&& sp.len() == items.len()
            &&& parse(s)->Done_1 == header + total(sp)
            &&& forall|j: int| 0 <= j < items.len() ==> parse(#[trigger] s.skip((header + total(sp.take(j))) as int)) == Parsed::Done(items[j], sp[j])
        }),
{
    lemma_crlf_from(s, 1);
    let p = crlf_from(s, 1)->Some_0;
    let header = p + 2;
    let k = count_of(s.subrange(1, p as int))->Some_0;
    let st = s.skip(header as int);
    lemma_items_spans(st, k);
    let items = parse(s)->Done_0->Array_0;
    let sp = spans(st, items.len());
    assert forall|j: int| 0 <= j < items.len() implies parse(#[trigger] s.skip((header + total(sp.take(j))) as int)) == Parsed::Done(items[j], sp[j]) by {
        assert(total(sp.take(j)) <= st.len());
        assert(s.skip((header + total(sp.take(j))) as int) =~= st.skip(total(sp.take(j)) as int));
    }
}

} // verus!
