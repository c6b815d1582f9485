//! The RESP wire format: values written as bytes, and bytes read back as
//! values.
use vstd::prelude::*;
use crate::text::{
    all_digits, decimal, digits_value, integer_of, is_digit, parse_i64, parsed_i64, u64_decimal,
    usize_decimal,
};
use crate::types::{RedisValueRef, RespValue, resp_seq_view, resp_view};

verus! {

broadcast use vstd::seq_lib::group_seq_properties;

/// The line end of the protocol, `\r\n`.
pub open spec fn crlf() -> Seq<u8> {
    seq![13u8, 10u8]
}

/// An integer in base ten, with a `-` when negative.
pub open spec fn signed_decimal(i: i64) -> Seq<u8> {
    if i < 0 {
        seq![45u8] + decimal((-i) as nat)
    } else {
        decimal(i as nat)
    }
}

/// The bytes that write `v`.
pub open spec fn encode(v: RespValue) -> Seq<u8>
    decreases v,
{
    match v {
        RespValue::SimpleString(s) => seq![43u8] + s + crlf(),
        RespValue::Error(s) => seq![45u8] + s + crlf(),
        RespValue::ErrorMsg(s) => seq![45u8] + s + crlf(),
        RespValue::Int(i) => seq![58u8] + signed_decimal(i) + crlf(),
        RespValue::BulkString(s) => seq![36u8] + decimal(s.len()) + crlf() + s + crlf(),
        RespValue::Array(a) => seq![42u8] + decimal(a.len()) + crlf() + encode_all(a),
        RespValue::NullArray => seq![42u8, 45u8, 49u8] + crlf(),
        RespValue::NullBulkString => seq![36u8, 45u8, 49u8] + crlf(),
    }
}

/// The bytes that write each of `a` in turn.
pub open spec fn encode_all(a: Seq<RespValue>) -> Seq<u8>
    decreases a,
{
    if a.len() == 0 {
        Seq::empty()
    } else {
        encode_all(a.drop_last()) + encode(a.last())
    }
}

/// Appends the bytes `b` to `out`.
fn put(out: &mut Vec<u8>, b: &[u8])
    ensures
        final(out)@ == old(out)@ + b@,
{
    let ghost start = out@;
    let n = b.len();
    for i in 0..n
        invariant
            n == b@.len(),
            out@ == start + b@.take(i as int),
    {
        out.push(b[i]);
        assert(b@.take(i + 1) =~= b@.take(i as int).push(b@[i as int]));
    }
    assert(b@.take(n as int) =~= b@);
}

/// Appends a line end to `out`.
fn put_crlf(out: &mut Vec<u8>)
    ensures
        final(out)@ == old(out)@ + crlf(),
{
    out.push(13u8);
    out.push(10u8);
    assert(out@ =~= old(out)@ + crlf());
}

/// Writes `i` in base ten, with a `-` when negative.
fn put_signed(out: &mut Vec<u8>, i: i64)
    ensures
        final(out)@ == old(out)@ + signed_decimal(i),
{
    if i < 0 {
        out.push(45u8);
        let magnitude: u64 = if i == i64::MIN {
            9223372036854775808u64
        } else {
            (-i) as u64
        };
        let digits = u64_decimal(magnitude);
        put(out, digits.as_slice());
        assert(out@ =~= old(out)@ + signed_decimal(i));
    } else {
        let digits = u64_decimal(i as u64);
        put(out, digits.as_slice());
    }
}

/// Appends the bytes that write `v` to `out`.
pub fn encode_into(v: &RedisValueRef, out: &mut Vec<u8>)
    ensures
        final(out)@ == old(out)@ + encode(resp_view(*v)),
    decreases v,
{
    match v {
        RedisValueRef::SimpleString(s) => {
            out.push(43u8);
            put(out, s.as_slice());
            put_crlf(out);
            assert(out@ =~= old(out)@ + encode(resp_view(*v)));
        },
        RedisValueRef::Error(s) => {
            out.push(45u8);
            put(out, s.as_slice());
            put_crlf(out);
            assert(out@ =~= old(out)@ + encode(resp_view(*v)));
        },
        RedisValueRef::ErrorMsg(s) => {
            out.push(45u8);
            put(out, s.as_slice());
            put_crlf(out);
            assert(out@ =~= old(out)@ + encode(resp_view(*v)));
        },
        RedisValueRef::Int(i) => {
            out.push(58u8);
            put_signed(out, *i);
            put_crlf(out);
            assert(out@ =~= old(out)@ + encode(resp_view(*v)));
        },
        RedisValueRef::BulkString(s) => {
            out.push(36u8);
            let len = usize_decimal(s.len());
            put(out, len.as_slice());
            put_crlf(out);
            put(out, s.as_slice());
            put_crlf(out);
            assert(out@ =~= old(out)@ + encode(resp_view(*v)));
        },
        RedisValueRef::Array(a) => {
            out.push(42u8);
            let len = usize_decimal(a.len());
            put(out, len.as_slice());
            put_crlf(out);
            let ghost head = out@;
            let ghost items = resp_seq_view(a@);
            proof {
                if a@.len() > 0 {
                    crate::types::lemma_resp_seq_view_index(a@, 0);
                } else {
                    assert(items.len() == 0);
                }
                assert(items.take(0) =~= Seq::<RespValue>::empty());
            }
            let n = a.len();
            for i in 0..n
                invariant
                    n == a@.len(),
                    items == resp_seq_view(a@),
                    items.len() == n,
                    v is Array,
                    v->Array_0 == a,
                    out@ == head + encode_all(items.take(i as int)),
            {
                proof {
                    assert(decreases_to!(*v => v->Array_0));
                    assert(decreases_to!(*a => a@));
                    assert(decreases_to!(a@ => a@[i as int]));
                    crate::types::lemma_resp_seq_view_index(a@, i as int);
                    assert(items.take(i + 1).drop_last() =~= items.take(i as int));
                }
                encode_into(&a[i], out);
                assert(out@ =~= head + encode_all(items.take(i + 1)));
            }
            assert(items.take(n as int) =~= items);
            assert(out@ =~= old(out)@ + encode(resp_view(*v)));
        },
        RedisValueRef::NullArray => {
            out.push(42u8);
            out.push(45u8);
            out.push(49u8);
            put_crlf(out);
            assert(out@ =~= old(out)@ + encode(resp_view(*v)));
        },
        RedisValueRef::NullBulkString => {
            out.push(36u8);
            out.push(45u8);
            out.push(49u8);
            put_crlf(out);
            assert(out@ =~= old(out)@ + encode(resp_view(*v)));
        },
    }
}

/// The bytes that write `v`.
pub fn encode_value(v: &RedisValueRef) -> (r: Vec<u8>)
    ensures
        r@ == encode(resp_view(*v)),
{
    let mut out: Vec<u8> = Vec::new();
    encode_into(v, &mut out);
    assert(out@ =~= encode(resp_view(*v)));
    out
}

// ---- reading ----

/// Why bytes could not be read as a value.
#[derive(Debug, PartialEq, Eq)]
pub enum RESPError {
    UnexpectedEnd,
    UnknownStartingByte,
    IntParseFailure,
    BadBulkStringSize(i64),
    BadArraySize(i64),
}

/// What reading from a place gives: a value and where what follows
/// starts; nothing yet, while the bytes end too soon; or an error.
pub type Reading<T> = Result<Option<(T, int)>, RESPError>;

/// The first `\r` at or after `pos`.
pub open spec fn find_cr(buf: Seq<u8>, pos: int) -> Option<int>
    decreases buf.len() - pos,
{
    if pos < 0 || pos >= buf.len() {
        None
    } else if buf[pos] == 13 {
        Some(pos)
    } else {
        find_cr(buf, pos + 1)
    }
}

/// Where the line from `pos` ends (at its `\r`), once its `\r\n` is there.
pub open spec fn line_at(buf: Seq<u8>, pos: int) -> Result<Option<int>, RESPError> {
    match find_cr(buf, pos) {
        None => Ok(None),
        Some(e) => if e + 1 >= buf.len() {
            Ok(None)
        } else if buf[e + 1] != 10 {
            Err(RESPError::UnexpectedEnd)
        } else {
            Ok(Some(e))
        },
    }
}

/// The integer on the line from `pos`.
pub open spec fn int_at(buf: Seq<u8>, pos: int) -> Reading<i64> {
    match line_at(buf, pos) {
        Err(e) => Err(e),
        Ok(None) => Ok(None),
        Ok(Some(e)) => match parsed_i64(buf.subrange(pos, e)) {
            Some(i) => Ok(Some((i, e + 2))),
            None => Err(RESPError::IntParseFailure),
        },
    }
}

/// A bulk string whose size line starts at `pos`.
pub open spec fn bulk_at(buf: Seq<u8>, pos: int) -> Reading<RespValue> {
    match int_at(buf, pos) {
        Err(e) => Err(e),
        Ok(None) => Ok(None),
        Ok(Some((n, p))) => if n == -1 {
            Ok(Some((RespValue::NullBulkString, p)))
        } else if n < -1 {
            Err(RESPError::BadBulkStringSize(n))
        } else if p + n + 2 > buf.len() {
            Ok(None)
        } else if buf[p + n] != 13 || buf[p + n + 1] != 10 {
            Err(RESPError::UnexpectedEnd)
        } else {
            Ok(Some((RespValue::BulkString(buf.subrange(p, p + n)), p + n + 2)))
        },
    }
}

/// `r` with `xs` put before the values it read.
pub open spec fn prepend(xs: Seq<RespValue>, r: Reading<Seq<RespValue>>) -> Reading<Seq<RespValue>> {
    match r {
        Ok(Some((vs, q))) => Ok(Some((xs + vs, q))),
        Ok(None) => Ok(None),
        Err(e) => Err(e),
    }
}

/// The value written from `pos`, reading arrays nested at most `fuel`
/// deep.
pub open spec fn parse_at(buf: Seq<u8>, pos: int, fuel: nat) -> Reading<RespValue>
    decreases fuel, 0nat,
{
    if pos < 0 || pos >= buf.len() {
        Ok(None)
    } else if buf[pos] == 43 || buf[pos] == 45 {
        match line_at(buf, pos + 1) {
            Err(e) => Err(e),
            Ok(None) => Ok(None),
            Ok(Some(e)) => {
                let text = buf.subrange(pos + 1, e);
                Ok(Some((if buf[pos] == 43 { RespValue::SimpleString(text) } else { RespValue::Error(text) }, e + 2)))
            },
        }
    } else if buf[pos] == 58 {
        match int_at(buf, pos + 1) {
            Err(e) => Err(e),
            Ok(None) => Ok(None),
            Ok(Some((i, p))) => Ok(Some((RespValue::Int(i), p))),
        }
    } else if buf[pos] == 36 {
        bulk_at(buf, pos + 1)
    } else if buf[pos] == 42 {
        match int_at(buf, pos + 1) {
            Err(e) => Err(e),
            Ok(None) => Ok(None),
            Ok(Some((n, p))) => if n == -1 {
                Ok(Some((RespValue::NullArray, p)))
            } else if n < -1 {
                Err(RESPError::BadArraySize(n))
            } else if n == 0 {
                Ok(Some((RespValue::Array(Seq::empty()), p)))
            } else if fuel == 0 {
                Err(RESPError::UnexpectedEnd)
            } else {
                array_reading(parse_all(buf, p, n as nat, (fuel - 1) as nat))
            },
        }
    } else {
        Err(RESPError::UnknownStartingByte)
    }
}

/// The array of the values read by `r`.
pub open spec fn array_reading(r: Reading<Seq<RespValue>>) -> Reading<RespValue> {
    match r {
        Err(e) => Err(e),
        Ok(None) => Ok(None),
        Ok(Some((items, q))) => Ok(Some((RespValue::Array(items), q))),
    }
}

/// `n` values written one after the other from `pos`.
pub open spec fn parse_all(buf: Seq<u8>, pos: int, n: nat, fuel: nat) -> Reading<Seq<RespValue>>
    decreases fuel, n + 1,
{
    if n == 0 {
        Ok(Some((Seq::empty(), pos)))
    } else {
        match parse_at(buf, pos, fuel) {
            Err(e) => Err(e),
            Ok(None) => Ok(None),
            Ok(Some((v, p))) => prepend(seq![v], parse_all(buf, p, (n - 1) as nat, fuel)),
        }
    }
}

/// A reading by the views of the values read.
pub open spec fn reading_view(r: Result<Option<(RedisValueRef, usize)>, RESPError>) -> Reading<RespValue> {
    match r {
        Ok(Some((v, p))) => Ok(Some((resp_view(v), p as int))),
        Ok(None) => Ok(None),
        Err(e) => Err(e),
    }
}

/// The first `\r` at or after `pos`.
fn find_cr_from(buf: &[u8], pos: usize) -> (r: Option<usize>)
    ensures
        match r {
            Some(e) => find_cr(buf@, pos as int) == Some(e as int),
            None => find_cr(buf@, pos as int) is None,
        },
{
    let n = buf.len();
    let mut i = pos;
    while i < n
        invariant
            n == buf@.len(),
            pos <= i,
            find_cr(buf@, pos as int) == find_cr(buf@, i as int),
        decreases n - i,
    {
        if buf[i] == 13 {
            return Some(i);
        }
        i = i + 1;
    }
    None
}

/// Where the line from `pos` ends.
fn line_end(buf: &[u8], pos: usize) -> (r: Result<Option<usize>, RESPError>)
    ensures
        match r {
            Ok(Some(e)) => line_at(buf@, pos as int) == Ok::<Option<int>, RESPError>(Some(e as int)),
            Ok(None) => line_at(buf@, pos as int) == Ok::<Option<int>, RESPError>(None),
            Err(x) => line_at(buf@, pos as int) == Err::<Option<int>, RESPError>(x),
        },
        match r {
            Ok(Some(e)) => pos <= e && e + 2 <= buf@.len(),
            _ => true,
        },
{
    let n = buf.len();
    proof {
        lemma_find_cr_bounds(buf@, pos as int);
    }
    match find_cr_from(buf, pos) {
        None => Ok(None),
        Some(e) => {
            if e + 1 >= n {
                Ok(None)
            } else if buf[e + 1] != 10 {
                Err(RESPError::UnexpectedEnd)
            } else {
                Ok(Some(e))
            }
        },
    }
}

/// Where `find_cr` finds a `\r`.
proof fn lemma_find_cr_bounds(buf: Seq<u8>, pos: int)
    ensures
        match find_cr(buf, pos) {
            Some(e) => pos <= e < buf.len() && buf[e] == 13,
            None => true,
        },
    decreases buf.len() - pos,
{
    if 0 <= pos < buf.len() && buf[pos] != 13 {
        lemma_find_cr_bounds(buf, pos + 1);
    }
}

/// The integer on the line from `pos`.
fn int_line(buf: &[u8], pos: usize) -> (r: Result<Option<(i64, usize)>, RESPError>)
    ensures
        match r {
            Ok(Some((i, p))) => int_at(buf@, pos as int) == Ok::<Option<(i64, int)>, RESPError>(Some((i, p as int))),
            Ok(None) => int_at(buf@, pos as int) == Ok::<Option<(i64, int)>, RESPError>(None),
            Err(x) => int_at(buf@, pos as int) == Err::<Option<(i64, int)>, RESPError>(x),
        },
        r matches Ok(Some((i, p))) ==> pos < p <= buf@.len(),
{
    let n = buf.len();
    match line_end(buf, pos) {
        Err(e) => Err(e),
        Ok(None) => Ok(None),
        Ok(Some(e)) => match parse_i64(&buf[pos..e]) {
            Some(i) => Ok(Some((i, e + 2))),
            None => Err(RESPError::IntParseFailure),
        },
    }
}

/// A bulk string whose size line starts at `pos`.
fn bulk(buf: &[u8], pos: usize) -> (r: Result<Option<(RedisValueRef, usize)>, RESPError>)
    ensures
        reading_view(r) == bulk_at(buf@, pos as int),
        r matches Ok(Some((v, p))) ==> pos < p <= buf@.len(),
{
    match int_line(buf, pos) {
        Err(e) => Err(e),
        Ok(None) => Ok(None),
        Ok(Some((n, p))) => {
            if n == -1 {
                Ok(Some((RedisValueRef::NullBulkString, p)))
            } else if n < -1 {
                Err(RESPError::BadBulkStringSize(n))
            } else if (p as u128) + (n as u128) + 2 > (buf.len() as u128) {
                Ok(None)
            } else {
                let end = p + n as usize;
                if buf[end] != 13 || buf[end + 1] != 10 {
                    Err(RESPError::UnexpectedEnd)
                } else {
                    let data = vstd::slice::slice_to_vec(&buf[p..end]);
                    Ok(Some((RedisValueRef::BulkString(data), end + 2)))
                }
            }
        },
    }
}

/// Reading one value then the rest is putting the value before the rest.
proof fn lemma_prepend_push(items: Seq<RespValue>, v: RespValue, r: Reading<Seq<RespValue>>)
    ensures
        prepend(items, prepend(seq![v], r)) == prepend(items.push(v), r),
{
    match r {
        Ok(Some((vs, q))) => {
            assert(items + (seq![v] + vs) =~= items.push(v) + vs);
        },
        _ => {},
    }
}

/// Reads the value written from `pos`, with arrays nested at most `fuel`
/// deep.
pub fn parse(buf: &[u8], pos: usize, fuel: usize) -> (r: Result<Option<(RedisValueRef, usize)>, RESPError>)
    ensures
        reading_view(r) == parse_at(buf@, pos as int, fuel as nat),
        r matches Ok(Some((v, p))) ==> pos < p <= buf@.len(),
    decreases fuel,
{
    if pos >= buf.len() {
        return Ok(None);
    }
    let start = buf[pos];
    if start == 43 || start == 45 {
        match line_end(buf, pos + 1) {
            Err(e) => Err(e),
            Ok(None) => Ok(None),
            Ok(Some(e)) => {
                let text = vstd::slice::slice_to_vec(&buf[pos + 1..e]);
                if start == 43 {
                    Ok(Some((RedisValueRef::SimpleString(text), e + 2)))
                } else {
                    Ok(Some((RedisValueRef::Error(text), e + 2)))
                }
            },
        }
    } else if start == 58 {
        match int_line(buf, pos + 1) {
            Err(e) => Err(e),
            Ok(None) => Ok(None),
            Ok(Some((i, p))) => Ok(Some((RedisValueRef::Int(i), p))),
        }
    } else if start == 36 {
        bulk(buf, pos + 1)
    } else if start == 42 {
        match int_line(buf, pos + 1) {
            Err(e) => Err(e),
            Ok(None) => Ok(None),
            Ok(Some((n, p))) => {
                if n == -1 {
                    Ok(Some((RedisValueRef::NullArray, p)))
                } else if n < -1 {
                    Err(RESPError::BadArraySize(n))
                } else if n == 0 {
                    let items: Vec<RedisValueRef> = Vec::new();
                    assert(resp_seq_view(items@) =~= Seq::<RespValue>::empty());
                    Ok(Some((RedisValueRef::Array(items), p)))
                } else if fuel == 0 {
                    Err(RESPError::UnexpectedEnd)
                } else {
                    let ghost f = (fuel - 1) as nat;
                    let count = n as u64;
                    let mut items: Vec<RedisValueRef> = Vec::new();
                    let mut cur = p;
                    let mut k: u64 = 0;
                    proof {
                        assert(resp_seq_view(items@) =~= Seq::<RespValue>::empty());
                        let all = parse_all(buf@, p as int, count as nat, f);
                        match all {
                            Ok(Some((vs, q))) => {
                                assert(Seq::<RespValue>::empty() + vs =~= vs);
                            },
                            _ => {},
                        }
                    }
                    while k < count
                        invariant
                            k <= count,
                            count == n,
                            fuel > 0,
                            f == fuel - 1,
                            pos < p <= cur <= buf@.len(),
                            parse_at(buf@, pos as int, fuel as nat) == array_reading(
                                parse_all(buf@, p as int, count as nat, f),
                            ),
                            parse_all(buf@, p as int, count as nat, f) == prepend(
                                resp_seq_view(items@),
                                parse_all(buf@, cur as int, (count - k) as nat, f),
                            ),
                        decreases count - k,
                    {
                        match parse(buf, cur, fuel - 1) {
                            Err(e) => {
                                return Err(e);
                            },
                            Ok(None) => {
                                return Ok(None);
                            },
                            Ok(Some((v, next))) => {
                                proof {
                                    lemma_prepend_push(
                                        resp_seq_view(items@),
                                        resp_view(v),
                                        parse_all(buf@, next as int, (count - k - 1) as nat, f),
                                    );
                                    crate::types::lemma_resp_seq_view_push(items@, v);
                                }
                                items.push(v);
                                cur = next;
                                k = k + 1;
                            },
                        }
                    }
                    proof {
                        assert(resp_seq_view(items@) + Seq::<RespValue>::empty() =~= resp_seq_view(items@));
                    }
                    Ok(Some((RedisValueRef::Array(items), cur)))
                }
            },
        }
    } else {
        Err(RESPError::UnknownStartingByte)
    }
}

/// Reads the value written at the start of `buf`: the value and how many
/// bytes it took; nothing while the bytes end too soon.
pub fn decode(buf: &[u8]) -> (r: Result<Option<(RedisValueRef, usize)>, RESPError>)
    ensures
        reading_view(r) == parse_at(buf@, 0, buf@.len()),
{
    parse(buf, 0, buf.len())
}

// ---- writing then reading ----

/// Whether `v` can be written and read back as itself: no internal error
/// message (it is written as an error), no `\r` in a simple string or an
/// error, and sizes that fit in an `i64`.
pub open spec fn wire_value(v: RespValue) -> bool
    decreases v,
{
    match v {
        RespValue::SimpleString(s) => !s.contains(13u8),
        RespValue::Error(s) => !s.contains(13u8),
        RespValue::ErrorMsg(_) => false,
        RespValue::BulkString(s) => s.len() <= i64::MAX,
        RespValue::Array(a) => a.len() <= i64::MAX && wire_all(a),
        _ => true,
    }
}

/// Whether each of `a` can be written and read back as itself.
pub open spec fn wire_all(a: Seq<RespValue>) -> bool
    decreases a,
{
    if a.len() == 0 {
        true
    } else {
        wire_all(a.drop_last()) && wire_value(a.last())
    }
}

/// How deep arrays nest in `v`.
pub open spec fn depth(v: RespValue) -> nat
    decreases v,
{
    match v {
        RespValue::Array(a) => 1 + depth_all(a),
        _ => 0,
    }
}

/// How deep arrays nest in the deepest of `a`.
pub open spec fn depth_all(a: Seq<RespValue>) -> nat
    decreases a,
{
    if a.len() == 0 {
        0
    } else {
        let d = depth_all(a.drop_last());
        let e = depth(a.last());
        if d < e {
            e
        } else {
            d
        }
    }
}

/// The digits of `decimal(n)` write `n`, and hold no `\r`.
proof fn lemma_decimal_reads_back(n: nat)
    ensures
        all_digits(decimal(n)),
        digits_value(decimal(n)) == n,
        !decimal(n).contains(13u8),
    decreases n,
{
    let d = decimal(n);
    if n >= 10 {
        lemma_decimal_reads_back(n / 10);
        let f = decimal(n / 10);
        assert(d.drop_last() =~= f);
        vstd::arithmetic::div_mod::lemma_fundamental_div_mod(n as int, 10);
        assert(n % 10 < 10);
        assert(d.last() == (48 + n % 10) as u8);
        assert(digits_value(d) == (n / 10) * 10 + n % 10);
        assert forall|i: int| 0 <= i < d.len() implies is_digit(#[trigger] d[i]) by {
            if i < f.len() {
                assert(d[i] == f[i]);
            }
        }
    } else {
        assert(d.drop_last() =~= Seq::<u8>::empty());
        assert(digits_value(Seq::<u8>::empty()) == 0);
    }
    assert forall|i: int| 0 <= i < d.len() implies d[i] != 13u8 by {
        assert(is_digit(d[i]));
    }
}

/// A signed decimal reads back as the integer it writes, and holds no `\r`.
proof fn lemma_signed_reads_back(i: i64)
    ensures
        parsed_i64(signed_decimal(i)) == Some(i),
        !signed_decimal(i).contains(13u8),
{
    let s = signed_decimal(i);
    if i < 0 {
        lemma_decimal_reads_back((-i) as nat);
        assert(s.drop_first() =~= decimal((-i) as nat));
        assert(integer_of(s) == Some(-((-i) as int)));
        assert forall|k: int| 0 <= k < s.len() implies s[k] != 13u8 by {
            if k > 0 {
                assert(s[k] == decimal((-i) as nat)[k - 1]);
            }
        }
    } else {
        lemma_decimal_reads_back(i as nat);
        assert(is_digit(s[0]));
    }
}

/// A stretch of bytes known to hold `e` holds each stretch of `e`.
proof fn lemma_window(buf: Seq<u8>, pos: int, e: Seq<u8>, off: int, len: int)
    requires
        0 <= pos,
        pos + e.len() <= buf.len(),
        buf.subrange(pos, pos + e.len()) == e,
        0 <= off,
        0 <= len,
        off + len <= e.len(),
    ensures
        buf.subrange(pos + off, pos + off + len) == e.subrange(off, off + len),
{
    assert forall|j: int| 0 <= j < len implies #[trigger] buf.subrange(pos + off, pos + off + len)[j] == e.subrange(off, off + len)[j] by {
        assert(buf[pos + off + j] == buf.subrange(pos, pos + e.len())[off + j]);
    }
    assert(buf.subrange(pos + off, pos + off + len) =~= e.subrange(off, off + len));
}

/// Searching for `\r` from inside a line `w` finds the end of `w`.
proof fn lemma_find_cr_in_line(buf: Seq<u8>, pos: int, w: Seq<u8>, k: int)
    requires
        0 <= pos,
        0 <= k <= w.len(),
        pos + w.len() + 2 <= buf.len(),
        !w.contains(13u8),
        buf.subrange(pos, pos + w.len() + 2) == w + crlf(),
    ensures
        find_cr(buf, pos + k) == Some(pos + w.len()),
    decreases w.len() - k,
{
    let t = w + crlf();
    assert(buf[pos + w.len()] == buf.subrange(pos, pos + w.len() + 2)[w.len() as int]);
    assert(t[w.len() as int] == 13u8);
    if k < w.len() {
        assert(buf[pos + k] == buf.subrange(pos, pos + w.len() + 2)[k]);
        assert(t[k] == w[k]);
        lemma_find_cr_in_line(buf, pos, w, k + 1);
    }
}

/// A line `w` (without `\r`) followed by `\r\n` at `pos` ends where `w`
/// does.
proof fn lemma_line_reads_back(buf: Seq<u8>, pos: int, w: Seq<u8>)
    requires
        0 <= pos,
        pos + w.len() + 2 <= buf.len(),
        !w.contains(13u8),
        buf.subrange(pos, pos + w.len() + 2) == w + crlf(),
    ensures
        line_at(buf, pos) == Ok::<Option<int>, RESPError>(Some(pos + w.len())),
        buf.subrange(pos, pos + w.len()) == w,
{
    lemma_find_cr_in_line(buf, pos, w, 0);
    let t = w + crlf();
    assert(buf[pos + w.len() + 1] == buf.subrange(pos, pos + w.len() + 2)[w.len() + 1int]);
    assert(t[w.len() + 1int] == 10u8);
    lemma_window(buf, pos, t, 0, w.len() as int);
    assert(t.subrange(0, w.len() as int) =~= w);
}

/// A header line: a start byte `b`, a line `w`, and what follows.
proof fn lemma_header(buf: Seq<u8>, pos: int, e: Seq<u8>, b: u8, w: Seq<u8>, tail: Seq<u8>)
    requires
        0 <= pos,
        pos + e.len() <= buf.len(),
        buf.subrange(pos, pos + e.len()) == e,
        e == seq![b] + w + crlf() + tail,
        !w.contains(13u8),
    ensures
        buf[pos] == b,
        line_at(buf, pos + 1) == Ok::<Option<int>, RESPError>(Some(pos + 1 + w.len())),
        buf.subrange(pos + 1, pos + 1 + w.len()) == w,
        buf.subrange(pos + 1 + w.len() + 2, pos + e.len()) == tail,
{
    assert(buf[pos] == buf.subrange(pos, pos + e.len())[0]);
    lemma_window(buf, pos, e, 1, w.len() + 2int);
    assert(e.subrange(1, 1int + w.len() + 2) =~= w + crlf());
    lemma_line_reads_back(buf, pos + 1, w);
    lemma_window(buf, pos, e, 1int + w.len() + 2, tail.len() as int);
    assert(e.subrange(1int + w.len() + 2, e.len() as int) =~= tail);
}

/// The text `-1` reads as the integer -1.
proof fn lemma_minus_one()
    ensures
        parsed_i64(seq![45u8, 49u8]) == Some(-1i64),
        !seq![45u8, 49u8].contains(13u8),
{
    let w = seq![45u8, 49u8];
    let one = seq![49u8];
    assert(w.drop_first() =~= one);
    assert(one.drop_last() =~= Seq::<u8>::empty());
    assert(digits_value(Seq::<u8>::empty()) == 0);
    assert(digits_value(one) == 1);
    assert(all_digits(one));
    assert forall|k: int| 0 <= k < w.len() implies w[k] != 13u8 by {}
}

/// `encode_all` writes the first value, then the others.
proof fn lemma_encode_all_front(a: Seq<RespValue>)
    requires
        a.len() > 0,
    ensures
        encode_all(a) == encode(a[0]) + encode_all(a.drop_first()),
        wire_all(a) ==> wire_value(a[0]) && wire_all(a.drop_first()),
        depth(a[0]) <= depth_all(a),
        depth_all(a.drop_first()) <= depth_all(a),
    decreases a.len(),
{
    if a.len() == 1 {
        assert(a.drop_last() =~= Seq::<RespValue>::empty());
        assert(a.drop_first() =~= Seq::<RespValue>::empty());
        assert(encode(a[0]) + Seq::<u8>::empty() =~= encode(a[0]));
    } else {
        let d = a.drop_last();
        lemma_encode_all_front(d);
        assert(d.drop_first() =~= a.drop_first().drop_last());
        assert(a.drop_first().last() == a.last());
        assert(encode_all(a) =~= encode(a[0]) + encode_all(a.drop_first()));
    }
}

/// A value written at `pos` reads back as itself, given enough depth.
proof fn lemma_parse_encoded(buf: Seq<u8>, pos: int, v: RespValue, fuel: nat)
    requires
        wire_value(v),
        depth(v) <= fuel,
        0 <= pos,
        pos + encode(v).len() <= buf.len(),
        buf.subrange(pos, pos + encode(v).len()) == encode(v),
    ensures
        parse_at(buf, pos, fuel) == Ok::<Option<(RespValue, int)>, RESPError>(Some((v, pos + encode(v).len()))),
    decreases v,
{
    let e = encode(v);
    match v {
        RespValue::SimpleString(s) => {
            assert(e =~= seq![43u8] + s + crlf() + Seq::<u8>::empty());
            lemma_header(buf, pos, e, 43u8, s, Seq::<u8>::empty());
        },
        RespValue::Error(s) => {
            assert(e =~= seq![45u8] + s + crlf() + Seq::<u8>::empty());
            lemma_header(buf, pos, e, 45u8, s, Seq::<u8>::empty());
        },
        RespValue::ErrorMsg(_) => {},
        RespValue::Int(i) => {
            let w = signed_decimal(i);
            lemma_signed_reads_back(i);
            assert(e =~= seq![58u8] + w + crlf() + Seq::<u8>::empty());
            lemma_header(buf, pos, e, 58u8, w, Seq::<u8>::empty());
        },
        RespValue::BulkString(s) => {
            lemma_bulk_reads_back(buf, pos, s);
        },
        RespValue::Array(a) => {
            let w = decimal(a.len());
            lemma_decimal_reads_back(a.len());
            assert(integer_of(w) == Some(a.len() as int));
            let body = encode_all(a);
            assert(e =~= seq![42u8] + w + crlf() + body);
            lemma_header(buf, pos, e, 42u8, w, body);
            let p = pos + 1 + w.len() + 2;
            if a.len() > 0 {
                lemma_parse_all_encoded(buf, p, a, (fuel - 1) as nat);
            } else {
                assert(a =~= Seq::<RespValue>::empty());
            }
        },
        RespValue::NullArray => {
            lemma_minus_one();
            assert(e =~= seq![42u8] + seq![45u8, 49u8] + crlf() + Seq::<u8>::empty());
            lemma_header(buf, pos, e, 42u8, seq![45u8, 49u8], Seq::<u8>::empty());
        },
        RespValue::NullBulkString => {
            lemma_minus_one();
            assert(e =~= seq![36u8] + seq![45u8, 49u8] + crlf() + Seq::<u8>::empty());
            lemma_header(buf, pos, e, 36u8, seq![45u8, 49u8], Seq::<u8>::empty());
        },
    }
}

/// A bulk string written at `pos` reads back as itself.
proof fn lemma_bulk_reads_back(buf: Seq<u8>, pos: int, s: Seq<u8>)
    requires
        s.len() <= i64::MAX,
        0 <= pos,
        pos + encode(RespValue::BulkString(s)).len() <= buf.len(),
        buf.subrange(pos, pos + encode(RespValue::BulkString(s)).len()) == encode(RespValue::BulkString(s)),
    ensures
        buf[pos] == 36u8,
        bulk_at(buf, pos + 1) == Ok::<Option<(RespValue, int)>, RESPError>(
            Some((RespValue::BulkString(s), pos + encode(RespValue::BulkString(s)).len())),
        ),
{
    let e = encode(RespValue::BulkString(s));
    let w = decimal(s.len());
    lemma_decimal_reads_back(s.len());
    assert(integer_of(w) == Some(s.len() as int));
    let tail = s + crlf();
    assert(e =~= seq![36u8] + w + crlf() + tail);
    lemma_header(buf, pos, e, 36u8, w, tail);
    let p = pos + 1 + w.len() + 2;
    assert(buf[p + s.len()] == buf.subrange(p, pos + e.len())[s.len() as int]);
    assert(buf[p + s.len() + 1] == buf.subrange(p, pos + e.len())[s.len() + 1int]);
    lemma_window(buf, p, tail, 0, s.len() as int);
    assert(tail.subrange(0, s.len() as int) =~= s);
}

/// Values written one after the other from `pos` read back as themselves.
proof fn lemma_parse_all_encoded(buf: Seq<u8>, pos: int, a: Seq<RespValue>, fuel: nat)
    requires
        wire_all(a),
        depth_all(a) <= fuel,
        0 <= pos,
        pos + encode_all(a).len() <= buf.len(),
        buf.subrange(pos, pos + encode_all(a).len()) == encode_all(a),
    ensures
        parse_all(buf, pos, a.len(), fuel) == Ok::<Option<(Seq<RespValue>, int)>, RESPError>(
            Some((a, pos + encode_all(a).len())),
        ),
    decreases a,
{
    if a.len() > 0 {
        lemma_encode_all_front(a);
        let first = a[0];
        let rest = a.drop_first();
        let e0 = encode(first);
        let er = encode_all(rest);
        let all = encode_all(a);
        assert(buf.subrange(pos, pos + e0.len()) =~= e0) by {
            assert forall|j: int| 0 <= j < e0.len() implies buf.subrange(pos, pos + e0.len())[j] == e0[j] by {
                assert(buf[pos + j] == all[j]);
            }
        }
        assert(decreases_to!(a => a[0]));
        lemma_parse_encoded(buf, pos, first, fuel);
        let p = pos + e0.len();
        assert(buf.subrange(p, p + er.len()) =~= er) by {
            assert forall|j: int| 0 <= j < er.len() implies buf.subrange(p, p + er.len())[j] == er[j] by {
                assert(buf[p + j] == all[e0.len() + j]);
            }
        }
        lemma_parse_all_encoded(buf, p, rest, fuel);
        assert(seq![first] + rest =~= a);
    } else {
        assert(a =~= Seq::<RespValue>::empty());
    }
}

/// How deep arrays nest in a value is less than the bytes that write it.
proof fn lemma_depth_fits(v: RespValue)
    ensures
        depth(v) < encode(v).len(),
    decreases v,
{
    match v {
        RespValue::Array(a) => {
            lemma_depth_all_fits(a);
        },
        _ => {},
    }
}

/// How deep arrays nest in a list of values is at most the bytes that
/// write them.
proof fn lemma_depth_all_fits(a: Seq<RespValue>)
    ensures
        depth_all(a) <= encode_all(a).len(),
    decreases a,
{
    if a.len() > 0 {
        lemma_depth_all_fits(a.drop_last());
        lemma_depth_fits(a.last());
    }
}

/// Writing a value and reading the bytes back, whatever follows them,
/// gives the value and the number of bytes it took.
pub proof fn law_decode_encode(v: RespValue, rest: Seq<u8>)
    requires
        wire_value(v),
    ensures
        parse_at(encode(v) + rest, 0, (encode(v) + rest).len()) == Ok::<Option<(RespValue, int)>, RESPError>(
            Some((v, encode(v).len() as int)),
        ),
{
    let buf = encode(v) + rest;
    lemma_depth_fits(v);
    assert(buf.subrange(0, encode(v).len() as int) =~= encode(v));
    lemma_parse_encoded(buf, 0, v, buf.len());
}

// ---- a value not fully arrived ----

/// Byte `j` after `pos` is byte `j` of `e`.
pub open spec fn agrees(buf: Seq<u8>, pos: int, e: Seq<u8>, j: int) -> bool {
    buf[pos + j] == e[j]
}

/// The bytes from `pos` to the end of `buf` are the first bytes of `e`.
pub open spec fn starts_as(buf: Seq<u8>, pos: int, e: Seq<u8>) -> bool {
    &&& 0 <= pos <= buf.len()
    &&& buf.len() - pos <= e.len()
    &&& forall|j: int| 0 <= j < buf.len() - pos ==> #[trigger] agrees(buf, pos, e, j)
}

/// No `\r` from `q` to the end: no line end is found.
proof fn lemma_find_cr_none(buf: Seq<u8>, q: int)
    requires
        0 <= q,
        forall|i: int| q <= i < buf.len() ==> buf[i] != 13u8,
    ensures
        find_cr(buf, q) is None,
    decreases buf.len() - q,
{
    if q < buf.len() {
        lemma_find_cr_none(buf, q + 1);
    }
}

/// The first `\r` from `q` is at `e`.
proof fn lemma_find_cr_at(buf: Seq<u8>, q: int, e: int)
    requires
        0 <= q <= e < buf.len(),
        buf[e] == 13u8,
        forall|i: int| q <= i < e ==> buf[i] != 13u8,
    ensures
        find_cr(buf, q) == Some(e),
    decreases e - q,
{
    if q < e {
        lemma_find_cr_at(buf, q + 1, e);
    }
}

/// A byte of a line without `\r` is not `\r`.
proof fn lemma_no_cr(w: Seq<u8>, j: int)
    requires
        !w.contains(13u8),
        0 <= j < w.len(),
    ensures
        w[j] != 13u8,
{
    if w[j] == 13u8 {
        assert(w.contains(13u8));
    }
}

/// A line `w` whose `\r\n` has not fully arrived is not read yet.
proof fn lemma_line_waits(buf: Seq<u8>, q: int, w: Seq<u8>)
    requires
        starts_as(buf, q, w + crlf()),
        buf.len() - q < w.len() + 2,
        !w.contains(13u8),
    ensures
        line_at(buf, q) == Ok::<Option<int>, RESPError>(None),
{
    let t = w + crlf();
    if buf.len() - q <= w.len() {
        assert forall|i: int| q <= i < buf.len() implies buf[i] != 13u8 by {
            assert(agrees(buf, q, t, i - q));
            lemma_no_cr(w, i - q);
        }
        lemma_find_cr_none(buf, q);
    } else {
        let e = q + w.len();
        assert(agrees(buf, q, t, w.len() as int));
        assert forall|i: int| q <= i < e implies buf[i] != 13u8 by {
            assert(agrees(buf, q, t, i - q));
            lemma_no_cr(w, i - q);
        }
        lemma_find_cr_at(buf, q, e);
    }
}

/// A line `w` whose `\r\n` has arrived ends where `w` does.
proof fn lemma_line_arrived(buf: Seq<u8>, q: int, w: Seq<u8>)
    requires
        0 <= q,
        q + w.len() + 2 <= buf.len(),
        forall|j: int| 0 <= j < w.len() + 2 ==> #[trigger] agrees(buf, q, w + crlf(), j),
        !w.contains(13u8),
    ensures
        line_at(buf, q) == Ok::<Option<int>, RESPError>(Some(q + w.len())),
        buf.subrange(q, q + w.len()) == w,
{
    let t = w + crlf();
    let e = q + w.len();
    assert(agrees(buf, q, t, w.len() as int));
    assert(agrees(buf, q, t, w.len() + 1int));
    assert forall|i: int| q <= i < e implies buf[i] != 13u8 by {
        assert(agrees(buf, q, t, i - q));
        lemma_no_cr(w, i - q);
    }
    lemma_find_cr_at(buf, q, e);
    assert forall|j: int| 0 <= j < w.len() implies #[trigger] buf.subrange(q, e)[j] == w[j] by {
        assert(agrees(buf, q, t, j));
    }
    assert(buf.subrange(q, e) =~= w);
}

/// What follows a start byte `b` that has arrived: the line `w` and the
/// rest `tail`, as far as they have arrived.
proof fn lemma_after_start(buf: Seq<u8>, pos: int, e: Seq<u8>, b: u8, w: Seq<u8>, tail: Seq<u8>)
    requires
        starts_as(buf, pos, e),
        pos < buf.len(),
        e == seq![b] + w + crlf() + tail,
        !w.contains(13u8),
    ensures
        buf[pos] == b,
        buf.len() - (pos + 1) < w.len() + 2 ==> starts_as(buf, pos + 1, w + crlf()),
        buf.len() - (pos + 1) < w.len() + 2 ==> line_at(buf, pos + 1) == Ok::<Option<int>, RESPError>(None),
        buf.len() - (pos + 1) >= w.len() + 2 ==> {
            &&& line_at(buf, pos + 1) == Ok::<Option<int>, RESPError>(Some(pos + 1 + w.len()))
            &&& buf.subrange(pos + 1, pos + 1 + w.len()) == w
            &&& starts_as(buf, pos + 1 + w.len() + 2, tail)
        },
{
    let t = w + crlf();
    assert(agrees(buf, pos, e, 0));
    assert forall|j: int| 0 <= j < w.len() + 2 && j < buf.len() - (pos + 1) implies #[trigger] agrees(buf, pos + 1, t, j) by {
        assert(agrees(buf, pos, e, 1 + j));
        assert(e[1 + j] == t[j]);
    }
    if buf.len() - (pos + 1) < w.len() + 2 {
        lemma_line_waits(buf, pos + 1, w);
    } else {
        lemma_line_arrived(buf, pos + 1, w);
        let h = pos + 1 + w.len() + 2;
        assert forall|j: int| 0 <= j < buf.len() - h implies #[trigger] agrees(buf, h, tail, j) by {
            assert(agrees(buf, pos, e, 1 + w.len() + 2 + j));
            assert(e[1 + w.len() + 2 + j] == tail[j]);
        }
    }
}

/// The first bytes of a value, short of all of them, are not read yet:
/// the reader waits for more.
proof fn lemma_parse_waits(buf: Seq<u8>, pos: int, v: RespValue, fuel: nat)
    requires
        wire_value(v),
        starts_as(buf, pos, encode(v)),
        buf.len() - pos < encode(v).len(),
        buf.len() - pos <= fuel,
    ensures
        parse_at(buf, pos, fuel) == Ok::<Option<(RespValue, int)>, RESPError>(None),
    decreases v,
{
    if pos < buf.len() {
        let e = encode(v);
        match v {
            RespValue::SimpleString(s) => {
                assert(e =~= seq![43u8] + s + crlf() + Seq::<u8>::empty());
                lemma_after_start(buf, pos, e, 43u8, s, Seq::<u8>::empty());
            },
            RespValue::Error(s) => {
                assert(e =~= seq![45u8] + s + crlf() + Seq::<u8>::empty());
                lemma_after_start(buf, pos, e, 45u8, s, Seq::<u8>::empty());
            },
            RespValue::ErrorMsg(_) => {},
            RespValue::Int(i) => {
                lemma_signed_reads_back(i);
                let w = signed_decimal(i);
                assert(e =~= seq![58u8] + w + crlf() + Seq::<u8>::empty());
                lemma_after_start(buf, pos, e, 58u8, w, Seq::<u8>::empty());
            },
            RespValue::NullArray => {
                lemma_minus_one();
                let w = seq![45u8, 49u8];
                assert(e =~= seq![42u8] + w + crlf() + Seq::<u8>::empty());
                lemma_after_start(buf, pos, e, 42u8, w, Seq::<u8>::empty());
            },
            RespValue::NullBulkString => {
                lemma_minus_one();
                let w = seq![45u8, 49u8];
                assert(e =~= seq![36u8] + w + crlf() + Seq::<u8>::empty());
                lemma_after_start(buf, pos, e, 36u8, w, Seq::<u8>::empty());
            },
            RespValue::BulkString(s) => {
                let w = decimal(s.len());
                lemma_decimal_reads_back(s.len());
                assert(integer_of(w) == Some(s.len() as int));
                let tail = s + crlf();
                assert(e =~= seq![36u8] + w + crlf() + tail);
                lemma_after_start(buf, pos, e, 36u8, w, tail);
            },
            RespValue::Array(a) => {
                let w = decimal(a.len());
                lemma_decimal_reads_back(a.len());
                assert(integer_of(w) == Some(a.len() as int));
                let body = encode_all(a);
                assert(e =~= seq![42u8] + w + crlf() + body);
                lemma_after_start(buf, pos, e, 42u8, w, body);
                let p = pos + 1 + w.len() + 2;
                if buf.len() - (pos + 1) >= w.len() + 2 {
                    if a.len() == 0 {
                        assert(body =~= Seq::<u8>::empty());
                    }
                    lemma_parse_all_waits(buf, p, a, (fuel - 1) as nat);
                }
            },
        }
    }
}

/// The first bytes of values written one after the other, short of all
/// of them, are not read yet.
proof fn lemma_parse_all_waits(buf: Seq<u8>, pos: int, a: Seq<RespValue>, fuel: nat)
    requires
        wire_all(a),
        a.len() > 0,
        starts_as(buf, pos, encode_all(a)),
        buf.len() - pos < encode_all(a).len(),
        buf.len() - pos <= fuel,
    ensures
        parse_all(buf, pos, a.len(), fuel) == Ok::<Option<(Seq<RespValue>, int)>, RESPError>(None),
    decreases a,
{
    lemma_encode_all_front(a);
    let first = a[0];
    let rest = a.drop_first();
    let e0 = encode(first);
    let all = encode_all(a);
    let m = buf.len() - pos;
    assert(decreases_to!(a => a[0]));
    if m < e0.len() {
        assert forall|j: int| 0 <= j < m implies #[trigger] agrees(buf, pos, e0, j) by {
            assert(agrees(buf, pos, all, j));
        }
        lemma_parse_waits(buf, pos, first, fuel);
    } else {
        assert(buf.subrange(pos, pos + e0.len()) =~= e0) by {
            assert forall|j: int| 0 <= j < e0.len() implies #[trigger] buf.subrange(pos, pos + e0.len())[j] == e0[j] by {
                assert(agrees(buf, pos, all, j));
            }
        }
        lemma_depth_fits(first);
        lemma_parse_encoded(buf, pos, first, fuel);
        let p = pos + e0.len();
        assert(rest.len() > 0) by {
            if rest.len() == 0 {
                assert(encode_all(rest) =~= Seq::<u8>::empty());
            }
        }
        assert forall|j: int| 0 <= j < buf.len() - p implies #[trigger] agrees(buf, p, encode_all(rest), j) by {
            assert(agrees(buf, pos, all, e0.len() + j));
        }
        lemma_parse_all_waits(buf, p, rest, fuel);
    }
}

/// Every strict prefix of what writes a value reads as "wait for more
/// bytes": a request cut anywhere before its end is never refused.
pub proof fn law_prefix_waits(v: RespValue, k: int)
    requires
        wire_value(v),
        0 <= k < encode(v).len(),
    ensures
        parse_at(encode(v).take(k), 0, k as nat) == Ok::<Option<(RespValue, int)>, RESPError>(None),
{
    let buf = encode(v).take(k);
    assert forall|j: int| 0 <= j < buf.len() implies #[trigger] agrees(buf, 0, encode(v), j) by {}
    lemma_parse_waits(buf, 0, v, k as nat);
}

/// Bytes that start with none of the five type markers (`+`, `-`, `:`,
/// `$`, `*`) are refused at once, however many of them there are.
pub proof fn law_unknown_start_refused(buf: Seq<u8>)
    requires
        buf.len() > 0,
        buf[0] != 43 && buf[0] != 45 && buf[0] != 58 && buf[0] != 36 && buf[0] != 42,
    ensures
        parse_at(buf, 0, buf.len()) == Err::<Option<(RespValue, int)>, RESPError>(RESPError::UnknownStartingByte),
{
}

} // verus!
