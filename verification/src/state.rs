//! How values and answers are written as text, for the log.
use vstd::prelude::*;
use vstd::string::StringExecFns;
use crate::text::{string_from_utf8_lossy, utf8_lossy};
use crate::asyncresp::signed_decimal;
use crate::text::decimal;
use crate::types::{RedisValueRef, RespValue, RetValue, ReturnValue, resp_seq_view, resp_view, ret_seq_view, ret_view};

verus! {

broadcast use vstd::seq_lib::group_seq_properties;

/// What `{:?}` writes for a string: the text quoted, with quotes,
/// backslashes and characters that do not print escaped.
pub uninterp spec fn str_debug_text(s: Seq<char>) -> Seq<char>;

/// `<str as Debug>::fmt`, through `format!("{:?}")`. Claimed: the text is
/// `str_debug_text(s)`.
#[verifier::external_body]
pub(crate) fn str_debug(s: &str) -> (r: String)
    ensures
        r@ == str_debug_text(s@),
{
    format!("{:?}", s)
}

/// An integer in base ten, with a `-` when negative.
pub open spec fn int_text(i: i64) -> Seq<char> {
    signed_decimal(i).map_values(|b: u8| b as char)
}

/// `<i64 as Debug>::fmt`, through `format!("{:?}")`. Claimed: the text is
/// the integer in base ten, with a `-` when negative.
#[verifier::external_body]
fn i64_debug(i: i64) -> (r: String)
    ensures
        r@ == int_text(i),
{
    format!("{:?}", i)
}

/// Items separated by `, `.
pub open spec fn comma_list(items: Seq<Seq<char>>) -> Seq<char>
    decreases items.len(),
{
    if items.len() == 0 {
        Seq::empty()
    } else if items.len() == 1 {
        items[0]
    } else {
        comma_list(items.drop_last()) + ", "@ + items.last()
    }
}

/// A byte list as `{:?}` writes it: each byte in base ten, between
/// brackets, separated by `, `.
pub open spec fn byte_list_text(s: Seq<u8>) -> Seq<char> {
    seq!['['] + comma_list(s.map_values(|b: u8| decimal(b as nat).map_values(|d: u8| d as char))) + seq![']']
}

/// `<[u8] as Debug>::fmt`, through `format!("{:?}")`. Claimed: the text is
/// `byte_list_text(s)`.
#[verifier::external_body]
fn byte_list_debug(s: &[u8]) -> (r: String)
    ensures
        r@ == byte_list_text(s@),
{
    format!("{:?}", s)
}

/// A lowercase hexadecimal digit.
pub open spec fn hex_digit(n: u8) -> char {
    if n < 10 {
        (48 + n) as char
    } else {
        (87 + n) as char
    }
}

/// How a byte string literal writes one byte.
pub open spec fn byte_escape(b: u8) -> Seq<char> {
    if b == 10 {
        seq!['\\', 'n']
    } else if b == 13 {
        seq!['\\', 'r']
    } else if b == 9 {
        seq!['\\', 't']
    } else if b == 92 || b == 34 {
        seq!['\\', b as char]
    } else if b == 0 {
        seq!['\\', '0']
    } else if 0x20 <= b < 0x7f {
        seq![b as char]
    } else {
        seq!['\\', 'x', hex_digit(b / 16), hex_digit(b % 16)]
    }
}

/// Each byte written as in a byte string literal.
pub open spec fn escaped(s: Seq<u8>) -> Seq<char>
    decreases s.len(),
{
    if s.len() == 0 {
        Seq::empty()
    } else {
        escaped(s.drop_last()) + byte_escape(s.last())
    }
}

/// Bytes as `bytes::Bytes` writes them for `{:?}`: a byte string literal.
pub open spec fn bytes_text(s: Seq<u8>) -> Seq<char> {
    seq!['b', '"'] + escaped(s) + seq!['"']
}

/// `<bytes::Bytes as Debug>::fmt`, through `format!("{:?}")`. Claimed: the
/// text is `bytes_text(s)`, as the crate's source writes each byte.
#[verifier::external_body]
fn bytes_debug(s: &[u8]) -> (r: String)
    ensures
        r@ == bytes_text(s@),
{
    format!("{:?}", bytes::Bytes::copy_from_slice(s))
}

/// How the log writes a value.
pub open spec fn debug_text(v: RespValue) -> Seq<char>
    decreases v,
{
    match v {
        RespValue::BulkString(s) => "RedisValueRef::BulkString("@ + str_debug_text(utf8_lossy(s)) + ")"@,
        RespValue::SimpleString(s) => "RedisValueRef::SimpleString("@ + str_debug_text(utf8_lossy(s)) + ")"@,
        RespValue::Error(s) => "RedisValueRef::Error("@ + str_debug_text(utf8_lossy(s)) + ")"@,
        RespValue::ErrorMsg(s) => "RedisValueRef::ErrorMsg("@ + byte_list_text(s) + ")"@,
        RespValue::Int(i) => "RedisValueRef::Int("@ + int_text(i) + ")"@,
        RespValue::NullBulkString => "RedisValueRef::NullBulkString"@,
        RespValue::NullArray => "RedisValueRef::NullArray"@,
        RespValue::Array(a) => "RedisValueRef::Array("@ + debug_all(a) + ")"@,
    }
}

/// Each value as the log writes it, each followed by `,`.
pub open spec fn debug_all(a: Seq<RespValue>) -> Seq<char>
    decreases a,
{
    if a.len() == 0 {
        Seq::empty()
    } else {
        debug_all(a.drop_last()) + debug_text(a.last()) + ","@
    }
}

impl RedisValueRef {
    /// This value as the log writes it.
    pub fn debug_string(&self) -> (r: String)
        ensures
            r@ == debug_text(resp_view(*self)),
        decreases self,
    {
        match self {
            RedisValueRef::BulkString(s) => {
                let mut out = "RedisValueRef::BulkString(".to_owned();
                out.append(str_debug(string_from_utf8_lossy(s.as_slice()).as_str()).as_str());
                out.append(")");
                out
            },
            RedisValueRef::SimpleString(s) => {
                let mut out = "RedisValueRef::SimpleString(".to_owned();
                out.append(str_debug(string_from_utf8_lossy(s.as_slice()).as_str()).as_str());
                out.append(")");
                out
            },
            RedisValueRef::Error(s) => {
                let mut out = "RedisValueRef::Error(".to_owned();
                out.append(str_debug(string_from_utf8_lossy(s.as_slice()).as_str()).as_str());
                out.append(")");
                out
            },
            RedisValueRef::ErrorMsg(s) => {
                let mut out = "RedisValueRef::ErrorMsg(".to_owned();
                out.append(byte_list_debug(s.as_slice()).as_str());
                out.append(")");
                out
            },
            RedisValueRef::Int(i) => {
                let mut out = "RedisValueRef::Int(".to_owned();
                out.append(i64_debug(*i).as_str());
                out.append(")");
                out
            },
            RedisValueRef::NullBulkString => "RedisValueRef::NullBulkString".to_owned(),
            RedisValueRef::NullArray => "RedisValueRef::NullArray".to_owned(),
            RedisValueRef::Array(arr) => {
                let mut out = "RedisValueRef::Array(".to_owned();
                let ghost head = out@;
                let ghost items = resp_seq_view(arr@);
                proof {
                    if arr@.len() > 0 {
                        crate::types::lemma_resp_seq_view_index(arr@, 0);
                    } else {
                        assert(items.len() == 0);
                    }
                    assert(items.take(0) =~= Seq::<RespValue>::empty());
                }
                let n = arr.len();
                for i in 0..n
                    invariant
                        n == arr@.len(),
                        items == resp_seq_view(arr@),
                        items.len() == n,
                        self is Array,
                        self->Array_0 == arr,
                        out@ == head + debug_all(items.take(i as int)),
                {
                    proof {
                        assert(decreases_to!(*self => self->Array_0));
                        assert(decreases_to!(*arr => arr@));
                        assert(decreases_to!(arr@ => arr@[i as int]));
                        crate::types::lemma_resp_seq_view_index(arr@, i as int);
                        assert(items.take(i + 1).drop_last() =~= items.take(i as int));
                    }
                    out.append(arr[i].debug_string().as_str());
                    out.append(",");
                    assert(out@ =~= head + debug_all(items.take(i + 1)));
                }
                assert(items.take(n as int) =~= items);
                out.append(")");
                out
            },
        }
    }
}

/// Items as the log writes them, separated by `, `.
pub open spec fn ret_debug_list(a: Seq<RetValue>) -> Seq<char>
    decreases a,
{
    if a.len() == 0 {
        Seq::empty()
    } else if a.len() == 1 {
        ret_debug_text(a[0])
    } else {
        ret_debug_list(a.drop_last()) + ", "@ + ret_debug_text(a.last())
    }
}

/// Byte strings as the log writes them, separated by `, `.
pub open spec fn bytes_list_text(a: Seq<Seq<u8>>) -> Seq<char> {
    comma_list(a.map_values(|s: Seq<u8>| bytes_text(s)))
}

/// How the log writes an answer inside a list: its variant, then what it
/// holds.
pub open spec fn ret_debug_text(r: RetValue) -> Seq<char>
    decreases r,
{
    match r {
        RetValue::OK => "Ok"@,
        RetValue::StringRes(s) => "StringRes("@ + bytes_text(s) + ")"@,
        RetValue::Error(e) => "Error("@ + byte_list_text(e) + ")"@,
        RetValue::MultiStringRes(ss) => "MultiStringRes(["@ + bytes_list_text(ss) + "])"@,
        RetValue::Array(a) => "Array(["@ + ret_debug_list(a) + "])"@,
        RetValue::IntRes(i) => "IntRes("@ + int_text(i) + ")"@,
        RetValue::Nil => "Nil"@,
        RetValue::Ident(v) => "Ident("@ + debug_text(v) + ")"@,
    }
}

/// How the log writes an answer.
pub open spec fn display_text(r: RetValue) -> Seq<char> {
    match r {
        RetValue::OK => "OK"@,
        RetValue::StringRes(s) => bytes_text(s),
        RetValue::IntRes(i) => int_text(i),
        RetValue::MultiStringRes(ss) => "["@ + bytes_list_text(ss) + "]"@,
        RetValue::Nil => "(nil)"@,
        RetValue::Error(e) => "ERR "@ + byte_list_text(e),
        RetValue::Array(a) => "["@ + ret_debug_list(a) + "]"@,
        RetValue::Ident(v) => debug_text(v),
    }
}

/// Byte strings as the log writes them, separated by `, `.
fn bytes_list_string(ss: &Vec<Vec<u8>>) -> (r: String)
    ensures
        r@ == bytes_list_text(crate::types::bytes_views(ss@)),
{
    let ghost texts = crate::types::bytes_views(ss@).map_values(|s: Seq<u8>| bytes_text(s));
    let mut out = String::new();
    let n = ss.len();
    proof {
        assert(texts.take(0) =~= Seq::<Seq<char>>::empty());
    }
    for i in 0..n
        invariant
            n == ss@.len(),
            texts == crate::types::bytes_views(ss@).map_values(|s: Seq<u8>| bytes_text(s)),
            texts.len() == n,
            out@ == comma_list(texts.take(i as int)),
    {
        proof {
            assert(texts.take(i + 1).drop_last() =~= texts.take(i as int));
        }
        if i > 0 {
            out.append(", ");
        }
        out.append(bytes_debug(ss[i].as_slice()).as_str());
        assert(out@ =~= comma_list(texts.take(i + 1)));
    }
    assert(texts.take(n as int) =~= texts);
    out
}

impl ReturnValue {
    /// This answer as the log writes it inside a list.
    pub fn debug_string(&self) -> (r: String)
        ensures
            r@ == ret_debug_text(ret_view(*self)),
        decreases self,
    {
        match self {
            ReturnValue::OK => "Ok".to_owned(),
            ReturnValue::StringRes(s) => {
                let mut out = "StringRes(".to_owned();
                out.append(bytes_debug(s.as_slice()).as_str());
                out.append(")");
                out
            },
            ReturnValue::Error(e) => {
                let mut out = "Error(".to_owned();
                out.append(byte_list_debug(*e).as_str());
                out.append(")");
                out
            },
            ReturnValue::MultiStringRes(ss) => {
                let mut out = "MultiStringRes([".to_owned();
                out.append(bytes_list_string(ss).as_str());
                out.append("])");
                out
            },
            ReturnValue::Array(a) => {
                let mut out = "Array([".to_owned();
                out.append(returns_list_string(a).as_str());
                out.append("])");
                out
            },
            ReturnValue::IntRes(i) => {
                let mut out = "IntRes(".to_owned();
                out.append(i64_debug(*i).as_str());
                out.append(")");
                out
            },
            ReturnValue::Nil => "Nil".to_owned(),
            ReturnValue::Ident(v) => {
                let mut out = "Ident(".to_owned();
                out.append(v.debug_string().as_str());
                out.append(")");
                out
            },
        }
    }

    /// This answer as the log writes it.
    pub fn display_string(&self) -> (r: String)
        ensures
            r@ == display_text(ret_view(*self)),
    {
        match self {
            ReturnValue::OK => "OK".to_owned(),
            ReturnValue::StringRes(s) => bytes_debug(s.as_slice()),
            ReturnValue::IntRes(i) => i64_debug(*i),
            ReturnValue::MultiStringRes(ss) => {
                let mut out = "[".to_owned();
                out.append(bytes_list_string(ss).as_str());
                out.append("]");
                out
            },
            ReturnValue::Nil => "(nil)".to_owned(),
            ReturnValue::Error(e) => {
                let mut out = "ERR ".to_owned();
                out.append(byte_list_debug(*e).as_str());
                out
            },
            ReturnValue::Array(a) => {
                let mut out = "[".to_owned();
                out.append(returns_list_string(a).as_str());
                out.append("]");
                out
            },
            ReturnValue::Ident(v) => v.debug_string(),
        }
    }
}

/// Answers as the log writes them, separated by `, `.
fn returns_list_string(a: &Vec<ReturnValue>) -> (r: String)
    ensures
        r@ == ret_debug_list(ret_seq_view(a@)),
    decreases a@,
{
    let ghost items = ret_seq_view(a@);
    let mut out = String::new();
    let n = a.len();
    proof {
        if n > 0 {
            crate::types::lemma_ret_seq_view_index(a@, 0);
        } else {
            assert(items.len() == 0);
        }
        assert(items.take(0) =~= Seq::<RetValue>::empty());
    }
    for i in 0..n
        invariant
            n == a@.len(),
            items == ret_seq_view(a@),
            items.len() == n,
            out@ == ret_debug_list(items.take(i as int)),
    {
        proof {
            assert(decreases_to!(a@ => a@[i as int]));
            crate::types::lemma_ret_seq_view_index(a@, i as int);
            assert(items.take(i + 1).drop_last() =~= items.take(i as int));
        }
        if i > 0 {
            out.append(", ");
        }
        out.append(a[i].debug_string().as_str());
        assert(out@ =~= ret_debug_list(items.take(i + 1)));
    }
    assert(items.take(n as int) =~= items);
    out
}

} // verus!
