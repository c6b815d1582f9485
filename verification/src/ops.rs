//! Commands: how requests are read into operations, and how operations
//! are dispatched.
use vstd::prelude::*;
use crate::bloom::BloomOps;
use crate::data_structures::sorted_set::scored_views;
use crate::hashes::{HashOps, hash_interact, hash_outcome};
use crate::keys::{KeyOps, key_effect, key_interact};
use crate::lists::{ListOps, list_effect, list_interact};
use crate::misc::MiscOps;
use crate::rvec::{RVec, rvec_bytes_items, rvec_pair_items, rvec_scored_items};
use crate::sets::{SetOps, set_interact, set_outcome};
use crate::sorted_sets::{ZSetOps, zset_effect, zset_interact};
use crate::text::{
    lowercase, parse_i64, parsed_i64, string_from_utf8_lossy, string_to_lowercase, usize_decimal,
    decimal, utf8_lossy,
};
use crate::rvec::{rvec_bytes_from_vec, rvec_pairs_from_vec};
use crate::types::{
    Count, Key, RedisValueRef, RespValue, RetValue, ReturnValue, State, StateView, Value, bytes_views,
    copy_bytes, resp_seq_view, resp_view, ret_view,
};
use vstd::string::StringSliceAdditionalSpecFns;
use vstd::utf8::encode_utf8;

verus! {

broadcast use vstd::seq_lib::group_seq_properties;

/// The mathematical value of an operation: what it is asked to do, with
/// its arguments as byte sequences.
pub enum Command {
    // strings
    SetValue(Seq<u8>, Seq<u8>),
    MSet(Seq<(Seq<u8>, Seq<u8>)>),
    Get(Seq<u8>),
    MGet(Seq<Seq<u8>>),
    Del(Seq<Seq<u8>>),
    Rename(Seq<u8>, Seq<u8>),
    RenameNx(Seq<u8>, Seq<u8>),
    // sets
    SAdd(Seq<u8>, Seq<Seq<u8>>),
    SMembers(Seq<u8>),
    SCard(Seq<u8>),
    SRem(Seq<u8>, Seq<Seq<u8>>),
    SDiff(Seq<Seq<u8>>),
    SDiffStore(Seq<u8>, Seq<Seq<u8>>),
    SUnion(Seq<Seq<u8>>),
    SUnionStore(Seq<u8>, Seq<Seq<u8>>),
    SInter(Seq<Seq<u8>>),
    SInterStore(Seq<u8>, Seq<Seq<u8>>),
    SPop(Seq<u8>, Option<i64>),
    SIsMember(Seq<u8>, Seq<u8>),
    SMove(Seq<u8>, Seq<u8>, Seq<u8>),
    SRandMembers(Seq<u8>, Option<i64>),
    // lists
    LPush(Seq<u8>, Seq<Seq<u8>>),
    LPushX(Seq<u8>, Seq<u8>),
    RPushX(Seq<u8>, Seq<u8>),
    LLen(Seq<u8>),
    LPop(Seq<u8>),
    RPop(Seq<u8>),
    RPush(Seq<u8>, Seq<Seq<u8>>),
    // hashes
    HGet(Seq<u8>, Seq<u8>),
    HSet(Seq<u8>, Seq<u8>, Seq<u8>),
    HExists(Seq<u8>, Seq<u8>),
    HGetAll(Seq<u8>),
    HMGet(Seq<u8>, Seq<Seq<u8>>),
    // sorted sets
    ZAdd(Seq<u8>, Seq<(i64, Seq<u8>)>),
    ZRem(Seq<u8>, Seq<Seq<u8>>),
    // bloom filters
    BInsert(Seq<u8>, Seq<u8>),
    BContains(Seq<u8>, Seq<u8>),
    // miscellaneous
    Pong,
    Keys,
    FlushAll,
    FlushDB,
    Exists(Seq<Seq<u8>>),
    PrintCmds,
}

/// The byte strings of a small vector, as byte sequences.
pub open spec fn rvec_bytes_view(r: RVec<Vec<u8>>) -> Seq<Seq<u8>> {
    bytes_views(rvec_bytes_items(r))
}

/// The key/value pairs of a small vector, as byte sequences.
pub open spec fn rvec_pairs_view(r: RVec<(Vec<u8>, Vec<u8>)>) -> Seq<(Seq<u8>, Seq<u8>)> {
    rvec_pair_items(r).map_values(|p: (Vec<u8>, Vec<u8>)| (p.0@, p.1@))
}

/// The score/key pairs of a small vector, as byte sequences.
pub open spec fn rvec_scored_view(r: RVec<(i64, Vec<u8>)>) -> Seq<(i64, Seq<u8>)> {
    scored_views(rvec_scored_items(r))
}

/// An operation on a database.
pub enum Ops {
    Keys(KeyOps),
    Sets(SetOps),
    Lists(ListOps),
    Misc(MiscOps),
    Hashes(HashOps),
    ZSets(ZSetOps),
    Blooms(BloomOps),
}

impl Ops {
    /// What this operation asks for.
    pub open spec fn view(&self) -> Command {
        match self {
            Ops::Keys(op) => op@,
            Ops::Sets(op) => op@,
            Ops::Lists(op) => op@,
            Ops::Misc(op) => op@,
            Ops::Hashes(op) => op@,
            Ops::ZSets(op) => op@,
            Ops::Blooms(op) => op@,
        }
    }
}

/// Why a request could not be read as an operation.
#[derive(Debug, PartialEq, Eq)]
pub enum OpsError {
    InvalidStart,
    Noop,
    UnknownOp,
    /// (required, given)
    NotEnoughArgs(usize, usize),
    /// (required, given)
    WrongNumberOfArgs(usize, usize),
    InvalidArgPattern(&'static str),
    InvalidType,
    SyntaxError,
    InvalidArgs(String),
}

/// Texts of the error messages.
pub const INVALID_START: &'static str = "Invalid start!";
pub const UNKNOWN_OP: &'static str = "Unknown Operation!";
pub const ARG_PATTERN: &'static str = "Invalid Arg Pattern, ";
pub const NOT_ENOUGH: &'static str = "Not enough arguments, ";
pub const WRONG_NUMBER: &'static str = "Wrong number of arguments! (";
pub const REQUIRED: &'static str = " required, ";
pub const GIVEN_BANG: &'static str = " given!";
pub const GIVEN_PAREN: &'static str = " given)";
pub const INVALID_TYPE: &'static str = "Invalid Type!";
pub const SYNTAX_ERROR: &'static str = "Syntax Error!";
/// Why a list of keys and values is refused.
pub const EVEN_ARGS: &'static str = "even number of arguments required!";

/// The message with which an error is answered.
pub open spec fn error_message(e: OpsError) -> Seq<u8> {
    match e {
        OpsError::InvalidStart => INVALID_START.spec_bytes(),
        OpsError::UnknownOp => UNKNOWN_OP.spec_bytes(),
        OpsError::InvalidArgPattern(explain) => ARG_PATTERN.spec_bytes() + explain.spec_bytes(),
        OpsError::NotEnoughArgs(req, given) => NOT_ENOUGH.spec_bytes() + decimal(req as nat)
            + REQUIRED.spec_bytes() + decimal(given as nat) + GIVEN_BANG.spec_bytes(),
        OpsError::WrongNumberOfArgs(req, given) => WRONG_NUMBER.spec_bytes() + decimal(req as nat)
            + REQUIRED.spec_bytes() + decimal(given as nat) + GIVEN_PAREN.spec_bytes(),
        OpsError::InvalidType => INVALID_TYPE.spec_bytes(),
        OpsError::SyntaxError => SYNTAX_ERROR.spec_bytes(),
        OpsError::Noop => Seq::empty(),
        OpsError::InvalidArgs(s) => encode_utf8(s@),
    }
}

/// Appends the bytes `b` to `out`.
fn push_bytes(out: &mut Vec<u8>, b: &[u8])
    ensures
        final(out)@ == old(out)@ + b@,
{
    let ghost start = out@;
    let n = b.len();
    for i in 0..n
        invariant
            n == b@.len(),
            out@ == start + b@.take(i as int),
    {
        out.push(b[i]);
        assert(b@.take(i + 1) =~= b@.take(i as int).push(b@[i as int]));
    }
    assert(b@.take(n as int) =~= b@);
}

/// The message `front`, `req`, `mid`, `given`, `back`.
fn counts_message(front: &str, req: usize, given: usize, back: &str) -> (r: Vec<u8>)
    ensures
        r@ == front.spec_bytes() + decimal(req as nat) + REQUIRED.spec_bytes() + decimal(given as nat)
            + back.spec_bytes(),
{
    let mut out: Vec<u8> = Vec::new();
    push_bytes(&mut out, front.as_bytes());
    push_bytes(&mut out, usize_decimal(req).as_slice());
    push_bytes(&mut out, REQUIRED.as_bytes());
    push_bytes(&mut out, usize_decimal(given).as_slice());
    push_bytes(&mut out, back.as_bytes());
    assert(out@ =~= front.spec_bytes() + decimal(req as nat) + REQUIRED.spec_bytes() + decimal(given as nat)
        + back.spec_bytes());
    out
}

impl OpsError {
    /// The error message with which this error is answered.
    pub fn into_redis_value(self) -> (r: RedisValueRef)
        ensures
            resp_view(r) == RespValue::ErrorMsg(error_message(self)),
    {
        let msg: Vec<u8> = match self {
            OpsError::InvalidStart => vstd::slice::slice_to_vec(INVALID_START.as_bytes()),
            OpsError::UnknownOp => vstd::slice::slice_to_vec(UNKNOWN_OP.as_bytes()),
            OpsError::InvalidArgPattern(explain) => {
                let mut out = vstd::slice::slice_to_vec(ARG_PATTERN.as_bytes());
                push_bytes(&mut out, explain.as_bytes());
                out
            },
            OpsError::NotEnoughArgs(req, given) => counts_message(NOT_ENOUGH, req, given, GIVEN_BANG),
            OpsError::WrongNumberOfArgs(req, given) => counts_message(WRONG_NUMBER, req, given, GIVEN_PAREN),
            OpsError::InvalidType => vstd::slice::slice_to_vec(INVALID_TYPE.as_bytes()),
            OpsError::SyntaxError => vstd::slice::slice_to_vec(SYNTAX_ERROR.as_bytes()),
            OpsError::Noop => Vec::new(),
            OpsError::InvalidArgs(s) => vstd::slice::slice_to_vec(s.as_str().as_bytes()),
        };
        RedisValueRef::ErrorMsg(msg)
    }
}

// ---- reading arguments ----

/// The bytes of a bulk string; any other value is of the wrong type.
pub open spec fn value_of(v: RespValue) -> Result<Seq<u8>, OpsError> {
    match v {
        RespValue::BulkString(s) => Ok(s),
        _ => Err(OpsError::InvalidType),
    }
}

/// A count: an integer, or a bulk string that writes one in base ten.
pub open spec fn count_of(v: RespValue) -> Result<i64, OpsError> {
    match v {
        RespValue::Int(e) => Ok(e),
        RespValue::BulkString(s) => match parsed_i64(s) {
            Some(n) => Ok(n),
            None => Err(OpsError::InvalidType),
        },
        _ => Err(OpsError::InvalidType),
    }
}

/// The bytes of each value in order, or the error of the first one that
/// is not a bulk string.
pub open spec fn values_of(vs: Seq<RespValue>) -> Result<Seq<Seq<u8>>, OpsError>
    decreases vs.len(),
{
    if vs.len() == 0 {
        Ok(Seq::empty())
    } else {
        match values_of(vs.drop_last()) {
            Err(e) => Err(e),
            Ok(front) => match value_of(vs.last()) {
                Ok(v) => Ok(front.push(v)),
                Err(e) => Err(e),
            },
        }
    }
}

/// A byte string result, by its bytes.
pub open spec fn bytes_result(r: Result<Vec<u8>, OpsError>) -> Result<Seq<u8>, OpsError> {
    match r {
        Ok(v) => Ok(v@),
        Err(e) => Err(e),
    }
}

/// A result of byte strings, by their bytes.
pub open spec fn list_result(r: Result<Vec<Vec<u8>>, OpsError>) -> Result<Seq<Seq<u8>>, OpsError> {
    match r {
        Ok(v) => Ok(bytes_views(v@)),
        Err(e) => Err(e),
    }
}

/// The bytes of a bulk string.
pub fn value_from(r: &RedisValueRef) -> (v: Result<Value, OpsError>)
    ensures
        bytes_result(v) == value_of(resp_view(*r)),
{
    match r {
        RedisValueRef::BulkString(s) => Ok(copy_bytes(s)),
        _ => Err(OpsError::InvalidType),
    }
}

/// The text of a bulk string, decoded as UTF-8 with invalid sequences
/// replaced.
pub fn string_from(r: &RedisValueRef) -> (v: Result<String, OpsError>)
    ensures
        match v {
            Ok(s) => resp_view(*r) is BulkString && s@ == utf8_lossy(resp_view(*r)->BulkString_0),
            Err(e) => !(resp_view(*r) is BulkString) && e == OpsError::InvalidType,
        },
{
    match r {
        RedisValueRef::BulkString(s) => Ok(string_from_utf8_lossy(s.as_slice())),
        _ => Err(OpsError::InvalidType),
    }
}

/// A count: an integer, or a bulk string that writes one.
pub fn count_from(r: &RedisValueRef) -> (v: Result<Count, OpsError>)
    ensures
        v == count_of(resp_view(*r)),
{
    match r {
        RedisValueRef::Int(e) => Ok(*e),
        RedisValueRef::BulkString(s) => match parse_i64(s.as_slice()) {
            Some(n) => Ok(n),
            None => Err(OpsError::InvalidType),
        },
        _ => Err(OpsError::InvalidType),
    }
}

/// Once a prefix of the values fails, all of them fail the same way.
proof fn lemma_values_of_err(vs: Seq<RespValue>, k: int, e: OpsError)
    requires
        0 <= k <= vs.len(),
        values_of(vs.take(k)) == Err::<Seq<Seq<u8>>, OpsError>(e),
    ensures
        values_of(vs) == Err::<Seq<Seq<u8>>, OpsError>(e),
    decreases vs.len(),
{
    if k < vs.len() {
        assert(vs.drop_last().take(k) =~= vs.take(k));
        lemma_values_of_err(vs.drop_last(), k, e);
    } else {
        assert(vs.take(k) =~= vs);
    }
}

/// The bytes of every value in order.
pub fn values_from_tail(tail: &[RedisValueRef]) -> (r: Result<Vec<Value>, OpsError>)
    ensures
        list_result(r) == values_of(resp_seq_view(tail@)),
{
    let mut items: Vec<Value> = Vec::new();
    let n = tail.len();
    proof {
        assert(tail@.take(0) =~= Seq::<RedisValueRef>::empty());
        assert(resp_seq_view(Seq::<RedisValueRef>::empty()) =~= Seq::<RespValue>::empty());
        assert(bytes_views(items@) =~= Seq::<Seq<u8>>::empty());
    }
    for i in 0..n
        invariant
            n == tail@.len(),
            values_of(resp_seq_view(tail@.take(i as int))) == Ok::<Seq<Seq<u8>>, OpsError>(bytes_views(items@)),
    {
        let ghost front = tail@.take(i as int);
        proof {
            assert(tail@.take(i + 1) =~= front.push(tail@[i as int]));
            crate::types::lemma_resp_seq_view_push(front, tail@[i as int]);
            assert(resp_seq_view(tail@.take(i + 1)).drop_last() =~= resp_seq_view(front));
        }
        match value_from(&tail[i]) {
            Ok(v) => {
                let ghost before = items@;
                items.push(v);
                proof {
                    crate::collections::lemma_bytes_views_push(before, items@[items@.len() - 1]);
                    assert(items@ == before.push(items@[items@.len() - 1]));
                }
            },
            Err(e) => {
                proof {
                    crate::types::lemma_resp_seq_view_index(tail@, i as int);
                    crate::types::lemma_resp_seq_view_subrange(tail@, 0, i + 1);
                    assert(tail@.take(i + 1) =~= tail@.subrange(0, i + 1));
                    assert(resp_seq_view(tail@).take(i + 1) =~= resp_seq_view(tail@).subrange(0, i + 1));
                    lemma_values_of_err(resp_seq_view(tail@), i + 1, e);
                }
                return Err(e);
            },
        }
    }
    assert(tail@.take(n as int) =~= tail@);
    Ok(items)
}

/// The bytes of every value in order, in a small vector.
pub fn collect_from_tail(tail: &[RedisValueRef]) -> (r: Result<RVec<Value>, OpsError>)
    ensures
        match r {
            Ok(v) => values_of(resp_seq_view(tail@)) == Ok::<Seq<Seq<u8>>, OpsError>(rvec_bytes_view(v)),
            Err(e) => values_of(resp_seq_view(tail@)) == Err::<Seq<Seq<u8>>, OpsError>(e),
        },
{
    match values_from_tail(tail) {
        Ok(items) => Ok(rvec_bytes_from_vec(items)),
        Err(e) => Err(e),
    }
}

/// Refuses an odd number of items.
pub fn ensure_even<T>(v: &[T]) -> (r: Result<(), OpsError>)
    ensures
        r == if v@.len() % 2 != 0 {
            Err(OpsError::InvalidArgPattern(EVEN_ARGS))
        } else {
            Ok(())
        },
{
    if v.len() % 2 != 0 {
        return Err(OpsError::InvalidArgPattern(EVEN_ARGS));
    }
    Ok(())
}

/// Refuses fewer than `min_size` items.
pub fn verify_size_lower<T>(v: &[T], min_size: usize) -> (r: Result<(), OpsError>)
    ensures
        r == if v@.len() < min_size {
            Err(OpsError::NotEnoughArgs(min_size, v@.len() as usize))
        } else {
            Ok(())
        },
{
    if v.len() < min_size {
        return Err(OpsError::NotEnoughArgs(min_size, v.len()));
    }
    Ok(())
}

/// Refuses any number of items but `size`.
pub fn verify_size<T>(v: &[T], size: usize) -> (r: Result<(), OpsError>)
    ensures
        r == if v@.len() != size {
            Err(OpsError::WrongNumberOfArgs(size, v@.len() as usize))
        } else {
            Ok(())
        },
{
    if v.len() != size {
        return Err(OpsError::WrongNumberOfArgs(size, v.len()));
    }
    Ok(())
}

// ---- argument patterns ----

/// `r` with its success mapped through `f`.
pub open spec fn map_ok<T>(r: Result<T, OpsError>, f: spec_fn(T) -> Command) -> Result<Command, OpsError> {
    match r {
        Ok(x) => Ok(f(x)),
        Err(e) => Err(e),
    }
}

/// Exactly one value after the command name.
pub open spec fn one_value(t: Seq<RespValue>) -> Result<Seq<u8>, OpsError> {
    if t.len() != 1 {
        Err(OpsError::WrongNumberOfArgs(1, t.len() as usize))
    } else {
        value_of(t[0])
    }
}

/// Exactly two values after the command name.
pub open spec fn two_values(t: Seq<RespValue>) -> Result<(Seq<u8>, Seq<u8>), OpsError> {
    if t.len() != 2 {
        Err(OpsError::WrongNumberOfArgs(2, t.len() as usize))
    } else {
        match value_of(t[0]) {
            Err(e) => Err(e),
            Ok(a) => match value_of(t[1]) {
                Err(e) => Err(e),
                Ok(b) => Ok((a, b)),
            },
        }
    }
}

/// Exactly three values after the command name.
pub open spec fn three_values(t: Seq<RespValue>) -> Result<(Seq<u8>, Seq<u8>, Seq<u8>), OpsError> {
    if t.len() != 3 {
        Err(OpsError::WrongNumberOfArgs(3, t.len() as usize))
    } else {
        match value_of(t[0]) {
            Err(e) => Err(e),
            Ok(a) => match value_of(t[1]) {
                Err(e) => Err(e),
                Ok(b) => match value_of(t[2]) {
                    Err(e) => Err(e),
                    Ok(c) => Ok((a, b, c)),
                },
            },
        }
    }
}

/// At least `min` values after the command name.
pub open spec fn some_values(t: Seq<RespValue>, min: usize) -> Result<Seq<Seq<u8>>, OpsError> {
    if t.len() < min {
        Err(OpsError::NotEnoughArgs(min, t.len() as usize))
    } else {
        values_of(t)
    }
}

/// A key, and a count when a second value follows; further values are
/// ignored.
pub open spec fn key_count(t: Seq<RespValue>) -> Result<(Seq<u8>, Option<i64>), OpsError> {
    if t.len() < 1 {
        Err(OpsError::NotEnoughArgs(1, t.len() as usize))
    } else {
        match value_of(t[0]) {
            Err(e) => Err(e),
            Ok(k) => if t.len() >= 2 {
                match count_of(t[1]) {
                    Err(e) => Err(e),
                    Ok(c) => Ok((k, Some(c))),
                }
            } else {
                Ok((k, None))
            },
        }
    }
}

/// The key and value that follow the command name `a[0]`; further values
/// are ignored.
pub open spec fn key_and_value(a: Seq<RespValue>) -> Result<(Seq<u8>, Seq<u8>), OpsError> {
    if a.len() < 3 {
        Err(OpsError::WrongNumberOfArgs(2, (a.len() - 1) as usize))
    } else {
        match value_of(a[1]) {
            Err(e) => Err(e),
            Ok(k) => match value_of(a[2]) {
                Err(e) => Err(e),
                Ok(v) => Ok((k, v)),
            },
        }
    }
}

/// The key that follows the command name `a[0]`, and the one or more
/// values after it.
pub open spec fn key_and_tail(a: Seq<RespValue>) -> Result<(Seq<u8>, Seq<Seq<u8>>), OpsError> {
    if a.len() < 3 {
        Err(OpsError::WrongNumberOfArgs(3, a.len() as usize))
    } else {
        match value_of(a[1]) {
            Err(e) => Err(e),
            Ok(k) => match values_of(a.skip(2)) {
                Err(e) => Err(e),
                Ok(vs) => Ok((k, vs)),
            },
        }
    }
}

/// Consecutive values taken two by two.
pub open spec fn pair_up(vs: Seq<Seq<u8>>) -> Seq<(Seq<u8>, Seq<u8>)> {
    Seq::new(vs.len() / 2, |i: int| (vs[2 * i], vs[2 * i + 1]))
}

/// Keys and values, alternating.
pub open spec fn pairs_of(t: Seq<RespValue>) -> Result<Seq<(Seq<u8>, Seq<u8>)>, OpsError> {
    if t.len() % 2 != 0 {
        Err(OpsError::InvalidArgPattern(EVEN_ARGS))
    } else {
        match values_of(t) {
            Err(e) => Err(e),
            Ok(vs) => Ok(pair_up(vs)),
        }
    }
}

/// A view of a key result.
pub open spec fn pair_result(r: Result<(Vec<u8>, Vec<u8>), OpsError>) -> Result<(Seq<u8>, Seq<u8>), OpsError> {
    match r {
        Ok(p) => Ok((p.0@, p.1@)),
        Err(e) => Err(e),
    }
}

/// The view of `tail@` where `tail` is `array` past its first `k` items.
proof fn lemma_tail_view(array: Seq<RedisValueRef>, k: int)
    requires
        0 <= k <= array.len(),
    ensures
        resp_seq_view(array.subrange(k, array.len() as int)) == resp_seq_view(array).skip(k),
        resp_seq_view(array).len() == array.len(),
{
    crate::types::lemma_resp_seq_view_subrange(array, k, array.len() as int);
    if array.len() > 0 {
        crate::types::lemma_resp_seq_view_index(array, 0);
    } else {
        assert(resp_seq_view(array).len() == 0);
    }
    assert(resp_seq_view(array).subrange(k, array.len() as int) =~= resp_seq_view(array).skip(k));
}

/// The one value of `t`.
fn single_key(t: &[RedisValueRef]) -> (r: Result<Key, OpsError>)
    ensures
        bytes_result(r) == one_value(resp_seq_view(t@)),
{
    proof {
        lemma_tail_view(t@, 0);
    }
    match verify_size(t, 1) {
        Err(e) => Err(e),
        Ok(()) => {
            proof {
                crate::types::lemma_resp_seq_view_index(t@, 0);
            }
            value_from(&t[0])
        },
    }
}

/// The two values of `t`.
fn key_pair(t: &[RedisValueRef]) -> (r: Result<(Key, Key), OpsError>)
    ensures
        pair_result(r) == two_values(resp_seq_view(t@)),
{
    proof {
        lemma_tail_view(t@, 0);
    }
    match verify_size(t, 2) {
        Err(e) => Err(e),
        Ok(()) => {
            proof {
                crate::types::lemma_resp_seq_view_index(t@, 0);
                crate::types::lemma_resp_seq_view_index(t@, 1);
            }
            match value_from(&t[0]) {
                Err(e) => Err(e),
                Ok(a) => match value_from(&t[1]) {
                    Err(e) => Err(e),
                    Ok(b) => Ok((a, b)),
                },
            }
        },
    }
}

/// The three values of `t`.
fn key_triple(t: &[RedisValueRef]) -> (r: Result<(Key, Key, Value), OpsError>)
    ensures
        match r {
            Ok(x) => three_values(resp_seq_view(t@)) == Ok::<(Seq<u8>, Seq<u8>, Seq<u8>), OpsError>((x.0@, x.1@, x.2@)),
            Err(e) => three_values(resp_seq_view(t@)) == Err::<(Seq<u8>, Seq<u8>, Seq<u8>), OpsError>(e),
        },
{
    proof {
        lemma_tail_view(t@, 0);
    }
    match verify_size(t, 3) {
        Err(e) => Err(e),
        Ok(()) => {
            proof {
                crate::types::lemma_resp_seq_view_index(t@, 0);
                crate::types::lemma_resp_seq_view_index(t@, 1);
                crate::types::lemma_resp_seq_view_index(t@, 2);
            }
            match value_from(&t[0]) {
                Err(e) => Err(e),
                Ok(a) => match value_from(&t[1]) {
                    Err(e) => Err(e),
                    Ok(b) => match value_from(&t[2]) {
                        Err(e) => Err(e),
                        Ok(c) => Ok((a, b, c)),
                    },
                },
            }
        },
    }
}

/// At least `min` values, in a small vector.
fn keys_at_least(t: &[RedisValueRef], min: usize) -> (r: Result<RVec<Key>, OpsError>)
    ensures
        match r {
            Ok(v) => some_values(resp_seq_view(t@), min) == Ok::<Seq<Seq<u8>>, OpsError>(rvec_bytes_view(v)),
            Err(e) => some_values(resp_seq_view(t@), min) == Err::<Seq<Seq<u8>>, OpsError>(e),
        },
{
    proof {
        lemma_tail_view(t@, 0);
    }
    match verify_size_lower(t, min) {
        Err(e) => Err(e),
        Ok(()) => collect_from_tail(t),
    }
}

/// A key, and a count when a second value follows.
fn key_and_count(t: &[RedisValueRef]) -> (r: Result<(Key, Option<Count>), OpsError>)
    ensures
        match r {
            Ok(x) => key_count(resp_seq_view(t@)) == Ok::<(Seq<u8>, Option<i64>), OpsError>((x.0@, x.1)),
            Err(e) => key_count(resp_seq_view(t@)) == Err::<(Seq<u8>, Option<i64>), OpsError>(e),
        },
{
    proof {
        lemma_tail_view(t@, 0);
    }
    match verify_size_lower(t, 1) {
        Err(e) => Err(e),
        Ok(()) => {
            proof {
                crate::types::lemma_resp_seq_view_index(t@, 0);
            }
            match value_from(&t[0]) {
                Err(e) => Err(e),
                Ok(k) => if t.len() >= 2 {
                    proof {
                        crate::types::lemma_resp_seq_view_index(t@, 1);
                    }
                    match count_from(&t[1]) {
                        Err(e) => Err(e),
                        Ok(c) => Ok((k, Some(c))),
                    }
                } else {
                    Ok((k, None))
                },
            }
        },
    }
}

/// The key and value that follow the command name.
pub fn get_key_and_value(array: &[RedisValueRef]) -> (r: Result<(Key, Value), OpsError>)
    requires
        array@.len() >= 1,
    ensures
        pair_result(r) == key_and_value(resp_seq_view(array@)),
{
    proof {
        lemma_tail_view(array@, 0);
    }
    if array.len() < 3 {
        return Err(OpsError::WrongNumberOfArgs(2, array.len() - 1));
    }
    proof {
        crate::types::lemma_resp_seq_view_index(array@, 1);
        crate::types::lemma_resp_seq_view_index(array@, 2);
    }
    let key = match value_from(&array[1]) {
        Ok(k) => k,
        Err(e) => return Err(e),
    };
    let val = match value_from(&array[2]) {
        Ok(v) => v,
        Err(e) => return Err(e),
    };
    Ok((key, val))
}

/// The key that follows the command name, and the values after it.
pub fn get_key_and_tail(array: &[RedisValueRef]) -> (r: Result<(Key, RVec<Value>), OpsError>)
    ensures
        match r {
            Ok(x) => key_and_tail(resp_seq_view(array@)) == Ok::<(Seq<u8>, Seq<Seq<u8>>), OpsError>((x.0@, rvec_bytes_view(x.1))),
            Err(e) => key_and_tail(resp_seq_view(array@)) == Err::<(Seq<u8>, Seq<Seq<u8>>), OpsError>(e),
        },
{
    proof {
        lemma_tail_view(array@, 0);
    }
    if array.len() < 3 {
        return Err(OpsError::WrongNumberOfArgs(3, array.len()));
    }
    proof {
        crate::types::lemma_resp_seq_view_index(array@, 1);
        lemma_tail_view(array@, 2);
    }
    let set_key = match value_from(&array[1]) {
        Ok(k) => k,
        Err(e) => return Err(e),
    };
    let (_, rest) = array.split_at(2);
    match collect_from_tail(rest) {
        Ok(tail) => Ok((set_key, tail)),
        Err(e) => Err(e),
    }
}

/// The `j`-th pair holds values `2 * j` and `2 * j + 1`.
spec fn pair_at(p: (Vec<u8>, Vec<u8>), vs: Seq<Seq<u8>>, j: int) -> bool {
    p.0@ == vs[2 * j] && p.1@ == vs[2 * j + 1]
}

/// Keys and values, alternating, taken two by two.
pub fn get_key_value_pairs(tail: &[RedisValueRef]) -> (r: Result<RVec<(Key, Value)>, OpsError>)
    ensures
        match r {
            Ok(v) => pairs_of(resp_seq_view(tail@)) == Ok::<Seq<(Seq<u8>, Seq<u8>)>, OpsError>(rvec_pairs_view(v)),
            Err(e) => pairs_of(resp_seq_view(tail@)) == Err::<Seq<(Seq<u8>, Seq<u8>)>, OpsError>(e),
        },
{
    proof {
        lemma_tail_view(tail@, 0);
    }
    match ensure_even(tail) {
        Err(e) => return Err(e),
        Ok(()) => {},
    }
    let items = match values_from_tail(tail) {
        Ok(items) => items,
        Err(e) => return Err(e),
    };
    let ghost vs = bytes_views(items@);
    let n = items.len();
    let mut pairs: Vec<(Key, Value)> = Vec::new();
    let mut k: usize = 0;
    while k + 1 < n
        invariant
            n == items@.len(),
            vs == bytes_views(items@),
            k == 2 * pairs@.len(),
            k <= n,
            forall|j: int| 0 <= j < pairs@.len() ==> #[trigger] pair_at(pairs@[j], vs, j),
        decreases n - k,
    {
        let ghost before = pairs@;
        pairs.push((copy_bytes(&items[k]), copy_bytes(&items[k + 1])));
        proof {
            assert forall|j: int| 0 <= j < pairs@.len() implies #[trigger] pair_at(pairs@[j], vs, j) by {
                if j < before.len() {
                    assert(pairs@[j] == before[j]);
                }
            }
        }
        k = k + 2;
    }
    let r = rvec_pairs_from_vec(pairs);
    proof {
        assert(pairs@.len() == vs.len() / 2);
        assert forall|j: int| 0 <= j < pairs@.len() implies #[trigger] rvec_pairs_view(r)[j] == pair_up(vs)[j] by {
            assert(pair_at(pairs@[j], vs, j));
        }
        assert(rvec_pairs_view(r) =~= pair_up(vs));
    }
    Ok(r)
}

// ---- reading requests ----

/// What reading a request gives, by the view of the operation.
pub open spec fn ops_result(r: Result<Ops, OpsError>) -> Result<Command, OpsError> {
    match r {
        Ok(op) => Ok(op@),
        Err(e) => Err(e),
    }
}

/// What the command named `name` (in lower case) asks for, with the
/// request `a`: the name then its arguments. Commands on string values
/// and on the database as a whole.
pub open spec fn command_of(name: Seq<char>, a: Seq<RespValue>) -> Result<Command, OpsError> {
    let t = a.skip(1);
    if name == "ping"@ {
        Ok(Command::Pong)
    } else if name == "keys"@ {
        Ok(Command::Keys)
    } else if name == "flushall"@ {
        Ok(Command::FlushAll)
    } else if name == "flushdb"@ {
        Ok(Command::FlushDB)
    } else if name == "set"@ {
        map_ok(key_and_value(a), |p: (Seq<u8>, Seq<u8>)| Command::SetValue(p.0, p.1))
    } else if name == "mset"@ {
        map_ok(pairs_of(t), |ps: Seq<(Seq<u8>, Seq<u8>)>| Command::MSet(ps))
    } else if name == "get"@ {
        map_ok(one_value(t), |k: Seq<u8>| Command::Get(k))
    } else if name == "mget"@ {
        map_ok(some_values(t, 1), |ks: Seq<Seq<u8>>| Command::MGet(ks))
    } else if name == "del"@ {
        map_ok(some_values(t, 1), |ks: Seq<Seq<u8>>| Command::Del(ks))
    } else if name == "rename"@ {
        map_ok(two_values(t), |p: (Seq<u8>, Seq<u8>)| Command::Rename(p.0, p.1))
    } else if name == "renamenx"@ {
        map_ok(two_values(t), |p: (Seq<u8>, Seq<u8>)| Command::RenameNx(p.0, p.1))
    } else if name == "exists"@ {
        map_ok(some_values(t, 1), |ks: Seq<Seq<u8>>| Command::Exists(ks))
    } else if name == "printcmds"@ {
        Ok(Command::PrintCmds)
    } else {
        set_command_of(name, a)
    }
}

/// What the command named `name` asks for, among the commands on set
/// values; an unknown operation for any other name.
pub open spec fn set_command_of(name: Seq<char>, a: Seq<RespValue>) -> Result<Command, OpsError> {
    let t = a.skip(1);
    if name == "sadd"@ {
        map_ok(key_and_tail(a), |p: (Seq<u8>, Seq<Seq<u8>>)| Command::SAdd(p.0, p.1))
    } else if name == "srem"@ {
        map_ok(key_and_tail(a), |p: (Seq<u8>, Seq<Seq<u8>>)| Command::SRem(p.0, p.1))
    } else if name == "smembers"@ {
        map_ok(one_value(t), |k: Seq<u8>| Command::SMembers(k))
    } else if name == "scard"@ {
        map_ok(one_value(t), |k: Seq<u8>| Command::SCard(k))
    } else if name == "sdiff"@ {
        map_ok(some_values(t, 2), |ks: Seq<Seq<u8>>| Command::SDiff(ks))
    } else if name == "sunion"@ {
        map_ok(some_values(t, 2), |ks: Seq<Seq<u8>>| Command::SUnion(ks))
    } else if name == "sinter"@ {
        map_ok(some_values(t, 2), |ks: Seq<Seq<u8>>| Command::SInter(ks))
    } else if name == "sdiffstore"@ {
        map_ok(key_and_tail(a), |p: (Seq<u8>, Seq<Seq<u8>>)| Command::SDiffStore(p.0, p.1))
    } else if name == "sunionstore"@ {
        map_ok(key_and_tail(a), |p: (Seq<u8>, Seq<Seq<u8>>)| Command::SUnionStore(p.0, p.1))
    } else if name == "sinterstore"@ {
        map_ok(key_and_tail(a), |p: (Seq<u8>, Seq<Seq<u8>>)| Command::SInterStore(p.0, p.1))
    } else if name == "spop"@ {
        map_ok(key_count(t), |p: (Seq<u8>, Option<i64>)| Command::SPop(p.0, p.1))
    } else if name == "sismember"@ {
        map_ok(key_and_value(a), |p: (Seq<u8>, Seq<u8>)| Command::SIsMember(p.0, p.1))
    } else if name == "smove"@ {
        map_ok(three_values(t), |p: (Seq<u8>, Seq<u8>, Seq<u8>)| Command::SMove(p.0, p.1, p.2))
    } else if name == "srandmember"@ {
        map_ok(key_count(t), |p: (Seq<u8>, Option<i64>)| Command::SRandMembers(p.0, p.1))
    } else {
        Err(OpsError::UnknownOp)
    }
}

/// What a request asks for: its first value names the command, matched
/// without regard to case.
pub open spec fn array_request(a: Seq<RespValue>) -> Result<Command, OpsError> {
    match value_of(a[0]) {
        Err(e) => Err(e),
        Ok(head) => command_of(lowercase(utf8_lossy(head)), a),
    }
}

/// What a value received asks for: a request is a non-empty array.
pub open spec fn request(v: RespValue) -> Result<Command, OpsError> {
    match v {
        RespValue::Array(a) => if a.len() == 0 {
            Err(OpsError::Noop)
        } else {
            array_request(a)
        },
        _ => Err(OpsError::UnknownOp),
    }
}

/// Whether `name` is the command name `lit`.
fn is_name(name: &str, lit: &str) -> (b: bool)
    ensures
        b == (name@ == lit@),
{
    name.to_owned() == lit.to_owned()
}

/// At least `min` values.
fn values_at_least(t: &[RedisValueRef], min: usize) -> (r: Result<Vec<Key>, OpsError>)
    ensures
        list_result(r) == some_values(resp_seq_view(t@), min),
{
    proof {
        lemma_tail_view(t@, 0);
    }
    match verify_size_lower(t, min) {
        Err(e) => Err(e),
        Ok(()) => values_from_tail(t),
    }
}

/// Reads the command named `name` (already in lower case), with the
/// request `array`: the name then its arguments.
pub fn translate_command(name: &str, array: &[RedisValueRef]) -> (r: Result<Ops, OpsError>)
    requires
        array@.len() >= 1,
    ensures
        ops_result(r) == command_of(name@, resp_seq_view(array@)),
{
    let (_, tail) = array.split_at(1);
    proof {
        lemma_tail_view(array@, 1);
    }
    if is_name(name, "ping") {
        Ok(Ops::Misc(MiscOps::Pong))
    } else if is_name(name, "keys") {
        Ok(Ops::Misc(MiscOps::Keys))
    } else if is_name(name, "flushall") {
        Ok(Ops::Misc(MiscOps::FlushAll))
    } else if is_name(name, "flushdb") {
        Ok(Ops::Misc(MiscOps::FlushDB))
    } else if is_name(name, "set") {
        match get_key_and_value(array) {
            Ok((k, v)) => Ok(Ops::Keys(KeyOps::SetValue(k, v))),
            Err(e) => Err(e),
        }
    } else if is_name(name, "mset") {
        match get_key_value_pairs(tail) {
            Ok(ps) => Ok(Ops::Keys(KeyOps::MSet(ps))),
            Err(e) => Err(e),
        }
    } else if is_name(name, "get") {
        match single_key(tail) {
            Ok(k) => Ok(Ops::Keys(KeyOps::Get(k))),
            Err(e) => Err(e),
        }
    } else if is_name(name, "mget") {
        match keys_at_least(tail, 1) {
            Ok(ks) => Ok(Ops::Keys(KeyOps::MGet(ks))),
            Err(e) => Err(e),
        }
    } else if is_name(name, "del") {
        match keys_at_least(tail, 1) {
            Ok(ks) => Ok(Ops::Keys(KeyOps::Del(ks))),
            Err(e) => Err(e),
        }
    } else if is_name(name, "rename") {
        match key_pair(tail) {
            Ok((k, nk)) => Ok(Ops::Keys(KeyOps::Rename(k, nk))),
            Err(e) => Err(e),
        }
    } else if is_name(name, "renamenx") {
        match key_pair(tail) {
            Ok((k, nk)) => Ok(Ops::Keys(KeyOps::RenameNx(k, nk))),
            Err(e) => Err(e),
        }
    } else if is_name(name, "exists") {
        match values_at_least(tail, 1) {
            Ok(ks) => Ok(Ops::Misc(MiscOps::Exists(ks))),
            Err(e) => Err(e),
        }
    } else if is_name(name, "printcmds") {
        Ok(Ops::Misc(MiscOps::PrintCmds))
    } else {
        translate_set_command(name, array)
    }
}

/// Reads the commands on set values.
fn translate_set_command(name: &str, array: &[RedisValueRef]) -> (r: Result<Ops, OpsError>)
    requires
        array@.len() >= 1,
    ensures
        ops_result(r) == set_command_of(name@, resp_seq_view(array@)),
{
    let (_, tail) = array.split_at(1);
    proof {
        lemma_tail_view(array@, 1);
    }
    if is_name(name, "sadd") {
        match get_key_and_tail(array) {
            Ok((k, vs)) => Ok(Ops::Sets(SetOps::SAdd(k, vs))),
            Err(e) => Err(e),
        }
    } else if is_name(name, "srem") {
        match get_key_and_tail(array) {
            Ok((k, vs)) => Ok(Ops::Sets(SetOps::SRem(k, vs))),
            Err(e) => Err(e),
        }
    } else if is_name(name, "smembers") {
        match single_key(tail) {
            Ok(k) => Ok(Ops::Sets(SetOps::SMembers(k))),
            Err(e) => Err(e),
        }
    } else if is_name(name, "scard") {
        match single_key(tail) {
            Ok(k) => Ok(Ops::Sets(SetOps::SCard(k))),
            Err(e) => Err(e),
        }
    } else if is_name(name, "sdiff") {
        match keys_at_least(tail, 2) {
            Ok(ks) => Ok(Ops::Sets(SetOps::SDiff(ks))),
            Err(e) => Err(e),
        }
    } else if is_name(name, "sunion") {
        match keys_at_least(tail, 2) {
            Ok(ks) => Ok(Ops::Sets(SetOps::SUnion(ks))),
            Err(e) => Err(e),
        }
    } else if is_name(name, "sinter") {
        match keys_at_least(tail, 2) {
            Ok(ks) => Ok(Ops::Sets(SetOps::SInter(ks))),
            Err(e) => Err(e),
        }
    } else if is_name(name, "sdiffstore") {
        match get_key_and_tail(array) {
            Ok((k, ks)) => Ok(Ops::Sets(SetOps::SDiffStore(k, ks))),
            Err(e) => Err(e),
        }
    } else if is_name(name, "sunionstore") {
        match get_key_and_tail(array) {
            Ok((k, ks)) => Ok(Ops::Sets(SetOps::SUnionStore(k, ks))),
            Err(e) => Err(e),
        }
    } else if is_name(name, "sinterstore") {
        match get_key_and_tail(array) {
            Ok((k, ks)) => Ok(Ops::Sets(SetOps::SInterStore(k, ks))),
            Err(e) => Err(e),
        }
    } else if is_name(name, "spop") {
        match key_and_count(tail) {
            Ok((k, c)) => Ok(Ops::Sets(SetOps::SPop(k, c))),
            Err(e) => Err(e),
        }
    } else if is_name(name, "sismember") {
        match get_key_and_value(array) {
            Ok((k, m)) => Ok(Ops::Sets(SetOps::SIsMember(k, m))),
            Err(e) => Err(e),
        }
    } else if is_name(name, "smove") {
        match key_triple(tail) {
            Ok((src, dest, m)) => Ok(Ops::Sets(SetOps::SMove(src, dest, m))),
            Err(e) => Err(e),
        }
    } else if is_name(name, "srandmember") {
        match key_and_count(tail) {
            Ok((k, c)) => Ok(Ops::Sets(SetOps::SRandMembers(k, c))),
            Err(e) => Err(e),
        }
    } else {
        Err(OpsError::UnknownOp)
    }
}

/// Reads a request: its first value names the command, in any case.
pub fn translate_array(array: &[RedisValueRef]) -> (r: Result<Ops, OpsError>)
    requires
        array@.len() >= 1,
    ensures
        ops_result(r) == array_request(resp_seq_view(array@)),
{
    proof {
        crate::types::lemma_resp_seq_view_index(array@, 0);
    }
    let head = match value_from(&array[0]) {
        Ok(h) => h,
        Err(e) => return Err(e),
    };
    let head_s = string_from_utf8_lossy(head.as_slice());
    let name = string_to_lowercase(head_s.as_str());
    translate_command(name.as_str(), array)
}

/// Reads a value received as an operation.
pub fn translate(rv: &RedisValueRef) -> (r: Result<Ops, OpsError>)
    ensures
        ops_result(r) == request(resp_view(*rv)),
{
    match rv {
        RedisValueRef::Array(vals) => if vals.len() == 0 {
            Err(OpsError::Noop)
        } else {
            translate_array(vals.as_slice())
        },
        _ => Err(OpsError::UnknownOp),
    }
}

// ---- running operations ----

/// The kind of value that a command works on.
pub enum CommandKind {
    Strings,
    Sets,
    Lists,
    Hashes,
    SortedSets,
    Blooms,
    Database,
}

/// The kind of value that `c` works on.
pub open spec fn kind(c: Command) -> CommandKind {
    match c {
        Command::SetValue(..) => CommandKind::Strings,
        Command::MSet(..) => CommandKind::Strings,
        Command::Get(..) => CommandKind::Strings,
        Command::MGet(..) => CommandKind::Strings,
        Command::Del(..) => CommandKind::Strings,
        Command::Rename(..) => CommandKind::Strings,
        Command::RenameNx(..) => CommandKind::Strings,
        Command::SAdd(..) => CommandKind::Sets,
        Command::SMembers(..) => CommandKind::Sets,
        Command::SCard(..) => CommandKind::Sets,
        Command::SRem(..) => CommandKind::Sets,
        Command::SDiff(..) => CommandKind::Sets,
        Command::SDiffStore(..) => CommandKind::Sets,
        Command::SUnion(..) => CommandKind::Sets,
        Command::SUnionStore(..) => CommandKind::Sets,
        Command::SInter(..) => CommandKind::Sets,
        Command::SInterStore(..) => CommandKind::Sets,
        Command::SPop(..) => CommandKind::Sets,
        Command::SIsMember(..) => CommandKind::Sets,
        Command::SMove(..) => CommandKind::Sets,
        Command::SRandMembers(..) => CommandKind::Sets,
        Command::LPush(..) => CommandKind::Lists,
        Command::LPushX(..) => CommandKind::Lists,
        Command::RPushX(..) => CommandKind::Lists,
        Command::LLen(..) => CommandKind::Lists,
        Command::LPop(..) => CommandKind::Lists,
        Command::RPop(..) => CommandKind::Lists,
        Command::RPush(..) => CommandKind::Lists,
        Command::HGet(..) => CommandKind::Hashes,
        Command::HSet(..) => CommandKind::Hashes,
        Command::HExists(..) => CommandKind::Hashes,
        Command::HGetAll(..) => CommandKind::Hashes,
        Command::HMGet(..) => CommandKind::Hashes,
        Command::ZAdd(..) => CommandKind::SortedSets,
        Command::ZRem(..) => CommandKind::SortedSets,
        Command::BInsert(..) => CommandKind::Blooms,
        Command::BContains(..) => CommandKind::Blooms,
        Command::Pong => CommandKind::Database,
        Command::Keys => CommandKind::Database,
        Command::FlushAll => CommandKind::Database,
        Command::FlushDB => CommandKind::Database,
        Command::PrintCmds => CommandKind::Database,
        Command::Exists(..) => CommandKind::Database,
    }
}

/// What a command on values (not on the database as a whole, nor on a
/// bloom filter) may do to a database `s`, leaving `s2` and answering `r`.
pub open spec fn value_outcome(s: StateView, c: Command, s2: StateView, r: RetValue) -> bool {
    match kind(c) {
        CommandKind::Strings => s2 == key_effect(s, c).0 && r == key_effect(s, c).1,
        CommandKind::Sets => set_outcome(s, c, s2, r),
        CommandKind::Lists => s2 == list_effect(s, c).0 && r == list_effect(s, c).1,
        CommandKind::Hashes => hash_outcome(s, c, s2, r),
        CommandKind::SortedSets => s2 == zset_effect(s, c).0 && r == zset_effect(s, c).1,
        CommandKind::Blooms => false,
        CommandKind::Database => false,
    }
}

/// Runs an operation on values against a database. Operations on the
/// database as a whole go through `misc_interact`; those on bloom filters
/// through the server, which keeps the filters.
pub fn op_interact(op: Ops, state: &mut State) -> (r: ReturnValue)
    requires
        !(op is Misc),
        !(op is Blooms),
    ensures
        value_outcome(old(state)@, op@, final(state)@, ret_view(r)),
{
    match op {
        Ops::Keys(o) => key_interact(o, state),
        Ops::Sets(o) => set_interact(o, state),
        Ops::Lists(o) => list_interact(o, state),
        Ops::Hashes(o) => hash_interact(o, state),
        Ops::ZSets(o) => zset_interact(o, state),
        Ops::Misc(_) => ReturnValue::Nil,
        Ops::Blooms(_) => ReturnValue::Nil,
    }
}

} // verus!
