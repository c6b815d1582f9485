//! Common types: the values that flow in and out of the server, and the
//! values that operations return.
use vstd::prelude::*;
use vstd::utf8::encode_utf8;
use crate::rvec::{RVec, rvec_bytes_items, rvec_bytes_into_vec};
use crate::data_structures::sorted_set::SortedSetView;
use crate::keyspace::{
    KeyStates, states_contents, states_insert, states_keys, states_new,
    KeyHash, KeyList, KeySet, KeyString, KeyZSet, hashes_contents, hashes_new, kv_contents, kv_new,
    lists_contents, lists_new, sets_contents, sets_new, zsets_contents, zsets_new,
};

verus! {

/// The type of values stored in the database.
pub type Value = Vec<u8>;
/// The type that indexes the data structures.
pub type Key = Vec<u8>;
/// Used by commands that count.
pub type Count = i64;
/// Used to represent indices.
pub type Index = i64;
/// Scores in sorted sets.
pub type Score = i64;
/// Timeout unit.
pub type UTimeout = i64;

/// The canonical type for values flowing through the system. Inputs are
/// converted into `RedisValueRef`s, and outputs are converted into them.
#[derive(PartialEq, Eq, Debug)]
pub enum RedisValueRef {
    BulkString(Vec<u8>),
    SimpleString(Vec<u8>),
    Error(Vec<u8>),
    Int(i64),
    Array(Vec<RedisValueRef>),
    /// Not a RESP type: an internal error message.
    ErrorMsg(Vec<u8>),
    NullArray,
    NullBulkString,
}

/// The mathematical value of a `RedisValueRef`.
pub enum RespValue {
    BulkString(Seq<u8>),
    SimpleString(Seq<u8>),
    Error(Seq<u8>),
    Int(i64),
    Array(Seq<RespValue>),
    ErrorMsg(Seq<u8>),
    NullArray,
    NullBulkString,
}

pub open spec fn resp_view(v: RedisValueRef) -> RespValue
    decreases v,
{
    match v {
        RedisValueRef::BulkString(s) => RespValue::BulkString(s@),
        RedisValueRef::SimpleString(s) => RespValue::SimpleString(s@),
        RedisValueRef::Error(s) => RespValue::Error(s@),
        RedisValueRef::Int(i) => RespValue::Int(i),
        RedisValueRef::Array(a) => RespValue::Array(resp_seq_view(a@)),
        RedisValueRef::ErrorMsg(s) => RespValue::ErrorMsg(s@),
        RedisValueRef::NullArray => RespValue::NullArray,
        RedisValueRef::NullBulkString => RespValue::NullBulkString,
    }
}

pub open spec fn resp_seq_view(s: Seq<RedisValueRef>) -> Seq<RespValue>
    decreases s,
{
    if s.len() == 0 {
        Seq::empty()
    } else {
        resp_seq_view(s.drop_last()).push(resp_view(s.last()))
    }
}

impl RedisValueRef {
    /// The mathematical value of this value.
    pub open spec fn view(&self) -> RespValue {
        resp_view(*self)
    }
}

impl Clone for RedisValueRef {
    fn clone(&self) -> (r: Self)
        ensures
            r.view() == self.view(),
        decreases self,
    {
        match self {
            RedisValueRef::BulkString(s) => RedisValueRef::BulkString(copy_bytes(s)),
            RedisValueRef::SimpleString(s) => RedisValueRef::SimpleString(copy_bytes(s)),
            RedisValueRef::Error(s) => RedisValueRef::Error(copy_bytes(s)),
            RedisValueRef::Int(i) => RedisValueRef::Int(*i),
            RedisValueRef::Array(a) => {
                let mut out: Vec<RedisValueRef> = Vec::new();
                let n = a.len();
                for i in 0..n
                    invariant
                        n == a.len(),
                        self is Array,
                        self->Array_0 == a,
                        out.len() == i,
                        forall|j: int| 0 <= j < i ==> #[trigger] resp_view(out@[j]) == resp_view(a@[j]),
                {
                    proof {
                        assert(decreases_to!(*self => self->Array_0));
                        assert(decreases_to!(*a => a@));
                        assert(decreases_to!(a@ => a@[i as int]));
                        assert(decreases_to!(self => a@[i as int]));
                    }
                    out.push(a[i].clone());
                }
                proof {
                    lemma_resp_seq_view_pointwise(out@, a@);
                }
                RedisValueRef::Array(out)
            },
            RedisValueRef::ErrorMsg(s) => RedisValueRef::ErrorMsg(copy_bytes(s)),
            RedisValueRef::NullArray => RedisValueRef::NullArray,
            RedisValueRef::NullBulkString => RedisValueRef::NullBulkString,
        }
    }
}

/// Two sequences whose items have the same views have the same view.
pub proof fn lemma_resp_seq_view_pointwise(a: Seq<RedisValueRef>, b: Seq<RedisValueRef>)
    requires
        a.len() == b.len(),
        forall|j: int| 0 <= j < a.len() ==> #[trigger] resp_view(a[j]) == resp_view(b[j]),
    ensures
        resp_seq_view(a) == resp_seq_view(b),
    decreases a.len(),
{
    if a.len() > 0 {
        let (a1, b1) = (a.drop_last(), b.drop_last());
        assert forall|j: int| 0 <= j < a1.len() implies #[trigger] resp_view(a1[j]) == resp_view(
            b1[j],
        ) by {
            assert(a1[j] == a[j] && b1[j] == b[j]);
        }
        lemma_resp_seq_view_pointwise(a1, b1);
        assert(resp_view(a[a.len() - 1]) == resp_view(b[b.len() - 1]));
    }
}

/// A copy of a byte string.
pub fn copy_bytes(s: &Vec<u8>) -> (r: Vec<u8>)
    ensures
        r@ == s@,
{
    vstd::slice::slice_to_vec(s.as_slice())
}

/// Special constants of the RESP protocol.
pub const NULL_BULK_STRING: &'static str = "$-1\r\n";
pub const NULL_ARRAY: &'static str = "*-1\r\n";
pub const EMPTY_ARRAY: &'static str = "*0\r\n";

/// What operations return. Maps directly onto `RedisValueRef`s.
#[derive(Debug, PartialEq, Eq)]
pub enum ReturnValue {
    OK,
    StringRes(Value),
    Error(&'static [u8]),
    MultiStringRes(Vec<Value>),
    Array(Vec<ReturnValue>),
    IntRes(i64),
    Nil,
    Ident(RedisValueRef),
}

/// The mathematical value of a `ReturnValue`.
pub enum RetValue {
    OK,
    StringRes(Seq<u8>),
    Error(Seq<u8>),
    MultiStringRes(Seq<Seq<u8>>),
    Array(Seq<RetValue>),
    IntRes(i64),
    Nil,
    Ident(RespValue),
}

pub open spec fn bytes_views(s: Seq<Vec<u8>>) -> Seq<Seq<u8>> {
    s.map_values(|b: Vec<u8>| b@)
}

pub open spec fn ret_view(r: ReturnValue) -> RetValue
    decreases r,
{
    match r {
        ReturnValue::OK => RetValue::OK,
        ReturnValue::StringRes(s) => RetValue::StringRes(s@),
        ReturnValue::Error(e) => RetValue::Error(e@),
        ReturnValue::MultiStringRes(ms) => RetValue::MultiStringRes(bytes_views(ms@)),
        ReturnValue::Array(a) => RetValue::Array(ret_seq_view(a@)),
        ReturnValue::IntRes(i) => RetValue::IntRes(i),
        ReturnValue::Nil => RetValue::Nil,
        ReturnValue::Ident(v) => RetValue::Ident(resp_view(v)),
    }
}

pub open spec fn ret_seq_view(s: Seq<ReturnValue>) -> Seq<RetValue>
    decreases s,
{
    if s.len() == 0 {
        Seq::empty()
    } else {
        ret_seq_view(s.drop_last()).push(ret_view(s.last()))
    }
}

impl ReturnValue {
    /// The mathematical value of this value.
    pub open spec fn view(&self) -> RetValue {
        ret_view(*self)
    }

    /// The RESP value that this return value is sent as.
    pub fn to_redis_value(&self) -> (r: RedisValueRef)
        ensures
            resp_view(r) == ret_to_resp(ret_view(*self)),
        decreases self,
    {
        match self {
            ReturnValue::OK => RedisValueRef::SimpleString(vec![79u8, 75u8]),
            ReturnValue::Nil => RedisValueRef::NullBulkString,
            ReturnValue::StringRes(s) => RedisValueRef::BulkString(copy_bytes(s)),
            ReturnValue::MultiStringRes(ms) => {
                let mut out: Vec<RedisValueRef> = Vec::new();
                let n = ms.len();
                for i in 0..n
                    invariant
                        n == ms.len(),
                        out.len() == i,
                        forall|j: int|
                            0 <= j < i ==> #[trigger] resp_view(out@[j]) == RespValue::BulkString(
                                ms@[j]@,
                            ),
                {
                    out.push(RedisValueRef::BulkString(copy_bytes(&ms[i])));
                }
                proof {
                    let target = bytes_views(ms@).map_values(|s: Seq<u8>| RespValue::BulkString(s));
                    assert forall|j: int| 0 <= j < out@.len() implies resp_seq_view(out@)[j]
                        == target[j] by {
                        lemma_resp_seq_view_index(out@, j);
                    }
                    if out@.len() > 0 {
                        lemma_resp_seq_view_index(out@, 0);
                    } else {
                        assert(resp_seq_view(out@).len() == 0);
                    }
                    assert(resp_seq_view(out@) =~= target);
                }
                RedisValueRef::Array(out)
            },
            ReturnValue::IntRes(i) => RedisValueRef::Int(*i),
            ReturnValue::Error(e) => RedisValueRef::Error(vstd::slice::slice_to_vec(*e)),
            ReturnValue::Array(a) => {
                let mut out: Vec<RedisValueRef> = Vec::new();
                let n = a.len();
                for i in 0..n
                    invariant
                        n == a.len(),
                        self is Array,
                        self->Array_0 == a,
                        out.len() == i,
                        forall|j: int|
                            0 <= j < i ==> #[trigger] resp_view(out@[j]) == ret_to_resp(
                                ret_view(a@[j]),
                            ),
                {
                    proof {
                        assert(decreases_to!(*self => self->Array_0));
                        assert(decreases_to!(*a => a@));
                        assert(decreases_to!(a@ => a@[i as int]));
                    }
                    out.push(a[i].to_redis_value());
                }
                proof {
                    let target = ret_seq_to_resp(ret_seq_view(a@));
                    assert forall|j: int| 0 <= j < out@.len() implies resp_seq_view(out@)[j]
                        == target[j] by {
                        lemma_resp_seq_view_index(out@, j);
                        lemma_ret_seq_view_index(a@, j);
                        lemma_ret_seq_to_resp_index(ret_seq_view(a@), j);
                    }
                    if out@.len() > 0 {
                        lemma_resp_seq_view_index(out@, 0);
                        lemma_ret_seq_view_index(a@, 0);
                        lemma_ret_seq_to_resp_index(ret_seq_view(a@), 0);
                    } else {
                        assert(resp_seq_view(out@).len() == 0);
                        assert(ret_seq_view(a@).len() == 0);
                        assert(ret_seq_to_resp(ret_seq_view(a@)).len() == 0);
                    }
                    assert(resp_seq_view(out@) =~= target);
                }
                RedisValueRef::Array(out)
            },
            ReturnValue::Ident(r) => r.clone(),
        }
    }

    /// Converts this return value into the RESP value it is sent as.
    pub fn into_redis_value(self) -> (r: RedisValueRef)
        ensures
            resp_view(r) == ret_to_resp(ret_view(self)),
    {
        self.to_redis_value()
    }

    /// An array of bulk string results, one per value, in order.
    pub fn from_values(vals: RVec<Value>) -> (r: ReturnValue)
        ensures
            ret_view(r) == RetValue::Array(string_results(bytes_views(rvec_bytes_items(vals)))),
    {
        strings_array(rvec_bytes_into_vec(vals))
    }

    /// A multi-string result of the UTF-8 bytes of each string, in order.
    pub fn from_strings(strings: Vec<String>) -> (r: ReturnValue)
        ensures
            r matches ReturnValue::MultiStringRes(ms) && ms@.len() == strings@.len() && forall|i: int|
                0 <= i < strings@.len() ==> #[trigger] ms@[i]@ == encode_utf8(strings@[i]@),
    {
        let mut out: Vec<Value> = Vec::new();
        let n = strings.len();
        for i in 0..n
            invariant
                n == strings@.len(),
                out@.len() == i,
                forall|j: int| 0 <= j < i ==> #[trigger] out@[j]@ == encode_utf8(strings@[j]@),
        {
            out.push(vstd::slice::slice_to_vec(strings[i].as_str().as_bytes()));
        }
        ReturnValue::MultiStringRes(out)
    }

    /// Whether this is an error value.
    pub fn is_error(&self) -> (b: bool)
        ensures
            b == (self is Error),
    {
        if let ReturnValue::Error(_) = *self {
            return true;
        }
        false
    }
}

impl From<Count> for ReturnValue {
    fn from(count: Count) -> (r: Self) {
        ReturnValue::IntRes(count)
    }
}

impl vstd::std_specs::convert::FromSpecImpl<Count> for ReturnValue {
    open spec fn obeys_from_spec() -> bool {
        true
    }

    open spec fn from_spec(v: Count) -> Self {
        ReturnValue::IntRes(v)
    }
}

/// The bytes of the simple string "OK".
pub open spec fn ok_bytes() -> Seq<u8> {
    seq![79u8, 75u8]
}

/// The RESP value that a return value is sent as.
pub open spec fn ret_to_resp(r: RetValue) -> RespValue
    decreases r,
{
    match r {
        RetValue::OK => RespValue::SimpleString(ok_bytes()),
        RetValue::Nil => RespValue::NullBulkString,
        RetValue::StringRes(s) => RespValue::BulkString(s),
        RetValue::MultiStringRes(ms) => RespValue::Array(
            ms.map_values(|s: Seq<u8>| RespValue::BulkString(s)),
        ),
        RetValue::IntRes(i) => RespValue::Int(i),
        RetValue::Error(e) => RespValue::Error(e),
        RetValue::Array(a) => RespValue::Array(ret_seq_to_resp(a)),
        RetValue::Ident(v) => v,
    }
}

pub open spec fn ret_seq_to_resp(s: Seq<RetValue>) -> Seq<RespValue>
    decreases s,
{
    if s.len() == 0 {
        Seq::empty()
    } else {
        ret_seq_to_resp(s.drop_last()).push(ret_to_resp(s.last()))
    }
}

/// Bulk string results for each byte string, in order.
pub open spec fn string_results(ms: Seq<Seq<u8>>) -> Seq<RetValue> {
    ms.map_values(|m: Seq<u8>| RetValue::StringRes(m))
}

/// An array of bulk string results, one per byte string, in order.
pub fn strings_array(vals: Vec<Value>) -> (r: ReturnValue)
    ensures
        ret_view(r) == RetValue::Array(string_results(bytes_views(vals@))),
{
    let mut out: Vec<ReturnValue> = Vec::new();
    let n = vals.len();
    for i in 0..n
        invariant
            n == vals@.len(),
            out@.len() == i,
            forall|j: int| 0 <= j < i ==> #[trigger] ret_view(out@[j]) == RetValue::StringRes(vals@[j]@),
    {
        out.push(ReturnValue::StringRes(copy_bytes(&vals[i])));
    }
    proof {
        lemma_ret_seq_view_pointwise(out@, string_results(bytes_views(vals@)));
    }
    ReturnValue::Array(out)
}

/// Two sequences that agree item by item under `ret_view`.
pub proof fn lemma_ret_seq_view_pointwise(a: Seq<ReturnValue>, t: Seq<RetValue>)
    requires
        a.len() == t.len(),
        forall|j: int| 0 <= j < a.len() ==> #[trigger] ret_view(a[j]) == t[j],
    ensures
        ret_seq_view(a) == t,
    decreases a.len(),
{
    if a.len() > 0 {
        let (a1, t1) = (a.drop_last(), t.drop_last());
        assert forall|j: int| 0 <= j < a1.len() implies #[trigger] ret_view(a1[j]) == t1[j] by {
            assert(a1[j] == a[j] && t1[j] == t[j]);
        }
        lemma_ret_seq_view_pointwise(a1, t1);
        assert(ret_view(a[a.len() - 1]) == t[t.len() - 1]);
        assert(t1.push(t.last()) =~= t);
    } else {
        assert(t =~= Seq::<RetValue>::empty());
    }
}

/// The view of a stretch of a sequence is that stretch of its view.
pub proof fn lemma_resp_seq_view_subrange(s: Seq<RedisValueRef>, i: int, j: int)
    requires
        0 <= i <= j <= s.len(),
    ensures
        resp_seq_view(s.subrange(i, j)) == resp_seq_view(s).subrange(i, j),
{
    let a = resp_seq_view(s.subrange(i, j));
    let b = resp_seq_view(s).subrange(i, j);
    if s.len() > 0 {
        lemma_resp_seq_view_index(s, 0);
    } else {
        assert(resp_seq_view(s).len() == 0);
    }
    if j > i {
        lemma_resp_seq_view_index(s.subrange(i, j), 0);
    } else {
        assert(s.subrange(i, j).len() == 0);
        assert(a.len() == 0);
    }
    assert forall|k: int| 0 <= k < j - i implies a[k] == b[k] by {
        lemma_resp_seq_view_index(s.subrange(i, j), k);
        lemma_resp_seq_view_index(s, i + k);
    }
    assert(a =~= b);
}

/// `resp_seq_view` of a sequence with one more item.
pub proof fn lemma_resp_seq_view_push(s: Seq<RedisValueRef>, x: RedisValueRef)
    ensures
        resp_seq_view(s.push(x)) == resp_seq_view(s).push(resp_view(x)),
{
    assert(s.push(x).drop_last() == s);
}

/// The `i`-th item of `resp_seq_view(s)` is the view of `s[i]`.
pub proof fn lemma_resp_seq_view_index(s: Seq<RedisValueRef>, i: int)
    requires
        0 <= i < s.len(),
    ensures
        resp_seq_view(s).len() == s.len(),
        resp_seq_view(s)[i] == resp_view(s[i]),
    decreases s.len(),
{
    let d = s.drop_last();
    if d.len() > 0 {
        lemma_resp_seq_view_index(d, if i < d.len() { i } else { 0 });
    } else {
        assert(resp_seq_view(d).len() == 0);
    }
}

/// The length of `ret_seq_to_resp(s)` and its items.
pub proof fn lemma_ret_seq_to_resp_index(s: Seq<RetValue>, i: int)
    requires
        0 <= i < s.len(),
    ensures
        ret_seq_to_resp(s).len() == s.len(),
        ret_seq_to_resp(s)[i] == ret_to_resp(s[i]),
    decreases s.len(),
{
    let d = s.drop_last();
    if d.len() > 0 {
        lemma_ret_seq_to_resp_index(d, if i < d.len() { i } else { 0 });
    } else {
        assert(ret_seq_to_resp(d).len() == 0);
    }
}

/// The `i`-th item of `ret_seq_view(s)` is the view of `s[i]`.
pub proof fn lemma_ret_seq_view_index(s: Seq<ReturnValue>, i: int)
    requires
        0 <= i < s.len(),
    ensures
        ret_seq_view(s).len() == s.len(),
        ret_seq_view(s)[i] == ret_view(s[i]),
    decreases s.len(),
{
    let d = s.drop_last();
    if d.len() > 0 {
        lemma_ret_seq_view_index(d, if i < d.len() { i } else { 0 });
    } else {
        assert(ret_seq_view(d).len() == 0);
    }
}

/// The mathematical value of one database.
pub struct StateView {
    pub kv: Map<Seq<u8>, Seq<u8>>,
    pub sets: Map<Seq<u8>, Set<Seq<u8>>>,
    pub lists: Map<Seq<u8>, Seq<Seq<u8>>>,
    pub hashes: Map<Seq<u8>, Map<Seq<u8>, Seq<u8>>>,
    pub zsets: Map<Seq<u8>, SortedSetView>,
}

/// An empty database.
pub open spec fn empty_state() -> StateView {
    StateView {
        kv: Map::empty(),
        sets: Map::empty(),
        lists: Map::empty(),
        hashes: Map::empty(),
        zsets: Map::empty(),
    }
}

/// One database: the structures that the operations of each kind work on.
pub struct State {
    pub kv: KeyString,
    pub sets: KeySet,
    pub lists: KeyList,
    pub hashes: KeyHash,
    pub zsets: KeyZSet,
}

impl State {
    /// The mathematical value of this database.
    pub open spec fn view(&self) -> StateView {
        StateView {
            kv: kv_contents(self.kv),
            sets: sets_contents(self.sets),
            lists: lists_contents(self.lists),
            hashes: hashes_contents(self.hashes),
            zsets: zsets_contents(self.zsets),
        }
    }

    /// An empty database.
    pub fn new() -> (r: Self)
        ensures
            r@ == empty_state(),
    {
        let r = State {
            kv: kv_new(),
            sets: sets_new(),
            lists: lists_new(),
            hashes: hashes_new(),
            zsets: zsets_new(),
        };
        assert(r@.kv =~= Map::empty());
        assert(r@.sets =~= Map::empty());
        assert(r@.lists =~= Map::empty());
        assert(r@.hashes =~= Map::empty());
        assert(r@.zsets =~= Map::empty());
        r
    }

    /// Removes everything from this database.
    pub fn flush(&mut self)
        ensures
            final(self)@ == empty_state(),
    {
        *self = State::new();
    }
}

impl Default for State {
    fn default() -> (r: Self)
        ensures
            r@ == empty_state(),
    {
        State::new()
    }
}

/// The mathematical value of the set of databases.
pub struct StateStoreView {
    pub states: Map<i64, StateView>,
    pub commands_threshold: u64,
    pub commands_ran_since_save: u64,
    pub memory_only: bool,
}

/// Every database emptied; the same indices.
pub open spec fn flushed(states: Map<i64, StateView>) -> Map<i64, StateView> {
    states.map_values(|v: StateView| empty_state())
}

/// The databases of a server, by index, with the bookkeeping of when to
/// save them.
pub struct StateStore {
    pub states: KeyStates,
    /// How many commands run between two saves.
    pub commands_threshold: u64,
    /// How many commands ran since the last save.
    pub commands_ran_since_save: u64,
    /// Whether the databases are never saved.
    pub memory_only: bool,
}

impl StateStore {
    /// The mathematical value of this store.
    pub open spec fn view(&self) -> StateStoreView {
        StateStoreView {
            states: states_contents(self.states),
            commands_threshold: self.commands_threshold,
            commands_ran_since_save: self.commands_ran_since_save,
            memory_only: self.memory_only,
        }
    }

    /// A store without databases, which saves every `commands_threshold`
    /// commands unless `memory_only`.
    pub fn new(commands_threshold: u64, memory_only: bool) -> (r: Self)
        ensures
            r@.states == Map::<i64, StateView>::empty(),
            r@.commands_threshold == commands_threshold,
            r@.commands_ran_since_save == 0,
            r@.memory_only == memory_only,
    {
        let r = StateStore { states: states_new(), commands_threshold, commands_ran_since_save: 0, memory_only };
        assert(r@.states =~= Map::<i64, StateView>::empty());
        r
    }

    /// Empties every database of the store.
    pub fn flush_all(&mut self)
        ensures
            final(self)@ == (StateStoreView { states: flushed(old(self)@.states), ..old(self)@ }),
    {
        let ghost s0 = self@.states;
        let keys = states_keys(&self.states);
        proof {
            keys@.unique_seq_to_set();
        }
        let n = keys.len();
        for i in 0..n
            invariant
                n == keys@.len(),
                keys@.no_duplicates(),
                keys@.to_set() == s0.dom(),
                self@.states.dom() == s0.dom(),
                self.commands_threshold == old(self).commands_threshold,
                self.commands_ran_since_save == old(self).commands_ran_since_save,
                self.memory_only == old(self).memory_only,
                forall|j: int| 0 <= j < i ==> self@.states[#[trigger] keys@[j]] == empty_state(),
                forall|x: i64| s0.contains_key(x) && !keys@.take(i as int).contains(x) ==> self@.states[x] == s0[x],
        {
            let ghost before = self@.states;
            states_insert(&mut self.states, keys[i], State::new());
            proof {
                assert(keys@.to_set().contains(keys@[i as int]));
                assert(self@.states.dom() =~= s0.dom());
                assert forall|x: i64| s0.contains_key(x) && !keys@.take(i + 1).contains(x) implies self@.states[x] == s0[x] by {
                    assert(keys@.take(i + 1) =~= keys@.take(i as int).push(keys@[i as int]));
                    if x == keys@[i as int] {
                        assert(keys@.take(i + 1)[i as int] == x);
                    }
                    if keys@.take(i as int).contains(x) {
                        let j = choose|j: int| 0 <= j < i && keys@.take(i as int)[j] == x;
                        assert(keys@.take(i + 1)[j] == x);
                    }
                }
                assert forall|j: int| 0 <= j < i + 1 implies self@.states[#[trigger] keys@[j]] == empty_state() by {
                    if j < i {
                        assert(before[keys@[j]] == empty_state());
                    }
                }
            }
        }
        proof {
            assert forall|x: i64| #[trigger] s0.contains_key(x) implies self@.states[x] == empty_state() by {
                assert(keys@.to_set().contains(x));
                let j = choose|j: int| 0 <= j < n && keys@[j] == x;
                assert(self@.states[keys@[j]] == empty_state());
            }
            assert(self@.states =~= flushed(s0));
        }
    }
}

impl Default for StateStore {
    fn default() -> (r: Self)
        ensures
            r@.states == Map::<i64, StateView>::empty(),
            r@.commands_threshold == 0,
            r@.commands_ran_since_save == 0,
            !r@.memory_only,
    {
        StateStore::new(0, false)
    }
}

} // verus!
