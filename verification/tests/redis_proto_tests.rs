use redis_proto::asyncresp::{decode, encode_value, RESPError};
use redis_proto::data_structures::receipt_map::{KeyTypes, RecieptMap};
use redis_proto::data_structures::sorted_set::{SortedSet, SortedSetMember};
use redis_proto::hashes::{hash_interact, HashOps};
use redis_proto::keys::{key_interact, KeyOps};
use redis_proto::lists::{list_interact, ListOps};
use redis_proto::misc::{misc_interact, MiscOps};
use redis_proto::ops::{
    count_from, ensure_even, get_key_and_tail, get_key_and_value, get_key_value_pairs, op_interact,
    string_from, translate, translate_array, translate_command, value_from, verify_size,
    verify_size_lower, Ops, OpsError,
};
use redis_proto::rvec::{pairs_rvec, rvec_values, scored_rvec, values_rvec};
use redis_proto::scripting::{bytes_to_string, FFIError};
use redis_proto::server::{incr_and_save_if_required, process_command};
use redis_proto::sets::{set_interact, SetOps};
use redis_proto::sorted_sets::{zset_interact, ZSetOps};
use redis_proto::text::{parse_i64, usize_decimal};
use redis_proto::types::{RedisValueRef, ReturnValue, State, StateStore};

fn b(s: &str) -> Vec<u8> {
    s.as_bytes().to_vec()
}

fn bulk(s: &str) -> RedisValueRef {
    RedisValueRef::BulkString(b(s))
}

fn request(words: &[&str]) -> RedisValueRef {
    RedisValueRef::Array(words.iter().map(|w| bulk(w)).collect())
}

fn vals(words: &[&str]) -> Vec<Vec<u8>> {
    words.iter().map(|w| b(w)).collect()
}

fn sres(s: &str) -> ReturnValue {
    ReturnValue::StringRes(b(s))
}

fn sorted_strings(r: ReturnValue) -> Vec<Vec<u8>> {
    let mut out: Vec<Vec<u8>> = match r {
        ReturnValue::Array(items) => items
            .into_iter()
            .map(|x| match x {
                ReturnValue::StringRes(s) => s,
                other => panic!("not a string: {:?}", other),
            })
            .collect(),
        ReturnValue::MultiStringRes(items) => items,
        other => panic!("not a list: {:?}", other),
    };
    out.sort();
    out
}

// ---- strings ----

#[test]
fn get_after_set() {
    let mut st = State::new();
    assert_eq!(key_interact(KeyOps::SetValue(b("a"), b("1")), &mut st), ReturnValue::OK);
    assert_eq!(key_interact(KeyOps::Get(b("a")), &mut st), sres("1"));
    assert_eq!(key_interact(KeyOps::Get(b("missing")), &mut st), ReturnValue::Nil);
}

#[test]
fn set_keeps_other_keys() {
    let mut st = State::new();
    key_interact(KeyOps::SetValue(b("a"), b("1")), &mut st);
    key_interact(KeyOps::SetValue(b("b"), b("2")), &mut st);
    key_interact(KeyOps::SetValue(b("a"), b("3")), &mut st);
    assert_eq!(key_interact(KeyOps::Get(b("b")), &mut st), sres("2"));
    assert_eq!(key_interact(KeyOps::Get(b("a")), &mut st), sres("3"));
}

#[test]
fn mset_last_write_wins() {
    let mut st = State::new();
    let pairs = pairs_rvec(vec![(b("a"), b("1")), (b("b"), b("2")), (b("a"), b("3"))]);
    assert_eq!(key_interact(KeyOps::MSet(pairs), &mut st), ReturnValue::OK);
    let r = key_interact(KeyOps::MGet(values_rvec(vals(&["a", "b", "c"]))), &mut st);
    assert_eq!(r, ReturnValue::Array(vec![sres("3"), sres("2"), ReturnValue::Nil]));
}

#[test]
fn del_counts_and_removes() {
    let mut st = State::new();
    key_interact(KeyOps::SetValue(b("a"), b("1")), &mut st);
    key_interact(KeyOps::SetValue(b("b"), b("2")), &mut st);
    let r = key_interact(KeyOps::Del(values_rvec(vals(&["a", "a", "z"]))), &mut st);
    assert_eq!(r, ReturnValue::IntRes(1));
    assert_eq!(key_interact(KeyOps::Get(b("a")), &mut st), ReturnValue::Nil);
    assert_eq!(key_interact(KeyOps::Get(b("b")), &mut st), sres("2"));
}

#[test]
fn rename_moves_value() {
    let mut st = State::new();
    key_interact(KeyOps::SetValue(b("a"), b("1")), &mut st);
    assert_eq!(key_interact(KeyOps::Rename(b("a"), b("c")), &mut st), ReturnValue::OK);
    assert_eq!(key_interact(KeyOps::Get(b("c")), &mut st), sres("1"));
    assert_eq!(key_interact(KeyOps::Get(b("a")), &mut st), ReturnValue::Nil);
    assert_eq!(
        key_interact(KeyOps::Rename(b("a"), b("d")), &mut st),
        ReturnValue::Error(b"no such key")
    );
}

#[test]
fn renamenx_only_to_free_key() {
    let mut st = State::new();
    key_interact(KeyOps::SetValue(b("a"), b("1")), &mut st);
    key_interact(KeyOps::SetValue(b("b"), b("2")), &mut st);
    assert_eq!(key_interact(KeyOps::RenameNx(b("a"), b("b")), &mut st), ReturnValue::IntRes(0));
    assert_eq!(key_interact(KeyOps::RenameNx(b("a"), b("c")), &mut st), ReturnValue::IntRes(1));
    assert_eq!(key_interact(KeyOps::Get(b("c")), &mut st), sres("1"));
    assert_eq!(
        key_interact(KeyOps::RenameNx(b("zz"), b("y")), &mut st),
        ReturnValue::Error(b"no such key")
    );
}

// ---- lists ----

#[test]
fn lpop_undoes_lpush() {
    let mut st = State::new();
    let r = list_interact(ListOps::LPush(b("l"), values_rvec(vals(&["1", "2", "3"]))), &mut st);
    assert_eq!(r, ReturnValue::IntRes(3));
    assert_eq!(list_interact(ListOps::LPop(b("l")), &mut st), sres("3"));
    assert_eq!(list_interact(ListOps::RPop(b("l")), &mut st), sres("1"));
    assert_eq!(list_interact(ListOps::LLen(b("l")), &mut st), ReturnValue::IntRes(1));
}

#[test]
fn rpop_undoes_rpush() {
    let mut st = State::new();
    list_interact(ListOps::RPush(b("l"), values_rvec(vals(&["1", "2"]))), &mut st);
    assert_eq!(list_interact(ListOps::RPush(b("l"), values_rvec(vals(&["3"]))), &mut st), ReturnValue::IntRes(3));
    assert_eq!(list_interact(ListOps::RPop(b("l")), &mut st), sres("3"));
    assert_eq!(list_interact(ListOps::LPop(b("l")), &mut st), sres("1"));
}

#[test]
fn pushx_needs_existing_list() {
    let mut st = State::new();
    assert_eq!(list_interact(ListOps::LPushX(b("l"), b("1")), &mut st), ReturnValue::IntRes(0));
    assert_eq!(list_interact(ListOps::RPushX(b("l"), b("1")), &mut st), ReturnValue::IntRes(0));
    assert_eq!(list_interact(ListOps::LLen(b("l")), &mut st), ReturnValue::IntRes(0));
    list_interact(ListOps::RPush(b("l"), values_rvec(vals(&["m"]))), &mut st);
    assert_eq!(list_interact(ListOps::LPushX(b("l"), b("f")), &mut st), ReturnValue::IntRes(2));
    assert_eq!(list_interact(ListOps::RPushX(b("l"), b("b")), &mut st), ReturnValue::IntRes(3));
    assert_eq!(list_interact(ListOps::LPop(b("l")), &mut st), sres("f"));
    assert_eq!(list_interact(ListOps::RPop(b("l")), &mut st), sres("b"));
}

#[test]
fn pop_of_empty_or_missing_list_is_nil() {
    let mut st = State::new();
    assert_eq!(list_interact(ListOps::LPop(b("l")), &mut st), ReturnValue::Nil);
    list_interact(ListOps::RPush(b("l"), values_rvec(vals(&["x"]))), &mut st);
    assert_eq!(list_interact(ListOps::RPop(b("l")), &mut st), sres("x"));
    assert_eq!(list_interact(ListOps::RPop(b("l")), &mut st), ReturnValue::Nil);
    assert_eq!(list_interact(ListOps::LLen(b("l")), &mut st), ReturnValue::IntRes(0));
}

// ---- hashes ----

#[test]
fn hget_after_hset() {
    let mut st = State::new();
    assert_eq!(hash_interact(HashOps::HSet(b("h"), b("f"), b("v")), &mut st), ReturnValue::OK);
    assert_eq!(hash_interact(HashOps::HGet(b("h"), b("f")), &mut st), sres("v"));
    assert_eq!(hash_interact(HashOps::HGet(b("h"), b("g")), &mut st), ReturnValue::Nil);
    assert_eq!(hash_interact(HashOps::HGet(b("x"), b("f")), &mut st), ReturnValue::Nil);
    assert_eq!(hash_interact(HashOps::HExists(b("h"), b("f")), &mut st), ReturnValue::IntRes(1));
    assert_eq!(hash_interact(HashOps::HExists(b("h"), b("g")), &mut st), ReturnValue::IntRes(0));
    assert_eq!(hash_interact(HashOps::HExists(b("x"), b("g")), &mut st), ReturnValue::IntRes(0));
}

#[test]
fn hgetall_lists_fields_and_values() {
    let mut st = State::new();
    hash_interact(HashOps::HSet(b("h"), b("f1"), b("v1")), &mut st);
    hash_interact(HashOps::HSet(b("h"), b("f2"), b("v2")), &mut st);
    hash_interact(HashOps::HSet(b("h"), b("f1"), b("v3")), &mut st);
    match hash_interact(HashOps::HGetAll(b("h")), &mut st) {
        ReturnValue::MultiStringRes(flat) => {
            assert_eq!(flat.len(), 4);
            let mut pairs: Vec<(Vec<u8>, Vec<u8>)> =
                flat.chunks(2).map(|c| (c[0].clone(), c[1].clone())).collect();
            pairs.sort();
            assert_eq!(pairs, vec![(b("f1"), b("v3")), (b("f2"), b("v2"))]);
        }
        other => panic!("unexpected {:?}", other),
    }
    assert_eq!(
        hash_interact(HashOps::HGetAll(b("none")), &mut st),
        ReturnValue::MultiStringRes(vec![])
    );
}

#[test]
fn hmget_answers_each_field() {
    let mut st = State::new();
    hash_interact(HashOps::HSet(b("h"), b("f"), b("v")), &mut st);
    let r = hash_interact(HashOps::HMGet(b("h"), values_rvec(vals(&["f", "g"]))), &mut st);
    assert_eq!(r, ReturnValue::Array(vec![sres("v"), ReturnValue::Nil]));
    let r = hash_interact(HashOps::HMGet(b("none"), values_rvec(vals(&["f", "g"]))), &mut st);
    assert_eq!(r, ReturnValue::Array(vec![ReturnValue::Nil, ReturnValue::Nil]));
}

// ---- sets ----

#[test]
fn sadd_counts_new_members() {
    let mut st = State::new();
    let r = set_interact(SetOps::SAdd(b("s"), values_rvec(vals(&["a", "b", "a"]))), &mut st);
    assert_eq!(r, ReturnValue::IntRes(2));
    let r = set_interact(SetOps::SAdd(b("s"), values_rvec(vals(&["b", "c"]))), &mut st);
    assert_eq!(r, ReturnValue::IntRes(1));
    assert_eq!(set_interact(SetOps::SCard(b("s")), &mut st), ReturnValue::IntRes(3));
    assert_eq!(set_interact(SetOps::SCard(b("none")), &mut st), ReturnValue::IntRes(0));
}

#[test]
fn sismember_after_sadd() {
    let mut st = State::new();
    set_interact(SetOps::SAdd(b("s"), values_rvec(vals(&["a", "b"]))), &mut st);
    assert_eq!(set_interact(SetOps::SIsMember(b("s"), b("a")), &mut st), ReturnValue::IntRes(1));
    assert_eq!(set_interact(SetOps::SIsMember(b("s"), b("z")), &mut st), ReturnValue::IntRes(0));
    assert_eq!(set_interact(SetOps::SIsMember(b("t"), b("a")), &mut st), ReturnValue::IntRes(0));
}

#[test]
fn smembers_lists_each_member_once() {
    let mut st = State::new();
    set_interact(SetOps::SAdd(b("s"), values_rvec(vals(&["b", "a", "b"]))), &mut st);
    let r = set_interact(SetOps::SMembers(b("s")), &mut st);
    assert_eq!(sorted_strings(r), vals(&["a", "b"]));
    let r = set_interact(SetOps::SMembers(b("none")), &mut st);
    assert_eq!(r, ReturnValue::Array(vec![]));
}

#[test]
fn srem_on_existing_set_adds_its_values() {
    // Removing runs the same insertion as adding, for a set that exists.
    let mut st = State::new();
    set_interact(SetOps::SAdd(b("s"), values_rvec(vals(&["a"]))), &mut st);
    let r = set_interact(SetOps::SRem(b("s"), values_rvec(vals(&["a", "b"]))), &mut st);
    assert_eq!(r, ReturnValue::IntRes(1));
    assert_eq!(set_interact(SetOps::SCard(b("s")), &mut st), ReturnValue::IntRes(2));
    let r = set_interact(SetOps::SRem(b("none"), values_rvec(vals(&["a"]))), &mut st);
    assert_eq!(r, ReturnValue::IntRes(0));
    assert_eq!(set_interact(SetOps::SCard(b("none")), &mut st), ReturnValue::IntRes(0));
}

#[test]
fn smove_moves_member() {
    let mut st = State::new();
    set_interact(SetOps::SAdd(b("src"), values_rvec(vals(&["a", "b"]))), &mut st);
    assert_eq!(set_interact(SetOps::SMove(b("src"), b("dst"), b("a")), &mut st), ReturnValue::IntRes(1));
    assert_eq!(set_interact(SetOps::SIsMember(b("src"), b("a")), &mut st), ReturnValue::IntRes(0));
    assert_eq!(set_interact(SetOps::SIsMember(b("dst"), b("a")), &mut st), ReturnValue::IntRes(1));
    assert_eq!(set_interact(SetOps::SMove(b("src"), b("dst"), b("zz")), &mut st), ReturnValue::IntRes(0));
    assert_eq!(set_interact(SetOps::SMove(b("nope"), b("dst"), b("a")), &mut st), ReturnValue::IntRes(0));
}

fn three_sets(st: &mut State) {
    set_interact(SetOps::SAdd(b("x"), values_rvec(vals(&["a", "b", "c"]))), st);
    set_interact(SetOps::SAdd(b("y"), values_rvec(vals(&["b", "c", "d"]))), st);
    set_interact(SetOps::SAdd(b("z"), values_rvec(vals(&["c", "e"]))), st);
}

#[test]
fn set_combinations() {
    let mut st = State::new();
    three_sets(&mut st);
    let r = set_interact(SetOps::SInter(values_rvec(vals(&["x", "y", "z"]))), &mut st);
    assert_eq!(sorted_strings(r), vals(&["c"]));
    let r = set_interact(SetOps::SUnion(values_rvec(vals(&["x", "y", "z"]))), &mut st);
    assert_eq!(sorted_strings(r), vals(&["a", "b", "c", "d", "e"]));
    let r = set_interact(SetOps::SDiff(values_rvec(vals(&["x", "y"]))), &mut st);
    assert_eq!(sorted_strings(r), vals(&["a"]));
    let r = set_interact(SetOps::SDiff(values_rvec(vals(&["nope", "y", "x"]))), &mut st);
    assert_eq!(sorted_strings(r), vals(&["d"]));
    let r = set_interact(SetOps::SUnion(values_rvec(vals(&["nope", "none"]))), &mut st);
    assert_eq!(r, ReturnValue::Array(vec![]));
}

#[test]
fn set_combinations_stored() {
    let mut st = State::new();
    three_sets(&mut st);
    let r = set_interact(SetOps::SInterStore(b("i"), values_rvec(vals(&["x", "y"]))), &mut st);
    assert_eq!(r, ReturnValue::IntRes(2));
    let r = set_interact(SetOps::SMembers(b("i")), &mut st);
    assert_eq!(sorted_strings(r), vals(&["b", "c"]));
    let r = set_interact(SetOps::SUnionStore(b("u"), values_rvec(vals(&["x", "z"]))), &mut st);
    assert_eq!(r, ReturnValue::IntRes(4));
    let r = set_interact(SetOps::SDiffStore(b("d"), values_rvec(vals(&["x", "y", "z"]))), &mut st);
    assert_eq!(r, ReturnValue::IntRes(1));
    let r = set_interact(SetOps::SDiffStore(b("n"), values_rvec(vals(&["none"]))), &mut st);
    assert_eq!(r, ReturnValue::IntRes(0));
    assert_eq!(set_interact(SetOps::SCard(b("n")), &mut st), ReturnValue::IntRes(0));
}

#[test]
fn spop_removes_what_it_answers() {
    let mut st = State::new();
    set_interact(SetOps::SAdd(b("s"), values_rvec(vals(&["a", "b", "c"]))), &mut st);
    let popped = match set_interact(SetOps::SPop(b("s"), None), &mut st) {
        ReturnValue::StringRes(m) => m,
        other => panic!("unexpected {:?}", other),
    };
    assert_eq!(set_interact(SetOps::SIsMember(b("s"), popped), &mut st), ReturnValue::IntRes(0));
    assert_eq!(set_interact(SetOps::SCard(b("s")), &mut st), ReturnValue::IntRes(2));
    let r = set_interact(SetOps::SPop(b("s"), Some(5)), &mut st);
    assert_eq!(sorted_strings(r).len(), 2);
    assert_eq!(set_interact(SetOps::SCard(b("s")), &mut st), ReturnValue::IntRes(0));
    assert_eq!(set_interact(SetOps::SPop(b("s"), None), &mut st), ReturnValue::Nil);
    assert_eq!(set_interact(SetOps::SPop(b("none"), Some(2)), &mut st), ReturnValue::Array(vec![]));
    assert_eq!(
        set_interact(SetOps::SPop(b("s"), Some(-1)), &mut st),
        ReturnValue::Error(b"value is out of range, must be positive")
    );
}

#[test]
fn srandmember_leaves_set_alone() {
    let mut st = State::new();
    set_interact(SetOps::SAdd(b("s"), values_rvec(vals(&["a", "b", "c"]))), &mut st);
    let r = set_interact(SetOps::SRandMembers(b("s"), Some(2)), &mut st);
    let picked = sorted_strings(r);
    assert_eq!(picked.len(), 2);
    assert!(picked.iter().all(|m| vals(&["a", "b", "c"]).contains(m)));
    assert_eq!(set_interact(SetOps::SCard(b("s")), &mut st), ReturnValue::IntRes(3));
    match set_interact(SetOps::SRandMembers(b("s"), None), &mut st) {
        ReturnValue::StringRes(m) => assert!(vals(&["a", "b", "c"]).contains(&m)),
        other => panic!("unexpected {:?}", other),
    }
    assert_eq!(set_interact(SetOps::SRandMembers(b("none"), None), &mut st), ReturnValue::Nil);
    assert_eq!(
        set_interact(SetOps::SRandMembers(b("s"), Some(-2)), &mut st),
        ReturnValue::Error(b"value is out of range, must be positive")
    );
}

// ---- sorted sets ----

#[test]
fn zrem_undoes_zadd() {
    let mut st = State::new();
    let items = scored_rvec(vec![(1, b("a")), (2, b("b")), (3, b("a"))]);
    assert_eq!(zset_interact(ZSetOps::ZAdd(b("z"), items), &mut st), ReturnValue::IntRes(2));
    let again = scored_rvec(vec![(9, b("a"))]);
    assert_eq!(zset_interact(ZSetOps::ZAdd(b("z"), again), &mut st), ReturnValue::IntRes(0));
    let r = zset_interact(ZSetOps::ZRem(b("z"), values_rvec(vals(&["a", "x"]))), &mut st);
    assert_eq!(r, ReturnValue::IntRes(1));
    let r = zset_interact(ZSetOps::ZRem(b("z"), values_rvec(vals(&["a"]))), &mut st);
    assert_eq!(r, ReturnValue::IntRes(0));
    let r = zset_interact(ZSetOps::ZRem(b("none"), values_rvec(vals(&["a"]))), &mut st);
    assert_eq!(r, ReturnValue::IntRes(0));
}

#[test]
fn sorted_set_keeps_first_score() {
    let mut z = SortedSet::new();
    assert_eq!(z.add(scored_rvec(vec![(5, b("m")), (1, b("n"))])), 2);
    assert_eq!(z.add(scored_rvec(vec![(7, b("m"))])), 0);
    let mut members = z.members();
    members.sort();
    assert_eq!(members, vec![(1, b("n")), (5, b("m"))]);
    assert_eq!(z.remove(&[b("m"), b("m")]), 1);
    assert_eq!(z.members(), vec![(1, b("n"))]);
}

#[test]
fn sorted_set_members_order_by_score_then_name() {
    let a = SortedSetMember::new(b"b", 1);
    let c = SortedSetMember::new(b"a", 2);
    let d = SortedSetMember::new(b"c", 1);
    assert!(a < c);
    assert!(a < d);
    assert!(d < c);
    assert_eq!(a.partial_cmp(&a), Some(std::cmp::Ordering::Equal));
}

// ---- the database as a whole ----

#[test]
fn ping_answers_pong() {
    let mut st = State::new();
    let mut store = StateStore::new(10, true);
    assert_eq!(misc_interact(MiscOps::Pong, &mut st, &mut store), sres("PONG"));
}

#[test]
fn flushdb_empties() {
    let mut st = State::new();
    let mut store = StateStore::new(10, true);
    key_interact(KeyOps::SetValue(b("a"), b("1")), &mut st);
    set_interact(SetOps::SAdd(b("s"), values_rvec(vals(&["m"]))), &mut st);
    let r = misc_interact(MiscOps::Exists(vals(&["a", "s", "zz", "a"])), &mut st, &mut store);
    assert_eq!(r, ReturnValue::IntRes(3));
    assert_eq!(misc_interact(MiscOps::FlushDB, &mut st, &mut store), ReturnValue::OK);
    let r = misc_interact(MiscOps::Exists(vals(&["a", "s"])), &mut st, &mut store);
    assert_eq!(r, ReturnValue::IntRes(0));
    assert_eq!(misc_interact(MiscOps::Keys, &mut st, &mut store), ReturnValue::MultiStringRes(vec![]));
}

#[test]
fn keys_lists_every_kind() {
    let mut st = State::new();
    let mut store = StateStore::new(10, true);
    key_interact(KeyOps::SetValue(b("k"), b("1")), &mut st);
    set_interact(SetOps::SAdd(b("s"), values_rvec(vals(&["m"]))), &mut st);
    list_interact(ListOps::RPush(b("l"), values_rvec(vals(&["m"]))), &mut st);
    hash_interact(HashOps::HSet(b("h"), b("f"), b("v")), &mut st);
    zset_interact(ZSetOps::ZAdd(b("z"), scored_rvec(vec![(1, b("m"))])), &mut st);
    let r = misc_interact(MiscOps::Keys, &mut st, &mut store);
    assert_eq!(r, ReturnValue::MultiStringRes(vals(&["k", "s", "l", "h", "z"])));
    assert_eq!(misc_interact(MiscOps::PrintCmds, &mut st, &mut store), ReturnValue::OK);
}

#[test]
fn flushall_empties_every_database() {
    let mut store = StateStore::new(100, true);
    let set0 = request(&["set", "a", "1"]);
    let set1 = request(&["set", "b", "2"]);
    process_command(&mut store, 0, &set0);
    process_command(&mut store, 1, &set1);
    let (r, _) = process_command(&mut store, 0, &request(&["FLUSHALL"]));
    assert_eq!(r, RedisValueRef::SimpleString(b("OK")));
    let (r, _) = process_command(&mut store, 1, &request(&["get", "b"]));
    assert_eq!(r, RedisValueRef::NullBulkString);
    let (r, _) = process_command(&mut store, 0, &request(&["get", "a"]));
    assert_eq!(r, RedisValueRef::NullBulkString);
}

// ---- serving requests ----

#[test]
fn serving_set_then_get() {
    let mut store = StateStore::new(100, true);
    let (r, save) = process_command(&mut store, 0, &request(&["SET", "key", "value"]));
    assert_eq!(r, RedisValueRef::SimpleString(b("OK")));
    assert!(!save);
    let (r, _) = process_command(&mut store, 0, &request(&["get", "key"]));
    assert_eq!(r, bulk("value"));
    let (r, _) = process_command(&mut store, 3, &request(&["get", "key"]));
    assert_eq!(r, RedisValueRef::NullBulkString);
}

#[test]
fn refused_request_is_answered_with_its_error() {
    let mut store = StateStore::new(1, false);
    let (r, save) = process_command(&mut store, 0, &request(&["get"]));
    assert_eq!(r, RedisValueRef::ErrorMsg(b("Wrong number of arguments! (1 required, 0 given)")));
    assert!(!save);
    assert_eq!(store.commands_ran_since_save, 0);
    let (r, _) = process_command(&mut store, 0, &request(&["frobnicate"]));
    assert_eq!(r, RedisValueRef::ErrorMsg(b("Unknown Operation!")));
    let (r, _) = process_command(&mut store, 0, &RedisValueRef::Int(3));
    assert_eq!(r, RedisValueRef::ErrorMsg(b("Unknown Operation!")));
    let (r, _) = process_command(&mut store, 0, &RedisValueRef::Array(vec![]));
    assert_eq!(r, RedisValueRef::ErrorMsg(vec![]));
}

#[test]
fn save_every_threshold() {
    let mut store = StateStore::new(3, false);
    let ping = request(&["ping"]);
    assert!(!process_command(&mut store, 0, &ping).1);
    assert!(!process_command(&mut store, 0, &ping).1);
    assert!(process_command(&mut store, 0, &ping).1);
    assert_eq!(store.commands_ran_since_save, 0);
    assert!(!process_command(&mut store, 0, &ping).1);
    assert_eq!(store.commands_ran_since_save, 1);
}

#[test]
fn memory_only_never_saves() {
    let mut store = StateStore::new(1, true);
    let ping = request(&["ping"]);
    for _ in 0..3 {
        assert!(!process_command(&mut store, 0, &ping).1);
    }
    assert_eq!(store.commands_ran_since_save, 0);
}

#[test]
fn counter_wraps_like_fetch_add() {
    let mut store = StateStore::new(0, false);
    store.commands_ran_since_save = u64::MAX;
    assert!(incr_and_save_if_required(&mut store));
    assert_eq!(store.commands_ran_since_save, 0);
    let mut store = StateStore::new(5, false);
    assert!(!incr_and_save_if_required(&mut store));
    assert_eq!(store.commands_ran_since_save, 1);
}

#[test]
fn serving_sets_and_lists() {
    let mut store = StateStore::new(100, true);
    let (r, _) = process_command(&mut store, 0, &request(&["sadd", "s", "a", "b"]));
    assert_eq!(r, RedisValueRef::Int(2));
    let (r, _) = process_command(&mut store, 0, &request(&["SISMEMBER", "s", "b"]));
    assert_eq!(r, RedisValueRef::Int(1));
    let (r, _) = process_command(&mut store, 0, &request(&["scard", "s"]));
    assert_eq!(r, RedisValueRef::Int(2));
    let (r, _) = process_command(&mut store, 0, &request(&["spop", "s", "2"]));
    match r {
        RedisValueRef::Array(items) => assert_eq!(items.len(), 2),
        other => panic!("unexpected {:?}", other),
    }
    let (r, _) = process_command(&mut store, 0, &request(&["mset", "a", "1", "b", "2"]));
    assert_eq!(r, RedisValueRef::SimpleString(b("OK")));
    let (r, _) = process_command(&mut store, 0, &request(&["mget", "a", "b", "c"]));
    assert_eq!(
        r,
        RedisValueRef::Array(vec![bulk("1"), bulk("2"), RedisValueRef::NullBulkString])
    );
    let (r, _) = process_command(&mut store, 0, &request(&["exists", "a", "s", "q"]));
    assert_eq!(r, RedisValueRef::Int(2));
}

// ---- reading requests ----

fn kind_of(r: Result<Ops, OpsError>) -> String {
    match r {
        Ok(Ops::Keys(_)) => "keys".to_string(),
        Ok(Ops::Sets(_)) => "sets".to_string(),
        Ok(Ops::Lists(_)) => "lists".to_string(),
        Ok(Ops::Misc(_)) => "misc".to_string(),
        Ok(Ops::Hashes(_)) => "hashes".to_string(),
        Ok(Ops::ZSets(_)) => "zsets".to_string(),
        Ok(Ops::Blooms(_)) => "blooms".to_string(),
        Err(e) => format!("{:?}", e),
    }
}

#[test]
fn request_ignores_case() {
    match translate(&request(&["PiNg"])) {
        Ok(Ops::Misc(MiscOps::Pong)) => {}
        other => panic!("unexpected {}", kind_of(other)),
    }
    match translate(&request(&["GET", "k"])) {
        Ok(Ops::Keys(KeyOps::Get(k))) => assert_eq!(k, b("k")),
        other => panic!("unexpected {}", kind_of(other)),
    }
}

#[test]
fn set_reads_key_and_value() {
    match translate_array(&[bulk("set"), bulk("a"), bulk("b"), bulk("extra")]) {
        Ok(Ops::Keys(KeyOps::SetValue(k, v))) => {
            assert_eq!(k, b("a"));
            assert_eq!(v, b("b"));
        }
        other => panic!("unexpected {}", kind_of(other)),
    }
    match translate_command("sismember", &[bulk("sismember"), bulk("s"), bulk("m")]) {
        Ok(Ops::Sets(SetOps::SIsMember(k, m))) => {
            assert_eq!(k, b("s"));
            assert_eq!(m, b("m"));
        }
        other => panic!("unexpected {}", kind_of(other)),
    }
}

#[test]
fn mset_reads_pairs() {
    match translate(&request(&["mset", "a", "1", "b", "2"])) {
        Ok(Ops::Keys(KeyOps::MSet(p))) => {
            assert_eq!(redis_proto::rvec::rvec_pairs(p), vec![(b("a"), b("1")), (b("b"), b("2"))]);
        }
        other => panic!("unexpected {}", kind_of(other)),
    }
    assert_eq!(
        kind_of(translate(&request(&["mset", "a", "1", "b"]))),
        format!("{:?}", OpsError::InvalidArgPattern("even number of arguments required!"))
    );
}

#[test]
fn sadd_reads_key_and_members() {
    match translate(&request(&["sadd", "s", "a", "b"])) {
        Ok(Ops::Sets(SetOps::SAdd(k, members))) => {
            assert_eq!(k, b("s"));
            assert_eq!(rvec_values(members), vals(&["a", "b"]));
        }
        other => panic!("unexpected {}", kind_of(other)),
    }
    assert_eq!(
        kind_of(translate(&request(&["sadd", "s"]))),
        format!("{:?}", OpsError::WrongNumberOfArgs(3, 2))
    );
}

#[test]
fn spop_reads_optional_count() {
    match translate(&request(&["spop", "s"])) {
        Ok(Ops::Sets(SetOps::SPop(k, None))) => assert_eq!(k, b("s")),
        other => panic!("unexpected {}", kind_of(other)),
    }
    match translate(&request(&["srandmember", "s", "-3"])) {
        Ok(Ops::Sets(SetOps::SRandMembers(_, Some(c)))) => assert_eq!(c, -3),
        other => panic!("unexpected {}", kind_of(other)),
    }
    match translate(&RedisValueRef::Array(vec![bulk("spop"), bulk("s"), RedisValueRef::Int(4)])) {
        Ok(Ops::Sets(SetOps::SPop(_, Some(c)))) => assert_eq!(c, 4),
        other => panic!("unexpected {}", kind_of(other)),
    }
    assert_eq!(
        kind_of(translate(&request(&["spop", "s", "many"]))),
        format!("{:?}", OpsError::InvalidType)
    );
}

#[test]
fn refused_requests() {
    assert_eq!(
        kind_of(translate(&request(&["set", "a"]))),
        format!("{:?}", OpsError::WrongNumberOfArgs(2, 1))
    );
    assert_eq!(
        kind_of(translate(&request(&["get", "a", "b"]))),
        format!("{:?}", OpsError::WrongNumberOfArgs(1, 2))
    );
    assert_eq!(
        kind_of(translate(&request(&["mget"]))),
        format!("{:?}", OpsError::NotEnoughArgs(1, 0))
    );
    assert_eq!(
        kind_of(translate(&request(&["sinter", "a"]))),
        format!("{:?}", OpsError::NotEnoughArgs(2, 1))
    );
    assert_eq!(
        kind_of(translate(&request(&["smove", "a", "b"]))),
        format!("{:?}", OpsError::WrongNumberOfArgs(3, 2))
    );
    assert_eq!(
        kind_of(translate(&RedisValueRef::Array(vec![RedisValueRef::Int(1)]))),
        format!("{:?}", OpsError::InvalidType)
    );
    assert_eq!(
        kind_of(translate(&RedisValueRef::Array(vec![bulk("get"), RedisValueRef::Int(1)]))),
        format!("{:?}", OpsError::InvalidType)
    );
    assert_eq!(kind_of(translate(&request(&["lpush", "l", "x"]))), format!("{:?}", OpsError::UnknownOp));
    assert_eq!(kind_of(translate(&RedisValueRef::Array(vec![]))), format!("{:?}", OpsError::Noop));
    assert_eq!(kind_of(translate(&bulk("get"))), format!("{:?}", OpsError::UnknownOp));
}

#[test]
fn every_command_name_is_read() {
    let cases: Vec<(Vec<&str>, &str)> = vec![
        (vec!["keys"], "misc"),
        (vec!["flushall"], "misc"),
        (vec!["flushdb"], "misc"),
        (vec!["printcmds"], "misc"),
        (vec!["exists", "a"], "misc"),
        (vec!["del", "a"], "keys"),
        (vec!["rename", "a", "b"], "keys"),
        (vec!["renamenx", "a", "b"], "keys"),
        (vec!["srem", "s", "a"], "sets"),
        (vec!["smembers", "s"], "sets"),
        (vec!["scard", "s"], "sets"),
        (vec!["sdiff", "a", "b"], "sets"),
        (vec!["sunion", "a", "b"], "sets"),
        (vec!["sdiffstore", "d", "a"], "sets"),
        (vec!["sunionstore", "d", "a"], "sets"),
        (vec!["sinterstore", "d", "a"], "sets"),
        (vec!["smove", "a", "b", "m"], "sets"),
    ];
    for (words, kind) in cases {
        assert_eq!(kind_of(translate(&request(&words))), kind, "{:?}", words);
    }
}

#[test]
fn error_messages() {
    assert_eq!(OpsError::InvalidStart.into_redis_value(), RedisValueRef::ErrorMsg(b("Invalid start!")));
    assert_eq!(OpsError::UnknownOp.into_redis_value(), RedisValueRef::ErrorMsg(b("Unknown Operation!")));
    assert_eq!(
        OpsError::InvalidArgPattern("even number of arguments required!").into_redis_value(),
        RedisValueRef::ErrorMsg(b("Invalid Arg Pattern, even number of arguments required!"))
    );
    assert_eq!(
        OpsError::NotEnoughArgs(12, 3).into_redis_value(),
        RedisValueRef::ErrorMsg(b("Not enough arguments, 12 required, 3 given!"))
    );
    assert_eq!(
        OpsError::WrongNumberOfArgs(2, 105).into_redis_value(),
        RedisValueRef::ErrorMsg(b("Wrong number of arguments! (2 required, 105 given)"))
    );
    assert_eq!(OpsError::InvalidType.into_redis_value(), RedisValueRef::ErrorMsg(b("Invalid Type!")));
    assert_eq!(OpsError::SyntaxError.into_redis_value(), RedisValueRef::ErrorMsg(b("Syntax Error!")));
    assert_eq!(OpsError::Noop.into_redis_value(), RedisValueRef::ErrorMsg(vec![]));
    assert_eq!(
        OpsError::InvalidArgs("bad things".to_string()).into_redis_value(),
        RedisValueRef::ErrorMsg(b("bad things"))
    );
}

#[test]
fn argument_patterns() {
    assert_eq!(ensure_even(&[1, 2, 3]), Err(OpsError::InvalidArgPattern("even number of arguments required!")));
    assert_eq!(ensure_even(&[1, 2]), Ok(()));
    assert_eq!(verify_size_lower(&[1], 2), Err(OpsError::NotEnoughArgs(2, 1)));
    assert_eq!(verify_size_lower(&[1, 2], 2), Ok(()));
    assert_eq!(verify_size(&[1, 2], 1), Err(OpsError::WrongNumberOfArgs(1, 2)));
    assert_eq!(verify_size(&[1], 1), Ok(()));
    assert_eq!(
        get_key_and_value(&[bulk("set"), bulk("k")]),
        Err(OpsError::WrongNumberOfArgs(2, 1))
    );
    assert_eq!(get_key_and_value(&[bulk("set"), bulk("k"), bulk("v")]), Ok((b("k"), b("v"))));
    match get_key_and_tail(&[bulk("sadd"), bulk("k"), bulk("a"), bulk("b")]) {
        Ok((k, tail)) => {
            assert_eq!(k, b("k"));
            assert_eq!(rvec_values(tail), vals(&["a", "b"]));
        }
        Err(e) => panic!("unexpected {:?}", e),
    }
    match get_key_value_pairs(&[bulk("a"), RedisValueRef::Int(1)]) {
        Err(e) => assert_eq!(e, OpsError::InvalidType),
        Ok(_) => panic!("accepted an integer value"),
    }
}

#[test]
fn reading_values_and_counts() {
    assert_eq!(value_from(&bulk("x")), Ok(b("x")));
    assert_eq!(value_from(&RedisValueRef::Int(1)), Err(OpsError::InvalidType));
    assert_eq!(count_from(&RedisValueRef::Int(-7)), Ok(-7));
    assert_eq!(count_from(&bulk("42")), Ok(42));
    assert_eq!(count_from(&bulk("4x")), Err(OpsError::InvalidType));
    assert_eq!(count_from(&RedisValueRef::NullArray), Err(OpsError::InvalidType));
    assert_eq!(string_from(&RedisValueRef::BulkString(vec![104, 105, 0xff])), Ok("hi\u{FFFD}".to_string()));
    assert_eq!(string_from(&RedisValueRef::Int(1)), Err(OpsError::InvalidType));
}

// ---- numbers ----

#[test]
fn parse_i64_reads_like_str_parse() {
    for text in ["0", "-0", "+12", "-12", "9223372036854775807", "-9223372036854775808", "007"] {
        assert_eq!(parse_i64(text.as_bytes()), text.parse::<i64>().ok(), "{}", text);
    }
    for text in ["", "-", "+", "1a", " 1", "9223372036854775808", "-9223372036854775809", "--1"] {
        assert_eq!(parse_i64(text.as_bytes()), None, "{}", text);
    }
}

#[test]
fn decimal_digits() {
    assert_eq!(usize_decimal(0), b("0"));
    assert_eq!(usize_decimal(7), b("7"));
    assert_eq!(usize_decimal(1234567), b("1234567"));
}

// ---- the wire format ----

#[test]
fn encodes_each_kind() {
    assert_eq!(encode_value(&RedisValueRef::SimpleString(b("OK"))), b("+OK\r\n"));
    assert_eq!(encode_value(&RedisValueRef::Error(b("bad"))), b("-bad\r\n"));
    assert_eq!(encode_value(&RedisValueRef::ErrorMsg(b("worse"))), b("-worse\r\n"));
    assert_eq!(encode_value(&RedisValueRef::Int(-42)), b(":-42\r\n"));
    assert_eq!(encode_value(&RedisValueRef::Int(i64::MIN)), b(":-9223372036854775808\r\n"));
    assert_eq!(encode_value(&bulk("hello")), b("$5\r\nhello\r\n"));
    assert_eq!(encode_value(&RedisValueRef::NullBulkString), b("$-1\r\n"));
    assert_eq!(encode_value(&RedisValueRef::NullArray), b("*-1\r\n"));
    assert_eq!(
        encode_value(&RedisValueRef::Array(vec![bulk("a"), RedisValueRef::Int(1)])),
        b("*2\r\n$1\r\na\r\n:1\r\n")
    );
    assert_eq!(encode_value(&RedisValueRef::Array(vec![])), b("*0\r\n"));
}

#[test]
fn decode_reads_back_encode() {
    let values = vec![
        RedisValueRef::SimpleString(b("OK")),
        RedisValueRef::Error(b("bad")),
        RedisValueRef::Int(i64::MIN),
        RedisValueRef::Int(17),
        bulk("with\r\ninside"),
        RedisValueRef::NullBulkString,
        RedisValueRef::NullArray,
        RedisValueRef::Array(vec![
            bulk("set"),
            RedisValueRef::Array(vec![RedisValueRef::Int(0), RedisValueRef::Array(vec![])]),
        ]),
    ];
    for v in values {
        let mut bytes = encode_value(&v);
        let n = bytes.len();
        bytes.extend_from_slice(b"*1\r\n");
        assert_eq!(decode(&bytes), Ok(Some((v, n))));
    }
}

#[test]
fn decode_waits_for_more_bytes() {
    assert_eq!(decode(b""), Ok(None));
    assert_eq!(decode(b"+OK"), Ok(None));
    assert_eq!(decode(b"+OK\r"), Ok(None));
    assert_eq!(decode(b"$5\r\nhel"), Ok(None));
    assert_eq!(decode(b"*2\r\n:1\r\n"), Ok(None));
}

#[test]
fn decode_refuses_malformed_bytes() {
    assert_eq!(decode(b"?x\r\n"), Err(RESPError::UnknownStartingByte));
    assert_eq!(decode(b":1x\r\n"), Err(RESPError::IntParseFailure));
    assert_eq!(decode(b"$-2\r\n"), Err(RESPError::BadBulkStringSize(-2)));
    assert_eq!(decode(b"*-5\r\n"), Err(RESPError::BadArraySize(-5)));
    assert_eq!(decode(b"+OK\rX"), Err(RESPError::UnexpectedEnd));
    assert_eq!(decode(b"$2\r\nabcd"), Err(RESPError::UnexpectedEnd));
}

// ---- conversions ----

#[test]
fn answers_as_wire_values() {
    assert_eq!(ReturnValue::OK.into_redis_value(), RedisValueRef::SimpleString(b("OK")));
    assert_eq!(ReturnValue::Nil.into_redis_value(), RedisValueRef::NullBulkString);
    assert_eq!(ReturnValue::IntRes(3).into_redis_value(), RedisValueRef::Int(3));
    assert_eq!(ReturnValue::Error(b"oops").into_redis_value(), RedisValueRef::Error(b("oops")));
    assert_eq!(
        ReturnValue::MultiStringRes(vals(&["a", "b"])).into_redis_value(),
        RedisValueRef::Array(vec![bulk("a"), bulk("b")])
    );
    assert_eq!(
        ReturnValue::Array(vec![ReturnValue::Nil, sres("x")]).into_redis_value(),
        RedisValueRef::Array(vec![RedisValueRef::NullBulkString, bulk("x")])
    );
    assert_eq!(ReturnValue::Ident(RedisValueRef::Int(9)).into_redis_value(), RedisValueRef::Int(9));
}

#[test]
fn answers_from_lists() {
    assert_eq!(ReturnValue::from(5i64), ReturnValue::IntRes(5));
    assert_eq!(
        ReturnValue::from_values(values_rvec(vals(&["a", "b"]))),
        ReturnValue::Array(vec![sres("a"), sres("b")])
    );
    assert_eq!(
        ReturnValue::from_strings(vec!["é".to_string(), "x".to_string()]),
        ReturnValue::MultiStringRes(vec!["é".as_bytes().to_vec(), b("x")])
    );
    assert!(ReturnValue::Error(b"e").is_error());
    assert!(!ReturnValue::OK.is_error());
}

#[test]
fn bytes_to_string_replaces_invalid_bytes() {
    assert_eq!(bytes_to_string(b"abc"), "abc");
    assert_eq!(bytes_to_string(&[0x61, 0xff, 0x62]), "a\u{FFFD}b");
    let e = FFIError::boxed("nope".to_string());
    assert_eq!(e.reason(), "nope");
    assert_eq!(e.display_string(), "\"nope\"");
}

// ---- receipts ----

#[test]
fn receipts_count_up() {
    let mut m = RecieptMap::new();
    assert_eq!(m.get_receipt(), 1);
    assert_eq!(m.get_receipt(), 2);
    assert!(!m.receipt_timed_out(1));
}

#[test]
fn list_key_is_seahash_of_key() {
    assert_eq!(KeyTypes::list(b"mylist"), KeyTypes::List(seahash::hash(b"mylist")));
    assert_ne!(KeyTypes::list(b"a"), KeyTypes::list(b"b"));
}

#[test]
fn op_interact_dispatches() {
    let mut st = State::new();
    let r = op_interact(Ops::Keys(KeyOps::SetValue(b("a"), b("1"))), &mut st);
    assert_eq!(r, ReturnValue::OK);
    let r = op_interact(Ops::Lists(ListOps::RPush(b("l"), values_rvec(vals(&["x"])))), &mut st);
    assert_eq!(r, ReturnValue::IntRes(1));
    let r = op_interact(Ops::Hashes(HashOps::HSet(b("h"), b("f"), b("v"))), &mut st);
    assert_eq!(r, ReturnValue::OK);
    let r = op_interact(Ops::ZSets(ZSetOps::ZAdd(b("z"), scored_rvec(vec![(1, b("m"))]))), &mut st);
    assert_eq!(r, ReturnValue::IntRes(1));
    let r = op_interact(Ops::Sets(SetOps::SAdd(b("s"), values_rvec(vals(&["m"])))), &mut st);
    assert_eq!(r, ReturnValue::IntRes(1));
    assert_eq!(key_interact(KeyOps::Get(b("a")), &mut st), sres("1"));
}

// ---- text for the log ----

#[test]
fn values_as_the_log_writes_them() {
    assert_eq!(bulk("a\"b").debug_string(), "RedisValueRef::BulkString(\"a\\\"b\")");
    assert_eq!(
        RedisValueRef::SimpleString(b("OK")).debug_string(),
        "RedisValueRef::SimpleString(\"OK\")"
    );
    assert_eq!(RedisValueRef::Error(vec![0xff]).debug_string(), "RedisValueRef::Error(\"\u{FFFD}\")");
    assert_eq!(RedisValueRef::ErrorMsg(vec![1, 2]).debug_string(), "RedisValueRef::ErrorMsg([1, 2])");
    assert_eq!(RedisValueRef::Int(-5).debug_string(), "RedisValueRef::Int(-5)");
    assert_eq!(RedisValueRef::NullBulkString.debug_string(), "RedisValueRef::NullBulkString");
    assert_eq!(
        RedisValueRef::Array(vec![RedisValueRef::Int(1), RedisValueRef::NullArray]).debug_string(),
        "RedisValueRef::Array(RedisValueRef::Int(1),RedisValueRef::NullArray,)"
    );
}

#[test]
fn answers_as_the_log_writes_them() {
    let raw: &'static [u8] = b"a\n\xff\"\\\0\t\r~";
    assert_eq!(
        ReturnValue::StringRes(raw.to_vec()).display_string(),
        format!("{:?}", bytes::Bytes::from_static(raw))
    );
    assert_eq!(ReturnValue::OK.display_string(), "OK");
    assert_eq!(ReturnValue::IntRes(-3).display_string(), "-3");
    assert_eq!(ReturnValue::MultiStringRes(vals(&["a", "b"])).display_string(), "[b\"a\", b\"b\"]");
    assert_eq!(ReturnValue::Nil.display_string(), "(nil)");
    assert_eq!(ReturnValue::Error(b"e").display_string(), "ERR [101]");
    assert_eq!(
        ReturnValue::Array(vec![ReturnValue::Nil, ReturnValue::IntRes(2), ReturnValue::OK, sres("x")])
            .display_string(),
        "[Nil, IntRes(2), Ok, StringRes(b\"x\")]"
    );
    assert_eq!(
        ReturnValue::Array(vec![
            ReturnValue::Error(b"e"),
            ReturnValue::MultiStringRes(vals(&["m"])),
            ReturnValue::Array(vec![]),
            ReturnValue::Ident(RedisValueRef::Int(4)),
        ])
        .display_string(),
        "[Error([101]), MultiStringRes([b\"m\"]), Array([]), Ident(RedisValueRef::Int(4))]"
    );
    assert_eq!(ReturnValue::Ident(RedisValueRef::Int(1)).display_string(), "RedisValueRef::Int(1)");
}

#[test]
fn serving_keeps_other_databases() {
    let mut store = StateStore::new(100, true);
    process_command(&mut store, 0, &request(&["set", "a", "0"]));
    process_command(&mut store, 1, &request(&["set", "a", "1"]));
    let (r, _) = process_command(&mut store, 0, &request(&["flushdb"]));
    assert_eq!(r, RedisValueRef::SimpleString(b("OK")));
    let (r, _) = process_command(&mut store, 1, &request(&["get", "a"]));
    assert_eq!(r, bulk("1"));
    let (r, _) = process_command(&mut store, 0, &request(&["get", "a"]));
    assert_eq!(r, RedisValueRef::NullBulkString);
}

#[test]
fn reads_change_nothing() {
    let mut st = State::new();
    key_interact(KeyOps::SetValue(b("a"), b("1")), &mut st);
    set_interact(SetOps::SAdd(b("s"), values_rvec(vals(&["m"]))), &mut st);
    for _ in 0..2 {
        assert_eq!(key_interact(KeyOps::Get(b("a")), &mut st), sres("1"));
        assert_eq!(set_interact(SetOps::SCard(b("s")), &mut st), ReturnValue::IntRes(1));
        let r = set_interact(SetOps::SUnion(values_rvec(vals(&["s", "s"]))), &mut st);
        assert_eq!(sorted_strings(r), vals(&["m"]));
    }
}

#[test]
fn del_undoes_set() {
    let mut st = State::new();
    key_interact(KeyOps::SetValue(b("k"), b("v")), &mut st);
    let r = key_interact(KeyOps::Del(values_rvec(vals(&["k"]))), &mut st);
    assert_eq!(r, ReturnValue::IntRes(1));
    assert_eq!(key_interact(KeyOps::Get(b("k")), &mut st), ReturnValue::Nil);
    let mut store = StateStore::new(10, true);
    assert_eq!(misc_interact(MiscOps::Keys, &mut st, &mut store), ReturnValue::MultiStringRes(vec![]));
}
