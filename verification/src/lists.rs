//! Operations on list values.
use vstd::prelude::*;
use std::collections::VecDeque;
use crate::keyspace::{list_view, lists_insert, lists_remove};
use crate::ops::{Command, rvec_bytes_view};
use crate::rvec::{RVec, rvec_bytes_into_vec};
use crate::types::{Count, Key, RetValue, ReturnValue, State, StateView, Value, bytes_views, copy_bytes, ret_view};

verus! {

broadcast use vstd::seq_lib::group_seq_properties;

/// Operations on list values.
pub enum ListOps {
    LPush(Key, RVec<Value>),
    LPushX(Key, Value),
    RPushX(Key, Value),
    LLen(Key),
    LPop(Key),
    RPop(Key),
    RPush(Key, RVec<Value>),
}

impl ListOps {
    /// What this operation asks for.
    pub open spec fn view(&self) -> Command {
        match self {
            ListOps::LPush(k, vs) => Command::LPush(k@, rvec_bytes_view(*vs)),
            ListOps::LPushX(k, v) => Command::LPushX(k@, v@),
            ListOps::RPushX(k, v) => Command::RPushX(k@, v@),
            ListOps::LLen(k) => Command::LLen(k@),
            ListOps::LPop(k) => Command::LPop(k@),
            ListOps::RPop(k) => Command::RPop(k@),
            ListOps::RPush(k, vs) => Command::RPush(k@, rvec_bytes_view(*vs)),
        }
    }
}

/// The list named by `k`, or the empty list.
pub open spec fn list_of(lists: Map<Seq<u8>, Seq<Seq<u8>>>, k: Seq<u8>) -> Seq<Seq<u8>> {
    if lists.contains_key(k) {
        lists[k]
    } else {
        Seq::empty()
    }
}

/// Pushes each value, in order, onto the front of `l`: the last value ends
/// up first.
pub open spec fn push_all_front(l: Seq<Seq<u8>>, vals: Seq<Seq<u8>>) -> Seq<Seq<u8>>
    decreases vals.len(),
{
    if vals.len() == 0 {
        l
    } else {
        seq![vals.last()] + push_all_front(l, vals.drop_last())
    }
}

/// The database with list `k` replaced by `l`.
pub open spec fn with_list(s: StateView, k: Seq<u8>, l: Seq<Seq<u8>>) -> StateView {
    StateView { lists: s.lists.insert(k, l), ..s }
}

/// What an operation on list values does to a database, and what it
/// answers.
pub open spec fn list_effect(s: StateView, c: Command) -> (StateView, RetValue) {
    match c {
        Command::LPush(k, vals) => {
            let l = push_all_front(list_of(s.lists, k), vals);
            (with_list(s, k, l), RetValue::IntRes(l.len() as i64))
        },
        Command::LPushX(k, v) => if s.lists.contains_key(k) {
            let l = seq![v] + s.lists[k];
            (with_list(s, k, l), RetValue::IntRes(l.len() as i64))
        } else {
            (s, RetValue::IntRes(0))
        },
        Command::RPushX(k, v) => if s.lists.contains_key(k) {
            let l = s.lists[k].push(v);
            (with_list(s, k, l), RetValue::IntRes(l.len() as i64))
        } else {
            (s, RetValue::IntRes(0))
        },
        Command::LLen(k) => (s, RetValue::IntRes(list_of(s.lists, k).len() as i64)),
        Command::LPop(k) => if list_of(s.lists, k).len() > 0 {
            (with_list(s, k, s.lists[k].drop_first()), RetValue::StringRes(s.lists[k][0]))
        } else {
            (s, RetValue::Nil)
        },
        Command::RPop(k) => if list_of(s.lists, k).len() > 0 {
            (with_list(s, k, s.lists[k].drop_last()), RetValue::StringRes(s.lists[k].last()))
        } else {
            (s, RetValue::Nil)
        },
        Command::RPush(k, vals) => {
            let l = list_of(s.lists, k) + vals;
            (with_list(s, k, l), RetValue::IntRes(l.len() as i64))
        },
        _ => (s, RetValue::Nil),
    }
}

/// Takes list `key` out of the database (an empty list when there is none).
fn take_list(state: &mut State, key: &Key) -> (l: VecDeque<Value>)
    ensures
        final(state)@ == (StateView { lists: old(state)@.lists.remove(key@), ..old(state)@ }),
        list_view(l) == list_of(old(state)@.lists, key@),
{
    match lists_remove(&mut state.lists, key.as_slice()) {
        Some(l) => l,
        None => {
            let l: VecDeque<Value> = VecDeque::new();
            assert(list_view(l) =~= Seq::<Seq<u8>>::empty());
            l
        },
    }
}

/// Puts list `l` back under `key`.
fn put_list(state: &mut State, key: Key, l: VecDeque<Value>)
    ensures
        final(state)@ == (StateView { lists: old(state)@.lists.insert(key@, list_view(l)), ..old(state)@ }),
{
    lists_insert(&mut state.lists, key, l);
}

/// Runs an operation on list values against a database.
pub fn list_interact(list_op: ListOps, state: &mut State) -> (r: ReturnValue)
    ensures
        final(state)@ == list_effect(old(state)@, list_op@).0,
        ret_view(r) == list_effect(old(state)@, list_op@).1,
{
    let ghost s0 = state@;
    match list_op {
        ListOps::LPush(key, vals) => {
            let ghost k = key@;
            let ghost vs = rvec_bytes_view(vals);
            let vals = rvec_bytes_into_vec(vals);
            let mut list = take_list(state, &key);
            let n = vals.len();
            for i in 0..n
                invariant
                    n == vals@.len(),
                    vs == bytes_views(vals@),
                    list_view(list) == push_all_front(list_of(s0.lists, k), vs.take(i as int)),
            {
                proof {
                    assert(vs.take(i + 1).drop_last() =~= vs.take(i as int));
                }
                let ghost before = list@;
                list.push_front(copy_bytes(&vals[i]));
                assert(list_view(list) =~= seq![vs[i as int]] + bytes_views(before));
            }
            assert(vs.take(n as int) =~= vs);
            let len = list.len();
            put_list(state, key, list);
            assert(state@.lists =~= s0.lists.insert(k, push_all_front(list_of(s0.lists, k), vs)));
            ReturnValue::IntRes(#[verifier::truncate] (len as Count))
        },
        ListOps::LPushX(key, val) => match lists_remove(&mut state.lists, key.as_slice()) {
            Some(mut list) => {
                let ghost before = list@;
                list.push_front(val);
                assert(list_view(list) =~= seq![val@] + bytes_views(before));
                let len = list.len();
                let ghost k = key@;
                put_list(state, key, list);
                assert(state@.lists =~= s0.lists.insert(k, seq![val@] + s0.lists[k]));
                ReturnValue::IntRes(#[verifier::truncate] (len as Count))
            },
            None => {
                assert(state@.lists =~= s0.lists);
                ReturnValue::IntRes(0)
            },
        },
        ListOps::RPushX(key, val) => match lists_remove(&mut state.lists, key.as_slice()) {
            Some(mut list) => {
                let ghost before = list@;
                list.push_back(val);
                assert(list_view(list) =~= bytes_views(before).push(val@));
                let len = list.len();
                let ghost k = key@;
                put_list(state, key, list);
                assert(state@.lists =~= s0.lists.insert(k, s0.lists[k].push(val@)));
                ReturnValue::IntRes(#[verifier::truncate] (len as Count))
            },
            None => {
                assert(state@.lists =~= s0.lists);
                ReturnValue::IntRes(0)
            },
        },
        ListOps::LLen(key) => match lists_remove(&mut state.lists, key.as_slice()) {
            Some(list) => {
                let len = list.len();
                let ghost k = key@;
                put_list(state, key, list);
                assert(state@.lists =~= s0.lists);
                ReturnValue::IntRes(#[verifier::truncate] (len as Count))
            },
            None => {
                assert(state@.lists =~= s0.lists);
                ReturnValue::IntRes(0)
            },
        },
        ListOps::LPop(key) => match lists_remove(&mut state.lists, key.as_slice()) {
            Some(mut list) => {
                let ghost before = list@;
                let ghost k = key@;
                let popped = list.pop_front();
                match popped {
                    Some(v) => {
                        assert(list_view(list) =~= bytes_views(before).drop_first());
                        put_list(state, key, list);
                        assert(state@.lists =~= s0.lists.insert(k, s0.lists[k].drop_first()));
                        ReturnValue::StringRes(v)
                    },
                    None => {
                        put_list(state, key, list);
                        assert(state@.lists =~= s0.lists);
                        ReturnValue::Nil
                    },
                }
            },
            None => {
                assert(state@.lists =~= s0.lists);
                ReturnValue::Nil
            },
        },
        ListOps::RPop(key) => match lists_remove(&mut state.lists, key.as_slice()) {
            Some(mut list) => {
                let ghost before = list@;
                let ghost k = key@;
                let popped = list.pop_back();
                match popped {
                    Some(v) => {
                        assert(list_view(list) =~= bytes_views(before).drop_last());
                        put_list(state, key, list);
                        assert(state@.lists =~= s0.lists.insert(k, s0.lists[k].drop_last()));
                        ReturnValue::StringRes(v)
                    },
                    None => {
                        put_list(state, key, list);
                        assert(state@.lists =~= s0.lists);
                        ReturnValue::Nil
                    },
                }
            },
            None => {
                assert(state@.lists =~= s0.lists);
                ReturnValue::Nil
            },
        },
        ListOps::RPush(key, vals) => {
            let ghost k = key@;
            let ghost vs = rvec_bytes_view(vals);
            let vals = rvec_bytes_into_vec(vals);
            let mut list = take_list(state, &key);
            let n = vals.len();
            for i in 0..n
                invariant
                    n == vals@.len(),
                    vs == bytes_views(vals@),
                    list_view(list) == list_of(s0.lists, k) + vs.take(i as int),
            {
                let ghost before = list@;
                list.push_back(copy_bytes(&vals[i]));
                assert(list_view(list) =~= bytes_views(before).push(vs[i as int]));
                assert(vs.take(i + 1) =~= vs.take(i as int).push(vs[i as int]));
            }
            assert(vs.take(n as int) =~= vs);
            let len = list.len();
            put_list(state, key, list);
            assert(state@.lists =~= s0.lists.insert(k, list_of(s0.lists, k) + vs));
            ReturnValue::IntRes(#[verifier::truncate] (len as Count))
        },
    }
}

} // verus!
