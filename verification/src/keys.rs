//! Operations on string values.
use vstd::prelude::*;
use vstd::string::StringSliceAdditionalSpecFns;
use crate::keyspace::{kv_contains_key, kv_get, kv_insert, kv_remove};
use crate::ops::{Command, rvec_bytes_view, rvec_pairs_view};
use crate::rvec::{RVec, rvec_bytes_into_vec, rvec_pairs_into_vec};
use crate::types::{
    Count, Key, RetValue, ReturnValue, State, StateView, Value, bytes_views, copy_bytes, ret_view,
};

verus! {

/// The error that renaming a missing key answers.
pub const NO_SUCH_KEY: &'static str = "no such key";

/// Operations on string values.
pub enum KeyOps {
    SetValue(Key, Value),
    MSet(RVec<(Key, Value)>),
    Get(Key),
    MGet(RVec<Key>),
    Del(RVec<Key>),
    Rename(Key, Key),
    RenameNx(Key, Key),
}

impl KeyOps {
    /// What this operation asks for.
    pub open spec fn view(&self) -> Command {
        match self {
            KeyOps::SetValue(k, v) => Command::SetValue(k@, v@),
            KeyOps::MSet(kvs) => Command::MSet(rvec_pairs_view(*kvs)),
            KeyOps::Get(k) => Command::Get(k@),
            KeyOps::MGet(ks) => Command::MGet(rvec_bytes_view(*ks)),
            KeyOps::Del(ks) => Command::Del(rvec_bytes_view(*ks)),
            KeyOps::Rename(k, nk) => Command::Rename(k@, nk@),
            KeyOps::RenameNx(k, nk) => Command::RenameNx(k@, nk@),
        }
    }
}

/// The value of `k`, or nil.
pub open spec fn lookup_string(kv: Map<Seq<u8>, Seq<u8>>, k: Seq<u8>) -> RetValue {
    if kv.contains_key(k) {
        RetValue::StringRes(kv[k])
    } else {
        RetValue::Nil
    }
}

/// Sets each pair in order.
pub open spec fn mset_all(kv: Map<Seq<u8>, Seq<u8>>, pairs: Seq<(Seq<u8>, Seq<u8>)>) -> Map<Seq<u8>, Seq<u8>>
    decreases pairs.len(),
{
    if pairs.len() == 0 {
        kv
    } else {
        mset_all(kv, pairs.drop_last()).insert(pairs.last().0, pairs.last().1)
    }
}

/// Deletes each key in order; the map left and how many keys were there.
pub open spec fn del_all(kv: Map<Seq<u8>, Seq<u8>>, keys: Seq<Seq<u8>>) -> (Map<Seq<u8>, Seq<u8>>, nat)
    decreases keys.len(),
{
    if keys.len() == 0 {
        (kv, 0)
    } else {
        let (m, n) = del_all(kv, keys.drop_last());
        if m.contains_key(keys.last()) {
            (m.remove(keys.last()), n + 1)
        } else {
            (m, n)
        }
    }
}

/// What an operation on string values does to a database, and what it
/// answers.
pub open spec fn key_effect(s: StateView, c: Command) -> (StateView, RetValue) {
    match c {
        Command::SetValue(k, v) => (StateView { kv: s.kv.insert(k, v), ..s }, RetValue::OK),
        Command::MSet(pairs) => (StateView { kv: mset_all(s.kv, pairs), ..s }, RetValue::OK),
        Command::Get(k) => (s, lookup_string(s.kv, k)),
        Command::MGet(ks) => (s, RetValue::Array(ks.map_values(|k: Seq<u8>| lookup_string(s.kv, k)))),
        Command::Del(ks) => {
            let (kv, n) = del_all(s.kv, ks);
            (StateView { kv: kv, ..s }, RetValue::IntRes(n as i64))
        },
        Command::Rename(k, nk) => if s.kv.contains_key(k) {
            (StateView { kv: s.kv.remove(k).insert(nk, s.kv[k]), ..s }, RetValue::OK)
        } else {
            (s, RetValue::Error(NO_SUCH_KEY.spec_bytes()))
        },
        Command::RenameNx(k, nk) => if !s.kv.contains_key(k) {
            (s, RetValue::Error(NO_SUCH_KEY.spec_bytes()))
        } else if s.kv.contains_key(nk) {
            (s, RetValue::IntRes(0))
        } else {
            (StateView { kv: s.kv.remove(k).insert(nk, s.kv[k]), ..s }, RetValue::IntRes(1))
        },
        _ => (s, RetValue::Nil),
    }
}

/// Runs an operation on string values against a database.
pub fn key_interact(key_op: KeyOps, state: &mut State) -> (r: ReturnValue)
    ensures
        final(state)@ == key_effect(old(state)@, key_op@).0,
        ret_view(r) == key_effect(old(state)@, key_op@).1,
{
    let ghost c = key_op@;
    let ghost s0 = state@;
    let r = match key_op {
        KeyOps::Get(key) => match kv_get(&state.kv, key.as_slice()) {
            Some(v) => ReturnValue::StringRes(v),
            None => ReturnValue::Nil,
        },
        KeyOps::MGet(keys) => {
            let ghost ks = rvec_bytes_view(keys);
            let keys = rvec_bytes_into_vec(keys);
            let mut vals: Vec<ReturnValue> = Vec::new();
            let n = keys.len();
            for i in 0..n
                invariant
                    n == keys@.len(),
                    ks == bytes_views(keys@),
                    vals@.len() == i,
                    forall|j: int|
                        0 <= j < i ==> #[trigger] ret_view(vals@[j]) == lookup_string(
                            state@.kv,
                            ks[j],
                        ),
            {
                let v = match kv_get(&state.kv, keys[i].as_slice()) {
                    Some(v) => ReturnValue::StringRes(v),
                    None => ReturnValue::Nil,
                };
                vals.push(v);
            }
            let r = ReturnValue::Array(vals);
            proof {
                let target = ks.map_values(|k: Seq<u8>| lookup_string(state@.kv, k));
                crate::types::lemma_ret_seq_view_pointwise(vals@, target);
            }
            r
        },
        KeyOps::SetValue(key, value) => {
            kv_insert(&mut state.kv, key, value);
            ReturnValue::OK
        },
        KeyOps::MSet(key_vals) => {
            let ghost pairs = rvec_pairs_view(key_vals);
            let key_vals = rvec_pairs_into_vec(key_vals);
            let n = key_vals.len();
            for i in 0..n
                invariant
                    n == key_vals@.len(),
                    pairs == key_vals@.map_values(|p: (Vec<u8>, Vec<u8>)| (p.0@, p.1@)),
                    state@ == (StateView { kv: mset_all(old(state)@.kv, pairs.take(i as int)), ..old(state)@ }),
            {
                proof {
                    assert(pairs.take(i + 1).drop_last() =~= pairs.take(i as int));
                }
                kv_insert(&mut state.kv, copy_bytes(&key_vals[i].0), copy_bytes(&key_vals[i].1));
            }
            assert(pairs.take(n as int) =~= pairs);
            assert(state@.kv == mset_all(old(state)@.kv, pairs));
            ReturnValue::OK
        },
        KeyOps::Del(keys) => {
            let ghost ks = rvec_bytes_view(keys);
            let keys = rvec_bytes_into_vec(keys);
            let mut deleted: usize = 0;
            let n = keys.len();
            for i in 0..n
                invariant
                    n == keys@.len(),
                    ks == bytes_views(keys@),
                    deleted <= i,
                    state@ == (StateView { kv: del_all(old(state)@.kv, ks.take(i as int)).0, ..old(state)@ }),
                    deleted == del_all(old(state)@.kv, ks.take(i as int)).1,
            {
                proof {
                    assert(ks.take(i + 1).drop_last() =~= ks.take(i as int));
                }
                let ghost before = state@.kv;
                if kv_remove(&mut state.kv, keys[i].as_slice()).is_some() {
                    deleted += 1;
                } else {
                    assert(before.remove(ks[i as int]) =~= before);
                }
            }
            assert(ks.take(n as int) =~= ks);
            assert(state@.kv == del_all(old(state)@.kv, ks).0);
            ReturnValue::IntRes(#[verifier::truncate] (deleted as Count))
        },
        KeyOps::Rename(key, new_key) => match kv_remove(&mut state.kv, key.as_slice()) {
            Some(value) => {
                let ghost nk = new_key@;
                kv_insert(&mut state.kv, new_key, value);
                assert(state@.kv =~= old(state)@.kv.remove(key@).insert(nk, old(state)@.kv[key@]));
                ReturnValue::OK
            },
            None => ReturnValue::Error(NO_SUCH_KEY.as_bytes()),
        },
        KeyOps::RenameNx(key, new_key) => {
            if !kv_contains_key(&state.kv, key.as_slice()) {
                ReturnValue::Error(NO_SUCH_KEY.as_bytes())
            } else if kv_contains_key(&state.kv, new_key.as_slice()) {
                ReturnValue::IntRes(0)
            } else {
                match kv_remove(&mut state.kv, key.as_slice()) {
                    Some(value) => {
                        let ghost nk = new_key@;
                        kv_insert(&mut state.kv, new_key, value);
                        assert(state@.kv =~= old(state)@.kv.remove(key@).insert(nk, old(state)@.kv[key@]));
                    },
                    None => {},
                }
                ReturnValue::IntRes(1)
            }
        },
    };
    assert(state@.kv =~= key_effect(s0, c).0.kv);
    r
}

} // verus!
