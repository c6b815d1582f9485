//! Operations on sorted set values.
use vstd::prelude::*;
use crate::data_structures::sorted_set::{SortedSet, SortedSetView, zadd_all, zrem_all};
use crate::keyspace::{zsets_insert, zsets_remove};
use crate::ops::{Command, rvec_bytes_view, rvec_scored_view};
use crate::rvec::{RVec, rvec_bytes_into_vec};
use crate::types::{Key, RetValue, ReturnValue, Score, State, StateView, ret_view};

verus! {

/// Operations on sorted set values.
pub enum ZSetOps {
    ZAdd(Key, RVec<(Score, Key)>),
    ZRem(Key, RVec<Key>),
}

impl ZSetOps {
    /// What this operation asks for.
    pub open spec fn view(&self) -> Command {
        match self {
            ZSetOps::ZAdd(k, items) => Command::ZAdd(k@, rvec_scored_view(*items)),
            ZSetOps::ZRem(k, keys) => Command::ZRem(k@, rvec_bytes_view(*keys)),
        }
    }
}

/// The sorted set named by `k`, or the empty sorted set.
pub open spec fn zset_of(zsets: Map<Seq<u8>, SortedSetView>, k: Seq<u8>) -> SortedSetView {
    if zsets.contains_key(k) {
        zsets[k]
    } else {
        SortedSetView { members: Map::empty(), scores: Set::empty() }
    }
}

/// What an operation on sorted set values does to a database, and what it
/// answers.
pub open spec fn zset_effect(s: StateView, c: Command) -> (StateView, RetValue) {
    match c {
        Command::ZAdd(k, items) => {
            let (z, n) = zadd_all(zset_of(s.zsets, k), items);
            (StateView { zsets: s.zsets.insert(k, z), ..s }, RetValue::IntRes(n as i64))
        },
        Command::ZRem(k, keys) => if s.zsets.contains_key(k) {
            let (z, n) = zrem_all(s.zsets[k], keys);
            (StateView { zsets: s.zsets.insert(k, z), ..s }, RetValue::IntRes(n as i64))
        } else {
            (s, RetValue::IntRes(0))
        },
        _ => (s, RetValue::Nil),
    }
}

/// Runs an operation on sorted set values against a database.
pub fn zset_interact(zset_op: ZSetOps, state: &mut State) -> (r: ReturnValue)
    ensures
        final(state)@ == zset_effect(old(state)@, zset_op@).0,
        ret_view(r) == zset_effect(old(state)@, zset_op@).1,
{
    let ghost s0 = state@;
    match zset_op {
        ZSetOps::ZAdd(zset_key, member_scores) => {
            let ghost k = zset_key@;
            let mut zset = match zsets_remove(&mut state.zsets, zset_key.as_slice()) {
                Some(z) => z,
                None => {
                    let z = SortedSet::new();
                    assert(z@ == zset_of(s0.zsets, k));
                    z
                },
            };
            let num_added = zset.add(member_scores);
            zsets_insert(&mut state.zsets, zset_key, zset);
            assert(state@.zsets =~= zset_effect(s0, zset_op@).0.zsets);
            ReturnValue::IntRes(num_added)
        },
        ZSetOps::ZRem(zset_key, keys) => {
            let ghost k = zset_key@;
            let ghost ks = rvec_bytes_view(keys);
            let keys = rvec_bytes_into_vec(keys);
            match zsets_remove(&mut state.zsets, zset_key.as_slice()) {
                Some(mut zset) => {
                    let removed = zset.remove(keys.as_slice());
                    assert(keys@.map_values(|b: Key| b@) =~= ks);
                    zsets_insert(&mut state.zsets, zset_key, zset);
                    assert(state@.zsets =~= s0.zsets.insert(k, zrem_all(s0.zsets[k], ks).0));
                    ReturnValue::IntRes(removed)
                },
                None => {
                    assert(state@.zsets =~= s0.zsets);
                    ReturnValue::IntRes(0)
                },
            }
        },
    }
}

} // verus!
