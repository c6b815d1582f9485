//! Serving one request: reading it, running it against a database of
//! the store, answering it, and counting it towards the next save.
use vstd::prelude::*;
use crate::keyspace::{states_insert, states_remove};
use crate::misc::{misc_interact, misc_outcome};
use crate::ops::{
    Command, CommandKind, Ops, error_message, kind, op_interact, ops_result, request, translate,
    value_outcome,
};
use crate::types::{
    Index, RedisValueRef, RespValue, RetValue, ReturnValue, State, StateStore, StateStoreView,
    StateView, empty_state, resp_view, ret_to_resp, ret_view,
};

verus! {

/// The count of commands after one more, wrapping around at the top of
/// `u64` as an atomic `fetch_add` does.
pub open spec fn next_count(c: u64) -> u64 {
    if c == u64::MAX {
        0
    } else {
        (c + 1) as u64
    }
}

/// Counting one command: the count restarts from zero, and a save is due,
/// when it reaches the threshold.
pub open spec fn counted(st: StateStoreView, st2: StateStoreView, save: bool) -> bool {
    &&& save == (next_count(st.commands_ran_since_save) == st.commands_threshold)
    &&& st2.commands_ran_since_save == if save {
        0
    } else {
        next_count(st.commands_ran_since_save)
    }
}

/// Counts one command; says whether the databases are due to be saved.
pub fn incr_and_save_if_required(store: &mut StateStore) -> (should_save: bool)
    ensures
        counted(old(store)@, final(store)@, should_save),
        final(store)@ == (StateStoreView {
            commands_ran_since_save: final(store)@.commands_ran_since_save,
            ..old(store)@
        }),
{
    let c = store.commands_ran_since_save;
    store.commands_ran_since_save = if c == u64::MAX {
        0
    } else {
        c + 1
    };
    if store.commands_ran_since_save == store.commands_threshold {
        store.commands_ran_since_save = 0;
        true
    } else {
        false
    }
}

/// Database `db` of `states`, or an empty one.
pub open spec fn db_of(states: Map<i64, StateView>, db: i64) -> StateView {
    if states.contains_key(db) {
        states[db]
    } else {
        empty_state()
    }
}

/// What serving command `c` against database `db` of the store `st` may
/// leave (`st2`), answer (`r`) and decide about saving (`save`).
pub open spec fn served(
    st: StateStoreView,
    db: i64,
    c: Command,
    st2: StateStoreView,
    r: RetValue,
    save: bool,
) -> bool {
    let s = db_of(st.states, db);
    let others = StateStoreView { states: st.states.remove(db), ..st };
    let s2 = st2.states[db];
    let others2 = st2.states.remove(db);
    &&& st2.states.contains_key(db)
    &&& if kind(c) is Database {
        misc_outcome(s, others, c, s2, StateStoreView { states: others2, ..st }, r)
    } else {
        others2 == others.states && value_outcome(s, c, s2, r)
    }
    &&& st2.commands_threshold == st.commands_threshold
    &&& st2.memory_only == st.memory_only
    &&& if st.memory_only {
        st2.commands_ran_since_save == st.commands_ran_since_save && !save
    } else {
        counted(st, st2, save)
    }
}

/// Serves one value received, against database `db` of the store: answers
/// it, and says whether the databases are due to be saved.
pub fn process_command(store: &mut StateStore, db: Index, redis_value: &RedisValueRef) -> (out: (RedisValueRef, bool))
    ensures
        match request(resp_view(*redis_value)) {
            Err(e) => {
                &&& final(store)@ == old(store)@
                &&& resp_view(out.0) == RespValue::ErrorMsg(error_message(e))
                &&& !out.1
            },
            Ok(c) => exists|r: RetValue|
                #[trigger] ret_to_resp(r) == resp_view(out.0) && served(old(store)@, db, c, final(store)@, r, out.1),
        },
{
    let ghost st = store@;
    match translate(redis_value) {
        Err(e) => (e.into_redis_value(), false),
        Ok(op) => {
            let ghost c = op@;
            let mut state = match states_remove(&mut store.states, db) {
                Some(s) => s,
                None => State::new(),
            };
            let ghost others = store@;
            assert(state@ == db_of(st.states, db));
            let res = match op {
                Ops::Misc(m) => misc_interact(m, &mut state, store),
                Ops::Blooms(b) => {
                    proof {
                        assert(kind(c) is Blooms);
                        lemma_no_bloom_requests(resp_view(*redis_value));
                    }
                    ReturnValue::Nil
                },
                other => op_interact(other, &mut state),
            };
            let ghost s2 = state@;
            let ghost after = store@;
            states_insert(&mut store.states, db, state);
            proof {
                assert(store@.states.remove(db) =~= after.states.remove(db));
                assert(after.states.remove(db) =~= after.states);
            }
            let save = if !store.memory_only {
                incr_and_save_if_required(store)
            } else {
                false
            };
            let out = res.into_redis_value();
            proof {
                assert(ret_to_resp(ret_view(res)) == resp_view(out));
                assert(served(st, db, c, store@, ret_view(res), save));
            }
            (out, save)
        },
    }
}

/// No request asks for an operation on a bloom filter.
pub proof fn lemma_no_bloom_requests(v: RespValue)
    ensures
        match request(v) {
            Ok(c) => !(kind(c) is Blooms),
            Err(_) => true,
        },
{
}

} // verus!
