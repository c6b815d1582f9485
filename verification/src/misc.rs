//! Operations on a database as a whole, and on the set of databases.
use vstd::prelude::*;
use vstd::string::StringSliceAdditionalSpecFns;
use crate::keyspace::{
    hashes_contains_key, hashes_keys, kv_contains_key, kv_keys, lists_contains_key, lists_keys,
    sets_contains_key, sets_keys, zsets_contains_key, zsets_keys,
};
use crate::ops::Command;
use crate::types::{
    Count, Key, RetValue, ReturnValue, State, StateStore, StateStoreView, StateView, bytes_views,
    empty_state, flushed,
};

verus! {

broadcast use vstd::seq_lib::group_seq_properties;

/// The answer to a ping.
pub const PONG: &'static str = "PONG";

/// Operations on a database as a whole.
pub enum MiscOps {
    Pong,
    Keys,
    FlushAll,
    FlushDB,
    Exists(Vec<Key>),
    PrintCmds,
}

impl MiscOps {
    /// What this operation asks for.
    pub open spec fn view(&self) -> Command {
        match self {
            MiscOps::Pong => Command::Pong,
            MiscOps::Keys => Command::Keys,
            MiscOps::FlushAll => Command::FlushAll,
            MiscOps::FlushDB => Command::FlushDB,
            MiscOps::Exists(ks) => Command::Exists(bytes_views(ks@)),
            MiscOps::PrintCmds => Command::PrintCmds,
        }
    }
}

/// Whether `k` names a value of any kind in `s`.
pub open spec fn key_exists(s: StateView, k: Seq<u8>) -> bool {
    ||| s.kv.contains_key(k)
    ||| s.sets.contains_key(k)
    ||| s.lists.contains_key(k)
    ||| s.hashes.contains_key(k)
    ||| s.zsets.contains_key(k)
}

/// How many of `keys` (counted with repeats) name a value in `s`.
pub open spec fn exists_count(s: StateView, keys: Seq<Seq<u8>>) -> nat
    decreases keys.len(),
{
    if keys.len() == 0 {
        0
    } else {
        exists_count(s, keys.drop_last()) + if key_exists(s, keys.last()) {
            1nat
        } else {
            0nat
        }
    }
}

/// `ms` lists each member of `dom`, each once.
pub open spec fn lists_set(ms: Seq<Seq<u8>>, dom: Set<Seq<u8>>) -> bool {
    ms.no_duplicates() && ms.to_set() == dom
}

/// `flat` lists the keys of the strings, then those of the sets, lists,
/// hashes and sorted sets of `s`, each group in any order and each key of
/// a group once.
pub open spec fn keys_listing(flat: Seq<Seq<u8>>, s: StateView) -> bool {
    let n1 = s.kv.dom().len();
    let n2 = n1 + s.sets.dom().len();
    let n3 = n2 + s.lists.dom().len();
    let n4 = n3 + s.hashes.dom().len();
    let n5 = n4 + s.zsets.dom().len();
    &&& flat.len() == n5
    &&& lists_set(flat.subrange(0, n1 as int), s.kv.dom())
    &&& lists_set(flat.subrange(n1 as int, n2 as int), s.sets.dom())
    &&& lists_set(flat.subrange(n2 as int, n3 as int), s.lists.dom())
    &&& lists_set(flat.subrange(n3 as int, n4 as int), s.hashes.dom())
    &&& lists_set(flat.subrange(n4 as int, n5 as int), s.zsets.dom())
}

/// What a database-wide operation may do to the current database `s` and
/// the other databases `store`, leaving `s2` and `store2` and answering `r`.
pub open spec fn misc_outcome(
    s: StateView,
    store: StateStoreView,
    c: Command,
    s2: StateView,
    store2: StateStoreView,
    r: RetValue,
) -> bool {
    match c {
        Command::Pong => s2 == s && store2 == store && r == RetValue::StringRes(PONG.spec_bytes()),
        Command::Keys => s2 == s && store2 == store && (r matches RetValue::MultiStringRes(flat)
            && keys_listing(flat, s)),
        Command::FlushAll => {
            &&& s2 == empty_state()
            &&& store2 == (StateStoreView { states: flushed(store.states), ..store })
            &&& r == RetValue::OK
        },
        Command::FlushDB => s2 == empty_state() && store2 == store && r == RetValue::OK,
        Command::Exists(keys) => s2 == s && store2 == store && r == RetValue::IntRes(
            exists_count(s, keys) as i64,
        ),
        Command::PrintCmds => s2 == s && store2 == store && r == RetValue::OK,
        _ => false,
    }
}

/// Appends `more` to `out`.
fn append_keys(out: &mut Vec<Key>, more: Vec<Key>)
    ensures
        bytes_views(final(out)@) == bytes_views(old(out)@) + bytes_views(more@),
{
    let ghost start = out@;
    let n = more.len();
    for i in 0..n
        invariant
            n == more@.len(),
            bytes_views(out@) == bytes_views(start) + bytes_views(more@.take(i as int)),
    {
        let ghost before = out@;
        out.push(crate::types::copy_bytes(&more[i]));
        proof {
            crate::collections::lemma_bytes_views_push(before, out@[out@.len() - 1]);
            assert(more@.take(i + 1) =~= more@.take(i as int).push(more@[i as int]));
            crate::collections::lemma_bytes_views_push(more@.take(i as int), more@[i as int]);
        }
    }
    assert(more@.take(n as int) =~= more@);
}

/// A list of distinct keys has as many items as the set it lists.
proof fn lemma_listed_len(ms: Seq<Seq<u8>>, dom: Set<Seq<u8>>)
    requires
        lists_set(ms, dom),
    ensures
        dom.finite(),
        dom.len() == ms.len(),
{
    ms.unique_seq_to_set();
}

/// The keys of every kind of value of a database.
fn all_keys(state: &State) -> (r: Vec<Key>)
    ensures
        keys_listing(bytes_views(r@), state@),
{
    let a = kv_keys(&state.kv);
    let b = sets_keys(&state.sets);
    let c = lists_keys(&state.lists);
    let d = hashes_keys(&state.hashes);
    let e = zsets_keys(&state.zsets);
    let ghost (va, vb, vc, vd, ve) = (bytes_views(a@), bytes_views(b@), bytes_views(c@), bytes_views(d@), bytes_views(e@));
    proof {
        lemma_listed_len(va, state@.kv.dom());
        lemma_listed_len(vb, state@.sets.dom());
        lemma_listed_len(vc, state@.lists.dom());
        lemma_listed_len(vd, state@.hashes.dom());
        lemma_listed_len(ve, state@.zsets.dom());
    }
    let mut out: Vec<Key> = Vec::new();
    append_keys(&mut out, a);
    append_keys(&mut out, b);
    append_keys(&mut out, c);
    append_keys(&mut out, d);
    append_keys(&mut out, e);
    let ghost flat = bytes_views(out@);
    proof {
        assert(bytes_views(Seq::<Vec<u8>>::empty()) =~= Seq::<Seq<u8>>::empty());
        assert(flat =~= va + vb + vc + vd + ve);
        let n1 = va.len();
        let n2 = n1 + vb.len();
        let n3 = n2 + vc.len();
        let n4 = n3 + vd.len();
        assert(flat.subrange(0, n1 as int) =~= va);
        assert(flat.subrange(n1 as int, n2 as int) =~= vb);
        assert(flat.subrange(n2 as int, n3 as int) =~= vc);
        assert(flat.subrange(n3 as int, n4 as int) =~= vd);
        assert(flat.subrange(n4 as int, flat.len() as int) =~= ve);
    }
    out
}

/// Whether `key` names a value of any kind.
fn key_exists_in(state: &State, key: &[u8]) -> (b: bool)
    ensures
        b == key_exists(state@, key@),
{
    kv_contains_key(&state.kv, key) || sets_contains_key(&state.sets, key) || lists_contains_key(
        &state.lists,
        key,
    ) || hashes_contains_key(&state.hashes, key) || zsets_contains_key(&state.zsets, key)
}

/// Runs a database-wide operation against the current database `state`
/// and the other databases of `store`.
pub fn misc_interact(misc_op: MiscOps, state: &mut State, store: &mut StateStore) -> (r: ReturnValue)
    ensures
        misc_outcome(old(state)@, old(store)@, misc_op@, final(state)@, final(store)@, crate::types::ret_view(r)),
{
    match misc_op {
        MiscOps::Pong => ReturnValue::StringRes(vstd::slice::slice_to_vec(PONG.as_bytes())),
        MiscOps::Keys => ReturnValue::MultiStringRes(all_keys(state)),
        MiscOps::FlushAll => {
            state.flush();
            store.flush_all();
            ReturnValue::OK
        },
        MiscOps::FlushDB => {
            state.flush();
            ReturnValue::OK
        },
        MiscOps::Exists(keys) => {
            let ghost ks = bytes_views(keys@);
            let mut count: usize = 0;
            let n = keys.len();
            for i in 0..n
                invariant
                    n == keys@.len(),
                    ks == bytes_views(keys@),
                    count <= i,
                    count == exists_count(state@, ks.take(i as int)),
            {
                proof {
                    assert(ks.take(i + 1).drop_last() =~= ks.take(i as int));
                }
                if key_exists_in(state, keys[i].as_slice()) {
                    count += 1;
                }
            }
            assert(ks.take(n as int) =~= ks);
            ReturnValue::IntRes(#[verifier::truncate] (count as Count))
        },
        MiscOps::PrintCmds => ReturnValue::OK,
    }
}

} // verus!
