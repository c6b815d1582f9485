//! Properties of the operations taken together: what one operation lets
//! a later one read, what one undoes of another, what is left unchanged.
use vstd::prelude::*;
use crate::hashes::{hash_of, hash_outcome, lookup_field};
use crate::keys::{del_all, key_effect, lookup_string, mset_all};
use crate::lists::{list_effect, list_of, push_all_front};
use crate::ops::{Command, EVEN_ARGS, OpsError};
use crate::sets::{SetAction, add_all, combine_from, existing_keys, is_string_list, many_set_spec, set_of, set_outcome, string_list, with_set};
use crate::data_structures::sorted_set::{SortedSetView, zadd_all, zrem_all};
use crate::misc::{exists_count, keys_listing, misc_outcome};
use crate::ops::{array_request, command_of, key_and_tail, key_and_value, request, two_values, value_of, values_of};
use crate::server::{next_count, served};
use crate::types::ret_to_resp;
use crate::text::{lowercase, utf8_lossy};
use crate::types::{RespValue, RetValue, StateStoreView, StateView, empty_state};

verus! {

broadcast use vstd::seq_lib::group_seq_properties;

// ---- strings ----

/// After `SET k v`, `GET k` answers `v`.
pub proof fn law_get_after_set(s: StateView, k: Seq<u8>, v: Seq<u8>)
    ensures
        key_effect(key_effect(s, Command::SetValue(k, v)).0, Command::Get(k)).1 == RetValue::StringRes(v),
{
}

/// Setting one key leaves what every other key answers as it was.
pub proof fn law_set_keeps_other_keys(s: StateView, k: Seq<u8>, v: Seq<u8>, other: Seq<u8>)
    requires
        other != k,
    ensures
        key_effect(key_effect(s, Command::SetValue(k, v)).0, Command::Get(other)).1 == key_effect(
            s,
            Command::Get(other),
        ).1,
{
}

/// After `MSET pairs`, a key answers the value of its last pair.
pub proof fn law_mset_last_write_wins(kv: Map<Seq<u8>, Seq<u8>>, pairs: Seq<(Seq<u8>, Seq<u8>)>, i: int)
    requires
        0 <= i < pairs.len(),
        forall|j: int| i < j < pairs.len() ==> pairs[j].0 != pairs[i].0,
    ensures
        lookup_string(mset_all(kv, pairs), pairs[i].0) == RetValue::StringRes(pairs[i].1),
    decreases pairs.len(),
{
    if i < pairs.len() - 1 {
        let front = pairs.drop_last();
        assert(pairs[pairs.len() - 1].0 != pairs[i].0);
        law_mset_last_write_wins(kv, front, i);
    }
}

/// `MSET` leaves the keys that no pair names as they were.
pub proof fn law_mset_keeps_others(kv: Map<Seq<u8>, Seq<u8>>, pairs: Seq<(Seq<u8>, Seq<u8>)>, k: Seq<u8>)
    requires
        forall|j: int| 0 <= j < pairs.len() ==> pairs[j].0 != k,
    ensures
        lookup_string(mset_all(kv, pairs), k) == lookup_string(kv, k),
    decreases pairs.len(),
{
    if pairs.len() > 0 {
        let front = pairs.drop_last();
        assert(pairs[pairs.len() - 1].0 != k);
        assert forall|j: int| 0 <= j < front.len() implies front[j].0 != k by {
            assert(front[j] == pairs[j]);
        }
        law_mset_keeps_others(kv, front, k);
    }
}

/// After `DEL ks`, no key of `ks` has a value.
pub proof fn law_del_removes(kv: Map<Seq<u8>, Seq<u8>>, ks: Seq<Seq<u8>>, k: Seq<u8>)
    requires
        ks.contains(k),
    ensures
        !del_all(kv, ks).0.contains_key(k),
    decreases ks.len(),
{
    if ks.last() != k {
        let i = choose|i: int| 0 <= i < ks.len() && ks[i] == k;
        assert(ks.drop_last()[i] == k);
        law_del_removes(kv, ks.drop_last(), k);
    }
}

/// `DEL ks` removes nothing but the keys of `ks`.
pub proof fn law_del_keeps_others(kv: Map<Seq<u8>, Seq<u8>>, ks: Seq<Seq<u8>>, k: Seq<u8>)
    requires
        !ks.contains(k),
    ensures
        lookup_string(del_all(kv, ks).0, k) == lookup_string(kv, k),
    decreases ks.len(),
{
    if ks.len() > 0 {
        assert(ks.drop_last().contains(k) ==> ks.contains(k)) by {
            if ks.drop_last().contains(k) {
                let i = choose|i: int| 0 <= i < ks.drop_last().len() && ks.drop_last()[i] == k;
                assert(ks[i] == k);
            }
        }
        assert(ks[ks.len() - 1] != k);
        law_del_keeps_others(kv, ks.drop_last(), k);
    }
}

/// `DEL ks` leaves the map without the keys of `ks`, and answers how many
/// different keys of `ks` had a value.
pub proof fn law_del_counts_present_keys(kv: Map<Seq<u8>, Seq<u8>>, ks: Seq<Seq<u8>>)
    ensures
        del_all(kv, ks).0 == kv.remove_keys(ks.to_set()),
        del_all(kv, ks).1 == ks.to_set().intersect(kv.dom()).len(),
    decreases ks.len(),
{
    if ks.len() == 0 {
        assert(ks.to_set() =~= Set::<Seq<u8>>::empty());
        assert(kv.remove_keys(ks.to_set()) =~= kv);
        assert(ks.to_set().intersect(kv.dom()) =~= Set::<Seq<u8>>::empty());
    } else {
        let front = ks.drop_last();
        let l = ks.last();
        law_del_counts_present_keys(kv, front);
        assert(ks =~= front.push(l));
        assert(ks.to_set() =~= front.to_set().insert(l)) by {
            assert forall|x: Seq<u8>| ks.to_set().contains(x) implies front.to_set().insert(l).contains(x) by {
                let i = choose|i: int| 0 <= i < ks.len() && ks[i] == x;
                if i < ks.len() - 1 {
                    assert(front[i] == x);
                }
            }
            assert forall|x: Seq<u8>| front.to_set().insert(l).contains(x) implies ks.to_set().contains(x) by {
                if x == l {
                    assert(ks[ks.len() - 1] == x);
                } else {
                    let i = choose|i: int| 0 <= i < front.len() && front[i] == x;
                    assert(ks[i] == x);
                }
            }
        }
        let fs = front.to_set().intersect(kv.dom());
        vstd::seq_lib::seq_to_set_is_finite(front);
        vstd::set::axiom_set_intersect_finite(front.to_set(), kv.dom());
        assert(kv.remove_keys(ks.to_set()) =~= kv.remove_keys(front.to_set()).remove(l));
        if kv.contains_key(l) && !front.to_set().contains(l) {
            assert(ks.to_set().intersect(kv.dom()) =~= fs.insert(l));
            assert(!fs.contains(l));
        } else {
            assert(ks.to_set().intersect(kv.dom()) =~= fs);
            assert(kv.remove_keys(front.to_set()).remove(l) =~= kv.remove_keys(front.to_set()));
        }
    }
}

/// `MGET ks` answers, at each place, what `GET` of the key there answers.
pub proof fn law_mget_reads_each(s: StateView, ks: Seq<Seq<u8>>, i: int)
    requires
        0 <= i < ks.len(),
    ensures
        key_effect(s, Command::MGet(ks)).0 == s,
        key_effect(s, Command::MGet(ks)).1 is Array,
        key_effect(s, Command::MGet(ks)).1->Array_0.len() == ks.len(),
        key_effect(s, Command::MGet(ks)).1->Array_0[i] == key_effect(s, Command::Get(ks[i])).1,
{
}

/// `DEL k` undoes `SET k v` of a key that had no value, and answers 1.
pub proof fn law_del_undoes_set(s: StateView, k: Seq<u8>, v: Seq<u8>)
    requires
        !s.kv.contains_key(k),
    ensures
        key_effect(key_effect(s, Command::SetValue(k, v)).0, Command::Del(seq![k])) == (s, RetValue::IntRes(1)),
{
    let kv1 = s.kv.insert(k, v);
    assert(seq![k].drop_last() =~= Seq::<Seq<u8>>::empty());
    assert(del_all(kv1, Seq::<Seq<u8>>::empty()) == (kv1, 0nat));
    assert(kv1.remove(k) =~= s.kv);
}

/// After `RENAME k nk` of an existing key, `nk` answers what `k` held, and
/// `k` (when it differs from `nk`) answers nil.
pub proof fn law_rename_moves(s: StateView, k: Seq<u8>, nk: Seq<u8>)
    requires
        s.kv.contains_key(k),
    ensures
        ({
            let s2 = key_effect(s, Command::Rename(k, nk)).0;
            &&& lookup_string(s2.kv, nk) == RetValue::StringRes(s.kv[k])
            &&& k != nk ==> lookup_string(s2.kv, k) == RetValue::Nil
        }),
{
}

/// Reading strings changes nothing.
pub proof fn law_string_reads_change_nothing(s: StateView, k: Seq<u8>, ks: Seq<Seq<u8>>)
    ensures
        key_effect(s, Command::Get(k)).0 == s,
        key_effect(s, Command::MGet(ks)).0 == s,
{
}

// ---- lists ----

/// `LPUSH k v` then `LPOP k` answers `v` and leaves list `k` as it was.
pub proof fn law_lpop_undoes_lpush(s: StateView, k: Seq<u8>, v: Seq<u8>)
    ensures
        ({
            let s1 = list_effect(s, Command::LPush(k, seq![v])).0;
            let (s2, r) = list_effect(s1, Command::LPop(k));
            &&& r == RetValue::StringRes(v)
            &&& list_of(s2.lists, k) == list_of(s.lists, k)
        }),
{
    let l = list_of(s.lists, k);
    assert(seq![v].drop_last() =~= Seq::<Seq<u8>>::empty());
    assert(push_all_front(l, Seq::<Seq<u8>>::empty()) == l);
    assert(push_all_front(l, seq![v]) =~= seq![v] + l);
    assert((seq![v] + l).drop_first() =~= l);
}

/// `RPUSH k v` then `RPOP k` answers `v` and leaves list `k` as it was.
pub proof fn law_rpop_undoes_rpush(s: StateView, k: Seq<u8>, v: Seq<u8>)
    ensures
        ({
            let s1 = list_effect(s, Command::RPush(k, seq![v])).0;
            let (s2, r) = list_effect(s1, Command::RPop(k));
            &&& r == RetValue::StringRes(v)
            &&& list_of(s2.lists, k) == list_of(s.lists, k)
        }),
{
    let l = list_of(s.lists, k);
    assert((l + seq![v]).drop_last() =~= l);
}

/// `LPUSH` puts the values first, the last one at the head, and answers
/// the new length.
pub proof fn law_lpush_order(l: Seq<Seq<u8>>, vals: Seq<Seq<u8>>)
    ensures
        push_all_front(l, vals) == vals.reverse() + l,
    decreases vals.len(),
{
    if vals.len() > 0 {
        law_lpush_order(l, vals.drop_last());
        assert(seq![vals.last()] + (vals.drop_last().reverse() + l) =~= vals.reverse() + l);
    } else {
        assert(vals.reverse() + l =~= l);
    }
}

/// Pushing `n` values makes a list `n` longer, and the answer says so.
pub proof fn law_push_lengths(s: StateView, k: Seq<u8>, vals: Seq<Seq<u8>>)
    ensures
        ({
            let n = list_of(s.lists, k).len() + vals.len();
            &&& list_effect(s, Command::LPush(k, vals)).1 == RetValue::IntRes(n as i64)
            &&& list_effect(s, Command::RPush(k, vals)).1 == RetValue::IntRes(n as i64)
        }),
{
    law_lpush_order(list_of(s.lists, k), vals);
}

// ---- hashes ----

/// After `HSET k f v`, `HGET k f` answers `v` and `HEXISTS k f` answers 1.
pub proof fn law_hget_after_hset(
    s: StateView,
    k: Seq<u8>,
    f: Seq<u8>,
    v: Seq<u8>,
    s1: StateView,
    r1: RetValue,
    s2: StateView,
    r2: RetValue,
    s3: StateView,
    r3: RetValue,
)
    requires
        hash_outcome(s, Command::HSet(k, f, v), s1, r1),
        hash_outcome(s1, Command::HGet(k, f), s2, r2),
        hash_outcome(s1, Command::HExists(k, f), s3, r3),
    ensures
        r2 == RetValue::StringRes(v),
        r3 == RetValue::IntRes(1),
{
}

/// Setting one field leaves every other field, and every other hash, as
/// it was.
pub proof fn law_hset_keeps_others(s: StateView, k: Seq<u8>, f: Seq<u8>, v: Seq<u8>, s1: StateView, r1: RetValue, k2: Seq<u8>, f2: Seq<u8>)
    requires
        hash_outcome(s, Command::HSet(k, f, v), s1, r1),
        k2 != k || f2 != f,
    ensures
        lookup_field(hash_of(s1.hashes, k2), f2) == lookup_field(hash_of(s.hashes, k2), f2),
{
}

// ---- sets ----

/// Adding values to a finite set: the set becomes the union, and the count
/// is that of the values it did not hold.
pub proof fn law_sadd_adds_new_values(set: Set<Seq<u8>>, vals: Seq<Seq<u8>>)
    requires
        set.finite(),
    ensures
        add_all(set, vals).0 == set.union(vals.to_set()),
        add_all(set, vals).1 == vals.to_set().difference(set).len(),
    decreases vals.len(),
{
    if vals.len() == 0 {
        assert(vals.to_set() =~= Set::<Seq<u8>>::empty());
        assert(set.union(vals.to_set()) =~= set);
        assert(vals.to_set().difference(set) =~= Set::<Seq<u8>>::empty());
    } else {
        let front = vals.drop_last();
        let x = vals.last();
        law_sadd_adds_new_values(set, front);
        assert(vals =~= front.push(x));
        assert(vals.to_set() =~= front.to_set().insert(x)) by {
            assert forall|a: Seq<u8>| vals.to_set().contains(a) implies front.to_set().insert(x).contains(a) by {
                let i = choose|i: int| 0 <= i < vals.len() && vals[i] == a;
                if i < front.len() {
                    assert(front[i] == a);
                }
            }
            assert forall|a: Seq<u8>| front.to_set().contains(a) implies vals.to_set().contains(a) by {
                let i = choose|i: int| 0 <= i < front.len() && front[i] == a;
                assert(vals[i] == a);
            }
            assert(vals[vals.len() - 1] == x);
        }
        let d = front.to_set().difference(set);
        vstd::seq_lib::seq_to_set_is_finite(front);
        assert(d.finite());
        if set.union(front.to_set()).contains(x) {
            assert(set.union(vals.to_set()) =~= set.union(front.to_set()));
            assert(vals.to_set().difference(set) =~= d);
        } else {
            assert(set.union(vals.to_set()) =~= set.union(front.to_set()).insert(x));
            assert(vals.to_set().difference(set) =~= d.insert(x));
            assert(!d.contains(x));
        }
    }
}

/// After `SADD k vals`, each of `vals` is a member of `k`.
pub proof fn law_sismember_after_sadd(
    s: StateView,
    k: Seq<u8>,
    vals: Seq<Seq<u8>>,
    s1: StateView,
    r1: RetValue,
    m: Seq<u8>,
    s2: StateView,
    r2: RetValue,
)
    requires
        set_of(s.sets, k).finite(),
        set_outcome(s, Command::SAdd(k, vals), s1, r1),
        set_outcome(s1, Command::SIsMember(k, m), s2, r2),
        vals.contains(m),
    ensures
        r2 == RetValue::IntRes(1),
{
    law_sadd_adds_new_values(set_of(s.sets, k), vals);
}

/// After `SMOVE src dst m` of a member of `src`, `dst` holds `m` and, when
/// it is another set, `src` no longer does.
pub proof fn law_smove_moves(s: StateView, src: Seq<u8>, dst: Seq<u8>, m: Seq<u8>, s1: StateView, r: RetValue)
    requires
        set_of(s.sets, src).contains(m),
        set_outcome(s, Command::SMove(src, dst, m), s1, r),
    ensures
        r == RetValue::IntRes(1),
        set_of(s1.sets, dst).contains(m),
        src != dst ==> !set_of(s1.sets, src).contains(m),
{
}

/// Each key of `keys` that names a set is among the existing keys, and
/// each existing key is one of `keys` and names a set.
pub proof fn lemma_existing_keys(sets: Map<Seq<u8>, Set<Seq<u8>>>, keys: Seq<Seq<u8>>)
    ensures
        forall|k: Seq<u8>| keys.contains(k) && sets.contains_key(k) ==> #[trigger] existing_keys(sets, keys).contains(k),
        forall|i: int| 0 <= i < existing_keys(sets, keys).len() ==> sets.contains_key(#[trigger] existing_keys(sets, keys)[i]),
        forall|i: int| 0 <= i < existing_keys(sets, keys).len() ==> keys.contains(#[trigger] existing_keys(sets, keys)[i]),
    decreases keys.len(),
{
    if keys.len() > 0 {
        let front = keys.drop_last();
        lemma_existing_keys(sets, front);
        let e = existing_keys(sets, front);
        assert forall|i: int| 0 <= i < existing_keys(sets, keys).len() implies keys.contains(#[trigger] existing_keys(sets, keys)[i]) by {
            if i < e.len() {
                let j = choose|j: int| 0 <= j < front.len() && front[j] == e[i];
                assert(keys[j] == e[i]);
            } else {
                assert(keys[keys.len() - 1] == keys.last());
            }
        }
        assert forall|k: Seq<u8>| keys.contains(k) && sets.contains_key(k) implies #[trigger] existing_keys(sets, keys).contains(k) by {
            let i = choose|i: int| 0 <= i < keys.len() && keys[i] == k;
            if i < keys.len() - 1 {
                assert(front[i] == k);
                assert(e.contains(k));
                let j = choose|j: int| 0 <= j < e.len() && e[j] == k;
                if sets.contains_key(keys.last()) {
                    assert(existing_keys(sets, keys)[j] == k);
                }
            } else if sets.contains_key(keys.last()) {
                assert(existing_keys(sets, keys)[e.len() as int] == k);
            }
        }
    }
}

/// What combining `head` with the sets of `ks` gives: for an intersection
/// a part of each, for a union a whole that holds each, for a difference a
/// part of `head` that shares nothing with any of them.
pub proof fn lemma_combine_bounds(
    sets: Map<Seq<u8>, Set<Seq<u8>>>,
    head: Set<Seq<u8>>,
    ks: Seq<Seq<u8>>,
    op: SetAction,
)
    ensures
        ({
            let r = combine_from(sets, head, ks, op);
            &&& op is Inter ==> r.subset_of(head) && forall|j: int| 0 <= j < ks.len() ==> r.subset_of(#[trigger] sets[ks[j]])
            &&& op is Union ==> head.subset_of(r) && forall|j: int| 0 <= j < ks.len() ==> (#[trigger] sets[ks[j]]).subset_of(r)
            &&& op is Diff ==> r.subset_of(head) && forall|j: int| 0 <= j < ks.len() ==> r.disjoint(#[trigger] sets[ks[j]])
        }),
    decreases ks.len(),
{
    if ks.len() > 0 {
        let front = ks.drop_last();
        lemma_combine_bounds(sets, head, front, op);
        assert forall|j: int| 0 <= j < ks.len() - 1 implies #[trigger] sets[ks[j]] == sets[front[j]] by {}
    }
}

/// `SINTER` answers members common to every named set; `SUNION` members
/// of any, holding all of each; `SDIFF` members of the first named set
/// that no other named set holds.
pub proof fn law_set_combinations(sets: Map<Seq<u8>, Set<Seq<u8>>>, keys: Seq<Seq<u8>>, op: SetAction, k: Seq<u8>)
    requires
        keys.contains(k),
        sets.contains_key(k),
    ensures
        ({
            let ex = existing_keys(sets, keys);
            let r = many_set_spec(sets, keys, op);
            &&& r is Some
            &&& op is Inter ==> r->0.subset_of(sets[k])
            &&& op is Union ==> sets[k].subset_of(r->0)
            &&& op is Diff ==> r->0.subset_of(sets[ex[0]]) && (k != ex[0] ==> r->0.disjoint(sets[k]))
        }),
{
    lemma_existing_keys(sets, keys);
    let ex = existing_keys(sets, keys);
    assert(ex.contains(k));
    let j = choose|j: int| 0 <= j < ex.len() && ex[j] == k;
    let head = sets[ex[0]];
    let rest = ex.drop_first();
    lemma_combine_bounds(sets, head, rest, op);
    if j > 0 {
        assert(rest[j - 1] == k);
        assert(sets[rest[j - 1]] == sets[k]);
    }
}

/// Reading sets changes nothing.
pub proof fn law_set_reads_change_nothing(s: StateView, c: Command, s1: StateView, r: RetValue)
    requires
        set_outcome(s, c, s1, r),
        c is SMembers || c is SCard || c is SIsMember || c is SDiff || c is SUnion || c is SInter
            || c is SRandMembers,
    ensures
        s1 == s,
{
}

// ---- sorted sets ----

/// Adding a new member and then removing it leaves the sorted set as it
/// was; each answers 1. (A member whose key decodes, with its score, to an
/// entry already ordered is not new to the ordering, so it is left out.)
pub proof fn law_zrem_undoes_zadd(z: SortedSetView, score: i64, key: Seq<u8>)
    requires
        !z.members.contains_key(key),
        !z.scores.contains((score, utf8_lossy(key))),
    ensures
        zadd_all(z, seq![(score, key)]).1 == 1,
        zrem_all(zadd_all(z, seq![(score, key)]).0, seq![key]) == (z, 1nat),
{
    let items = seq![(score, key)];
    assert(items.drop_last() =~= Seq::<(i64, Seq<u8>)>::empty());
    assert(zadd_all(z, Seq::<(i64, Seq<u8>)>::empty()) == (z, 0nat));
    let z1 = zadd_all(z, items).0;
    assert(seq![key].drop_last() =~= Seq::<Seq<u8>>::empty());
    assert(zrem_all(z1, Seq::<Seq<u8>>::empty()) == (z1, 0nat));
    assert(z1.members.remove(key) =~= z.members);
    assert(z1.scores.remove((score, utf8_lossy(key))) =~= z.scores);
}

/// Adding a member that is already there changes nothing and answers 0:
/// its score is not updated.
pub proof fn law_zadd_keeps_members(z: SortedSetView, score: i64, key: Seq<u8>)
    requires
        z.members.contains_key(key),
    ensures
        zadd_all(z, seq![(score, key)]) == (z, 0nat),
{
    assert(seq![(score, key)].drop_last() =~= Seq::<(i64, Seq<u8>)>::empty());
    assert(zadd_all(z, Seq::<(i64, Seq<u8>)>::empty()) == (z, 0nat));
}

// ---- the database as a whole ----

/// After `FLUSHDB` no key exists and `KEYS` lists nothing.
pub proof fn law_flushdb_empties(
    s: StateView,
    store: StateStoreView,
    s1: StateView,
    store1: StateStoreView,
    r: RetValue,
    keys: Seq<Seq<u8>>,
    flat: Seq<Seq<u8>>,
)
    requires
        misc_outcome(s, store, Command::FlushDB, s1, store1, r),
        keys_listing(flat, s1),
    ensures
        exists_count(s1, keys) == 0,
        flat.len() == 0,
    decreases keys.len(),
{
    if keys.len() > 0 {
        law_flushdb_empties(s, store, s1, store1, r, keys.drop_last(), flat);
    }
    assert(s1.kv.dom() =~= Set::<Seq<u8>>::empty());
    assert(s1.sets.dom() =~= Set::<Seq<u8>>::empty());
    assert(s1.lists.dom() =~= Set::<Seq<u8>>::empty());
    assert(s1.hashes.dom() =~= Set::<Seq<u8>>::empty());
    assert(s1.zsets.dom() =~= Set::<Seq<u8>>::empty());
}

/// After `FLUSHALL` every database is empty, the current one too.
pub proof fn law_flushall_empties(
    s: StateView,
    store: StateStoreView,
    s1: StateView,
    store1: StateStoreView,
    r: RetValue,
    i: i64,
)
    requires
        misc_outcome(s, store, Command::FlushAll, s1, store1, r),
        store.states.contains_key(i),
    ensures
        s1 == empty_state(),
        store1.states.contains_key(i),
        store1.states[i] == empty_state(),
{
}

// ---- saving ----

/// The count of commands since the last save after one more command
/// against threshold `t`: back to zero when it reaches `t`.
pub open spec fn count_step(c: u64, t: u64) -> u64 {
    if next_count(c) == t {
        0
    } else {
        next_count(c)
    }
}

/// The count after `n` commands, starting from `c`.
pub open spec fn count_after(c: u64, t: u64, n: nat) -> u64
    decreases n,
{
    if n == 0 {
        c
    } else {
        count_step(count_after(c, t, (n - 1) as nat), t)
    }
}

/// Starting from a save, with a positive threshold `t`, a save is due at
/// the `t`-th command and at none before it.
pub proof fn law_save_every_threshold(t: u64, n: nat)
    requires
        0 < t,
        n < t,
    ensures
        count_after(0, t, n) == n,
        (next_count(count_after(0, t, n)) == t) <==> (n + 1 == t),
    decreases n,
{
    if n > 0 {
        law_save_every_threshold(t, (n - 1) as nat);
    }
}

// ---- reading requests ----

/// A request is read the same whatever the case of its command name.
pub proof fn law_request_ignores_case(a: Seq<RespValue>, b: Seq<RespValue>)
    requires
        a.len() >= 1,
        a.len() == b.len(),
        a.skip(1) == b.skip(1),
        value_of(a[0]) is Ok,
        value_of(b[0]) is Ok,
        lowercase(utf8_lossy(value_of(a[0])->Ok_0)) == lowercase(utf8_lossy(value_of(b[0])->Ok_0)),
    ensures
        array_request(a) == array_request(b),
{
    assert forall|i: int| 1 <= i < a.len() implies a[i] == b[i] by {
        assert(a[i] == a.skip(1)[i - 1]);
        assert(b[i] == b.skip(1)[i - 1]);
    }
    if a.len() >= 2 {
        assert forall|i: int| 0 <= i < a.len() - 2 implies a.skip(2)[i] == b.skip(2)[i] by {
            assert(a[i + 2] == b[i + 2]);
        }
        assert(a.skip(2) =~= b.skip(2));
    }
    assert(key_and_value(a) == key_and_value(b));
    assert(key_and_tail(a) == key_and_tail(b));
    let name = lowercase(utf8_lossy(value_of(a[0])->Ok_0));
    assert(command_of(name, a) == command_of(name, b));
}

// ---- serving requests ----

/// Served against the same database, `SET k v` then `GET k` answers the
/// bulk string `v`, whatever else the store holds.
pub proof fn law_served_get_after_set(
    st: StateStoreView,
    db: i64,
    k: Seq<u8>,
    v: Seq<u8>,
    st1: StateStoreView,
    r1: RetValue,
    save1: bool,
    st2: StateStoreView,
    r2: RetValue,
    save2: bool,
)
    requires
        served(st, db, Command::SetValue(k, v), st1, r1, save1),
        served(st1, db, Command::Get(k), st2, r2, save2),
    ensures
        r1 == RetValue::OK,
        r2 == RetValue::StringRes(v),
        ret_to_resp(r2) == RespValue::BulkString(v),
{
}

/// Serving a command on one database leaves every other database as it
/// was, unless the command empties them all.
pub proof fn law_served_keeps_other_databases(
    st: StateStoreView,
    db: i64,
    c: Command,
    st1: StateStoreView,
    r: RetValue,
    save: bool,
    other: i64,
)
    requires
        served(st, db, c, st1, r, save),
        other != db,
        st.states.contains_key(other),
        c != Command::FlushAll,
    ensures
        st1.states.contains_key(other),
        st1.states[other] == st.states[other],
{
    let s = crate::server::db_of(st.states, db);
    let others = StateStoreView { states: st.states.remove(db), ..st };
    let others2 = StateStoreView { states: st1.states.remove(db), ..st };
    if crate::ops::kind(c) is Database {
        assert(misc_outcome(s, others, c, st1.states[db], others2, r));
        assert(others2 == others);
    }
    assert(st1.states.remove(db) == st.states.remove(db));
    assert(st.states.remove(db)[other] == st.states[other]);
    assert(st1.states.remove(db)[other] == st1.states[other]);
}

// ---- argument order ----

/// A request `RENAME k nk` (any case) asks to rename `k`, the first
/// argument, to `nk`, the second; `RENAMENX k nk` likewise.
pub proof fn law_rename_reads_key_then_new_name(a: Seq<RespValue>, k: Seq<u8>, nk: Seq<u8>)
    requires
        a.len() == 3,
        a[0] is BulkString,
        a[1] == RespValue::BulkString(k),
        a[2] == RespValue::BulkString(nk),
    ensures
        lowercase(utf8_lossy(a[0]->BulkString_0)) == "rename"@ ==> request(RespValue::Array(a)) == Ok::<
            Command,
            crate::ops::OpsError,
        >(Command::Rename(k, nk)),
        lowercase(utf8_lossy(a[0]->BulkString_0)) == "renamenx"@ ==> request(RespValue::Array(a)) == Ok::<
            Command,
            crate::ops::OpsError,
        >(Command::RenameNx(k, nk)),
{
    lemma_command_names();
    let t = a.skip(1);
    assert(t.len() == 2 && t[0] == a[1] && t[1] == a[2]);
    assert(two_values(t) == Ok::<(Seq<u8>, Seq<u8>), crate::ops::OpsError>((k, nk)));
}

/// The lengths of the command names, and the letters that tell apart
/// those of equal length.
proof fn lemma_command_names()
    ensures
        "ping"@.len() == 4,
        "keys"@.len() == 4,
        "flushall"@.len() == 8,
        "flushdb"@.len() == 7,
        "set"@.len() == 3,
        "mset"@.len() == 4,
        "get"@.len() == 3,
        "mget"@.len() == 4,
        "del"@.len() == 3,
        "rename"@.len() == 6,
        "renamenx"@.len() == 8,
        "exists"@.len() == 6,
        "printcmds"@.len() == 9,
        "sadd"@.len() == 4,
        "srem"@.len() == 4,
        "smembers"@.len() == 8,
        "scard"@.len() == 5,
        "sdiff"@.len() == 5,
        "sunion"@.len() == 6,
        "sinter"@.len() == 6,
        "sdiffstore"@.len() == 10,
        "sunionstore"@.len() == 11,
        "sinterstore"@.len() == 11,
        "spop"@.len() == 4,
        "sismember"@.len() == 9,
        "smove"@.len() == 5,
        "scard"@[1] == 'c',
        "sdiff"@[1] == 'd',
        "smove"@[1] == 'm',
        "sunionstore"@[1] == 'u',
        "sinterstore"@[1] == 'i',
        "ping"@[0] == 'p',
        "keys"@[0] == 'k',
        "flushall"@[0] == 'f',
        "set"@[0] == 's',
        "mset"@[0] == 'm',
        "mset"@[1] == 's',
        "get"@[0] == 'g',
        "mget"@[0] == 'm',
        "mget"@[1] == 'g',
        "del"@[0] == 'd',
        "rename"@[0] == 'r',
        "renamenx"@[0] == 'r',
        "exists"@[0] == 'e',
        "smembers"@[0] == 's',
        "sunion"@[0] == 's',
        "sunion"@[1] == 'u',
        "sinter"@[0] == 's',
        "sinter"@[1] == 'i',
{
    reveal_strlit("ping");
    reveal_strlit("keys");
    reveal_strlit("flushall");
    reveal_strlit("flushdb");
    reveal_strlit("set");
    reveal_strlit("mset");
    reveal_strlit("get");
    reveal_strlit("mget");
    reveal_strlit("del");
    reveal_strlit("rename");
    reveal_strlit("renamenx");
    reveal_strlit("exists");
    reveal_strlit("printcmds");
    reveal_strlit("sadd");
    reveal_strlit("srem");
    reveal_strlit("smembers");
    reveal_strlit("scard");
    reveal_strlit("sdiff");
    reveal_strlit("sunion");
    reveal_strlit("sinter");
    reveal_strlit("sdiffstore");
    reveal_strlit("sunionstore");
    reveal_strlit("sinterstore");
    reveal_strlit("spop");
    reveal_strlit("sismember");
    reveal_strlit("smove");
}

/// The name a request starts with, in lower case.
pub open spec fn request_name(a: Seq<RespValue>) -> Seq<char> {
    lowercase(utf8_lossy(a[0]->BulkString_0))
}

/// A request `SET k v` (any case) asks to give key `k`, the first
/// argument, the value `v`, the second.
pub proof fn law_set_reads_key_then_value(a: Seq<RespValue>, k: Seq<u8>, v: Seq<u8>)
    requires
        a.len() == 3,
        a[0] is BulkString,
        a[1] == RespValue::BulkString(k),
        a[2] == RespValue::BulkString(v),
        request_name(a) == "set"@,
    ensures
        request(RespValue::Array(a)) == Ok::<Command, crate::ops::OpsError>(Command::SetValue(k, v)),
{
    lemma_command_names();
}

/// A request `SMOVE src dst m` (any case) asks to move the member `m`, the
/// third argument, from the set `src`, the first, to the set `dst`, the
/// second.
pub proof fn law_smove_reads_source_destination_member(a: Seq<RespValue>, src: Seq<u8>, dst: Seq<u8>, m: Seq<u8>)
    requires
        a.len() == 4,
        a[0] is BulkString,
        a[1] == RespValue::BulkString(src),
        a[2] == RespValue::BulkString(dst),
        a[3] == RespValue::BulkString(m),
        request_name(a) == "smove"@,
    ensures
        request(RespValue::Array(a)) == Ok::<Command, crate::ops::OpsError>(Command::SMove(src, dst, m)),
{
    lemma_command_names();
    let t = a.skip(1);
    assert(t.len() == 3 && t[0] == a[1] && t[1] == a[2] && t[2] == a[3]);
}

/// A request whose command takes a fixed number of arguments (one for
/// `GET`, `SMEMBERS` and `SCARD`; two for `RENAME` and `RENAMENX`; three
/// for `SMOVE`) but has another number of them is refused, naming both
/// numbers; one whose command takes at least some (one for `MGET`, `DEL`
/// and `EXISTS`; two for `SDIFF`, `SUNION` and `SINTER`) but has fewer is
/// refused likewise; `MSET` with an odd number of arguments is refused.
pub proof fn law_argument_counts_refused(a: Seq<RespValue>)
    requires
        a.len() >= 1,
        a[0] is BulkString,
    ensures
        ({
            let name = request_name(a);
            let n = a.len() - 1;
            let given = n as usize;
            let r = request(RespValue::Array(a));
            &&& (name == "get"@ || name == "smembers"@ || name == "scard"@) && n != 1 ==> r == Err::<
                Command,
                OpsError,
            >(OpsError::WrongNumberOfArgs(1, given))
            &&& (name == "rename"@ || name == "renamenx"@) && n != 2 ==> r == Err::<Command, OpsError>(
                OpsError::WrongNumberOfArgs(2, given),
            )
            &&& name == "smove"@ && n != 3 ==> r == Err::<Command, OpsError>(OpsError::WrongNumberOfArgs(3, given))
            &&& (name == "mget"@ || name == "del"@ || name == "exists"@) && n < 1 ==> r == Err::<Command, OpsError>(
                OpsError::NotEnoughArgs(1, given),
            )
            &&& (name == "sdiff"@ || name == "sunion"@ || name == "sinter"@) && n < 2 ==> r == Err::<
                Command,
                OpsError,
            >(OpsError::NotEnoughArgs(2, given))
            &&& name == "mset"@ && n % 2 == 1 ==> r == Err::<Command, OpsError>(OpsError::InvalidArgPattern(EVEN_ARGS))
        }),
{
    lemma_command_names();
    assert(a.skip(1).len() == a.len() - 1);
}

/// Bulk strings read as their bytes.
proof fn lemma_values_of_bulk(vs: Seq<RespValue>, keys: Seq<Seq<u8>>)
    requires
        vs.len() == keys.len(),
        forall|i: int| 0 <= i < vs.len() ==> vs[i] == RespValue::BulkString(#[trigger] keys[i]),
    ensures
        values_of(vs) == Ok::<Seq<Seq<u8>>, crate::ops::OpsError>(keys),
    decreases vs.len(),
{
    if vs.len() > 0 {
        lemma_values_of_bulk(vs.drop_last(), keys.drop_last());
        assert(vs.last() == RespValue::BulkString(keys.last()));
        assert(keys.drop_last().push(keys.last()) =~= keys);
    }
}

/// A request `SDIFFSTORE dst k...` (any case; likewise `SUNIONSTORE` and
/// `SINTERSTORE`) asks to store under `dst`, the first argument, what the
/// sets named by the other arguments, in order, combine to.
pub proof fn law_store_reads_destination_then_keys(a: Seq<RespValue>, op: SetAction, dst: Seq<u8>, keys: Seq<Seq<u8>>)
    requires
        keys.len() >= 1,
        a.len() == keys.len() + 2,
        a[0] is BulkString,
        a[1] == RespValue::BulkString(dst),
        forall|i: int| 0 <= i < keys.len() ==> a[i + 2] == RespValue::BulkString(#[trigger] keys[i]),
        request_name(a) == match op {
            SetAction::Diff => "sdiffstore"@,
            SetAction::Union => "sunionstore"@,
            SetAction::Inter => "sinterstore"@,
        },
    ensures
        request(RespValue::Array(a)) == Ok::<Command, crate::ops::OpsError>(store_command(op, dst, keys)),
{
    lemma_command_names();
    lemma_values_of_bulk(a.skip(2), keys);
}

// ---- storing combined sets ----

/// The command that stores the combination `op` of `keys` under `dst`.
pub open spec fn store_command(op: SetAction, dst: Seq<u8>, keys: Seq<Seq<u8>>) -> Command {
    match op {
        SetAction::Diff => Command::SDiffStore(dst, keys),
        SetAction::Union => Command::SUnionStore(dst, keys),
        SetAction::Inter => Command::SInterStore(dst, keys),
    }
}

/// Who is a member of `head` combined with the sets of `ks`.
pub proof fn lemma_combine_members(
    sets: Map<Seq<u8>, Set<Seq<u8>>>,
    head: Set<Seq<u8>>,
    ks: Seq<Seq<u8>>,
    op: SetAction,
    m: Seq<u8>,
)
    ensures
        combine_from(sets, head, ks, op).contains(m) <==> match op {
            SetAction::Union => head.contains(m) || exists|j: int| 0 <= j < ks.len() && #[trigger] sets[ks[j]].contains(m),
            SetAction::Inter => head.contains(m) && forall|j: int| 0 <= j < ks.len() ==> #[trigger] sets[ks[j]].contains(m),
            SetAction::Diff => head.contains(m) && forall|j: int| 0 <= j < ks.len() ==> !#[trigger] sets[ks[j]].contains(m),
        },
    decreases ks.len(),
{
    if ks.len() > 0 {
        let front = ks.drop_last();
        let last = ks.len() - 1;
        lemma_combine_members(sets, head, front, op, m);
        assert forall|j: int| 0 <= j < front.len() implies front[j] == ks[j] by {}
        match op {
            SetAction::Union => {
                if exists|j: int| 0 <= j < ks.len() && #[trigger] sets[ks[j]].contains(m) {
                    let j = choose|j: int| 0 <= j < ks.len() && #[trigger] sets[ks[j]].contains(m);
                    if j < last {
                        assert(sets[front[j]].contains(m));
                    }
                }
                if exists|j: int| 0 <= j < front.len() && #[trigger] sets[front[j]].contains(m) {
                    let j = choose|j: int| 0 <= j < front.len() && #[trigger] sets[front[j]].contains(m);
                    assert(sets[ks[j]].contains(m));
                }
            },
            SetAction::Inter => {
                if forall|j: int| 0 <= j < front.len() ==> #[trigger] sets[front[j]].contains(m) {
                    if sets[ks[last]].contains(m) {
                        assert forall|j: int| 0 <= j < ks.len() implies #[trigger] sets[ks[j]].contains(m) by {
                            if j < last {
                                assert(sets[front[j]].contains(m));
                            }
                        }
                    }
                }
                if forall|j: int| 0 <= j < ks.len() ==> #[trigger] sets[ks[j]].contains(m) {
                    assert forall|j: int| 0 <= j < front.len() implies #[trigger] sets[front[j]].contains(m) by {
                        assert(sets[ks[j]].contains(m));
                    }
                    assert(sets[ks[last]].contains(m));
                }
            },
            SetAction::Diff => {
                if forall|j: int| 0 <= j < front.len() ==> !#[trigger] sets[front[j]].contains(m) {
                    if !sets[ks[last]].contains(m) {
                        assert forall|j: int| 0 <= j < ks.len() implies !#[trigger] sets[ks[j]].contains(m) by {
                            if j < last {
                                assert(!sets[front[j]].contains(m));
                            }
                        }
                    }
                }
                if forall|j: int| 0 <= j < ks.len() ==> !#[trigger] sets[ks[j]].contains(m) {
                    assert forall|j: int| 0 <= j < front.len() implies !#[trigger] sets[front[j]].contains(m) by {
                        assert(!sets[ks[j]].contains(m));
                    }
                    assert(!sets[ks[last]].contains(m));
                }
            },
        }
    }
}

/// Who is a member of the combination of the sets that `keys` name, in
/// terms of the existing keys `ex`, in order.
pub proof fn lemma_many_members(sets: Map<Seq<u8>, Set<Seq<u8>>>, keys: Seq<Seq<u8>>, op: SetAction, m: Seq<u8>)
    ensures
        ({
            let ex = existing_keys(sets, keys);
            &&& ex.len() == 0 <==> many_set_spec(sets, keys, op) is None
            &&& ex.len() > 0 ==> (many_set_spec(sets, keys, op)->0.contains(m) <==> match op {
                SetAction::Union => exists|j: int| 0 <= j < ex.len() && #[trigger] sets[ex[j]].contains(m),
                SetAction::Inter => forall|j: int| 0 <= j < ex.len() ==> #[trigger] sets[ex[j]].contains(m),
                SetAction::Diff => sets[ex[0]].contains(m) && forall|j: int|
                    1 <= j < ex.len() ==> !#[trigger] sets[ex[j]].contains(m),
            })
        }),
{
    let ex = existing_keys(sets, keys);
    if ex.len() > 0 {
        let head = sets[ex[0]];
        let rest = ex.drop_first();
        lemma_combine_members(sets, head, rest, op, m);
        assert forall|j: int| 0 <= j < rest.len() implies rest[j] == ex[j + 1] by {}
        match op {
            SetAction::Union => {
                if exists|j: int| 0 <= j < ex.len() && #[trigger] sets[ex[j]].contains(m) {
                    let j = choose|j: int| 0 <= j < ex.len() && #[trigger] sets[ex[j]].contains(m);
                    if j > 0 {
                        assert(sets[rest[j - 1]].contains(m));
                    }
                }
                if exists|j: int| 0 <= j < rest.len() && #[trigger] sets[rest[j]].contains(m) {
                    let j = choose|j: int| 0 <= j < rest.len() && #[trigger] sets[rest[j]].contains(m);
                    assert(sets[ex[j + 1]].contains(m));
                }
            },
            SetAction::Inter => {
                if forall|j: int| 0 <= j < ex.len() ==> #[trigger] sets[ex[j]].contains(m) {
                    assert forall|j: int| 0 <= j < rest.len() implies #[trigger] sets[rest[j]].contains(m) by {
                        assert(sets[ex[j + 1]].contains(m));
                    }
                    assert(sets[ex[0]].contains(m));
                }
                if head.contains(m) && forall|j: int| 0 <= j < rest.len() ==> #[trigger] sets[rest[j]].contains(m) {
                    assert forall|j: int| 0 <= j < ex.len() implies #[trigger] sets[ex[j]].contains(m) by {
                        if j > 0 {
                            assert(sets[rest[j - 1]].contains(m));
                        }
                    }
                }
            },
            SetAction::Diff => {
                if forall|j: int| 1 <= j < ex.len() ==> !#[trigger] sets[ex[j]].contains(m) {
                    assert forall|j: int| 0 <= j < rest.len() implies !#[trigger] sets[rest[j]].contains(m) by {
                        assert(!sets[ex[j + 1]].contains(m));
                    }
                }
                if forall|j: int| 0 <= j < rest.len() ==> !#[trigger] sets[rest[j]].contains(m) {
                    assert forall|j: int| 1 <= j < ex.len() implies !#[trigger] sets[ex[j]].contains(m) by {
                        assert(!sets[rest[j - 1]].contains(m));
                    }
                }
            },
        }
    }
}

/// Whether `m` belongs to the combination `op` of the sets that `keys`
/// name, keys that name no set being passed over: for a union, `m` is in
/// one of them; for an intersection, `m` is in each of them (and one
/// exists); for a difference, `m` is in the first of them and in none
/// named after it.
pub open spec fn combined_member(sets: Map<Seq<u8>, Set<Seq<u8>>>, keys: Seq<Seq<u8>>, op: SetAction, m: Seq<u8>) -> bool {
    match op {
        SetAction::Union => exists|i: int|
            0 <= i < keys.len() && sets.contains_key(#[trigger] keys[i]) && sets[keys[i]].contains(m),
        SetAction::Inter => (exists|i: int| 0 <= i < keys.len() && sets.contains_key(#[trigger] keys[i]))
            && forall|i: int| 0 <= i < keys.len() && sets.contains_key(#[trigger] keys[i]) ==> sets[keys[i]].contains(m),
        SetAction::Diff => exists|i: int|
            0 <= i < keys.len() && first_set_at(sets, keys, i) && #[trigger] sets[keys[i]].contains(m)
                && forall|j: int| i < j < keys.len() && sets.contains_key(#[trigger] keys[j]) ==> !sets[keys[j]].contains(m),
    }
}

/// Whether `keys[i]` is the first of `keys` that names a set.
pub open spec fn first_set_at(sets: Map<Seq<u8>, Set<Seq<u8>>>, keys: Seq<Seq<u8>>, i: int) -> bool {
    &&& 0 <= i < keys.len()
    &&& sets.contains_key(keys[i])
    &&& forall|j: int| 0 <= j < i ==> !sets.contains_key(#[trigger] keys[j])
}

/// The existing keys of two sequences joined are theirs, joined.
pub proof fn lemma_existing_keys_concat(sets: Map<Seq<u8>, Set<Seq<u8>>>, a: Seq<Seq<u8>>, b: Seq<Seq<u8>>)
    ensures
        existing_keys(sets, a + b) == existing_keys(sets, a) + existing_keys(sets, b),
    decreases b.len(),
{
    if b.len() == 0 {
        assert(a + b =~= a);
        assert(existing_keys(sets, a) + existing_keys(sets, b) =~= existing_keys(sets, a));
    } else {
        lemma_existing_keys_concat(sets, a, b.drop_last());
        assert((a + b).drop_last() =~= a + b.drop_last());
        assert((a + b).last() == b.last());
        if sets.contains_key(b.last()) {
            assert(existing_keys(sets, a) + existing_keys(sets, b.drop_last()).push(b.last()) =~= (existing_keys(
                sets,
                a,
            ) + existing_keys(sets, b.drop_last())).push(b.last()));
        }
    }
}

/// Some key names a set, so a first one does.
pub proof fn lemma_first_set_exists(sets: Map<Seq<u8>, Set<Seq<u8>>>, keys: Seq<Seq<u8>>, i: int)
    requires
        0 <= i < keys.len(),
        sets.contains_key(keys[i]),
    ensures
        exists|f: int| first_set_at(sets, keys, f),
    decreases i,
{
    if exists|j: int| 0 <= j < i && sets.contains_key(#[trigger] keys[j]) {
        let j = choose|j: int| 0 <= j < i && sets.contains_key(#[trigger] keys[j]);
        lemma_first_set_exists(sets, keys, j);
    } else {
        assert(first_set_at(sets, keys, i));
    }
}

/// The existing keys start with the first key that names a set, followed by
/// those after it.
pub proof fn lemma_existing_from_first(sets: Map<Seq<u8>, Set<Seq<u8>>>, keys: Seq<Seq<u8>>, f: int)
    requires
        first_set_at(sets, keys, f),
    ensures
        existing_keys(sets, keys) == seq![keys[f]] + existing_keys(sets, keys.skip(f + 1)),
{
    let pre = keys.take(f);
    assert(keys =~= pre.push(keys[f]) + keys.skip(f + 1));
    lemma_existing_keys_concat(sets, pre.push(keys[f]), keys.skip(f + 1));
    lemma_existing_keys(sets, pre);
    if existing_keys(sets, pre).len() > 0 {
        let k = existing_keys(sets, pre)[0];
        assert(pre.contains(k));
        let j = choose|j: int| 0 <= j < pre.len() && pre[j] == k;
        assert(keys[j] == k);
    }
    assert(pre.push(keys[f]).drop_last() =~= pre);
    assert(existing_keys(sets, pre.push(keys[f])) =~= seq![keys[f]]);
}

/// Who is a member of the combination of the sets that `keys` name, as
/// `combined_member` says, and that there is a combination exactly when
/// some key names a set.
pub proof fn law_set_combination_members(sets: Map<Seq<u8>, Set<Seq<u8>>>, keys: Seq<Seq<u8>>, op: SetAction, m: Seq<u8>)
    ensures
        (many_set_spec(sets, keys, op) is None) <==> forall|i: int| 0 <= i < keys.len() ==> !sets.contains_key(#[trigger] keys[i]),
        many_set_spec(sets, keys, op) is Some ==> (many_set_spec(sets, keys, op)->0.contains(m) <==> combined_member(sets, keys, op, m)),
{
    let ex = existing_keys(sets, keys);
    lemma_many_members(sets, keys, op, m);
    lemma_existing_keys(sets, keys);
    if exists|i: int| 0 <= i < keys.len() && sets.contains_key(#[trigger] keys[i]) {
        let i = choose|i: int| 0 <= i < keys.len() && sets.contains_key(#[trigger] keys[i]);
        assert(keys.contains(keys[i]));
        assert(ex.contains(keys[i]));
    }
    if ex.len() > 0 {
        assert(keys.contains(ex[0]));
        let i0 = choose|i: int| 0 <= i < keys.len() && keys[i] == ex[0];
        assert(sets.contains_key(keys[i0]));
        match op {
            SetAction::Union => {
                if exists|j: int| 0 <= j < ex.len() && #[trigger] sets[ex[j]].contains(m) {
                    let j = choose|j: int| 0 <= j < ex.len() && #[trigger] sets[ex[j]].contains(m);
                    assert(keys.contains(ex[j]));
                    let i = choose|i: int| 0 <= i < keys.len() && keys[i] == ex[j];
                    assert(sets.contains_key(keys[i]) && sets[keys[i]].contains(m));
                }
                if combined_member(sets, keys, op, m) {
                    let i = choose|i: int|
                        0 <= i < keys.len() && sets.contains_key(#[trigger] keys[i]) && sets[keys[i]].contains(m);
                    assert(keys.contains(keys[i]));
                    assert(ex.contains(keys[i]));
                    let j = choose|j: int| 0 <= j < ex.len() && ex[j] == keys[i];
                    assert(sets[ex[j]].contains(m));
                }
            },
            SetAction::Inter => {
                if forall|j: int| 0 <= j < ex.len() ==> #[trigger] sets[ex[j]].contains(m) {
                    assert forall|i: int| 0 <= i < keys.len() && sets.contains_key(#[trigger] keys[i]) implies sets[keys[i]].contains(m) by {
                        assert(keys.contains(keys[i]));
                        assert(ex.contains(keys[i]));
                        let j = choose|j: int| 0 <= j < ex.len() && ex[j] == keys[i];
                        assert(sets[ex[j]].contains(m));
                    }
                }
                if combined_member(sets, keys, op, m) {
                    assert forall|j: int| 0 <= j < ex.len() implies #[trigger] sets[ex[j]].contains(m) by {
                        assert(keys.contains(ex[j]));
                        let i = choose|i: int| 0 <= i < keys.len() && keys[i] == ex[j];
                        assert(sets.contains_key(keys[i]));
                    }
                }
            },
            SetAction::Diff => {
                lemma_first_set_exists(sets, keys, i0);
                let f = choose|f: int| first_set_at(sets, keys, f);
                lemma_existing_from_first(sets, keys, f);
                let tail = keys.skip(f + 1);
                let et = existing_keys(sets, tail);
                lemma_existing_keys(sets, tail);
                assert(ex[0] == keys[f]);
                assert forall|j: int| 1 <= j < ex.len() implies ex[j] == et[j - 1] by {}
                let later = forall|j: int| f < j < keys.len() && sets.contains_key(#[trigger] keys[j]) ==> !sets[keys[j]].contains(m);
                let rest = forall|j: int| 1 <= j < ex.len() ==> !#[trigger] sets[ex[j]].contains(m);
                if rest {
                    assert forall|j: int| f < j < keys.len() && sets.contains_key(#[trigger] keys[j]) implies !sets[keys[j]].contains(m) by {
                        assert(tail[j - f - 1] == keys[j]);
                        assert(tail.contains(keys[j]));
                        assert(et.contains(keys[j]));
                        let t = choose|t: int| 0 <= t < et.len() && et[t] == keys[j];
                        assert(ex[t + 1] == keys[j]);
                    }
                }
                if later {
                    assert forall|j: int| 1 <= j < ex.len() implies !#[trigger] sets[ex[j]].contains(m) by {
                        assert(ex[j] == et[j - 1]);
                        assert(tail.contains(et[j - 1]));
                        let t = choose|t: int| 0 <= t < tail.len() && tail[t] == et[j - 1];
                        assert(keys[f + 1 + t] == tail[t]);
                        assert(sets.contains_key(et[j - 1]));
                    }
                }
                if combined_member(sets, keys, op, m) {
                    let i = choose|i: int|
                        0 <= i < keys.len() && first_set_at(sets, keys, i) && #[trigger] sets[keys[i]].contains(m)
                            && forall|j: int| i < j < keys.len() && sets.contains_key(#[trigger] keys[j]) ==> !sets[keys[j]].contains(m);
                    if i < f {
                        assert(!sets.contains_key(keys[i]));
                    }
                    if f < i {
                        assert(!sets.contains_key(keys[f]));
                    }
                    assert(i == f);
                }
                if sets[ex[0]].contains(m) && rest {
                    assert(first_set_at(sets, keys, f) && sets[keys[f]].contains(m) && later);
                }
            },
        }
    }
}

/// `SDIFFSTORE`, `SUNIONSTORE` and `SINTERSTORE` replace whatever `dst`
/// held by the combination of the sets that `keys` name (in order, those
/// that exist: `ex`), answer its size, and touch nothing else. When no key
/// names a set, nothing changes and 0 is answered.
pub proof fn law_set_store_replaces(
    s: StateView,
    dst: Seq<u8>,
    keys: Seq<Seq<u8>>,
    op: SetAction,
    s2: StateView,
    r: RetValue,
    m: Seq<u8>,
)
    requires
        set_outcome(s, store_command(op, dst, keys), s2, r),
    ensures
        ({
            let ex = existing_keys(s.sets, keys);
            &&& ex.len() == 0 ==> s2 == s && r == RetValue::IntRes(0)
            &&& ex.len() > 0 ==> {
                &&& s2.sets.contains_key(dst)
                &&& r == RetValue::IntRes(s2.sets[dst].len() as i64)
                &&& (s2.sets[dst].contains(m) <==> match op {
                    SetAction::Union => exists|j: int| 0 <= j < ex.len() && #[trigger] s.sets[ex[j]].contains(m),
                    SetAction::Inter => forall|j: int| 0 <= j < ex.len() ==> #[trigger] s.sets[ex[j]].contains(m),
                    SetAction::Diff => s.sets[ex[0]].contains(m) && forall|j: int|
                        1 <= j < ex.len() ==> !#[trigger] s.sets[ex[j]].contains(m),
                })
                &&& (s2.sets[dst].contains(m) <==> combined_member(s.sets, keys, op, m))
                &&& forall|k: Seq<u8>| k != dst ==> (s2.sets.contains_key(k) <==> s.sets.contains_key(k))
                &&& forall|k: Seq<u8>| k != dst && s.sets.contains_key(k) ==> s2.sets[k] == s.sets[k]
                &&& s2.kv == s.kv && s2.lists == s.lists && s2.hashes == s.hashes && s2.zsets == s.zsets
            }
        }),
{
    lemma_many_members(s.sets, keys, op, m);
    law_set_combination_members(s.sets, keys, op, m);
}

/// The command that lists the combination `op` of `keys`.
pub open spec fn listing_command(op: SetAction, keys: Seq<Seq<u8>>) -> Command {
    match op {
        SetAction::Diff => Command::SDiff(keys),
        SetAction::Union => Command::SUnion(keys),
        SetAction::Inter => Command::SInter(keys),
    }
}

/// `SDIFF`, `SUNION` and `SINTER` list, each once, exactly the members of
/// the combination of the sets that `keys` name, and change nothing.
pub proof fn law_set_listing_members(
    s: StateView,
    keys: Seq<Seq<u8>>,
    op: SetAction,
    s2: StateView,
    r: RetValue,
    m: Seq<u8>,
)
    requires
        set_outcome(s, listing_command(op, keys), s2, r),
    ensures
        s2 == s,
        is_string_list(r),
        string_list(r).no_duplicates(),
        string_list(r).contains(m) <==> combined_member(s.sets, keys, op, m),
{
    law_set_combination_members(s.sets, keys, op, m);
    lemma_many_members(s.sets, keys, op, m);
    if many_set_spec(s.sets, keys, op) is None {
        assert(string_list(r) =~= Seq::<Seq<u8>>::empty());
        if combined_member(s.sets, keys, op, m) {
            match op {
                SetAction::Union => {
                    let i = choose|i: int|
                        0 <= i < keys.len() && s.sets.contains_key(#[trigger] keys[i]) && s.sets[keys[i]].contains(m);
                },
                SetAction::Inter => {
                    let i = choose|i: int| 0 <= i < keys.len() && s.sets.contains_key(#[trigger] keys[i]);
                },
                SetAction::Diff => {
                    let i = choose|i: int|
                        0 <= i < keys.len() && first_set_at(s.sets, keys, i) && #[trigger] s.sets[keys[i]].contains(m)
                            && forall|j: int| i < j < keys.len() && s.sets.contains_key(#[trigger] keys[j]) ==> !s.sets[keys[j]].contains(m);
                },
            }
        }
    } else {
        let set = many_set_spec(s.sets, keys, op)->0;
        assert(string_list(r).to_set() == set);
        if string_list(r).contains(m) {
            assert(string_list(r).to_set().contains(m));
        }
        if set.contains(m) {
            assert(string_list(r).to_set().contains(m));
        }
    }
}

/// `SMOVE src dst m` of a member of `src` answers 1, leaves `dst` holding
/// exactly what it held before and `m`, leaves `src` (when it is another set)
/// holding what it held before but `m`, and leaves every other set and
/// every other kind of value as it was. Of a value that is not a member of
/// `src` it answers 0 and changes nothing.
pub proof fn law_smove_keeps_members(
    s: StateView,
    src: Seq<u8>,
    dst: Seq<u8>,
    m: Seq<u8>,
    s1: StateView,
    r: RetValue,
)
    requires
        set_outcome(s, Command::SMove(src, dst, m), s1, r),
    ensures
        set_of(s.sets, src).contains(m) ==> {
            &&& r == RetValue::IntRes(1)
            &&& set_of(s1.sets, dst) == set_of(s.sets, dst).insert(m)
            &&& set_of(s.sets, dst).subset_of(set_of(s1.sets, dst))
            &&& src != dst ==> set_of(s1.sets, src) == set_of(s.sets, src).remove(m)
            &&& forall|k: Seq<u8>| k != src && k != dst ==> set_of(#[trigger] s1.sets, k) == set_of(s.sets, k)
            &&& s1.kv == s.kv && s1.lists == s.lists && s1.hashes == s.hashes && s1.zsets == s.zsets
        },
        !set_of(s.sets, src).contains(m) ==> s1 == s && r == RetValue::IntRes(0),
{
    if set_of(s.sets, src).contains(m) {
        let s0 = with_set(s, src, s.sets[src].remove(m));
        if src == dst {
            assert(set_of(s0.sets, dst).insert(m) =~= set_of(s.sets, dst));
            assert(set_of(s.sets, dst).insert(m) =~= set_of(s.sets, dst));
        }
        assert forall|k: Seq<u8>| k != src && k != dst implies set_of(#[trigger] s1.sets, k) == set_of(s.sets, k) by {}
    }
}

/// `RENAMENX k nk` answers 1 exactly when `k` holds a string and `nk` holds
/// none; it then moves the value: `nk` answers what `k` held, `k` answers
/// nil, and every other key answers as before. It answers 0 and changes
/// nothing when `nk` is taken, and answers "no such key" and changes
/// nothing when `k` is missing.
pub proof fn law_renamenx_moves(s: StateView, k: Seq<u8>, nk: Seq<u8>)
    ensures
        ({
            let (s2, r) = key_effect(s, Command::RenameNx(k, nk));
            &&& (r == RetValue::IntRes(1)) <==> (s.kv.contains_key(k) && !s.kv.contains_key(nk))
            &&& r == RetValue::IntRes(1) ==> {
                &&& k != nk
                &&& lookup_string(s2.kv, k) == RetValue::Nil
                &&& lookup_string(s2.kv, nk) == RetValue::StringRes(s.kv[k])
                &&& forall|o: Seq<u8>| o != k && o != nk ==> lookup_string(s2.kv, o) == lookup_string(s.kv, o)
                &&& s2.sets == s.sets && s2.lists == s.lists && s2.hashes == s.hashes && s2.zsets == s.zsets
            }
            &&& r != RetValue::IntRes(1) ==> s2 == s
            &&& !s.kv.contains_key(k) ==> r is Error
            &&& s.kv.contains_key(k) && s.kv.contains_key(nk) ==> r == RetValue::IntRes(0)
        }),
{
}

/// `RENAME k nk` of an existing key answers OK, moves the value to `nk`,
/// leaves `k` (when it differs from `nk`) answering nil and every other
/// key answering as before; of a missing key it answers an error and
/// changes nothing.
pub proof fn law_rename_keeps_others(s: StateView, k: Seq<u8>, nk: Seq<u8>)
    ensures
        ({
            let (s2, r) = key_effect(s, Command::Rename(k, nk));
            &&& s.kv.contains_key(k) ==> {
                &&& r == RetValue::OK
                &&& lookup_string(s2.kv, nk) == RetValue::StringRes(s.kv[k])
                &&& k != nk ==> lookup_string(s2.kv, k) == RetValue::Nil
                &&& forall|o: Seq<u8>| o != k && o != nk ==> lookup_string(s2.kv, o) == lookup_string(s.kv, o)
                &&& s2.sets == s.sets && s2.lists == s.lists && s2.hashes == s.hashes && s2.zsets == s.zsets
            }
            &&& !s.kv.contains_key(k) ==> s2 == s && r is Error
        }),
{
}

} // verus!
