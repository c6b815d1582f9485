//! Operations on set values.
use vstd::prelude::*;
use vstd::string::StringSliceAdditionalSpecFns;
use crate::collections::ValueSet;
use crate::keyspace::{sets_contains_key, sets_insert, sets_remove};
use crate::ops::{Command, rvec_bytes_view};
use crate::rvec::{RVec, rvec_bytes_into_vec};
use crate::types::{
    Count, Key, RetValue, ReturnValue, State, StateView, Value, bytes_views, copy_bytes, ret_view,
    string_results, strings_array,
};

verus! {

broadcast use vstd::seq_lib::group_seq_properties;

/// The error that a negative count answers.
pub const COUNT_OUT_OF_RANGE: &'static str = "value is out of range, must be positive";

/// Operations on set values.
pub enum SetOps {
    SAdd(Key, RVec<Value>),
    SMembers(Key),
    SCard(Key),
    SRem(Key, RVec<Value>),
    SDiff(RVec<Value>),
    SDiffStore(Key, RVec<Value>),
    SUnion(RVec<Value>),
    SUnionStore(Key, RVec<Value>),
    SInter(RVec<Value>),
    SInterStore(Key, RVec<Value>),
    SPop(Key, Option<Count>),
    SIsMember(Key, Value),
    SMove(Key, Key, Value),
    SRandMembers(Key, Option<Count>),
}

impl SetOps {
    /// What this operation asks for.
    pub open spec fn view(&self) -> Command {
        match self {
            SetOps::SAdd(k, vs) => Command::SAdd(k@, rvec_bytes_view(*vs)),
            SetOps::SMembers(k) => Command::SMembers(k@),
            SetOps::SCard(k) => Command::SCard(k@),
            SetOps::SRem(k, vs) => Command::SRem(k@, rvec_bytes_view(*vs)),
            SetOps::SDiff(ks) => Command::SDiff(rvec_bytes_view(*ks)),
            SetOps::SDiffStore(k, ks) => Command::SDiffStore(k@, rvec_bytes_view(*ks)),
            SetOps::SUnion(ks) => Command::SUnion(rvec_bytes_view(*ks)),
            SetOps::SUnionStore(k, ks) => Command::SUnionStore(k@, rvec_bytes_view(*ks)),
            SetOps::SInter(ks) => Command::SInter(rvec_bytes_view(*ks)),
            SetOps::SInterStore(k, ks) => Command::SInterStore(k@, rvec_bytes_view(*ks)),
            SetOps::SPop(k, c) => Command::SPop(k@, *c),
            SetOps::SIsMember(k, m) => Command::SIsMember(k@, m@),
            SetOps::SMove(src, dst, m) => Command::SMove(src@, dst@, m@),
            SetOps::SRandMembers(k, c) => Command::SRandMembers(k@, *c),
        }
    }
}

/// How several sets are combined.
#[derive(Clone, Copy)]
pub enum SetAction {
    Diff,
    Union,
    Inter,
}

/// One step of combining sets.
pub open spec fn set_combine(a: Set<Seq<u8>>, b: Set<Seq<u8>>, op: SetAction) -> Set<Seq<u8>> {
    match op {
        SetAction::Diff => a.difference(b),
        SetAction::Union => a.union(b),
        SetAction::Inter => a.intersect(b),
    }
}

/// The keys, in order and with repeats, that name existing sets.
pub open spec fn existing_keys(sets: Map<Seq<u8>, Set<Seq<u8>>>, keys: Seq<Seq<u8>>) -> Seq<Seq<u8>>
    decreases keys.len(),
{
    if keys.len() == 0 {
        Seq::empty()
    } else {
        let e = existing_keys(sets, keys.drop_last());
        if sets.contains_key(keys.last()) {
            e.push(keys.last())
        } else {
            e
        }
    }
}

/// `head` combined, in order, with the sets named by `keys`.
pub open spec fn combine_from(
    sets: Map<Seq<u8>, Set<Seq<u8>>>,
    head: Set<Seq<u8>>,
    keys: Seq<Seq<u8>>,
    op: SetAction,
) -> Set<Seq<u8>>
    decreases keys.len(),
{
    if keys.len() == 0 {
        head
    } else {
        set_combine(combine_from(sets, head, keys.drop_last(), op), sets[keys.last()], op)
    }
}

/// The first existing set combined, in order, with the other existing sets
/// named by `keys`; nothing when no key names a set.
pub open spec fn many_set_spec(sets: Map<Seq<u8>, Set<Seq<u8>>>, keys: Seq<Seq<u8>>, op: SetAction) -> Option<
    Set<Seq<u8>>,
> {
    let ex = existing_keys(sets, keys);
    if ex.len() == 0 {
        None
    } else {
        Some(combine_from(sets, sets[ex[0]], ex.drop_first(), op))
    }
}

/// The set named by `k`, or the empty set.
pub open spec fn set_of(sets: Map<Seq<u8>, Set<Seq<u8>>>, k: Seq<u8>) -> Set<Seq<u8>> {
    if sets.contains_key(k) {
        sets[k]
    } else {
        Set::empty()
    }
}

/// Inserts each value in order; the set made and how many values were new.
pub open spec fn add_all(set: Set<Seq<u8>>, vals: Seq<Seq<u8>>) -> (Set<Seq<u8>>, nat)
    decreases vals.len(),
{
    if vals.len() == 0 {
        (set, 0)
    } else {
        let (s1, n1) = add_all(set, vals.drop_last());
        if s1.contains(vals.last()) {
            (s1, n1)
        } else {
            (s1.insert(vals.last()), n1 + 1)
        }
    }
}

/// `ms` lists the members of `set`, each once.
pub open spec fn arranges(ms: Seq<Seq<u8>>, set: Set<Seq<u8>>) -> bool {
    ms.no_duplicates() && ms.to_set() == set
}

/// `ms` is `n` distinct members of `set`.
pub open spec fn picks(ms: Seq<Seq<u8>>, set: Set<Seq<u8>>, n: int) -> bool {
    &&& ms.no_duplicates()
    &&& ms.len() == n
    &&& forall|i: int| 0 <= i < ms.len() ==> set.contains(#[trigger] ms[i])
}

/// The smaller of a non-negative count and a size.
pub open spec fn count_cap(c: i64, size: nat) -> int {
    if c < size {
        c as int
    } else {
        size as int
    }
}

/// The database with set `k` replaced by `set`.
pub open spec fn with_set(s: StateView, k: Seq<u8>, set: Set<Seq<u8>>) -> StateView {
    StateView { sets: s.sets.insert(k, set), ..s }
}

/// Whether `r` is an array of bulk string results.
pub open spec fn is_string_list(r: RetValue) -> bool {
    r matches RetValue::Array(a) && forall|i: int| 0 <= i < a.len() ==> #[trigger] a[i] is StringRes
}

/// The strings of an array of bulk string results.
pub open spec fn string_list(r: RetValue) -> Seq<Seq<u8>> {
    match r {
        RetValue::Array(a) => a.map_values(|x: RetValue| x->StringRes_0),
        _ => Seq::empty(),
    }
}

/// An array of bulk string results lists exactly its strings.
pub proof fn lemma_string_results_list(ms: Seq<Seq<u8>>)
    ensures
        is_string_list(RetValue::Array(string_results(ms))),
        string_list(RetValue::Array(string_results(ms))) == ms,
{
    assert(string_list(RetValue::Array(string_results(ms))) =~= ms);
}

/// What an operation on set values may do to a database `s`, leaving `s2`
/// and answering `r`. Where the members are listed or picked, any order or
/// choice of members is allowed.
pub open spec fn set_outcome(s: StateView, c: Command, s2: StateView, r: RetValue) -> bool {
    match c {
        Command::SAdd(k, vals) => {
            let (set1, n) = add_all(set_of(s.sets, k), vals);
            s2 == with_set(s, k, set1) && r == RetValue::IntRes(n as i64)
        },
        Command::SMembers(k) => s2 == s && is_string_list(r) && arranges(string_list(r), set_of(s.sets, k)),
        Command::SCard(k) => s2 == s && r == RetValue::IntRes(set_of(s.sets, k).len() as i64),
        Command::SRem(k, vals) => if s.sets.contains_key(k) {
            let (set1, n) = add_all(s.sets[k], vals);
            s2 == with_set(s, k, set1) && r == RetValue::IntRes(n as i64)
        } else {
            s2 == s && r == RetValue::IntRes(0)
        },
        Command::SDiff(keys) => s2 == s && combined_listing(s, keys, SetAction::Diff, r),
        Command::SUnion(keys) => s2 == s && combined_listing(s, keys, SetAction::Union, r),
        Command::SInter(keys) => s2 == s && combined_listing(s, keys, SetAction::Inter, r),
        Command::SDiffStore(dst, keys) => combined_store(s, dst, keys, SetAction::Diff, s2, r),
        Command::SUnionStore(dst, keys) => combined_store(s, dst, keys, SetAction::Union, s2, r),
        Command::SInterStore(dst, keys) => combined_store(s, dst, keys, SetAction::Inter, s2, r),
        Command::SIsMember(k, m) => s2 == s && r == RetValue::IntRes(
            if set_of(s.sets, k).contains(m) {
                1
            } else {
                0
            },
        ),
        Command::SMove(src, dst, m) => if set_of(s.sets, src).contains(m) {
            let s1 = with_set(s, src, s.sets[src].remove(m));
            s2 == with_set(s1, dst, set_of(s1.sets, dst).insert(m)) && r == RetValue::IntRes(1)
        } else {
            s2 == s && r == RetValue::IntRes(0)
        },
        Command::SPop(k, count) => pop_outcome(s, k, count, s2, r),
        Command::SRandMembers(k, count) => s2 == s && rand_outcome(set_of(s.sets, k), count, r),
        _ => false,
    }
}

/// What popping from set `k` may do: with no count, one member is removed
/// and answered (nil for an empty or missing set); with a count, that many
/// members (or all of them, if fewer) are removed and listed.
pub open spec fn pop_outcome(s: StateView, k: Seq<u8>, count: Option<i64>, s2: StateView, r: RetValue) -> bool {
    match count {
        None => if set_of(s.sets, k).len() == 0 {
            s2 == s && r == RetValue::Nil
        } else {
            &&& r is StringRes
            &&& s.sets[k].contains(r->StringRes_0)
            &&& s2 == with_set(s, k, s.sets[k].remove(r->StringRes_0))
        },
        Some(cnt) => if cnt < 0 {
            s2 == s && r == RetValue::Error(COUNT_OUT_OF_RANGE.spec_bytes())
        } else if !s.sets.contains_key(k) {
            s2 == s && r == RetValue::Array(Seq::empty())
        } else {
            &&& is_string_list(r)
            &&& picks(string_list(r), s.sets[k], count_cap(cnt, s.sets[k].len()))
            &&& s2 == with_set(s, k, s.sets[k].difference(string_list(r).to_set()))
        },
    }
}

/// What listing members of `set` without removing them may answer: with no
/// count, one member (nil for an empty set); with a count, that many
/// distinct members (or all of them, if fewer).
pub open spec fn rand_outcome(set: Set<Seq<u8>>, count: Option<i64>, r: RetValue) -> bool {
    match count {
        None => if set.len() == 0 {
            r == RetValue::Nil
        } else {
            r is StringRes && set.contains(r->StringRes_0)
        },
        Some(cnt) => if cnt < 0 {
            r == RetValue::Error(COUNT_OUT_OF_RANGE.spec_bytes())
        } else {
            is_string_list(r) && picks(string_list(r), set, count_cap(cnt, set.len()))
        },
    }
}

/// The members of the combined sets, listed; an empty list when no key
/// names a set.
pub open spec fn combined_listing(s: StateView, keys: Seq<Seq<u8>>, op: SetAction, r: RetValue) -> bool {
    match many_set_spec(s.sets, keys, op) {
        Some(set) => is_string_list(r) && arranges(string_list(r), set),
        None => r == RetValue::Array(Seq::empty()),
    }
}

/// The combined sets stored under `dst`, answering their size; nothing
/// stored and 0 answered when no key names a set.
pub open spec fn combined_store(
    s: StateView,
    dst: Seq<u8>,
    keys: Seq<Seq<u8>>,
    op: SetAction,
    s2: StateView,
    r: RetValue,
) -> bool {
    match many_set_spec(s.sets, keys, op) {
        Some(set) => s2 == with_set(s, dst, set) && r == RetValue::IntRes(set.len() as i64),
        None => s2 == s && r == RetValue::IntRes(0),
    }
}

/// Putting back what was taken out of a map leaves the map as it was.
pub proof fn lemma_put_back<V>(m: Map<Seq<u8>, V>, k: Seq<u8>, v: V)
    requires
        m.contains_key(k),
        m[k] == v,
    ensures
        m.remove(k).insert(k, v) == m,
{
    assert(m.remove(k).insert(k, v) =~= m);
}

/// One step of combining two sets.
pub fn combine(head: &ValueSet, other: &ValueSet, op: SetAction) -> (r: ValueSet)
    ensures
        r@ == set_combine(head@, other@, op),
{
    match op {
        SetAction::Diff => head.difference(other),
        SetAction::Union => head.union(other),
        SetAction::Inter => head.intersection(other),
    }
}

/// The first existing set named by `keys`, combined in order with the other
/// existing sets they name; nothing when no key names a set. The database
/// is left as it was.
pub fn many_set_op(state: &mut State, keys: RVec<Key>, op: SetAction) -> (r: Option<ValueSet>)
    ensures
        final(state)@ == old(state)@,
        match r {
            Some(set) => many_set_spec(old(state)@.sets, rvec_bytes_view(keys), op) == Some(set@),
            None => many_set_spec(old(state)@.sets, rvec_bytes_view(keys), op) is None,
        },
{
    let ghost s0 = state@;
    let ghost ks = rvec_bytes_view(keys);
    let keys = rvec_bytes_into_vec(keys);
    let mut existing: Vec<Key> = Vec::new();
    let n = keys.len();
    for i in 0..n
        invariant
            n == keys@.len(),
            ks == bytes_views(keys@),
            state@ == s0,
            bytes_views(existing@) == existing_keys(s0.sets, ks.take(i as int)),
            forall|j: int| 0 <= j < existing@.len() ==> s0.sets.contains_key(#[trigger] existing@[j]@),
    {
        proof {
            assert(ks.take(i + 1).drop_last() =~= ks.take(i as int));
        }
        if sets_contains_key(&state.sets, keys[i].as_slice()) {
            let ghost before = existing@;
            existing.push(copy_bytes(&keys[i]));
            proof {
                crate::collections::lemma_bytes_views_push(before, existing@[existing@.len() - 1]);
                assert(existing@ == before.push(existing@[existing@.len() - 1]));
            }
        }
    }
    assert(ks.take(n as int) =~= ks);
    let ghost ex = bytes_views(existing@);
    if existing.len() == 0 {
        return None;
    }
    let first = match sets_remove(&mut state.sets, existing[0].as_slice()) {
        Some(first) => first,
        None => ValueSet::new(),
    };
    let mut head = first.copy();
    sets_insert(&mut state.sets, copy_bytes(&existing[0]), first);
    proof {
        lemma_put_back(s0.sets, ex[0], head@);
    }
    let m = existing.len();
    for j in 1..m
        invariant
            m == existing@.len(),
            m >= 1,
            ex == bytes_views(existing@),
            state@ == s0,
            forall|i: int| 0 <= i < existing@.len() ==> s0.sets.contains_key(#[trigger] existing@[i]@),
            head@ == combine_from(s0.sets, s0.sets[ex[0]], ex.subrange(1, j as int), op),
    {
        let other = match sets_remove(&mut state.sets, existing[j].as_slice()) {
            Some(other) => other,
            None => ValueSet::new(),
        };
        proof {
            assert(other@ == s0.sets[ex[j as int]]);
            assert(ex.subrange(1, j + 1).drop_last() =~= ex.subrange(1, j as int));
        }
        head = combine(&head, &other, op);
        sets_insert(&mut state.sets, copy_bytes(&existing[j]), other);
        proof {
            lemma_put_back(s0.sets, ex[j as int], other@);
        }
    }
    assert(ex.subrange(1, m as int) =~= ex.drop_first());
    Some(head)
}

/// The smaller of a non-negative count and a size.
fn cap_count(c: Count, size: usize) -> (n: usize)
    requires
        c >= 0,
    ensures
        n == count_cap(c, size as nat),
{
    if (c as u64) < (size as u64) {
        c as usize
    } else {
        size
    }
}

/// Runs an operation on set values against a database.
pub fn set_interact(set_op: SetOps, state: &mut State) -> (r: ReturnValue)
    ensures
        set_outcome(old(state)@, set_op@, final(state)@, ret_view(r)),
{
    let ghost s0 = state@;
    match set_op {
        SetOps::SAdd(set_key, vals) => {
            let ghost k = set_key@;
            let ghost vs = rvec_bytes_view(vals);
            let vals = rvec_bytes_into_vec(vals);
            let mut set = match sets_remove(&mut state.sets, set_key.as_slice()) {
                Some(set) => set,
                None => ValueSet::new(),
            };
            let mut count: usize = 0;
            let n = vals.len();
            for i in 0..n
                invariant
                    n == vals@.len(),
                    vs == bytes_views(vals@),
                    count <= i,
                    set@ == add_all(set_of(s0.sets, k), vs.take(i as int)).0,
                    count == add_all(set_of(s0.sets, k), vs.take(i as int)).1,
            {
                proof {
                    assert(vs.take(i + 1).drop_last() =~= vs.take(i as int));
                }
                if set.insert(copy_bytes(&vals[i])) {
                    count += 1;
                }
            }
            assert(vs.take(n as int) =~= vs);
            sets_insert(&mut state.sets, set_key, set);
            assert(state@.sets =~= s0.sets.insert(k, add_all(set_of(s0.sets, k), vs).0));
            ReturnValue::IntRes(#[verifier::truncate] (count as Count))
        },
        SetOps::SMembers(set_key) => match sets_remove(&mut state.sets, set_key.as_slice()) {
            Some(set) => {
                let members = set.to_vec();
                set.members_facts();
                let ghost sv = set@;
                sets_insert(&mut state.sets, set_key, set);
                proof {
                    lemma_put_back(s0.sets, set_key@, sv);
                    assert(arranges(bytes_views(members@), set_of(s0.sets, set_key@)));
                }
                let ghost ms = bytes_views(members@);
                let r = strings_array(members);
                proof {
                    lemma_string_results_list(ms);
                }
                r
            },
            None => {
                let r = strings_array(Vec::new());
                proof {
                    assert(state@.sets =~= s0.sets);
                    let e = Seq::<Seq<u8>>::empty();
                    assert(bytes_views(Seq::<Vec<u8>>::empty()) =~= e);
                    assert(set_of(s0.sets, set_key@) =~= Set::<Seq<u8>>::empty());
                    assert(e.to_set() =~= Set::<Seq<u8>>::empty());
                    lemma_string_results_list(e);
                }
                r
            },
        },
        SetOps::SCard(set_key) => match sets_remove(&mut state.sets, set_key.as_slice()) {
            Some(set) => {
                let n = set.len();
                let ghost sv = set@;
                sets_insert(&mut state.sets, set_key, set);
                proof {
                    lemma_put_back(s0.sets, set_key@, sv);
                }
                ReturnValue::IntRes(#[verifier::truncate] (n as Count))
            },
            None => {
                assert(set_of(s0.sets, set_key@) =~= Set::<Seq<u8>>::empty());
                assert(state@.sets =~= s0.sets);
                ReturnValue::IntRes(0)
            },
        },
        SetOps::SRem(set_key, vals) => {
            let ghost k = set_key@;
            let ghost vs = rvec_bytes_view(vals);
            let vals = rvec_bytes_into_vec(vals);
            match sets_remove(&mut state.sets, set_key.as_slice()) {
                Some(mut set) => {
                    let mut count: usize = 0;
                    let n = vals.len();
                    for i in 0..n
                        invariant
                            n == vals@.len(),
                            vs == bytes_views(vals@),
                            count <= i,
                            set@ == add_all(s0.sets[k], vs.take(i as int)).0,
                            count == add_all(s0.sets[k], vs.take(i as int)).1,
                    {
                        proof {
                            assert(vs.take(i + 1).drop_last() =~= vs.take(i as int));
                        }
                        if set.insert(copy_bytes(&vals[i])) {
                            count += 1;
                        }
                    }
                    assert(vs.take(n as int) =~= vs);
                    sets_insert(&mut state.sets, set_key, set);
                    assert(state@.sets =~= s0.sets.insert(k, add_all(s0.sets[k], vs).0));
                    ReturnValue::IntRes(#[verifier::truncate] (count as Count))
                },
                None => {
                    assert(state@.sets =~= s0.sets);
                    ReturnValue::IntRes(0)
                },
            }
        },
        SetOps::SDiff(keys) => set_listing(state, keys, SetAction::Diff),
        SetOps::SUnion(keys) => set_listing(state, keys, SetAction::Union),
        SetOps::SInter(keys) => set_listing(state, keys, SetAction::Inter),
        SetOps::SDiffStore(to_store, keys) => set_store(state, to_store, keys, SetAction::Diff),
        SetOps::SUnionStore(to_store, keys) => set_store(state, to_store, keys, SetAction::Union),
        SetOps::SInterStore(to_store, keys) => set_store(state, to_store, keys, SetAction::Inter),
        SetOps::SIsMember(set_key, member) => match sets_remove(&mut state.sets, set_key.as_slice()) {
            Some(set) => {
                let found = set.contains(member.as_slice());
                let ghost sv = set@;
                sets_insert(&mut state.sets, set_key, set);
                proof {
                    lemma_put_back(s0.sets, set_key@, sv);
                }
                ReturnValue::IntRes(if found { 1 } else { 0 })
            },
            None => {
                assert(state@.sets =~= s0.sets);
                ReturnValue::IntRes(0)
            },
        },
        SetOps::SMove(src, dest, member) => match sets_remove(&mut state.sets, src.as_slice()) {
            None => {
                assert(state@.sets =~= s0.sets);
                ReturnValue::IntRes(0)
            },
            Some(mut set) => {
                if !set.contains(member.as_slice()) {
                    let ghost sv = set@;
                    sets_insert(&mut state.sets, src, set);
                    proof {
                        lemma_put_back(s0.sets, src@, sv);
                    }
                    ReturnValue::IntRes(0)
                } else {
                    set.remove(member.as_slice());
                    sets_insert(&mut state.sets, src, set);
                    let ghost s1 = state@;
                    proof {
                        assert(s1.sets =~= s0.sets.insert(src@, s0.sets[src@].remove(member@)));
                    }
                    let mut dest_set = match sets_remove(&mut state.sets, dest.as_slice()) {
                        Some(d) => d,
                        None => ValueSet::new(),
                    };
                    assert(dest_set@ == set_of(s1.sets, dest@));
                    dest_set.insert(member);
                    sets_insert(&mut state.sets, dest, dest_set);
                    assert(state@.sets =~= s1.sets.insert(dest@, set_of(s1.sets, dest@).insert(member@)));
                    ReturnValue::IntRes(1)
                }
            },
        },
        SetOps::SPop(set_key, count) => set_pop(state, set_key, count),
        SetOps::SRandMembers(set_key, count) => set_rand_members(state, set_key, count),
    }
}

/// Lists the combined sets.
fn set_listing(state: &mut State, keys: RVec<Key>, op: SetAction) -> (r: ReturnValue)
    ensures
        final(state)@ == old(state)@,
        combined_listing(old(state)@, rvec_bytes_view(keys), op, ret_view(r)),
{
    match many_set_op(state, keys, op) {
        Some(set) => {
            let members = set.to_vec();
            set.members_facts();
            let ghost ms = bytes_views(members@);
            let r = strings_array(members);
            proof {
                lemma_string_results_list(ms);
            }
            r
        },
        None => {
            let r = strings_array(Vec::new());
            assert(bytes_views(Seq::<Vec<u8>>::empty()) =~= Seq::<Seq<u8>>::empty());
            assert(string_results(Seq::<Seq<u8>>::empty()) =~= Seq::<RetValue>::empty());
            r
        },
    }
}

/// Stores the combined sets under `to_store`.
fn set_store(state: &mut State, to_store: Key, keys: RVec<Key>, op: SetAction) -> (r: ReturnValue)
    ensures
        combined_store(old(state)@, to_store@, rvec_bytes_view(keys), op, final(state)@, ret_view(r)),
{
    match many_set_op(state, keys, op) {
        Some(set) => {
            let size = set.len();
            sets_insert(&mut state.sets, to_store, set);
            ReturnValue::IntRes(#[verifier::truncate] (size as Count))
        },
        None => ReturnValue::IntRes(0),
    }
}

/// Removes up to `count` members (one when no count is given) and lists them.
fn set_pop(state: &mut State, set_key: Key, count: Option<Count>) -> (r: ReturnValue)
    ensures
        set_outcome(old(state)@, Command::SPop(set_key@, count), final(state)@, ret_view(r)),
{
    let ghost s0 = state@;
    let ghost k = set_key@;
    if let Some(c) = count {
        if c < 0 {
            return ReturnValue::Error(COUNT_OUT_OF_RANGE.as_bytes());
        }
    }
    match sets_remove(&mut state.sets, set_key.as_slice()) {
        None => {
            assert(set_of(s0.sets, k) =~= Set::<Seq<u8>>::empty());
            assert(state@.sets =~= s0.sets);
            match count {
                None => ReturnValue::Nil,
                Some(_) => {
                    let r = strings_array(Vec::new());
                    assert(bytes_views(Seq::<Vec<u8>>::empty()) =~= Seq::<Seq<u8>>::empty());
                    assert(string_results(Seq::<Seq<u8>>::empty()) =~= Seq::<RetValue>::empty());
                    r
                },
            }
        },
        Some(mut set) => {
            let members = set.to_vec();
            set.members_facts();
            let ghost ms = bytes_views(members@);
            let ghost orig = set@;
            proof {
                ms.unique_seq_to_set();
            }
            let len = members.len();
            let n = match count {
                None => if len == 0 { 0 } else { 1 },
                Some(c) => cap_count(c, len),
            };
            let mut popped: Vec<Value> = Vec::new();
            for i in 0..n
                invariant
                    n <= len,
                    len == members@.len(),
                    ms == bytes_views(members@),
                    ms.no_duplicates(),
                    ms.to_set() == orig,
                    bytes_views(popped@) == ms.take(i as int),
                    set@ == orig.difference(ms.take(i as int).to_set()),
            {
                set.remove(members[i].as_slice());
                let ghost before = popped@;
                popped.push(copy_bytes(&members[i]));
                proof {
                    crate::collections::lemma_bytes_views_push(before, popped@[popped@.len() - 1]);
                    assert(popped@ == before.push(popped@[popped@.len() - 1]));
                    assert(ms.take(i + 1) =~= ms.take(i as int).push(ms[i as int]));
                    assert(ms.take(i + 1).to_set() =~= ms.take(i as int).to_set().insert(ms[i as int]));
                    assert(set@ =~= orig.difference(ms.take(i + 1).to_set()));
                }
            }
            let ghost taken = ms.take(n as int);
            proof {
                assert forall|i: int| 0 <= i < taken.len() implies orig.contains(#[trigger] taken[i]) by {
                    assert(taken[i] == ms[i]);
                }
                assert forall|a: int, b: int|
                    0 <= a < taken.len() && 0 <= b < taken.len() && a != b implies taken[a] != taken[b] by {
                    assert(taken[a] == ms[a] && taken[b] == ms[b]);
                }
            }
            sets_insert(&mut state.sets, set_key, set);
            match count {
                None => {
                    if n == 0 {
                        proof {
                            assert(ms.take(0) =~= Seq::<Seq<u8>>::empty());
                            assert(set@ =~= orig);
                            lemma_put_back(s0.sets, k, orig);
                        }
                        ReturnValue::Nil
                    } else {
                        proof {
                            assert(taken =~= Seq::<Seq<u8>>::empty().push(ms[0]));
                            assert(taken.to_set() =~= Seq::<Seq<u8>>::empty().to_set().insert(ms[0]));
                            assert(taken.to_set() =~= Set::<Seq<u8>>::empty().insert(ms[0]));
                            assert(orig.difference(taken.to_set()) =~= orig.remove(ms[0]));
                            assert(state@.sets =~= s0.sets.insert(k, orig.remove(ms[0])));
                            assert(ms.to_set().contains(ms[0]));
                        }
                        let r = ReturnValue::StringRes(copy_bytes(&popped[0]));
                        assert(s0.sets[k].contains(ms[0]) && state@ == with_set(s0, k, s0.sets[k].remove(ms[0]))
                            && ret_view(r) == RetValue::StringRes(ms[0]));
                        r
                    }
                },
                Some(c) => {
                    proof {
                        assert(state@.sets =~= s0.sets.insert(k, orig.difference(taken.to_set())));
                        ms.unique_seq_to_set();
                    }
                    let r = strings_array(popped);
                    proof {
                        lemma_string_results_list(taken);
                    }
                    assert(picks(taken, s0.sets[k], count_cap(c, s0.sets[k].len())));
                    r
                },
            }
        },
    }
}

/// Lists up to `count` members (one when no count is given) without
/// removing them.
fn set_rand_members(state: &mut State, set_key: Key, count: Option<Count>) -> (r: ReturnValue)
    ensures
        set_outcome(old(state)@, Command::SRandMembers(set_key@, count), final(state)@, ret_view(r)),
{
    let ghost s0 = state@;
    let ghost k = set_key@;
    if let Some(c) = count {
        if c < 0 {
            return ReturnValue::Error(COUNT_OUT_OF_RANGE.as_bytes());
        }
    }
    let (members, orig): (Vec<Value>, Ghost<Set<Seq<u8>>>) = match sets_remove(
        &mut state.sets,
        set_key.as_slice(),
    ) {
        None => {
            assert(set_of(s0.sets, k) =~= Set::<Seq<u8>>::empty());
            assert(state@.sets =~= s0.sets);
            assert(bytes_views(Seq::<Vec<u8>>::empty()).to_set() =~= Set::<Seq<u8>>::empty());
            (Vec::new(), Ghost(Set::<Seq<u8>>::empty()))
        },
        Some(set) => {
            let members = set.to_vec();
            set.members_facts();
            let ghost sv = set@;
            sets_insert(&mut state.sets, set_key, set);
            proof {
                lemma_put_back(s0.sets, k, sv);
            }
            (members, Ghost(sv))
        },
    };
    let ghost ms = bytes_views(members@);
    assert(state@ == s0);
    proof {
        assert(orig@ == set_of(s0.sets, k));
        assert(ms.no_duplicates());
        assert(ms.to_set() == orig@);
        ms.unique_seq_to_set();
    }
    let len = members.len();
    match count {
        None => {
            if len == 0 {
                assert(set_of(s0.sets, k).len() == 0);
                assert(set_outcome(s0, Command::SRandMembers(k, count), state@, RetValue::Nil));
                ReturnValue::Nil
            } else {
                proof {
                    assert(ms.to_set().contains(ms[0]));
                    if !s0.sets.contains_key(k) {
                        assert(ms.to_set().len() == 0);
                    }
                }
                let r = ReturnValue::StringRes(copy_bytes(&members[0]));
                assert(s0.sets[k].contains(ms[0]) && ret_view(r) == RetValue::StringRes(ms[0]));
                assert(set_outcome(s0, Command::SRandMembers(k, count), state@, ret_view(r)));
                r
            }
        },
        Some(c) => {
            let n = cap_count(c, len);
            let mut picked: Vec<Value> = Vec::new();
            for i in 0..n
                invariant
                    n <= len,
                    len == members@.len(),
                    ms == bytes_views(members@),
                    bytes_views(picked@) == ms.take(i as int),
                    state@ == s0,
            {
                let ghost before = picked@;
                picked.push(copy_bytes(&members[i]));
                proof {
                    crate::collections::lemma_bytes_views_push(before, picked@[picked@.len() - 1]);
                    assert(picked@ == before.push(picked@[picked@.len() - 1]));
                    assert(ms.take(i + 1) =~= ms.take(i as int).push(ms[i as int]));
                }
            }
            let ghost taken = ms.take(n as int);
            proof {
                assert forall|i: int| 0 <= i < taken.len() implies orig@.contains(#[trigger] taken[i]) by {
                    assert(taken[i] == ms[i]);
                    assert(ms.to_set().contains(ms[i]));
                }
                assert forall|a: int, b: int|
                    0 <= a < taken.len() && 0 <= b < taken.len() && a != b implies taken[a] != taken[b] by {
                    assert(taken[a] == ms[a] && taken[b] == ms[b]);
                }
                assert(picks(taken, set_of(s0.sets, k), count_cap(c, set_of(s0.sets, k).len())));
            }
            let r = strings_array(picked);
            proof {
                lemma_string_results_list(taken);
            }
            r
        },
    }
}

} // verus!
