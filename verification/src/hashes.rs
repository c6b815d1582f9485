//! Operations on hash values.
use vstd::prelude::*;
use crate::collections::ByteMap;
use crate::keyspace::{field_map_view, hashes_insert, hashes_remove};
use crate::ops::{Command, rvec_bytes_view};
use crate::rvec::{RVec, rvec_bytes_into_vec};
use crate::types::{Key, RetValue, ReturnValue, State, StateView, Value, bytes_views, copy_bytes, ret_view};

verus! {

broadcast use vstd::seq_lib::group_seq_properties;

/// Operations on hash values.
pub enum HashOps {
    HGet(Key, Key),
    HSet(Key, Key, Value),
    HExists(Key, Key),
    HGetAll(Key),
    HMGet(Key, RVec<Key>),
}

impl HashOps {
    /// What this operation asks for.
    pub open spec fn view(&self) -> Command {
        match self {
            HashOps::HGet(k, f) => Command::HGet(k@, f@),
            HashOps::HSet(k, f, v) => Command::HSet(k@, f@, v@),
            HashOps::HExists(k, f) => Command::HExists(k@, f@),
            HashOps::HGetAll(k) => Command::HGetAll(k@),
            HashOps::HMGet(k, fs) => Command::HMGet(k@, rvec_bytes_view(*fs)),
        }
    }
}

/// The hash named by `k`, or the empty hash.
pub open spec fn hash_of(hashes: Map<Seq<u8>, Map<Seq<u8>, Seq<u8>>>, k: Seq<u8>) -> Map<Seq<u8>, Seq<u8>> {
    if hashes.contains_key(k) {
        hashes[k]
    } else {
        Map::empty()
    }
}

/// The value of field `f`, or nil.
pub open spec fn lookup_field(h: Map<Seq<u8>, Seq<u8>>, f: Seq<u8>) -> RetValue {
    if h.contains_key(f) {
        RetValue::StringRes(h[f])
    } else {
        RetValue::Nil
    }
}

/// The (field, value) pairs of a flat list field, value, field, value, ...
pub open spec fn unflatten(flat: Seq<Seq<u8>>) -> Seq<(Seq<u8>, Seq<u8>)> {
    Seq::new(flat.len() / 2, |i: int| (flat[2 * i], flat[2 * i + 1]))
}

/// `flat` lists each field of `h` once, each followed by its value.
pub open spec fn flattens(flat: Seq<Seq<u8>>, h: Map<Seq<u8>, Seq<u8>>) -> bool {
    let pairs = unflatten(flat);
    let fields = pairs.map_values(|p: (Seq<u8>, Seq<u8>)| p.0);
    &&& flat.len() % 2 == 0
    &&& fields.no_duplicates()
    &&& fields.to_set() == h.dom()
    &&& forall|i: int| 0 <= i < pairs.len() ==> h[#[trigger] pairs[i].0] == pairs[i].1
}

/// What an operation on hash values may do to a database `s`, leaving `s2`
/// and answering `r`. Where every field is listed, any order is allowed.
pub open spec fn hash_outcome(s: StateView, c: Command, s2: StateView, r: RetValue) -> bool {
    match c {
        Command::HGet(k, f) => s2 == s && r == lookup_field(hash_of(s.hashes, k), f),
        Command::HSet(k, f, v) => {
            &&& s2 == (StateView { hashes: s.hashes.insert(k, hash_of(s.hashes, k).insert(f, v)), ..s })
            &&& r == RetValue::OK
        },
        Command::HExists(k, f) => s2 == s && r == RetValue::IntRes(
            if hash_of(s.hashes, k).contains_key(f) {
                1
            } else {
                0
            },
        ),
        Command::HGetAll(k) => s2 == s && (r matches RetValue::MultiStringRes(flat) && flattens(
            flat,
            hash_of(s.hashes, k),
        )),
        Command::HMGet(k, fields) => s2 == s && r == RetValue::Array(
            fields.map_values(|f: Seq<u8>| lookup_field(hash_of(s.hashes, k), f)),
        ),
        _ => false,
    }
}

/// Takes hash `key` out of the database (an empty hash when there is
/// none), and says whether there was one.
fn take_hash(state: &mut State, key: &[u8]) -> (r: (ByteMap<Value>, bool))
    ensures
        final(state)@ == (StateView { hashes: old(state)@.hashes.remove(key@), ..old(state)@ }),
        field_map_view(r.0) == hash_of(old(state)@.hashes, key@),
        r.1 == old(state)@.hashes.contains_key(key@),
{
    match hashes_remove(&mut state.hashes, key) {
        Some(h) => (h, true),
        None => {
            let h: ByteMap<Value> = ByteMap::new();
            assert(field_map_view(h) =~= Map::<Seq<u8>, Seq<u8>>::empty());
            (h, false)
        },
    }
}

/// Puts hash `h` back under `key`.
fn put_hash(state: &mut State, key: Key, h: ByteMap<Value>)
    ensures
        final(state)@ == (StateView {
            hashes: old(state)@.hashes.insert(key@, field_map_view(h)),
            ..old(state)@
        }),
{
    hashes_insert(&mut state.hashes, key, h);
}

/// The value of a field of `h`, or nil.
fn field_value(h: &ByteMap<Value>, field: &[u8]) -> (r: ReturnValue)
    ensures
        ret_view(r) == lookup_field(field_map_view(*h), field@),
{
    match h.get(field) {
        Some(v) => ReturnValue::StringRes(copy_bytes(v)),
        None => ReturnValue::Nil,
    }
}

/// Places `2 * j` and `2 * j + 1` of `flat` hold the `j`-th key and value.
spec fn pair_at(flat: Seq<Vec<u8>>, keys: Seq<Seq<u8>>, vals: Seq<Vec<u8>>, j: int) -> bool {
    flat[2 * j]@ == keys[j] && flat[2 * j + 1]@ == vals[j]@
}

/// Every field of `h`, each followed by its value.
fn flatten_hash(h: &ByteMap<Value>) -> (flat: Vec<Value>)
    ensures
        flattens(bytes_views(flat@), field_map_view(*h)),
{
    h.entries_facts();
    let ghost keys = h.key_seq();
    let ghost vals = h.val_seq();
    let n = h.len();
    let mut flat: Vec<Value> = Vec::new();
    for i in 0..n
        invariant
            n == keys.len(),
            keys == h.key_seq(),
            vals == h.val_seq(),
            keys.len() == vals.len(),
            flat@.len() == 2 * i,
            forall|j: int| 0 <= j < i ==> #[trigger] pair_at(flat@, keys, vals, j),
    {
        let ghost before = flat@;
        flat.push(copy_bytes(h.key_at(i)));
        flat.push(copy_bytes(h.val_at(i)));
        assert forall|j: int| 0 <= j < i + 1 implies #[trigger] pair_at(flat@, keys, vals, j) by {
            if j < i {
                assert(pair_at(before, keys, vals, j));
                assert(flat@[2 * j] == before[2 * j]);
                assert(flat@[2 * j + 1] == before[2 * j + 1]);
            }
        }
    }
    let ghost fv = bytes_views(flat@);
    let ghost pairs = unflatten(fv);
    let ghost fields = pairs.map_values(|p: (Seq<u8>, Seq<u8>)| p.0);
    proof {
        assert(fv.len() / 2 == n);
        assert forall|j: int| 0 <= j < n implies #[trigger] pairs[j] == (keys[j], vals[j]@) by {
            assert(pair_at(flat@, keys, vals, j));
            assert(fv[2 * j] == flat@[2 * j]@);
            assert(fv[2 * j + 1] == flat@[2 * j + 1]@);
        }
        assert(fields =~= keys);
        assert(field_map_view(*h).dom() =~= h@.dom());
        assert forall|i: int| 0 <= i < pairs.len() implies field_map_view(*h)[#[trigger] pairs[i].0] == pairs[i].1 by {
            assert(pairs[i] == (keys[i], vals[i]@));
            assert(h@[keys[i]] == vals[i]);
        }
    }
    flat
}

/// Taking a hash out and putting it back, where there was one, leaves the
/// hashes as they were.
proof fn lemma_restored(s0: StateView, k: Seq<u8>)
    ensures
        s0.hashes.contains_key(k) ==> s0.hashes.remove(k).insert(k, hash_of(s0.hashes, k)) == s0.hashes,
        !s0.hashes.contains_key(k) ==> s0.hashes.remove(k) == s0.hashes,
{
    assert(s0.hashes.contains_key(k) ==> s0.hashes.remove(k).insert(k, hash_of(s0.hashes, k)) =~= s0.hashes);
    assert(!s0.hashes.contains_key(k) ==> s0.hashes.remove(k) =~= s0.hashes);
}

/// Runs an operation on hash values against a database.
pub fn hash_interact(hash_op: HashOps, state: &mut State) -> (r: ReturnValue)
    ensures
        hash_outcome(old(state)@, hash_op@, final(state)@, ret_view(r)),
{
    let ghost s0 = state@;
    match hash_op {
        HashOps::HGet(key, field) => {
            let (h, existed) = take_hash(state, key.as_slice());
            let r = field_value(&h, field.as_slice());
            let ghost k = key@;
            restore_hash(state, key, h, existed);
            proof {
                lemma_restored(s0, k);
            }
            r
        },
        HashOps::HSet(key, field, value) => {
            let (mut h, _) = take_hash(state, key.as_slice());
            let ghost hv = field_map_view(h);
            let ghost (k, f, v) = (key@, field@, value@);
            h.insert(field, value);
            assert(field_map_view(h) =~= hv.insert(f, v));
            put_hash(state, key, h);
            assert(state@.hashes =~= s0.hashes.insert(k, hash_of(s0.hashes, k).insert(f, v)));
            ReturnValue::OK
        },
        HashOps::HExists(key, field) => {
            let (h, existed) = take_hash(state, key.as_slice());
            let found = h.contains_key(field.as_slice());
            let ghost k = key@;
            restore_hash(state, key, h, existed);
            proof {
                lemma_restored(s0, k);
            }
            ReturnValue::IntRes(if found { 1 } else { 0 })
        },
        HashOps::HGetAll(key) => {
            let (h, existed) = take_hash(state, key.as_slice());
            let flat = flatten_hash(&h);
            let ghost k = key@;
            restore_hash(state, key, h, existed);
            proof {
                lemma_restored(s0, k);
            }
            ReturnValue::MultiStringRes(flat)
        },
        HashOps::HMGet(key, fields) => {
            let ghost fs = rvec_bytes_view(fields);
            let fields = rvec_bytes_into_vec(fields);
            let (h, existed) = take_hash(state, key.as_slice());
            let ghost hv = field_map_view(h);
            let mut vals: Vec<ReturnValue> = Vec::new();
            let n = fields.len();
            for i in 0..n
                invariant
                    n == fields@.len(),
                    fs == bytes_views(fields@),
                    hv == field_map_view(h),
                    vals@.len() == i,
                    forall|j: int| 0 <= j < i ==> #[trigger] ret_view(vals@[j]) == lookup_field(hv, fs[j]),
            {
                vals.push(field_value(&h, fields[i].as_slice()));
            }
            let ghost k = key@;
            restore_hash(state, key, h, existed);
            proof {
                lemma_restored(s0, k);
            }
            let r = ReturnValue::Array(vals);
            proof {
                let target = fs.map_values(|f: Seq<u8>| lookup_field(hv, f));
                crate::types::lemma_ret_seq_view_pointwise(vals@, target);
            }
            r
        },
    }
}

/// Puts back a hash taken out by `take_hash`, where there was one.
fn restore_hash(state: &mut State, key: Key, h: ByteMap<Value>, existed: bool)
    ensures
        final(state)@ == if existed {
            StateView { hashes: old(state)@.hashes.insert(key@, field_map_view(h)), ..old(state)@ }
        } else {
            old(state)@
        },
{
    if existed {
        put_hash(state, key, h);
    }
}

} // verus!
