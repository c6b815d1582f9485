//! Receipts handed to clients that wait on a key, and the wakers that
//! resume them.
use vstd::prelude::*;
use std::collections::{HashMap, HashSet};
use std::task::Waker;

verus! {

broadcast use vstd::std_specs::hash::group_hash_axioms;

#[verifier::external_type_specification]
#[verifier::external_body]
pub struct ExWaker(Waker);

/// A ticket that identifies one waiting client.
pub type Receipt = u32;

/// The value that `seahash::hash` computes from `bytes`.
pub uninterp spec fn seahash_of(bytes: Seq<u8>) -> u64;

/// `seahash::hash`: the SeaHash digest of `key`, with the crate's fixed
/// seeds. Claimed: the result is `seahash_of(key)`, the same on every run.
#[verifier::external_body]
fn seahash_hash(key: &[u8]) -> (h: u64)
    ensures
        h == seahash_of(key@),
{
    seahash::hash(key)
}

/// What a client waits on.
#[derive(Hash, Debug, PartialEq, Eq)]
pub enum KeyTypes {
    /// A list, by the hash of its key.
    List(u64),
}

impl KeyTypes {
    /// Waiting on the list under `key`.
    pub fn list(key: &[u8]) -> (r: KeyTypes)
        ensures
            r == KeyTypes::List(seahash_of(key@)),
    {
        KeyTypes::List(seahash_hash(key))
    }

    /// The number under which the receipts waiting on this are filed.
    pub open spec fn code(self) -> u64 {
        match self {
            KeyTypes::List(h) => h,
        }
    }
}

/// The mathematical value of a receipt map.
pub struct RecieptMapView {
    /// The last receipt handed out.
    pub counter: u32,
    /// The waker of each waiting receipt.
    pub wakers: Map<u32, Waker>,
    /// The receipts whose wait timed out.
    pub timed_out: Set<u32>,
    /// The receipts waiting on each key, by the key's code, oldest first.
    pub keys: Map<u64, Seq<u32>>,
}

/// The receipts filed under `code`, oldest first.
pub open spec fn filed(keys: Map<u64, Seq<u32>>, code: u64) -> Seq<u32> {
    if keys.contains_key(code) {
        keys[code]
    } else {
        Seq::empty()
    }
}

/// Receipts, the wakers of waiting clients, and what each waits on.
#[derive(Debug)]
pub struct RecieptMap {
    counter: Receipt,
    wakers: HashMap<Receipt, Waker>,
    timed_out: HashSet<Receipt>,
    keys: HashMap<u64, Vec<Receipt>>,
}

impl RecieptMap {
    /// The mathematical value of this map.
    pub closed spec fn view(&self) -> RecieptMapView {
        RecieptMapView {
            counter: self.counter,
            wakers: self.wakers@,
            timed_out: self.timed_out@,
            keys: self.keys@.map_values(|v: Vec<Receipt>| v@),
        }
    }

    /// No receipt handed out, nobody waiting.
    pub fn new() -> (r: Self)
        ensures
            r@.counter == 0,
            r@.wakers == Map::<u32, Waker>::empty(),
            r@.timed_out == Set::<u32>::empty(),
            r@.keys == Map::<u64, Seq<u32>>::empty(),
    {
        let r = RecieptMap { counter: 0, wakers: HashMap::new(), timed_out: HashSet::new(), keys: HashMap::new() };
        assert(r@.keys =~= Map::<u64, Seq<u32>>::empty());
        r
    }

    /// Hands out the next receipt.
    pub fn get_receipt(&mut self) -> (r: Receipt)
        requires
            old(self)@.counter < u32::MAX,
        ensures
            r == old(self)@.counter + 1,
            final(self)@ == (RecieptMapView { counter: r, ..old(self)@ }),
    {
        self.counter = self.counter + 1;
        self.counter
    }

    /// Files `receipt` as waiting on `key`, to be woken by `item`.
    pub fn insert(&mut self, receipt: Receipt, item: Waker, key: KeyTypes)
        ensures
            final(self)@ == (RecieptMapView {
                wakers: old(self)@.wakers.insert(receipt, item),
                keys: old(self)@.keys.insert(key.code(), filed(old(self)@.keys, key.code()).push(receipt)),
                ..old(self)@
            }),
    {
        self.wakers.insert(receipt, item);
        let code = match key {
            KeyTypes::List(h) => h,
        };
        let ghost before = self.keys@;
        let mut waiting = match self.keys.remove(&code) {
            Some(v) => v,
            None => Vec::new(),
        };
        assert(waiting@ == filed(before.map_values(|v: Vec<Receipt>| v@), code));
        waiting.push(receipt);
        self.keys.insert(code, waiting);
        assert(self.keys@.map_values(|v: Vec<Receipt>| v@) =~= before.map_values(|v: Vec<Receipt>| v@).insert(
            code,
            filed(before.map_values(|v: Vec<Receipt>| v@), code).push(receipt),
        ));
    }

    /// Whether the wait of `receipt` timed out.
    pub fn receipt_timed_out(&self, receipt: Receipt) -> (b: bool)
        ensures
            b == self@.timed_out.contains(receipt),
    {
        self.timed_out.contains(&receipt)
    }
}

impl Default for RecieptMap {
    fn default() -> (r: Self)
        ensures
            r@.counter == 0,
            r@.wakers == Map::<u32, Waker>::empty(),
            r@.timed_out == Set::<u32>::empty(),
            r@.keys == Map::<u64, Seq<u32>>::empty(),
    {
        RecieptMap::new()
    }
}

} // verus!
