//! Sets and maps keyed by byte strings, kept as vectors without duplicate
//! keys. They hold the members of one set value and the fields of one hash
//! value.
use vstd::prelude::*;
use crate::types::{bytes_views, copy_bytes};

verus! {

broadcast use vstd::seq_lib::group_seq_properties;

/// Whether two byte strings are equal.
pub fn bytes_eq(a: &[u8], b: &[u8]) -> (r: bool)
    ensures
        r == (a@ == b@),
{
    if a.len() != b.len() {
        return false;
    }
    let mut i: usize = 0;
    while i < a.len()
        invariant
            i <= a.len(),
            a.len() == b.len(),
            forall|j: int| 0 <= j < i ==> a@[j] == b@[j],
        decreases a.len() - i,
    {
        if a[i] != b[i] {
            return false;
        }
        i += 1;
    }
    assert(a@ =~= b@);
    true
}

/// The position of `x` in a sequence of byte strings, if it occurs.
pub fn position_of(items: &Vec<Vec<u8>>, x: &[u8]) -> (r: Option<usize>)
    ensures
        match r {
            Some(i) => i < items@.len() && items@[i as int]@ == x@,
            None => !bytes_views(items@).contains(x@),
        },
{
    let n = items.len();
    for i in 0..n
        invariant
            n == items@.len(),
            forall|j: int| 0 <= j < i ==> items@[j]@ != x@,
    {
        if bytes_eq(items[i].as_slice(), x) {
            return Some(i);
        }
    }
    proof {
        if bytes_views(items@).contains(x@) {
            let j = choose|j: int| 0 <= j < bytes_views(items@).len() && bytes_views(items@)[j] == x@;
            assert(items@[j]@ == x@);
        }
    }
    None
}

/// `bytes_views` of a sequence with one more item.
pub proof fn lemma_bytes_views_push(s: Seq<Vec<u8>>, x: Vec<u8>)
    ensures
        bytes_views(s.push(x)) == bytes_views(s).push(x@),
{
    assert(bytes_views(s.push(x)) =~= bytes_views(s).push(x@));
}

/// A finite set of byte strings.
pub struct ValueSet {
    items: Vec<Vec<u8>>,
}

impl ValueSet {
    /// The members, in the order in which the set hands them out.
    pub closed spec fn members(&self) -> Seq<Seq<u8>> {
        bytes_views(self.items@)
    }

    /// The members, as a set.
    pub open spec fn view(&self) -> Set<Seq<u8>> {
        self.members().to_set()
    }

    #[verifier::type_invariant]
    spec fn no_repeats(&self) -> bool {
        self.members().no_duplicates()
    }

    /// An empty set.
    pub fn new() -> (r: Self)
        ensures
            r@ == Set::<Seq<u8>>::empty(),
            r.members() == Seq::<Seq<u8>>::empty(),
    {
        let r = ValueSet { items: Vec::new() };
        assert(r.members() =~= Seq::<Seq<u8>>::empty());
        assert(r@ =~= Set::<Seq<u8>>::empty());
        r
    }

    /// The members are distinct and form the set; the set is finite and
    /// its size is the number of members.
    pub fn members_facts(&self)
        ensures
            self.members().no_duplicates(),
            self.members().to_set() == self@,
            self@.finite(),
            self@.len() == self.members().len(),
    {
        proof {
            use_type_invariant(self);
            self.members().unique_seq_to_set();
        }
    }

    /// The number of members.
    pub fn len(&self) -> (n: usize)
        ensures
            n == self@.len(),
            n == self.members().len(),
            self@.finite(),
    {
        self.members_facts();
        self.items.len()
    }

    /// Whether `v` is a member.
    pub fn contains(&self, v: &[u8]) -> (b: bool)
        ensures
            b == self@.contains(v@),
    {
        match position_of(&self.items, v) {
            Some(i) => {
                assert(self.members()[i as int] == v@);
                true
            },
            None => false,
        }
    }

    /// Adds `v`; answers whether it was not a member before.
    pub fn insert(&mut self, v: Vec<u8>) -> (added: bool)
        ensures
            final(self)@ == old(self)@.insert(v@),
            added == !old(self)@.contains(v@),
            added ==> final(self).members() == old(self).members().push(v@),
            !added ==> final(self).members() == old(self).members(),
    {
        proof {
            use_type_invariant(&*self);
        }
        if let Some(i) = position_of(&self.items, v.as_slice()) {
            assert(self.members()[i as int] == v@);
            assert(self@.insert(v@) =~= self@);
            false
        } else {
            let ghost old_items = self.items@;
            let mut items: Vec<Vec<u8>> = Vec::new();
            std::mem::swap(&mut items, &mut self.items);
            items.push(v);
            assert(bytes_views(items@) =~= bytes_views(old_items).push(v@));
            self.items = items;
            assert(self@ =~= old(self)@.insert(v@));
            true
        }
    }

    /// Removes `v`; answers whether it was a member.
    pub fn remove(&mut self, v: &[u8]) -> (removed: bool)
        ensures
            final(self)@ == old(self)@.remove(v@),
            removed == old(self)@.contains(v@),
    {
        proof {
            use_type_invariant(&*self);
        }
        match position_of(&self.items, v) {
            None => {
                assert(self@.remove(v@) =~= self@);
                false
            },
            Some(i) => {
                let ghost old_m = self.members();
                let mut items: Vec<Vec<u8>> = Vec::new();
                std::mem::swap(&mut items, &mut self.items);
                items.remove(i);
                proof {
                    assert(bytes_views(items@) =~= old_m.remove(i as int));
                    let nm = old_m.remove(i as int);
                    assert forall|a: int, b: int|
                        0 <= a < nm.len() && 0 <= b < nm.len() && a != b implies nm[a] != nm[b] by {
                        let oa = if a < i { a } else { a + 1 };
                        let ob = if b < i { b } else { b + 1 };
                        assert(nm[a] == old_m[oa] && nm[b] == old_m[ob]);
                    }
                }
                self.items = items;
                proof {
                    assert(self.members() =~= old_m.remove(i as int));
                    assert(old_m[i as int] == v@);
                    assert(old_m.to_set().contains(v@));
                    assert forall|x: Seq<u8>| self@.contains(x) <==> old(self)@.remove(v@).contains(
                        x,
                    ) by {
                        if self@.contains(x) {
                            let j = choose|j: int|
                                0 <= j < self.members().len() && self.members()[j] == x;
                            let oj = if j < i { j } else { j + 1 };
                            assert(old_m[oj] == x);
                            assert(oj != i);
                            assert(old_m.to_set().contains(x));
                        }
                        if old(self)@.remove(v@).contains(x) {
                            let j = choose|j: int| 0 <= j < old_m.len() && old_m[j] == x;
                            assert(j != i);
                            if j < i {
                                assert(self.members()[j] == x);
                            } else {
                                assert(self.members()[j - 1] == x);
                            }
                        }
                    }
                    assert(self@ =~= old(self)@.remove(v@));
                }
                true
            },
        }
    }

    /// The members, in order.
    pub fn to_vec(&self) -> (r: Vec<Vec<u8>>)
        ensures
            bytes_views(r@) == self.members(),
    {
        let mut r: Vec<Vec<u8>> = Vec::new();
        let n = self.items.len();
        for i in 0..n
            invariant
                n == self.items@.len(),
                r@.len() == i,
                bytes_views(r@) == bytes_views(self.items@).take(i as int),
        {
            let ghost before = r@;
            r.push(copy_bytes(&self.items[i]));
            proof {
                lemma_bytes_views_push(before, r@[i as int]);
                assert(r@ == before.push(r@[i as int]));
                assert(bytes_views(r@) =~= bytes_views(self.items@).take(i + 1));
            }
        }
        assert(bytes_views(self.items@).take(n as int) =~= bytes_views(self.items@));
        r
    }

    /// A copy of this set.
    pub fn copy(&self) -> (r: Self)
        ensures
            r@ == self@,
            r.members() == self.members(),
    {
        proof {
            use_type_invariant(self);
        }
        ValueSet { items: self.to_vec() }
    }

    /// The members of this set that satisfy `keep(in_other)`, where
    /// `in_other` tells whether the member belongs to `other`.
    fn filter_by(&self, other: &ValueSet, keep_members: bool) -> (r: Self)
        ensures
            r@ == self@.filter(|x: Seq<u8>| other@.contains(x) == keep_members),
    {
        proof {
            use_type_invariant(self);
        }
        let mut out = ValueSet::new();
        let n = self.items.len();
        for i in 0..n
            invariant
                n == self.items@.len(),
                self.members().no_duplicates(),
                out@ == self.members().take(i as int).to_set().filter(
                    |x: Seq<u8>| other@.contains(x) == keep_members,
                ),
        {
            let ghost before = out@;
            let x = &self.items[i];
            if other.contains(x.as_slice()) == keep_members {
                out.insert(copy_bytes(x));
            }
            proof {
                let f = |x: Seq<u8>| other@.contains(x) == keep_members;
                assert(self.members().take(i + 1) =~= self.members().take(i as int).push(
                    self.members()[i as int],
                ));
                assert(out@ =~= self.members().take(i + 1).to_set().filter(f));
            }
        }
        assert(self.members().take(n as int) =~= self.members());
        out
    }

    /// The members of this set that are not in `other`.
    pub fn difference(&self, other: &ValueSet) -> (r: Self)
        ensures
            r@ == self@.difference(other@),
    {
        let r = self.filter_by(other, false);
        assert(r@ =~= self@.difference(other@));
        r
    }

    /// The members of this set that are in `other`.
    pub fn intersection(&self, other: &ValueSet) -> (r: Self)
        ensures
            r@ == self@.intersect(other@),
    {
        let r = self.filter_by(other, true);
        assert(r@ =~= self@.intersect(other@));
        r
    }

    /// The members of either set.
    pub fn union(&self, other: &ValueSet) -> (r: Self)
        ensures
            r@ == self@.union(other@),
    {
        let mut out = self.copy();
        let n = other.items.len();
        for i in 0..n
            invariant
                n == other.items@.len(),
                out@ == self@.union(other.members().take(i as int).to_set()),
        {
            out.insert(copy_bytes(&other.items[i]));
            assert(other.members().take(i + 1) =~= other.members().take(i as int).push(
                other.members()[i as int],
            ));
            assert(out@ =~= self@.union(other.members().take(i + 1).to_set()));
        }
        assert(other.members().take(n as int) =~= other.members());
        out
    }
}

/// The views of the keys of a sequence of entries.
pub open spec fn entry_keys<V>(s: Seq<(Vec<u8>, V)>) -> Seq<Seq<u8>> {
    s.map_values(|e: (Vec<u8>, V)| e.0@)
}

/// The values of a sequence of entries.
pub open spec fn entry_vals<V>(s: Seq<(Vec<u8>, V)>) -> Seq<V> {
    s.map_values(|e: (Vec<u8>, V)| e.1)
}

/// The place of the entry with key `x`, if there is one.
fn position_of_key<V>(entries: &Vec<(Vec<u8>, V)>, x: &[u8]) -> (r: Option<usize>)
    ensures
        match r {
            Some(i) => i < entries@.len() && entries@[i as int].0@ == x@,
            None => !entry_keys(entries@).contains(x@),
        },
{
    let n = entries.len();
    for i in 0..n
        invariant
            n == entries@.len(),
            forall|j: int| 0 <= j < i ==> entries@[j].0@ != x@,
    {
        if bytes_eq(entries[i].0.as_slice(), x) {
            return Some(i);
        }
    }
    proof {
        if entry_keys(entries@).contains(x@) {
            let j = choose|j: int|
                0 <= j < entry_keys(entries@).len() && entry_keys(entries@)[j] == x@;
            assert(entries@[j].0@ == x@);
        }
    }
    None
}

/// A finite map from byte strings to values.
pub struct ByteMap<V> {
    entries: Vec<(Vec<u8>, V)>,
}

impl<V> ByteMap<V> {
    /// The keys, in the order in which the map hands them out.
    pub closed spec fn key_seq(&self) -> Seq<Seq<u8>> {
        entry_keys(self.entries@)
    }

    /// The values, in the order of `key_seq`.
    pub closed spec fn val_seq(&self) -> Seq<V> {
        entry_vals(self.entries@)
    }

    /// Where `k` stands in `key_seq`.
    pub closed spec fn index_of_key(&self, k: Seq<u8>) -> int {
        choose|i: int| 0 <= i < self.key_seq().len() && self.key_seq()[i] == k
    }

    /// The map from keys to values.
    pub closed spec fn view(&self) -> Map<Seq<u8>, V> {
        Map::new(
            |k: Seq<u8>| self.key_seq().contains(k),
            |k: Seq<u8>| self.val_seq()[self.index_of_key(k)],
        )
    }

    #[verifier::type_invariant]
    spec fn well_formed(&self) -> bool {
        self.key_seq().no_duplicates()
    }

    proof fn lemma_index_of_key(&self, i: int)
        requires
            self.key_seq().no_duplicates(),
            0 <= i < self.key_seq().len(),
        ensures
            self.index_of_key(self.key_seq()[i]) == i,
            self@.contains_key(self.key_seq()[i]),
            self@[self.key_seq()[i]] == self.val_seq()[i],
    {
        let k = self.key_seq()[i];
        assert(self.key_seq().contains(k));
        let j = self.index_of_key(k);
        assert(0 <= j < self.key_seq().len() && self.key_seq()[j] == k);
    }

    /// An empty map.
    pub fn new() -> (r: Self)
        ensures
            r@ == Map::<Seq<u8>, V>::empty(),
    {
        let r = ByteMap { entries: Vec::new() };
        assert(r.key_seq() =~= Seq::<Seq<u8>>::empty());
        assert(r@ =~= Map::<Seq<u8>, V>::empty());
        r
    }

    /// The keys are distinct, form the domain, and each maps to the value at
    /// the same place in `val_seq`.
    pub fn entries_facts(&self)
        ensures
            self.key_seq().no_duplicates(),
            self.key_seq().len() == self.val_seq().len(),
            self.key_seq().to_set() == self@.dom(),
            self@.dom().finite(),
            self@.dom().len() == self.key_seq().len(),
            forall|i: int|
                0 <= i < self.key_seq().len() ==> #[trigger] self@[self.key_seq()[i]]
                    == self.val_seq()[i],
    {
        proof {
            use_type_invariant(self);
            self.key_seq().unique_seq_to_set();
            assert(self.key_seq().to_set() =~= self@.dom());
            assert forall|i: int| 0 <= i < self.key_seq().len() implies #[trigger] self@[self.key_seq()[i]]
                == self.val_seq()[i] by {
                self.lemma_index_of_key(i);
            }
        }
    }

    /// The number of entries.
    pub fn len(&self) -> (n: usize)
        ensures
            n == self@.dom().len(),
            n == self.key_seq().len(),
            self@.dom().finite(),
    {
        self.entries_facts();
        self.entries.len()
    }

    /// The key at place `i` of `key_seq`.
    pub fn key_at(&self, i: usize) -> (k: &Vec<u8>)
        requires
            i < self.key_seq().len(),
        ensures
            k@ == self.key_seq()[i as int],
    {
        &self.entries[i].0
    }

    /// The value at place `i` of `val_seq`.
    pub fn val_at(&self, i: usize) -> (v: &V)
        requires
            i < self.key_seq().len(),
        ensures
            *v == self.val_seq()[i as int],
    {
        &self.entries[i].1
    }

    /// The value under `k`, if any.
    pub fn get(&self, k: &[u8]) -> (r: Option<&V>)
        ensures
            match r {
                Some(v) => self@.contains_key(k@) && *v == self@[k@],
                None => !self@.contains_key(k@),
            },
    {
        proof {
            use_type_invariant(self);
        }
        match position_of_key(&self.entries, k) {
            Some(i) => {
                proof {
                    self.lemma_index_of_key(i as int);
                }
                Some(&self.entries[i].1)
            },
            None => None,
        }
    }

    /// Whether `k` has a value.
    pub fn contains_key(&self, k: &[u8]) -> (b: bool)
        ensures
            b == self@.contains_key(k@),
    {
        self.get(k).is_some()
    }

    /// Maps `k` to `v`, replacing any value it had.
    pub fn insert(&mut self, k: Vec<u8>, v: V)
        ensures
            final(self)@ == old(self)@.insert(k@, v),
    {
        proof {
            use_type_invariant(&*self);
        }
        let ghost old_keys = self.key_seq();
        let ghost old_vals = self.val_seq();
        let ghost kv = k@;
        let mut entries: Vec<(Vec<u8>, V)> = Vec::new();
        std::mem::swap(&mut entries, &mut self.entries);
        match position_of_key(&entries, k.as_slice()) {
            Some(i) => {
                let ghost e = entries@[i as int];
                entries.set(i, (k, v));
                proof {
                    assert(entry_keys(entries@) =~= old_keys);
                    assert(entry_vals(entries@) =~= old_vals.update(i as int, v));
                }
                self.entries = entries;
                proof {
                    assert forall|x: Seq<u8>| #[trigger] self@.contains_key(x) <==> old(self)@.insert(
                        kv,
                        v,
                    ).contains_key(x) by {
                        if x == kv {
                            assert(old_keys[i as int] == kv);
                            assert(old_keys.contains(kv));
                        }
                    }
                    assert forall|x: Seq<u8>| #[trigger] self@.contains_key(x) implies self@[x]
                        == old(self)@.insert(kv, v)[x] by {
                        let j = choose|j: int| 0 <= j < old_keys.len() && old_keys[j] == x;
                        self.lemma_index_of_key(j);
                        old(self).lemma_index_of_key(j);
                        if j == i {
                            assert(x == kv);
                        } else {
                            assert(old_keys[i as int] == kv);
                            assert(x != kv);
                        }
                    }
                    assert(self@ =~= old(self)@.insert(kv, v));
                }
            },
            None => {
                entries.push((k, v));
                proof {
                    assert(entry_keys(entries@) =~= old_keys.push(kv));
                    assert(entry_vals(entries@) =~= old_vals.push(v));
                }
                self.entries = entries;
                proof {
                    let n = old_keys.len();
                    assert forall|x: Seq<u8>| #[trigger] self@.contains_key(x) <==> old(self)@.insert(
                        kv,
                        v,
                    ).contains_key(x) by {
                        if x == kv {
                            assert(self.key_seq()[n as int] == kv);
                        }
                        if old_keys.contains(x) {
                            let j = choose|j: int| 0 <= j < old_keys.len() && old_keys[j] == x;
                            assert(self.key_seq()[j] == x);
                        }
                    }
                    assert forall|x: Seq<u8>| #[trigger] self@.contains_key(x) implies self@[x]
                        == old(self)@.insert(kv, v)[x] by {
                        let j = choose|j: int|
                            0 <= j < self.key_seq().len() && self.key_seq()[j] == x;
                        self.lemma_index_of_key(j);
                        if j < n {
                            old(self).lemma_index_of_key(j);
                        }
                    }
                    assert(self@ =~= old(self)@.insert(kv, v));
                }
            },
        }
    }

    /// Removes the entry of `k`, handing back its value.
    pub fn remove(&mut self, k: &[u8]) -> (r: Option<V>)
        ensures
            final(self)@ == old(self)@.remove(k@),
            match r {
                Some(v) => old(self)@.contains_key(k@) && v == old(self)@[k@],
                None => !old(self)@.contains_key(k@),
            },
    {
        proof {
            use_type_invariant(&*self);
        }
        let ghost old_keys = self.key_seq();
        let ghost old_vals = self.val_seq();
        match position_of_key(&self.entries, k) {
            None => {
                assert(self@.remove(k@) =~= self@);
                None
            },
            Some(i) => {
                proof {
                    self.lemma_index_of_key(i as int);
                }
                let mut entries: Vec<(Vec<u8>, V)> = Vec::new();
                std::mem::swap(&mut entries, &mut self.entries);
                let e = entries.remove(i);
                let ghost nk = old_keys.remove(i as int);
                proof {
                    assert(entry_keys(entries@) =~= nk);
                    assert(entry_vals(entries@) =~= old_vals.remove(i as int));
                    assert forall|a: int, b: int|
                        0 <= a < nk.len() && 0 <= b < nk.len() && a != b implies nk[a] != nk[b] by {
                        let oa = if a < i { a } else { a + 1 };
                        let ob = if b < i { b } else { b + 1 };
                        assert(nk[a] == old_keys[oa] && nk[b] == old_keys[ob]);
                    }
                }
                self.entries = entries;
                proof {
                    assert forall|x: Seq<u8>| #[trigger] self@.contains_key(x) <==> old(self)@.remove(
                        k@,
                    ).contains_key(x) by {
                        if self@.contains_key(x) {
                            let j = choose|j: int| 0 <= j < nk.len() && nk[j] == x;
                            let oj = if j < i { j } else { j + 1 };
                            assert(old_keys[oj] == x);
                            assert(old_keys.contains(x));
                        }
                        if old(self)@.remove(k@).contains_key(x) {
                            let j = choose|j: int| 0 <= j < old_keys.len() && old_keys[j] == x;
                            assert(j != i);
                            if j < i {
                                assert(nk[j] == x);
                            } else {
                                assert(nk[j - 1] == x);
                            }
                        }
                    }
                    assert forall|x: Seq<u8>| #[trigger] self@.contains_key(x) implies self@[x]
                        == old(self)@.remove(k@)[x] by {
                        let j = choose|j: int| 0 <= j < nk.len() && nk[j] == x;
                        self.lemma_index_of_key(j);
                        let oj = if j < i { j } else { j + 1 };
                        old(self).lemma_index_of_key(oj);
                    }
                    assert(self@ =~= old(self)@.remove(k@));
                }
                Some(e.1)
            },
        }
    }
}

} // verus!
