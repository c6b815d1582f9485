//! A sorted set: members with scores, kept in order of (score, member).
use vstd::prelude::*;
use vstd::utf8::{encode_utf8, encode_utf8_decode_utf8};
use crate::collections::ByteMap;
use crate::rvec::{RVec, rvec_scored_items, rvec_scored_into_vec};
use crate::text::{string_from_utf8_lossy, utf8_lossy};
use crate::types::{Count, Key, Score, copy_bytes};

verus! {

/// Whether `a` comes strictly before `b` in lexicographic byte order.
pub open spec fn bytes_lt(a: Seq<u8>, b: Seq<u8>) -> bool
    decreases a.len(),
{
    if a.len() == 0 {
        b.len() > 0
    } else if b.len() == 0 {
        false
    } else if a[0] != b[0] {
        a[0] < b[0]
    } else {
        bytes_lt(a.drop_first(), b.drop_first())
    }
}

/// `bytes_lt` is irreflexive, asymmetric and total on distinct strings.
pub proof fn lemma_bytes_lt_total(a: Seq<u8>, b: Seq<u8>)
    ensures
        !(bytes_lt(a, b) && bytes_lt(b, a)),
        a != b ==> bytes_lt(a, b) || bytes_lt(b, a),
        !bytes_lt(a, a),
    decreases a.len(),
{
    if a.len() > 0 {
        lemma_bytes_lt_total(a.drop_first(), a.drop_first());
        if b.len() > 0 {
            lemma_bytes_lt_total(a.drop_first(), b.drop_first());
            if a[0] == b[0] && a.drop_first() == b.drop_first() && a.len() == b.len() {
                assert forall|i: int| 0 <= i < a.len() implies a[i] == b[i] by {
                    if i > 0 {
                        assert(a[i] == a.drop_first()[i - 1]);
                        assert(b[i] == b.drop_first()[i - 1]);
                    }
                }
                assert(a =~= b);
            }
        }
    } else if b.len() == 0 {
        assert(a =~= b);
    }
}

/// `bytes_lt` is transitive.
pub proof fn lemma_bytes_lt_trans(a: Seq<u8>, b: Seq<u8>, c: Seq<u8>)
    requires
        bytes_lt(a, b),
        bytes_lt(b, c),
    ensures
        bytes_lt(a, c),
    decreases a.len(),
{
    if a.len() > 0 && b.len() > 0 && c.len() > 0 && a[0] == b[0] && b[0] == c[0] {
        lemma_bytes_lt_trans(a.drop_first(), b.drop_first(), c.drop_first());
    }
}

/// `bytes_lt` decided after a common prefix of length `i`.
pub proof fn lemma_bytes_lt_skip(a: Seq<u8>, b: Seq<u8>, i: int)
    requires
        0 <= i <= a.len(),
        i <= b.len(),
        a.take(i) == b.take(i),
    ensures
        bytes_lt(a, b) == bytes_lt(a.skip(i), b.skip(i)),
    decreases i,
{
    if i > 0 {
        assert(a[0] == a.take(i)[0] && b[0] == b.take(i)[0]);
        assert(a.drop_first().take(i - 1) =~= a.take(i).drop_first());
        assert(b.drop_first().take(i - 1) =~= b.take(i).drop_first());
        lemma_bytes_lt_skip(a.drop_first(), b.drop_first(), i - 1);
        assert(a.drop_first().skip(i - 1) =~= a.skip(i));
        assert(b.drop_first().skip(i - 1) =~= b.skip(i));
    } else {
        assert(a.skip(0) =~= a);
        assert(b.skip(0) =~= b);
    }
}

/// Whether byte string `a` comes strictly before `b`.
pub fn bytes_less(a: &[u8], b: &[u8]) -> (r: bool)
    ensures
        r == bytes_lt(a@, b@),
{
    let n = if a.len() < b.len() { a.len() } else { b.len() };
    let mut i: usize = 0;
    while i < n
        invariant
            n <= a.len(),
            n <= b.len(),
            i <= n,
            a@.take(i as int) == b@.take(i as int),
        decreases n - i,
    {
        if a[i] != b[i] {
            proof {
                lemma_bytes_lt_skip(a@, b@, i as int);
            }
            return a[i] < b[i];
        }
        assert(a@.take(i + 1) =~= a@.take(i as int).push(a@[i as int]));
        assert(b@.take(i + 1) =~= b@.take(i as int).push(b@[i as int]));
        i += 1;
    }
    proof {
        lemma_bytes_lt_skip(a@, b@, i as int);
    }
    a.len() < b.len()
}

/// A member of a sorted set together with its score.
#[derive(Debug, PartialEq, Eq, Ord, Clone)]
pub struct SortedSetMember {
    pub score: Score,
    pub member: String,
}

/// The (score, member) pair of a sorted set member.
pub open spec fn member_entry(m: SortedSetMember) -> (i64, Seq<char>) {
    (m.score, m.member@)
}

/// The order of sorted set members: by score, then by the UTF-8 bytes of
/// the member.
pub open spec fn member_lt(a: (i64, Seq<char>), b: (i64, Seq<char>)) -> bool {
    a.0 < b.0 || (a.0 == b.0 && bytes_lt(encode_utf8(a.1), encode_utf8(b.1)))
}

/// `member_lt` is a strict total order.
pub proof fn lemma_member_lt_order(a: (i64, Seq<char>), b: (i64, Seq<char>), c: (i64, Seq<char>))
    ensures
        !member_lt(a, a),
        !(member_lt(a, b) && member_lt(b, a)),
        a != b ==> member_lt(a, b) || member_lt(b, a),
        member_lt(a, b) && member_lt(b, c) ==> member_lt(a, c),
{
    lemma_bytes_lt_total(encode_utf8(a.1), encode_utf8(b.1));
    lemma_bytes_lt_total(encode_utf8(a.1), encode_utf8(a.1));
    if a.0 == b.0 && encode_utf8(a.1) == encode_utf8(b.1) {
        encode_utf8_decode_utf8(a.1);
        encode_utf8_decode_utf8(b.1);
    }
    if bytes_lt(encode_utf8(a.1), encode_utf8(b.1)) && bytes_lt(encode_utf8(b.1), encode_utf8(c.1)) {
        lemma_bytes_lt_trans(encode_utf8(a.1), encode_utf8(b.1), encode_utf8(c.1));
    }
}

impl SortedSetMember {
    /// A member named by the text of `key`, with `score`.
    pub fn new(key: &[u8], score: Score) -> (r: Self)
        ensures
            r.score == score,
            r.member@ == utf8_lossy(key@),
    {
        SortedSetMember { score, member: string_from_utf8_lossy(key) }
    }

    /// Whether this member comes strictly before `other`.
    pub fn less_than(&self, other: &Self) -> (r: bool)
        ensures
            r == member_lt(member_entry(*self), member_entry(*other)),
    {
        if self.score != other.score {
            self.score < other.score
        } else {
            bytes_less(self.member.as_str().as_bytes(), other.member.as_str().as_bytes())
        }
    }
}

/// The mathematical value of a sorted set: each member's score, and the
/// set of (score, member text) entries that orders them.
pub struct SortedSetView {
    pub members: Map<Seq<u8>, i64>,
    pub scores: Set<(i64, Seq<char>)>,
}

/// Adds `key` with `score` unless it is already a member; the count of
/// members added (0 or 1).
pub open spec fn zadd_one(v: SortedSetView, score: i64, key: Seq<u8>) -> (SortedSetView, nat) {
    if v.members.contains_key(key) {
        (v, 0)
    } else {
        (
            SortedSetView {
                members: v.members.insert(key, score),
                scores: v.scores.insert((score, utf8_lossy(key))),
            },
            1,
        )
    }
}

/// Adds each (score, key) pair in order; the count of members added.
pub open spec fn zadd_all(v: SortedSetView, items: Seq<(i64, Seq<u8>)>) -> (SortedSetView, nat)
    decreases items.len(),
{
    if items.len() == 0 {
        (v, 0)
    } else {
        let (v1, n1) = zadd_all(v, items.drop_last());
        let (v2, n2) = zadd_one(v1, items.last().0, items.last().1);
        (v2, n1 + n2)
    }
}

/// Removes `key` if it is a member; the count of members removed (0 or 1).
pub open spec fn zrem_one(v: SortedSetView, key: Seq<u8>) -> (SortedSetView, nat) {
    if v.members.contains_key(key) {
        (
            SortedSetView {
                members: v.members.remove(key),
                scores: v.scores.remove((v.members[key], utf8_lossy(key))),
            },
            1,
        )
    } else {
        (v, 0)
    }
}

/// Removes each key in order; the count of members removed.
pub open spec fn zrem_all(v: SortedSetView, keys: Seq<Seq<u8>>) -> (SortedSetView, nat)
    decreases keys.len(),
{
    if keys.len() == 0 {
        (v, 0)
    } else {
        let (v1, n1) = zrem_all(v, keys.drop_last());
        let (v2, n2) = zrem_one(v1, keys.last());
        (v2, n1 + n2)
    }
}

/// The (score, key) pairs of a sequence, with keys as byte sequences.
pub open spec fn scored_views(s: Seq<(i64, Vec<u8>)>) -> Seq<(i64, Seq<u8>)> {
    s.map_values(|p: (i64, Vec<u8>)| (p.0, p.1@))
}

/// A set of members ordered by score.
pub struct SortedSet {
    members_hash: ByteMap<Score>,
    scores: Vec<SortedSetMember>,
}

/// Whether a sequence of entries is strictly increasing.
pub open spec fn strictly_ordered(s: Seq<(i64, Seq<char>)>) -> bool {
    forall|i: int, j: int| 0 <= i < j < s.len() ==> member_lt(#[trigger] s[i], #[trigger] s[j])
}

/// The entries of a sequence of members.
pub open spec fn member_entries(s: Seq<SortedSetMember>) -> Seq<(i64, Seq<char>)> {
    s.map_values(|m: SortedSetMember| member_entry(m))
}

/// The first place in an ordered sequence whose entry is not below `m`.
fn lower_bound(scores: &Vec<SortedSetMember>, m: &SortedSetMember) -> (i: usize)
    requires
        strictly_ordered(member_entries(scores@)),
    ensures
        i <= scores@.len(),
        forall|j: int| 0 <= j < i ==> member_lt(member_entry(#[trigger] scores@[j]), member_entry(*m)),
        forall|j: int|
            i <= j < scores@.len() ==> !member_lt(member_entry(#[trigger] scores@[j]), member_entry(*m)),
{
    let n = scores.len();
    let mut i: usize = 0;
    while i < n
        invariant
            n == scores@.len(),
            i <= n,
            strictly_ordered(member_entries(scores@)),
            forall|j: int| 0 <= j < i ==> member_lt(member_entry(#[trigger] scores@[j]), member_entry(*m)),
        decreases n - i,
    {
        if !scores[i].less_than(m) {
            proof {
                assert forall|j: int| i <= j < scores@.len() implies !member_lt(
                    member_entry(#[trigger] scores@[j]),
                    member_entry(*m),
                ) by {
                    if j > i {
                        assert(member_entries(scores@)[i as int] == member_entry(scores@[i as int]));
                        assert(member_entries(scores@)[j] == member_entry(scores@[j]));
                        lemma_member_lt_order(member_entry(scores@[i as int]), member_entry(scores@[j]), member_entry(*m));
                        lemma_member_lt_order(member_entry(scores@[i as int]), member_entry(*m), member_entry(scores@[j]));
                    }
                }
            }
            return i;
        }
        i += 1;
    }
    i
}

/// Place `j` of `out` holds the `j`-th key with its score.
spec fn listed_at(out: Seq<(Score, Key)>, keys: Seq<Seq<u8>>, vals: Seq<Score>, j: int) -> bool {
    out[j].1@ == keys[j] && out[j].0 == vals[j]
}

impl SortedSet {
    /// The entries in order.
    pub closed spec fn entries(&self) -> Seq<(i64, Seq<char>)> {
        member_entries(self.scores@)
    }

    /// The mathematical value of this sorted set.
    pub closed spec fn view(&self) -> SortedSetView {
        SortedSetView { members: self.members_hash@, scores: self.entries().to_set() }
    }

    #[verifier::type_invariant]
    spec fn ordered(&self) -> bool {
        strictly_ordered(self.entries())
    }

    /// An empty sorted set.
    pub fn new() -> (r: Self)
        ensures
            r@.members == Map::<Seq<u8>, i64>::empty(),
            r@.scores == Set::<(i64, Seq<char>)>::empty(),
    {
        let r = SortedSet { members_hash: ByteMap::new(), scores: Vec::new() };
        assert(r.entries() =~= Seq::<(i64, Seq<char>)>::empty());
        assert(r@.scores =~= Set::<(i64, Seq<char>)>::empty());
        r
    }

    /// Adds `m` to the ordered entries unless an equal entry is there.
    fn insert_entry(&mut self, m: SortedSetMember)
        ensures
            final(self)@.scores == old(self)@.scores.insert(member_entry(m)),
            final(self)@.members == old(self)@.members,
    {
        proof {
            use_type_invariant(&*self);
        }
        let ghost old_e = self.entries();
        let ghost me = member_entry(m);
        let i = lower_bound(&self.scores, &m);
        if i < self.scores.len() && !m.less_than(&self.scores[i]) {
            proof {
                lemma_member_lt_order(member_entry(self.scores@[i as int]), me, me);
                assert(old_e[i as int] == member_entry(self.scores@[i as int]));
                assert(old_e[i as int] == me);
                assert(self@.scores.insert(me) =~= self@.scores);
            }
            return;
        }
        let mut scores: Vec<SortedSetMember> = Vec::new();
        std::mem::swap(&mut scores, &mut self.scores);
        scores.insert(i, m);
        let ghost ne = member_entries(scores@);
        proof {
            assert(ne =~= old_e.insert(i as int, me));
            assert forall|a: int, b: int| 0 <= a < b < ne.len() implies member_lt(
                #[trigger] ne[a],
                #[trigger] ne[b],
            ) by {
                if b < i {
                    assert(ne[a] == old_e[a] && ne[b] == old_e[b]);
                } else if b == i {
                    assert(ne[a] == old_e[a] && ne[b] == me);
                    assert(old_e[a] == member_entry(old(self).scores@[a]));
                } else if a == i {
                    assert(ne[a] == me && ne[b] == old_e[b - 1]);
                    assert(old_e[i as int] == member_entry(old(self).scores@[i as int]));
                    lemma_member_lt_order(member_entry(old(self).scores@[i as int]), me, me);
                    if b - 1 > i {
                        lemma_member_lt_order(me, old_e[i as int], old_e[b - 1]);
                    }
                } else if a < i {
                    assert(ne[a] == old_e[a] && ne[b] == old_e[b - 1]);
                    assert(old_e[a] == member_entry(old(self).scores@[a]));
                    lemma_member_lt_order(old_e[a], me, old_e[b - 1]);
                    if b - 1 >= i {
                        assert(old_e[i as int] == member_entry(old(self).scores@[i as int]));
                        lemma_member_lt_order(member_entry(old(self).scores@[i as int]), me, me);
                        lemma_member_lt_order(me, old_e[i as int], old_e[b - 1]);
                        if b - 1 > i {
                            lemma_member_lt_order(old_e[a], old_e[i as int], old_e[b - 1]);
                        }
                    }
                } else {
                    assert(ne[a] == old_e[a - 1] && ne[b] == old_e[b - 1]);
                }
            }
        }
        self.scores = scores;
        proof {
            assert(self.entries() == ne);
            assert(self@.scores =~= old(self)@.scores.insert(me)) by {
                assert forall|x: (i64, Seq<char>)| #[trigger] self@.scores.contains(x) <==> old(
                    self,
                )@.scores.insert(me).contains(x) by {
                    if self@.scores.contains(x) {
                        let j = choose|j: int| 0 <= j < ne.len() && ne[j] == x;
                        if j < i {
                            assert(old_e[j] == x);
                        } else if j > i {
                            assert(old_e[j - 1] == x);
                        }
                    }
                    if old_e.contains(x) {
                        let j = choose|j: int| 0 <= j < old_e.len() && old_e[j] == x;
                        if j < i {
                            assert(ne[j] == x);
                        } else {
                            assert(ne[j + 1] == x);
                        }
                    }
                    if x == me {
                        assert(ne[i as int] == me);
                    }
                }
            }
        }
    }

    /// Removes the entry equal to `m`, if there is one.
    fn remove_entry(&mut self, m: &SortedSetMember)
        ensures
            final(self)@.scores == old(self)@.scores.remove(member_entry(*m)),
            final(self)@.members == old(self)@.members,
    {
        proof {
            use_type_invariant(&*self);
        }
        let ghost old_e = self.entries();
        let ghost me = member_entry(*m);
        let i = lower_bound(&self.scores, m);
        if i < self.scores.len() && !m.less_than(&self.scores[i]) {
            let mut scores: Vec<SortedSetMember> = Vec::new();
            std::mem::swap(&mut scores, &mut self.scores);
            scores.remove(i);
            let ghost ne = member_entries(scores@);
            proof {
                assert(old_e[i as int] == member_entry(old(self).scores@[i as int]));
                lemma_member_lt_order(old_e[i as int], me, me);
                assert(old_e[i as int] == me);
                assert(ne =~= old_e.remove(i as int));
                assert forall|a: int, b: int| 0 <= a < b < ne.len() implies member_lt(
                    #[trigger] ne[a],
                    #[trigger] ne[b],
                ) by {
                    let oa = if a < i { a } else { a + 1 };
                    let ob = if b < i { b } else { b + 1 };
                    assert(ne[a] == old_e[oa] && ne[b] == old_e[ob]);
                }
            }
            self.scores = scores;
            proof {
                assert(self.entries() == ne);
                assert forall|x: (i64, Seq<char>)| #[trigger] self@.scores.contains(x) <==> old(
                    self,
                )@.scores.remove(me).contains(x) by {
                    if self@.scores.contains(x) {
                        let j = choose|j: int| 0 <= j < ne.len() && ne[j] == x;
                        let oj = if j < i { j } else { j + 1 };
                        assert(old_e[oj] == x);
                        assert(oj != i);
                        lemma_member_lt_order(old_e[oj], old_e[i as int], old_e[i as int]);
                        if oj < i {
                            assert(member_lt(old_e[oj], old_e[i as int]));
                        } else {
                            assert(member_lt(old_e[i as int], old_e[oj]));
                        }
                    }
                    if old(self)@.scores.remove(me).contains(x) {
                        let j = choose|j: int| 0 <= j < old_e.len() && old_e[j] == x;
                        assert(j != i);
                        if j < i {
                            assert(ne[j] == x);
                        } else {
                            assert(ne[j - 1] == x);
                        }
                    }
                }
                assert(self@.scores =~= old(self)@.scores.remove(me));
            }
        } else {
            proof {
                assert forall|j: int| 0 <= j < old_e.len() implies old_e[j] != me by {
                    assert(old_e[j] == member_entry(self.scores@[j]));
                    lemma_member_lt_order(old_e[j], me, me);
                    if j > i {
                        assert(old_e[i as int] == member_entry(self.scores@[i as int]));
                        lemma_member_lt_order(me, old_e[i as int], old_e[j]);
                        lemma_member_lt_order(old_e[i as int], me, me);
                    }
                }
                assert(self@.scores.remove(me) =~= self@.scores);
            }
        }
    }

    /// Each member with its score, each once, in no particular order.
    pub fn members(&self) -> (r: Vec<(Score, Key)>)
        ensures
            r@.len() == self@.members.dom().len(),
            r@.map_values(|p: (Score, Key)| p.1@).no_duplicates(),
            r@.map_values(|p: (Score, Key)| p.1@).to_set() == self@.members.dom(),
            forall|i: int| 0 <= i < r@.len() ==> self@.members[#[trigger] r@[i].1@] == r@[i].0,
    {
        self.members_hash.entries_facts();
        let n = self.members_hash.len();
        let ghost keys = self.members_hash.key_seq();
        let mut out: Vec<(Score, Key)> = Vec::new();
        for i in 0..n
            invariant
                n == keys.len(),
                keys == self.members_hash.key_seq(),
                keys.len() == self.members_hash.val_seq().len(),
                forall|j: int| 0 <= j < keys.len() ==> #[trigger] self.members_hash@[keys[j]] == self.members_hash.val_seq()[j],
                out@.len() == i,
                forall|j: int| 0 <= j < i ==> #[trigger] listed_at(out@, keys, self.members_hash.val_seq(), j),
        {
            let k = crate::types::copy_bytes(self.members_hash.key_at(i));
            let score = *self.members_hash.val_at(i);
            let ghost before = out@;
            out.push((score, k));
            assert forall|j: int| 0 <= j < i + 1 implies #[trigger] listed_at(out@, keys, self.members_hash.val_seq(), j) by {
                if j < i {
                    assert(listed_at(before, keys, self.members_hash.val_seq(), j));
                    assert(out@[j] == before[j]);
                }
            }
        }
        proof {
            assert forall|j: int| 0 <= j < out@.len() implies out@.map_values(|p: (Score, Key)| p.1@)[j] == keys[j] by {
                assert(listed_at(out@, keys, self.members_hash.val_seq(), j));
            }
            assert(out@.map_values(|p: (Score, Key)| p.1@) =~= keys);
            assert forall|j: int| 0 <= j < out@.len() implies self@.members[#[trigger] out@[j].1@] == out@[j].0 by {
                assert(listed_at(out@, keys, self.members_hash.val_seq(), j));
                assert(self.members_hash@[keys[j]] == self.members_hash.val_seq()[j]);
            }
        }
        out
    }

    /// Adds each (score, key) pair whose key is not yet a member; the number
    /// of members added.
    pub fn add(&mut self, key_scores: RVec<(Score, Key)>) -> (added: Count)
        ensures
            final(self)@ == zadd_all(old(self)@, scored_views(rvec_scored_items(key_scores))).0,
            added == zadd_all(old(self)@, scored_views(rvec_scored_items(key_scores))).1 as i64,
    {
        let items = rvec_scored_into_vec(key_scores);
        let ghost all = scored_views(items@);
        let mut count: usize = 0;
        let n = items.len();
        for i in 0..n
            invariant
                n == items@.len(),
                all == scored_views(items@),
                count <= i,
                self@ == zadd_all(old(self)@, all.take(i as int)).0,
                count == zadd_all(old(self)@, all.take(i as int)).1,
        {
            let (score, key) = (items[i].0, &items[i].1);
            proof {
                assert(all.take(i + 1).drop_last() =~= all.take(i as int));
                assert(all.take(i + 1).last() == (score, key@));
            }
            if !self.members_hash.contains_key(key.as_slice()) {
                let ghost before = self@;
                self.insert_entry(SortedSetMember::new(key.as_slice(), score));
                proof {
                    use_type_invariant(&*self);
                }
                let mut members_hash: ByteMap<Score> = ByteMap::new();
                std::mem::swap(&mut members_hash, &mut self.members_hash);
                members_hash.insert(copy_bytes(key), score);
                self.members_hash = members_hash;
                count += 1;
                proof {
                    let (v2, _) = zadd_one(before, score, key@);
                    assert(self@.members == v2.members);
                    assert(self@.scores == v2.scores);
                }
            }
        }
        assert(all.take(n as int) =~= all);
        #[verifier::truncate] (count as i64)
    }

    /// Removes each key that is a member; the number of members removed.
    pub fn remove(&mut self, keys: &[Key]) -> (removed: Count)
        ensures
            final(self)@ == zrem_all(old(self)@, keys@.map_values(|k: Key| k@)).0,
            removed == zrem_all(old(self)@, keys@.map_values(|k: Key| k@)).1 as i64,
    {
        let ghost all = keys@.map_values(|k: Key| k@);
        let mut count: usize = 0;
        let n = keys.len();
        for i in 0..n
            invariant
                n == keys@.len(),
                all == keys@.map_values(|k: Key| k@),
                count <= i,
                self@ == zrem_all(old(self)@, all.take(i as int)).0,
                count == zrem_all(old(self)@, all.take(i as int)).1,
        {
            let key = &keys[i];
            proof {
                assert(all.take(i + 1).drop_last() =~= all.take(i as int));
                assert(all.take(i + 1).last() == key@);
            }
            let ghost before = self@;
            proof {
                use_type_invariant(&*self);
            }
            let mut members_hash: ByteMap<Score> = ByteMap::new();
            std::mem::swap(&mut members_hash, &mut self.members_hash);
            let removed = members_hash.remove(key.as_slice());
            self.members_hash = members_hash;
            match removed {
                None => {
                    assert(self@.members =~= before.members);
                    assert(self@.scores =~= before.scores);
                },
                Some(score) => {
                    let tmp = SortedSetMember::new(key.as_slice(), score);
                    self.remove_entry(&tmp);
                    count += 1;
                    proof {
                        let (v2, _) = zrem_one(before, key@);
                        assert(self@.members == v2.members);
                        assert(self@.scores == v2.scores);
                    }
                },
            }
        }
        assert(all.take(n as int) =~= all);
        #[verifier::truncate] (count as i64)
    }
}

} // verus!
