//! The staleness tracker: entities that come and go between ticks, held by
//! key in the order of their keys.
//!
//! A tick marks every entry stale, unmarks each one that it observes, and at
//! its end sweeps out what is still stale.

use crate::common::Stale;
use vstd::prelude::*;

verus! {

/// The order of ranks: at the first place where two differ, the smaller
/// number comes first, and a proper prefix comes before what extends it.
pub open spec fn lex_less(a: Seq<int>, b: Seq<int>) -> bool
    decreases a.len(),
{
    if b.len() == 0 {
        false
    } else if a.len() == 0 {
        true
    } else if a[0] != b[0] {
        a[0] < b[0]
    } else {
        lex_less(a.drop_first(), b.drop_first())
    }
}

/// No rank comes before itself.
pub proof fn lemma_lex_irreflexive(a: Seq<int>)
    ensures
        !lex_less(a, a),
    decreases a.len(),
{
    if a.len() > 0 {
        lemma_lex_irreflexive(a.drop_first());
    }
}

/// What comes before a rank comes before all that the rank comes before.
pub proof fn lemma_lex_transitive(a: Seq<int>, b: Seq<int>, c: Seq<int>)
    requires
        lex_less(a, b),
        lex_less(b, c),
    ensures
        lex_less(a, c),
    decreases a.len(),
{
    if a.len() > 0 && b.len() > 0 && c.len() > 0 && a[0] == b[0] && b[0] == c[0] {
        lemma_lex_transitive(a.drop_first(), b.drop_first(), c.drop_first());
    }
}

/// Of two ranks that differ, one comes before the other.
pub proof fn lemma_lex_total(a: Seq<int>, b: Seq<int>)
    ensures
        lex_less(a, b) || lex_less(b, a) || a == b,
    decreases a.len(),
{
    if a.len() > 0 && b.len() > 0 && a[0] == b[0] {
        lemma_lex_total(a.drop_first(), b.drop_first());
        if a.drop_first() == b.drop_first() {
            assert(a =~= seq![a[0]] + a.drop_first());
            assert(b =~= seq![b[0]] + b.drop_first());
        }
    } else if a.len() == 0 && b.len() == 0 {
        assert(a =~= b);
    }
}

/// The order of ranks from the `i`-th place on, where the places before it
/// agree.
pub proof fn lemma_lex_skip(a: Seq<int>, b: Seq<int>, i: int)
    requires
        0 <= i <= a.len(),
        i <= b.len(),
        a.take(i) == b.take(i),
    ensures
        lex_less(a, b) == lex_less(a.skip(i), b.skip(i)),
    decreases i,
{
    if i > 0 {
        assert(a.take(i)[0] == a[0] && b.take(i)[0] == b[0]);
        assert(lex_less(a, b) == lex_less(a.drop_first(), b.drop_first()));
        assert(a.drop_first().take(i - 1) =~= a.take(i).drop_first());
        assert(b.drop_first().take(i - 1) =~= b.take(i).drop_first());
        lemma_lex_skip(a.drop_first(), b.drop_first(), i - 1);
        assert(a.drop_first().skip(i - 1) =~= a.skip(i));
        assert(b.drop_first().skip(i - 1) =~= b.skip(i));
    } else {
        assert(a.skip(0) =~= a);
        assert(b.skip(0) =~= b);
    }
}

/// What a key stands for in contracts. Keys are told apart and ordered by
/// their rank.
pub trait Rank: Sized {
    spec fn rank(&self) -> Seq<int>;

    /// Keys of the same rank are the same key.
    proof fn lemma_rank_tells_apart(a: &Self, b: &Self)
        requires
            a.rank() == b.rank(),
        ensures
            a == b,
    ;
}

/// A key of the tracker.
pub trait Key: Sized {
    /// What the key stands for in contracts.
    type Model: Rank;

    spec fn model(&self) -> Self::Model;

    fn precedes(&self, other: &Self) -> (b: bool)
        ensures
            b == lex_less(self.model().rank(), other.model().rank()),
    ;
}

impl Rank for u64 {
    open spec fn rank(&self) -> Seq<int> {
        seq![*self as int]
    }

    proof fn lemma_rank_tells_apart(a: &Self, b: &Self) {
        assert(a.rank()[0] == *a as int);
        assert(b.rank()[0] == *b as int);
    }
}

impl Key for u64 {
    type Model = u64;

    open spec fn model(&self) -> u64 {
        *self
    }

    fn precedes(&self, other: &Self) -> (b: bool) {
        proof {
            let a = self.rank();
            let b = other.rank();
            assert(a[0] == *self as int && b[0] == *other as int);
            assert(a.drop_first().len() == 0 && b.drop_first().len() == 0);
            assert(!lex_less(a.drop_first(), b.drop_first()));
        }
        *self < *other
    }
}

/// A name is ranked by its bytes.
impl Rank for Seq<u8> {
    open spec fn rank(&self) -> Seq<int> {
        Seq::new(self.len(), |i: int| self[i] as int)
    }

    proof fn lemma_rank_tells_apart(a: &Self, b: &Self) {
        assert(a.len() == a.rank().len());
        assert(b.len() == b.rank().len());
        assert forall|i: int| 0 <= i < a.len() implies a[i] == b[i] by {
            assert(a.rank()[i] == a[i] as int);
            assert(b.rank()[i] == b[i] as int);
        }
        assert(*a =~= *b);
    }
}

impl Key for Vec<u8> {
    type Model = Seq<u8>;

    open spec fn model(&self) -> Seq<u8> {
        self@
    }

    fn precedes(&self, other: &Self) -> (b: bool) {
        let ghost a = self@.rank();
        let ghost b = other@.rank();
        let mut i: usize = 0;
        while i < self.len() && i < other.len()
            invariant
                i <= self.len(),
                i <= other.len(),
                a == self@.rank(),
                b == other@.rank(),
                a.take(i as int) == b.take(i as int),
            decreases self.len() - i,
        {
            proof {
                lemma_lex_skip(a, b, i as int);
                assert(a.skip(i as int)[0] == self@[i as int] as int);
                assert(b.skip(i as int)[0] == other@[i as int] as int);
            }
            if self[i] != other[i] {
                return self[i] < other[i];
            }
            proof {
                assert(a.take(i + 1) =~= a.take(i as int).push(a[i as int]));
                assert(b.take(i + 1) =~= b.take(i as int).push(b[i as int]));
            }
            i += 1;
        }
        proof {
            lemma_lex_skip(a, b, i as int);
        }
        i < other.len()
    }
}

/// One tracked entity as the tracker holds it.
pub struct Slot<K, V> {
    pub key: K,
    pub value: V,
    pub stale: Stale,
}

/// One tracked entity as contracts speak of it.
pub struct Entry<M, V> {
    pub key: M,
    pub value: V,
    pub stale: Stale,
}

impl<K: Key, V> Slot<K, V> {
    pub open spec fn view(&self) -> Entry<K::Model, V> {
        Entry { key: self.key.model(), value: self.value, stale: self.stale }
    }
}

/// The slots that a sweep keeps: those that are not stale, in their order.
pub open spec fn kept<M, V>(s: Seq<Entry<M, V>>) -> Seq<Entry<M, V>>
    decreases s.len(),
{
    if s.len() == 0 {
        s
    } else if s.last().stale.0 {
        kept(s.drop_last())
    } else {
        kept(s.drop_last()).push(s.last())
    }
}

/// Whether the keys of `s` stand in strictly ascending order.
pub open spec fn ascending<M: Rank, V>(s: Seq<Entry<M, V>>) -> bool {
    forall|i: int, j: int|
        0 <= i < j < s.len() ==> lex_less(#[trigger] s[i].key.rank(), #[trigger] s[j].key.rank())
}

/// Whether some slot of `s` has the rank `r`.
pub open spec fn holds<M: Rank, V>(s: Seq<Entry<M, V>>, r: Seq<int>) -> bool {
    exists|i: int| 0 <= i < s.len() && #[trigger] s[i].key.rank() == r
}

/// Whether a key of rank `r` belongs at index `at` of `s`: what stands before
/// comes before it, and it comes before what stands from `at` on.
pub open spec fn belongs_at<M: Rank, V>(s: Seq<Entry<M, V>>, r: Seq<int>, at: int) -> bool {
    &&& 0 <= at <= s.len()
    &&& forall|j: int| 0 <= j < at ==> lex_less(#[trigger] s[j].key.rank(), r)
    &&& forall|j: int| at <= j < s.len() ==> lex_less(r, #[trigger] s[j].key.rank())
}

/// The index of the slot with rank `r`, where there is one.
pub open spec fn lookup<M: Rank, V>(s: Seq<Entry<M, V>>, r: Seq<int>) -> Option<int> {
    if holds(s, r) {
        Some(choose|i: int| 0 <= i < s.len() && #[trigger] s[i].key.rank() == r)
    } else {
        None
    }
}

/// The index at which a key of rank `r` belongs.
pub open spec fn place<M: Rank, V>(s: Seq<Entry<M, V>>, r: Seq<int>) -> int {
    choose|at: int| belongs_at(s, r, at)
}

/// `s` with every slot marked stale.
pub open spec fn marked<M, V>(s: Seq<Entry<M, V>>) -> Seq<Entry<M, V>> {
    Seq::new(s.len(), |i: int| Entry { key: s[i].key, value: s[i].value, stale: Stale(true) })
}

/// `s` after `key` was observed with `value`: its slot holds the value and is
/// not stale. A key that had no slot gets one where it belongs.
pub open spec fn put<M: Rank, V>(s: Seq<Entry<M, V>>, key: M, value: V) -> Seq<Entry<M, V>> {
    match lookup(s, key.rank()) {
        Some(i) => s.update(i, Entry { key: s[i].key, value, stale: Stale(false) }),
        None => s.insert(place(s, key.rank()), Entry { key, value, stale: Stale(false) }),
    }
}

/// In ascending entries, the index of an entry is what looking its rank
/// up finds.
pub proof fn lemma_lookup_unique<M: Rank, V>(s: Seq<Entry<M, V>>, r: Seq<int>, i: int)
    requires
        ascending(s),
        0 <= i < s.len(),
        s[i].key.rank() == r,
    ensures
        lookup(s, r) == Some(i),
{
    let j = choose|j: int| 0 <= j < s.len() && #[trigger] s[j].key.rank() == r;
    lemma_lex_irreflexive(r);
    if j < i {
        assert(lex_less(s[j].key.rank(), s[i].key.rank()));
    } else if i < j {
        assert(lex_less(s[i].key.rank(), s[j].key.rank()));
    }
}

/// A rank belongs at one index only.
pub proof fn lemma_place_unique<M: Rank, V>(s: Seq<Entry<M, V>>, r: Seq<int>, at: int)
    requires
        belongs_at(s, r, at),
    ensures
        place(s, r) == at,
{
    let other = place(s, r);
    lemma_lex_irreflexive(r);
    if other < at {
        lemma_lex_transitive(r, s[other].key.rank(), r);
    } else if at < other {
        lemma_lex_transitive(r, s[at].key.rank(), r);
    }
}

/// Marking entries stale keeps them in order.
pub proof fn lemma_marked_ascending<M: Rank, V>(s: Seq<Entry<M, V>>)
    requires
        ascending(s),
    ensures
        ascending(marked(s)),
{
    let m = marked(s);
    assert forall|i: int, j: int| 0 <= i < j < m.len() implies lex_less(
        #[trigger] m[i].key.rank(),
        #[trigger] m[j].key.rank(),
    ) by {
        assert(lex_less(s[i].key.rank(), s[j].key.rank()));
    }
}

/// What a sweep keeps: no more entries than there were, none that is
/// stale, each of them an entry that was there, and all of them where none
/// was stale.
pub proof fn lemma_kept<M, V>(s: Seq<Entry<M, V>>)
    ensures
        kept(s).len() <= s.len(),
        forall|i: int| 0 <= i < kept(s).len() ==> !(#[trigger] kept(s)[i]).stale.0,
        forall|i: int|
            0 <= i < kept(s).len() ==> exists|j: int|
                i <= j < s.len() && s[j] == #[trigger] kept(s)[i],
        (forall|i: int| 0 <= i < s.len() ==> !(#[trigger] s[i]).stale.0) ==> kept(s) == s,
    decreases s.len(),
{
    if s.len() > 0 {
        let init = s.drop_last();
        lemma_kept(init);
        assert forall|i: int| 0 <= i < kept(s).len() implies exists|j: int|
            i <= j < s.len() && s[j] == #[trigger] kept(s)[i] by {
            if i < kept(init).len() {
                let j = choose|j: int| i <= j < init.len() && init[j] == kept(init)[i];
                assert(s[j] == kept(s)[i]);
            } else {
                assert(s[s.len() - 1] == kept(s)[i]);
            }
        }
        if forall|i: int| 0 <= i < s.len() ==> !(#[trigger] s[i]).stale.0 {
            assert forall|i: int| 0 <= i < init.len() implies !(#[trigger] init[i]).stale.0 by {
                assert(init[i] == s[i]);
            }
            assert(!s[s.len() - 1].stale.0);
            assert(kept(s) =~= s);
        }
    }
}

/// A sweep keeps entries in order.
pub proof fn lemma_kept_ascending<M: Rank, V>(s: Seq<Entry<M, V>>)
    requires
        ascending(s),
    ensures
        ascending(kept(s)),
    decreases s.len(),
{
    if s.len() > 0 {
        let init = s.drop_last();
        assert(ascending(init)) by {
            assert forall|i: int, j: int| 0 <= i < j < init.len() implies lex_less(
                #[trigger] init[i].key.rank(),
                #[trigger] init[j].key.rank(),
            ) by {
                assert(init[i] == s[i] && init[j] == s[j]);
            }
        }
        lemma_kept_ascending(init);
        lemma_kept(init);
        if !s.last().stale.0 {
            let k = kept(s);
            assert forall|i: int, j: int| 0 <= i < j < k.len() implies lex_less(
                #[trigger] k[i].key.rank(),
                #[trigger] k[j].key.rank(),
            ) by {
                if j < kept(init).len() {
                    assert(k[i] == kept(init)[i] && k[j] == kept(init)[j]);
                } else {
                    let m = choose|m: int| i <= m < init.len() && init[m] == kept(init)[i];
                    assert(k[i] == s[m]);
                    assert(k[j] == s[s.len() - 1]);
                }
            }
        }
    }
}

/// The tracked entities of one block.
pub struct Tracker<K, V> {
    slots: Vec<Slot<K, V>>,
}

/// The entries that a list of slots stands for.
pub open spec fn entries<K: Key, V>(slots: Seq<Slot<K, V>>) -> Seq<Entry<K::Model, V>> {
    Seq::new(slots.len(), |i: int| slots[i]@)
}

impl<K: Key, V> Tracker<K, V> {
    /// The entries in the order of their keys.
    pub closed spec fn view(&self) -> Seq<Entry<K::Model, V>> {
        entries(self.slots@)
    }

    /// No key stands twice, and the keys ascend.
    pub open spec fn wf(&self) -> bool {
        ascending(self@)
    }

    /// A tracker without entries.
    pub fn new() -> (t: Self)
        ensures
            t@.len() == 0,
            t.wf(),
    {
        Tracker { slots: Vec::new() }
    }

    /// The number of entries.
    pub fn len(&self) -> (n: usize)
        ensures
            n == self@.len(),
    {
        self.slots.len()
    }

    /// Whether there is no entry.
    pub fn is_empty(&self) -> (b: bool)
        ensures
            b == (self@.len() == 0),
    {
        self.slots.len() == 0
    }

    /// The `i`-th entry in the order of the keys.
    pub fn slot(&self, i: usize) -> (s: &Slot<K, V>)
        requires
            i < self@.len(),
        ensures
            s@ == self@[i as int],
    {
        &self.slots[i]
    }

    /// Looks a key up: `Ok` with the index of its entry, or `Err` with the
    /// index at which an entry for it belongs.
    pub fn find(&self, key: &K) -> (r: Result<usize, usize>)
        requires
            self.wf(),
        ensures
            match r {
                Ok(i) => i < self@.len() && lookup(self@, key.model().rank()) == Some(i as int),
                Err(at) => lookup(self@, key.model().rank()) is None && belongs_at(
                    self@,
                    key.model().rank(),
                    at as int,
                ) && place(self@, key.model().rank()) == at,
            },
    {
        let ghost r = key.model().rank();
        let mut lo: usize = 0;
        let mut hi: usize = self.slots.len();
        while lo < hi
            invariant
                lo <= hi <= self@.len(),
                self@.len() == self.slots@.len(),
                self.wf(),
                r == key.model().rank(),
                forall|j: int| 0 <= j < lo ==> lex_less(#[trigger] self@[j].key.rank(), r),
                forall|j: int| hi <= j < self@.len() ==> lex_less(r, #[trigger] self@[j].key.rank()),
            decreases hi - lo,
        {
            let mid = lo + (hi - lo) / 2;
            let ghost m = self@[mid as int].key.rank();
            assert(self@[mid as int] == self.slots@[mid as int]@);
            if self.slots[mid].key.precedes(key) {
                assert forall|j: int| 0 <= j < mid + 1 implies lex_less(
                    #[trigger] self@[j].key.rank(),
                    r,
                ) by {
                    if j < mid {
                        lemma_lex_transitive(self@[j].key.rank(), m, r);
                    }
                }
                lo = mid + 1;
            } else if key.precedes(&self.slots[mid].key) {
                assert forall|j: int| mid <= j < self@.len() implies lex_less(
                    r,
                    #[trigger] self@[j].key.rank(),
                ) by {
                    if j > mid {
                        lemma_lex_transitive(r, m, self@[j].key.rank());
                    }
                }
                hi = mid;
            } else {
                proof {
                    lemma_lex_total(m, r);
                    lemma_lookup_unique(self@, r, mid as int);
                }
                return Ok(mid);
            }
        }
        proof {
            lemma_lex_irreflexive(r);
            assert forall|i: int| 0 <= i < self@.len() implies #[trigger] self@[i].key.rank()
                != r by {}
            lemma_place_unique(self@, r, lo as int);
        }
        Err(lo)
    }

    /// Enters a new entry, not stale, at the index where its key belongs.
    pub fn insert(&mut self, at: usize, key: K, value: V)
        requires
            old(self).wf(),
            belongs_at(old(self)@, key.model().rank(), at as int),
        ensures
            final(self)@ == old(self)@.insert(
                at as int,
                Entry { key: key.model(), value, stale: Stale(false) },
            ),
            final(self).wf(),
    {
        let ghost before = self@;
        let ghost r = key.model().rank();
        let ghost e = Entry { key: key.model(), value, stale: Stale(false) };
        self.slots.insert(at, Slot { key, value, stale: Stale(false) });
        proof {
            let after = self@;
            assert(after =~= before.insert(at as int, e));
            assert forall|i: int, j: int| 0 <= i < j < after.len() implies lex_less(
                #[trigger] after[i].key.rank(),
                #[trigger] after[j].key.rank(),
            ) by {
                if i < at && j == at {
                    assert(after[i] == before[i]);
                } else if i == at {
                    assert(after[j] == before[j - 1]);
                } else if i < at && j < at {
                    assert(after[i] == before[i] && after[j] == before[j]);
                } else if i < at {
                    assert(after[i] == before[i] && after[j] == before[j - 1]);
                } else {
                    assert(after[i] == before[i - 1] && after[j] == before[j - 1]);
                }
            }
        }
    }

    /// Gives the `i`-th entry a new value and takes the stale mark off it.
    pub fn refresh(&mut self, i: usize, value: V)
        requires
            old(self).wf(),
            i < old(self)@.len(),
        ensures
            final(self)@ == old(self)@.update(
                i as int,
                Entry { key: old(self)@[i as int].key, value, stale: Stale(false) },
            ),
            final(self).wf(),
    {
        let ghost before = self@;
        self.slots[i].value = value;
        self.slots[i].stale = Stale(false);
        proof {
            let after = self@;
            assert(after =~= before.update(
                i as int,
                Entry { key: before[i as int].key, value, stale: Stale(false) },
            ));
            assert forall|a: int, b: int| 0 <= a < b < after.len() implies lex_less(
                #[trigger] after[a].key.rank(),
                #[trigger] after[b].key.rank(),
            ) by {
                assert(after[a].key == before[a].key && after[b].key == before[b].key);
            }
        }
    }

    /// Gives the `i`-th entry a new value, takes the stale mark off it, and
    /// hands out the value that it held.
    pub fn replace(&mut self, i: usize, value: V) -> (had: V)
        requires
            old(self).wf(),
            i < old(self)@.len(),
        ensures
            final(self)@ == old(self)@.update(
                i as int,
                Entry { key: old(self)@[i as int].key, value, stale: Stale(false) },
            ),
            had == old(self)@[i as int].value,
            final(self).wf(),
    {
        let ghost before = self@;
        let mut v = value;
        core::mem::swap(&mut self.slots[i].value, &mut v);
        self.slots[i].stale = Stale(false);
        proof {
            let after = self@;
            assert(after =~= before.update(
                i as int,
                Entry { key: before[i as int].key, value, stale: Stale(false) },
            ));
            assert forall|a: int, b: int| 0 <= a < b < after.len() implies lex_less(
                #[trigger] after[a].key.rank(),
                #[trigger] after[b].key.rank(),
            ) by {
                assert(after[a].key == before[a].key && after[b].key == before[b].key);
            }
        }
        v
    }

    /// Marks every entry stale.
    pub fn mark_all(&mut self)
        requires
            old(self).wf(),
        ensures
            final(self)@ == marked(old(self)@),
            final(self).wf(),
    {
        let ghost before = self@;
        let mut i: usize = 0;
        while i < self.slots.len()
            invariant
                i <= self@.len(),
                self@.len() == before.len(),
                self@.len() == self.slots@.len(),
                forall|j: int|
                    0 <= j < before.len() ==> (#[trigger] self@[j]).key == before[j].key
                        && self@[j].value == before[j].value,
                forall|j: int| 0 <= j < i ==> (#[trigger] self@[j]).stale == Stale(true),
            decreases self@.len() - i,
        {
            let ghost now = self@;
            self.slots[i].stale = Stale(true);
            proof {
                assert forall|j: int| 0 <= j < before.len() implies (#[trigger] self@[j]).key
                    == before[j].key && self@[j].value == before[j].value by {
                    assert(now[j].key == before[j].key);
                }
                assert forall|j: int| 0 <= j < i + 1 implies (#[trigger] self@[j]).stale == Stale(
                    true,
                ) by {
                    if j < i {
                        assert(now[j].stale == Stale(true));
                    }
                }
            }
            i += 1;
        }
        proof {
            let after = self@;
            assert(after =~= marked(before));
            lemma_marked_ascending(before);
        }
    }

    /// The value that is held for `key`.
    pub fn get(&self, key: &K) -> (r: Option<&V>)
        requires
            self.wf(),
        ensures
            match r {
                Some(v) => lookup(self@, key.model().rank()) is Some && *v == self@[lookup(
                    self@,
                    key.model().rank(),
                )->0].value,
                None => lookup(self@, key.model().rank()) is None,
            },
    {
        match self.find(key) {
            Ok(i) => {
                assert(self@[i as int] == self.slots@[i as int]@);
                Some(&self.slots[i].value)
            },
            Err(_) => None,
        }
    }

    /// Whether `key` has an entry.
    pub fn contains(&self, key: &K) -> (b: bool)
        requires
            self.wf(),
        ensures
            b == lookup(self@, key.model().rank()) is Some,
    {
        self.find(key).is_ok()
    }

    /// Observes `key` with `value`.
    pub fn put(&mut self, key: K, value: V)
        requires
            old(self).wf(),
        ensures
            final(self)@ == put(old(self)@, key.model(), value),
            final(self).wf(),
    {
        match self.find(&key) {
            Ok(i) => {
                self.refresh(i, value);
            },
            Err(at) => {
                self.insert(at, key, value);
            },
        }
    }

    /// Removes every entry that is still stale.
    pub fn sweep(&mut self)
        requires
            old(self).wf(),
        ensures
            final(self)@ == kept(old(self)@),
            forall|i: int| 0 <= i < final(self)@.len() ==> !(#[trigger] final(self)@[i]).stale.0,
            final(self).wf(),
    {
        let ghost before = self@;
        let ghost mut seen: int = 0;
        let mut i: usize = 0;
        while i < self.slots.len()
            invariant
                0 <= seen <= before.len(),
                i <= self@.len(),
                self@.len() == self.slots@.len(),
                self@.len() - i == before.len() - seen,
                self@.take(i as int) == kept(before.take(seen)),
                self@.skip(i as int) == before.skip(seen),
            decreases self@.len() - i,
        {
            proof {
                assert(self@[i as int] == self@.skip(i as int)[0]);
                assert(before[seen] == before.skip(seen)[0]);
                assert(before.take(seen + 1).drop_last() =~= before.take(seen));
                assert(before.take(seen + 1).last() == before[seen]);
                assert(self@[i as int] == self.slots@[i as int]@);
            }
            let ghost now = self@;
            if self.slots[i].stale.0 {
                self.slots.remove(i);
                proof {
                    assert(self@ =~= now.remove(i as int));
                    assert(self@.take(i as int) =~= now.take(i as int));
                    assert(self@.skip(i as int) =~= now.skip(i as int).drop_first());
                    assert(before.skip(seen + 1) =~= before.skip(seen).drop_first());
                    seen = seen + 1;
                }
            } else {
                proof {
                    assert(now.take(i + 1) =~= now.take(i as int).push(now[i as int]));
                    assert(now.skip(i + 1) =~= now.skip(i as int).drop_first());
                    assert(before.skip(seen + 1) =~= before.skip(seen).drop_first());
                    seen = seen + 1;
                }
                i += 1;
            }
        }
        proof {
            assert(self@.take(i as int) =~= self@);
            assert(before.take(seen) =~= before);
            lemma_kept(before);
            lemma_kept_ascending(before);
        }
    }

    /// Removes every entry.
    pub fn clear(&mut self)
        ensures
            final(self)@.len() == 0,
            final(self).wf(),
    {
        self.slots.clear();
    }
}

/// The sample before the last and the last sample of a counter source.
#[derive(Clone, Copy)]
pub struct Pair<S> {
    pub prev: S,
    pub cur: S,
}

/// `s` after a counter source was sampled for `key`: the last sample becomes
/// the one before, and `sample` the last. A key that had no slot starts out
/// with `fresh` as the sample before.
pub open spec fn sampled<M: Rank, S>(s: Seq<Entry<M, Pair<S>>>, key: M, fresh: S, sample: S) -> Seq<
    Entry<M, Pair<S>>,
> {
    let prev = match lookup(s, key.rank()) {
        Some(i) => s[i].value.cur,
        None => fresh,
    };
    put(s, key, Pair { prev, cur: sample })
}

impl<K: Key, S: Copy> Tracker<K, Pair<S>> {
    /// Takes a sample for `key`.
    pub fn sample(&mut self, key: K, fresh: S, sample: S)
        requires
            old(self).wf(),
        ensures
            final(self)@ == sampled(old(self)@, key.model(), fresh, sample),
            final(self).wf(),
    {
        let prev = match self.get(&key) {
            Some(pair) => pair.cur,
            None => fresh,
        };
        self.put(key, Pair { prev, cur: sample });
    }
}

/// Whether two lists of entries hold the same keys with the same marks, in
/// the same order.
pub open spec fn same_keys<M, V, W>(s: Seq<Entry<M, V>>, m: Seq<Entry<M, W>>) -> bool {
    &&& s.len() == m.len()
    &&& forall|i: int|
        0 <= i < s.len() ==> (#[trigger] s[i]).key == m[i].key && s[i].stale == m[i].stale
}

/// Entries with the same keys as ascending entries ascend.
pub proof fn lemma_same_keys_ascending<M: Rank, V, W>(s: Seq<Entry<M, V>>, m: Seq<Entry<M, W>>)
    requires
        ascending(s),
        same_keys(s, m),
    ensures
        ascending(m),
{
    assert forall|i: int, j: int| 0 <= i < j < m.len() implies lex_less(
        #[trigger] m[i].key.rank(),
        #[trigger] m[j].key.rank(),
    ) by {
        assert(s[i].key == m[i].key && s[j].key == m[j].key);
        assert(lex_less(s[i].key.rank(), s[j].key.rank()));
    }
}

/// Looking a key up finds the same index whatever the values are.
pub proof fn lemma_same_keys_lookup<M: Rank, V, W>(
    s: Seq<Entry<M, V>>,
    m: Seq<Entry<M, W>>,
    r: Seq<int>,
)
    requires
        ascending(s),
        same_keys(s, m),
    ensures
        lookup(m, r) == lookup(s, r),
        lookup(s, r) is None ==> place(m, r) == place(s, r) && 0 <= place(s, r) <= s.len(),
        lookup(s, r) matches Some(i) ==> 0 <= i < s.len() && s[i].key.rank() == r,
{
    lemma_same_keys_ascending(s, m);
    if holds(s, r) {
        let i = choose|i: int| 0 <= i < s.len() && #[trigger] s[i].key.rank() == r;
        assert(s[i].key == m[i].key);
        lemma_lookup_unique(m, r, i);
        lemma_lookup_unique(s, r, i);
    } else {
        if holds(m, r) {
            let i = choose|i: int| 0 <= i < m.len() && #[trigger] m[i].key.rank() == r;
            assert(s[i].key == m[i].key);
        }
        lemma_place_exists(s, r);
        let at = place(s, r);
        assert(belongs_at(m, r, at)) by {
            assert forall|j: int| 0 <= j < at implies lex_less(#[trigger] m[j].key.rank(), r) by {
                assert(s[j].key == m[j].key);
                assert(lex_less(s[j].key.rank(), r));
            }
            assert forall|j: int| at <= j < m.len() implies lex_less(r, #[trigger] m[j].key.rank()) by {
                assert(s[j].key == m[j].key);
                assert(lex_less(r, s[j].key.rank()));
            }
        }
        lemma_place_unique(m, r, at);
    }
}

/// A key that is not held has a place.
pub proof fn lemma_place_exists<M: Rank, V>(s: Seq<Entry<M, V>>, r: Seq<int>)
    requires
        ascending(s),
        !holds(s, r),
    ensures
        belongs_at(s, r, place(s, r)),
    decreases s.len(),
{
    if s.len() == 0 {
        assert(belongs_at(s, r, 0));
    } else {
        let init = s.drop_last();
        assert(ascending(init)) by {
            assert forall|i: int, j: int| 0 <= i < j < init.len() implies lex_less(
                #[trigger] init[i].key.rank(),
                #[trigger] init[j].key.rank(),
            ) by {
                assert(init[i] == s[i] && init[j] == s[j]);
            }
        }
        assert(!holds(init, r)) by {
            if holds(init, r) {
                let i = choose|i: int| 0 <= i < init.len() && #[trigger] init[i].key.rank() == r;
                assert(s[i].key.rank() == r);
            }
        }
        lemma_place_exists(init, r);
        let at = place(init, r);
        let last = s[s.len() - 1].key.rank();
        lemma_lex_total(last, r);
        assert(last != r);
        if lex_less(last, r) {
            assert(belongs_at(s, r, s.len() as int)) by {
                assert forall|j: int| 0 <= j < s.len() implies lex_less(
                    #[trigger] s[j].key.rank(),
                    r,
                ) by {
                    if j < s.len() - 1 {
                        lemma_lex_transitive(s[j].key.rank(), last, r);
                    }
                }
            }
        } else {
            assert(belongs_at(s, r, at)) by {
                assert forall|j: int| 0 <= j < at implies lex_less(#[trigger] s[j].key.rank(), r) by {
                    assert(s[j] == init[j]);
                }
                assert forall|j: int| at <= j < s.len() implies lex_less(
                    r,
                    #[trigger] s[j].key.rank(),
                ) by {
                    if j < s.len() - 1 {
                        assert(s[j] == init[j]);
                    }
                }
            }
        }
    }
}

/// Observing a key keeps the keys in order.
pub proof fn lemma_put_ascending<M: Rank, V>(s: Seq<Entry<M, V>>, key: M, value: V)
    requires
        ascending(s),
    ensures
        ascending(put(s, key, value)),
{
    let r = key.rank();
    let after = put(s, key, value);
    if holds(s, r) {
        let i = lookup(s, r)->0;
        assert forall|a: int, b: int| 0 <= a < b < after.len() implies lex_less(
            #[trigger] after[a].key.rank(),
            #[trigger] after[b].key.rank(),
        ) by {
            assert(after[a].key == s[a].key && after[b].key == s[b].key);
        }
    } else {
        lemma_place_exists(s, r);
        let at = place(s, r);
        assert forall|i: int, j: int| 0 <= i < j < after.len() implies lex_less(
            #[trigger] after[i].key.rank(),
            #[trigger] after[j].key.rank(),
        ) by {
            if i < at && j == at {
                assert(after[i] == s[i]);
            } else if i == at {
                assert(after[j] == s[j - 1]);
            } else if i < at && j < at {
                assert(after[i] == s[i] && after[j] == s[j]);
            } else if i < at {
                assert(after[i] == s[i] && after[j] == s[j - 1]);
            } else {
                assert(after[i] == s[i - 1] && after[j] == s[j - 1]);
            }
        }
    }
}

/// The entry that is held for the rank `r`, where there is one.
pub open spec fn entry_of<M: Rank, V>(s: Seq<Entry<M, V>>, r: Seq<int>) -> Option<Entry<M, V>> {
    match lookup(s, r) {
        Some(i) => Some(s[i]),
        None => None,
    }
}

/// Whether no entry of `s` has the rank `r`.
pub proof fn lemma_not_held<M: Rank, V>(s: Seq<Entry<M, V>>, r: Seq<int>)
    requires
        forall|i: int| 0 <= i < s.len() ==> (#[trigger] s[i]).key.rank() != r,
    ensures
        entry_of(s, r) is None,
{
    if holds(s, r) {
        let i = choose|i: int| 0 <= i < s.len() && #[trigger] s[i].key.rank() == r;
        assert(s[i].key.rank() != r);
    }
}

/// What is held for a rank is an entry of that rank.
pub proof fn lemma_entry_of<M: Rank, V>(s: Seq<Entry<M, V>>, r: Seq<int>)
    ensures
        match entry_of(s, r) {
            Some(e) => e.key.rank() == r && 0 <= lookup(s, r)->0 < s.len(),
            None => forall|i: int| 0 <= i < s.len() ==> (#[trigger] s[i]).key.rank() != r,
        },
{
    if holds(s, r) {
        let i = choose|i: int| 0 <= i < s.len() && #[trigger] s[i].key.rank() == r;
    }
}

/// After a key was observed, it has an entry with the value that was
/// observed, which is not stale.
pub proof fn lemma_put_same<M: Rank, V>(s: Seq<Entry<M, V>>, key: M, value: V)
    requires
        ascending(s),
    ensures
        match entry_of(put(s, key, value), key.rank()) {
            Some(e) => e.value == value && e.stale == Stale(false) && e.key.rank() == key.rank(),
            None => false,
        },
{
    let r = key.rank();
    let after = put(s, key, value);
    lemma_put_ascending(s, key, value);
    lemma_entry_of(s, r);
    match lookup(s, r) {
        Some(i) => {
            lemma_lookup_unique(after, r, i);
        },
        None => {
            lemma_place_exists(s, r);
            lemma_lookup_unique(after, r, place(s, r));
        },
    }
}

/// Observing a key leaves what is held for every other rank as it was.
pub proof fn lemma_put_other<M: Rank, V>(s: Seq<Entry<M, V>>, key: M, value: V, r: Seq<int>)
    requires
        ascending(s),
        r != key.rank(),
    ensures
        entry_of(put(s, key, value), r) == entry_of(s, r),
{
    let k = key.rank();
    let after = put(s, key, value);
    lemma_put_ascending(s, key, value);
    lemma_entry_of(s, r);
    lemma_entry_of(s, k);
    match lookup(s, k) {
        Some(i) => {
            match lookup(s, r) {
                Some(j) => {
                    assert(after[j] == s[j]);
                    lemma_lookup_unique(after, r, j);
                },
                None => {
                    assert forall|x: int| 0 <= x < after.len() implies (#[trigger] after[x]).key.rank()
                        != r by {
                        if x != i {
                            assert(after[x] == s[x]);
                        }
                    }
                    lemma_not_held(after, r);
                },
            }
        },
        None => {
            lemma_place_exists(s, k);
            let at = place(s, k);
            match lookup(s, r) {
                Some(j) => {
                    if j < at {
                        assert(after[j] == s[j]);
                        lemma_lookup_unique(after, r, j);
                    } else {
                        assert(after[j + 1] == s[j]);
                        lemma_lookup_unique(after, r, j + 1);
                    }
                },
                None => {
                    assert forall|x: int| 0 <= x < after.len() implies (#[trigger] after[x]).key.rank()
                        != r by {
                        if x < at {
                            assert(after[x] == s[x]);
                        } else if x > at {
                            assert(after[x] == s[x - 1]);
                        }
                    }
                    lemma_not_held(after, r);
                },
            }
        },
    }
}

/// Marking every entry stale leaves what is held for each rank as it was,
/// but for the mark.
pub proof fn lemma_marked_entry<M: Rank, V>(s: Seq<Entry<M, V>>, r: Seq<int>)
    requires
        ascending(s),
    ensures
        entry_of(marked(s), r) == (match entry_of(s, r) {
            Some(e) => Some(Entry { key: e.key, value: e.value, stale: Stale(true) }),
            None => None,
        }),
{
    let m = marked(s);
    lemma_marked_ascending(s);
    lemma_entry_of(s, r);
    match lookup(s, r) {
        Some(i) => {
            assert(m[i].key == s[i].key);
            lemma_lookup_unique(m, r, i);
        },
        None => {
            assert forall|x: int| 0 <= x < m.len() implies (#[trigger] m[x]).key.rank() != r by {
                assert(m[x].key == s[x].key);
            }
            lemma_not_held(m, r);
        },
    }
}

/// Entries in order are settled by what they hold for each rank: two lists
/// in order, each of which holds every entry of the other, are the same.
pub proof fn lemma_ascending_unique<M: Rank, V>(a: Seq<Entry<M, V>>, b: Seq<Entry<M, V>>)
    requires
        ascending(a),
        ascending(b),
        forall|i: int| 0 <= i < a.len() ==> entry_of(b, (#[trigger] a[i]).key.rank()) == Some(a[i]),
        forall|j: int| 0 <= j < b.len() ==> entry_of(a, (#[trigger] b[j]).key.rank()) == Some(b[j]),
    ensures
        a == b,
    decreases a.len(),
{
    if a.len() == 0 {
        if b.len() > 0 {
            assert(entry_of(a, b[0].key.rank()) == Some(b[0]));
        }
        assert(a =~= b);
    } else {
        let x = a[a.len() - 1];
        let rx = x.key.rank();
        assert(entry_of(b, rx) == Some(x));
        lemma_entry_of(b, rx);
        let j = lookup(b, rx)->0;
        assert(b[j] == x);
        let y = b[b.len() - 1];
        let ry = y.key.rank();
        assert(entry_of(a, ry) == Some(y));
        lemma_entry_of(a, ry);
        let i = lookup(a, ry)->0;
        assert(a[i] == y);
        if j < b.len() - 1 {
            assert(lex_less(b[j].key.rank(), b[b.len() - 1].key.rank()));
            lemma_lex_irreflexive(rx);
            if i < a.len() - 1 {
                assert(lex_less(a[i].key.rank(), a[a.len() - 1].key.rank()));
                lemma_lex_transitive(rx, ry, rx);
            }
        }
        assert(x == y);
        let a1 = a.drop_last();
        let b1 = b.drop_last();
        assert forall|p: int, q: int| 0 <= p < q < a1.len() implies lex_less(
            #[trigger] a1[p].key.rank(),
            #[trigger] a1[q].key.rank(),
        ) by {
            assert(a1[p] == a[p] && a1[q] == a[q]);
        }
        assert forall|p: int, q: int| 0 <= p < q < b1.len() implies lex_less(
            #[trigger] b1[p].key.rank(),
            #[trigger] b1[q].key.rank(),
        ) by {
            assert(b1[p] == b[p] && b1[q] == b[q]);
        }
        assert forall|p: int| 0 <= p < a1.len() implies entry_of(
            b1,
            (#[trigger] a1[p]).key.rank(),
        ) == Some(a1[p]) by {
            lemma_held_before(a, b, p);
        }
        assert forall|q: int| 0 <= q < b1.len() implies entry_of(
            a1,
            (#[trigger] b1[q]).key.rank(),
        ) == Some(b1[q]) by {
            lemma_held_before(b, a, q);
        }
        lemma_ascending_unique(a1, b1);
        assert(a =~= a1.push(x));
        assert(b =~= b1.push(y));
    }
}

/// Of two lists in order that end in the same entry, what the one holds
/// before its end and the other holds at all, the other holds before its
/// end.
pub proof fn lemma_held_before<M: Rank, V>(a: Seq<Entry<M, V>>, b: Seq<Entry<M, V>>, p: int)
    requires
        ascending(a),
        ascending(b),
        a.len() > 0,
        b.len() > 0,
        a[a.len() - 1] == b[b.len() - 1],
        0 <= p < a.len() - 1,
        entry_of(b, a[p].key.rank()) == Some(a[p]),
    ensures
        entry_of(b.drop_last(), a.drop_last()[p].key.rank()) == Some(a.drop_last()[p]),
{
    let r = a[p].key.rank();
    let b1 = b.drop_last();
    lemma_entry_of(b, r);
    let j = lookup(b, r)->0;
    assert(b[j] == a[p]);
    assert(lex_less(a[p].key.rank(), a[a.len() - 1].key.rank()));
    lemma_lex_irreflexive(r);
    assert(j < b.len() - 1);
    assert forall|x: int, y: int| 0 <= x < y < b1.len() implies lex_less(
        #[trigger] b1[x].key.rank(),
        #[trigger] b1[y].key.rank(),
    ) by {
        assert(b1[x] == b[x] && b1[y] == b[y]);
    }
    assert(b1[j] == b[j]);
    lemma_lookup_unique(b1, r, j);
}

/// A sweep keeps what is held for each rank where that is not stale.
pub proof fn lemma_kept_entry<M: Rank, V>(s: Seq<Entry<M, V>>, r: Seq<int>)
    requires
        ascending(s),
    ensures
        entry_of(kept(s), r) == (match entry_of(s, r) {
            Some(e) => if e.stale.0 {
                None
            } else {
                Some(e)
            },
            None => None,
        }),
    decreases s.len(),
{
    lemma_kept_ascending(s);
    lemma_entry_of(s, r);
    if s.len() == 0 {
        lemma_not_held(kept(s), r);
    } else {
        let init = s.drop_last();
        let last = s[s.len() - 1];
        assert(ascending(init)) by {
            assert forall|i: int, j: int| 0 <= i < j < init.len() implies lex_less(
                #[trigger] init[i].key.rank(),
                #[trigger] init[j].key.rank(),
            ) by {
                assert(init[i] == s[i] && init[j] == s[j]);
            }
        }
        lemma_kept_entry(init, r);
        lemma_kept_ascending(init);
        lemma_entry_of(init, r);
        lemma_entry_of(kept(init), r);
        lemma_lex_irreflexive(r);
        // what the entries before the last hold for the rank
        if last.key.rank() == r {
            lemma_lookup_unique(s, r, s.len() - 1);
            assert forall|x: int| 0 <= x < init.len() implies (#[trigger] init[x]).key.rank() != r by {
                assert(init[x] == s[x]);
                assert(lex_less(s[x].key.rank(), s[s.len() - 1].key.rank()));
            }
            lemma_not_held(init, r);
            if !last.stale.0 {
                lemma_lookup_unique(kept(s), r, kept(s).len() - 1);
            }
        } else {
            match lookup(init, r) {
                Some(j) => {
                    assert(init[j] == s[j]);
                    lemma_lookup_unique(s, r, j);
                },
                None => {
                    assert forall|x: int| 0 <= x < s.len() implies (#[trigger] s[x]).key.rank() != r by {
                        if x < init.len() {
                            assert(init[x] == s[x]);
                        }
                    }
                    lemma_not_held(s, r);
                },
            }
            if !last.stale.0 {
                let k = kept(s);
                match lookup(kept(init), r) {
                    Some(j) => {
                        assert(k[j] == kept(init)[j]);
                        lemma_lookup_unique(k, r, j);
                    },
                    None => {
                        assert forall|x: int| 0 <= x < k.len() implies (#[trigger] k[x]).key.rank()
                            != r by {
                            if x < kept(init).len() {
                                assert(k[x] == kept(init)[x]);
                            }
                        }
                        lemma_not_held(k, r);
                    },
                }
            }
        }
    }
}

/// After a counter source was sampled for a key, the key's entry holds the
/// sample as the last, and as the one before what was the last, or `fresh`
/// for a key that had no entry. What is held for every other rank is as it
/// was.
pub proof fn lemma_sampled_entry<M: Rank, S>(
    s: Seq<Entry<M, Pair<S>>>,
    key: M,
    fresh: S,
    sample: S,
    r: Seq<int>,
)
    requires
        ascending(s),
    ensures
        ascending(sampled(s, key, fresh, sample)),
        r != key.rank() ==> entry_of(sampled(s, key, fresh, sample), r) == entry_of(s, r),
        r == key.rank() ==> (match entry_of(sampled(s, key, fresh, sample), r) {
            Some(e) => e.stale == Stale(false) && e.value.cur == sample && e.value.prev == (match entry_of(
                s,
                r,
            ) {
                Some(had) => had.value.cur,
                None => fresh,
            }),
            None => false,
        }),
{
    let prev = match lookup(s, key.rank()) {
        Some(i) => s[i].value.cur,
        None => fresh,
    };
    lemma_put_ascending(s, key, Pair { prev, cur: sample });
    if r == key.rank() {
        lemma_put_same(s, key, Pair { prev, cur: sample });
    } else {
        lemma_put_other(s, key, Pair { prev, cur: sample }, r);
    }
}

} // verus!
