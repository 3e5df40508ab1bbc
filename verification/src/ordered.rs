//! Counter sources that are known by a number, in a map that std keeps in
//! the order of the numbers.

use crate::common::Stale;
use crate::tracker::{
    ascending, entry_of, kept, lemma_ascending_unique, lemma_entry_of, lemma_kept_ascending,
    lemma_kept_entry, lemma_lookup_unique, lemma_marked_ascending, lemma_marked_entry,
    lemma_not_held, lemma_sampled_entry, marked, sampled, Entry, Pair, Rank, Slot,
};
use std::collections::BTreeMap;
use vstd::prelude::*;
use vstd::std_specs::btree::increasing_seq;
use vstd::std_specs::cmp::OrdSpec;
use vstd::std_specs::iter::IteratorSpec;

verus! {

/// What the map holds for one source: its two samples, and whether it was
/// left unobserved in the tick under way.
#[derive(Clone, Copy)]
pub struct Sampled<S> {
    pub pair: Pair<S>,
    pub stale: Stale,
}

/// What a map holds for the number `k`, as an entry.
pub open spec fn held<S>(m: Map<u64, Sampled<S>>, k: u64) -> Option<Entry<u64, Pair<S>>> {
    if m.contains_key(k) {
        Some(Entry { key: k, value: m[k].pair, stale: m[k].stale })
    } else {
        None
    }
}

/// Whether `s` is what the map `m` holds, in ascending order of the
/// numbers.
pub open spec fn stands_for<S>(s: Seq<Entry<u64, Pair<S>>>, m: Map<u64, Sampled<S>>) -> bool {
    &&& ascending(s)
    &&& forall|k: u64| entry_of(s, k.rank()) == #[trigger] held(m, k)
}

/// The map with every source marked stale.
pub open spec fn staled<S>(m: Map<u64, Sampled<S>>) -> Map<u64, Sampled<S>> {
    Map::new(|k: u64| m.contains_key(k), |k: u64| Sampled { pair: m[k].pair, stale: Stale(true) })
}

/// The map after a sample was taken for the number `k`: the last sample
/// becomes the one before, and `sample` the last. A source that was not
/// held starts out with `fresh` as the sample before.
pub open spec fn taken<S>(m: Map<u64, Sampled<S>>, k: u64, fresh: S, sample: S) -> Map<
    u64,
    Sampled<S>,
> {
    let prev = if m.contains_key(k) {
        m[k].pair.cur
    } else {
        fresh
    };
    m.insert(k, Sampled { pair: Pair { prev, cur: sample }, stale: Stale(false) })
}

/// The map without the sources that are stale.
pub open spec fn unstaled<S>(m: Map<u64, Sampled<S>>) -> Map<u64, Sampled<S>> {
    Map::new(|k: u64| m.contains_key(k) && !m[k].stale.0, |k: u64| m[k])
}

/// Numbers rank as they compare.
pub proof fn lemma_rank_order(a: u64, b: u64)
    ensures
        crate::tracker::lex_less(a.rank(), b.rank()) == (a < b),
        a.rank() == b.rank() <==> a == b,
{
    let x = a.rank();
    let y = b.rank();
    assert(x[0] == a as int && y[0] == b as int);
    assert(x.drop_first().len() == 0 && y.drop_first().len() == 0);
    assert(!crate::tracker::lex_less(x.drop_first(), y.drop_first()));
}

/// A map is held by one list of entries in order, and no other.
pub proof fn lemma_stands_unique<S>(
    a: Seq<Entry<u64, Pair<S>>>,
    b: Seq<Entry<u64, Pair<S>>>,
    m: Map<u64, Sampled<S>>,
)
    requires
        stands_for(a, m),
        stands_for(b, m),
    ensures
        a == b,
{
    assert forall|i: int| 0 <= i < a.len() implies entry_of(b, (#[trigger] a[i]).key.rank())
        == Some(a[i]) by {
        lemma_lookup_unique(a, a[i].key.rank(), i);
        assert(entry_of(a, a[i].key.rank()) == held(m, a[i].key));
    }
    assert forall|j: int| 0 <= j < b.len() implies entry_of(a, (#[trigger] b[j]).key.rank())
        == Some(b[j]) by {
        lemma_lookup_unique(b, b[j].key.rank(), j);
        assert(entry_of(b, b[j].key.rank()) == held(m, b[j].key));
    }
    lemma_ascending_unique(a, b);
}

/// Marking the sources of the map stale marks the entries stale.
pub proof fn lemma_stands_marked<S>(s: Seq<Entry<u64, Pair<S>>>, m: Map<u64, Sampled<S>>)
    requires
        stands_for(s, m),
    ensures
        stands_for(marked(s), staled(m)),
{
    lemma_marked_ascending(s);
    assert forall|k: u64| entry_of(marked(s), k.rank()) == #[trigger] held(staled(m), k) by {
        lemma_marked_entry(s, k.rank());
        assert(entry_of(s, k.rank()) == held(m, k));
    }
}

/// Taking a sample in the map takes it in the entries.
pub proof fn lemma_stands_taken<S>(
    s: Seq<Entry<u64, Pair<S>>>,
    m: Map<u64, Sampled<S>>,
    key: u64,
    fresh: S,
    sample: S,
)
    requires
        stands_for(s, m),
    ensures
        stands_for(sampled(s, key, fresh, sample), taken(m, key, fresh, sample)),
{
    let after = sampled(s, key, fresh, sample);
    assert forall|k: u64| entry_of(after, k.rank()) == #[trigger] held(
        taken(m, key, fresh, sample),
        k,
    ) by {
        lemma_sampled_entry(s, key, fresh, sample, k.rank());
        lemma_rank_order(k, key);
        assert(entry_of(s, k.rank()) == held(m, k));
        if k == key {
            lemma_entry_of(after, k.rank());
            let e = entry_of(after, k.rank())->0;
            lemma_rank_order(e.key, key);
        }
    }
    lemma_sampled_entry(s, key, fresh, sample, key.rank());
}

/// Dropping the stale sources of the map sweeps the entries.
pub proof fn lemma_stands_kept<S>(s: Seq<Entry<u64, Pair<S>>>, m: Map<u64, Sampled<S>>)
    requires
        stands_for(s, m),
    ensures
        stands_for(kept(s), unstaled(m)),
{
    lemma_kept_ascending(s);
    assert forall|k: u64| entry_of(kept(s), k.rank()) == #[trigger] held(unstaled(m), k) by {
        lemma_kept_entry(s, k.rank());
        assert(entry_of(s, k.rank()) == held(m, k));
    }
}

/// In an increasing sequence what stands before is less.
pub proof fn lemma_increasing<K: Ord>(s: Seq<K>, i: int, j: int)
    requires
        vstd::laws_cmp::obeys_cmp::<K>(),
        increasing_seq(s),
        0 <= i < j < s.len(),
    ensures
        s[i].cmp_spec(&s[j]) is Less,
{
    vstd::std_specs::btree::axiom_increasing_seq_meaning(s);
}

/// The numbers that a map holds, in ascending order.
pub fn keys_of<S>(m: &BTreeMap<u64, Sampled<S>>) -> (keys: Vec<u64>)
    ensures
        keys@.to_set() == m@.dom(),
        keys@.no_duplicates(),
        forall|i: int, j: int| 0 <= i < j < keys@.len() ==> keys@[i] < keys@[j],
{
    let mut keys: Vec<u64> = Vec::new();
    let ghost all = m.keys().remaining();
    for k in iter: m.keys()
        invariant
            iter.seq() == all,
            keys@ == all.unref().take(iter.index()),
    {
        keys.push(*k);
        assert(keys@ =~= all.unref().take(iter.index() + 1));
    }
    proof {
        assert(keys@ =~= all.unref());
        assert(vstd::laws_cmp::obeys_cmp::<u64>());
        assert(vstd::laws_cmp::obeys_cmp::<&u64>());
        assert forall|i: int, j: int| 0 <= i < j < keys@.len() implies keys@[i] < keys@[j] by {
            lemma_increasing(all, i, j);
        }
    }
    keys
}

/// Marks every source of the map stale.
pub fn mark_all<S: Copy>(m: &mut BTreeMap<u64, Sampled<S>>)
    ensures
        final(m)@ == staled(old(m)@),
{
    let keys = keys_of(m);
    let mut i: usize = 0;
    while i < keys.len()
        invariant
            i <= keys.len(),
            keys@.to_set() == old(m)@.dom(),
            keys@.no_duplicates(),
            m@.dom() == old(m)@.dom(),
            forall|j: int| 0 <= j < i ==> m@[#[trigger] keys@[j]] == staled(old(m)@)[keys@[j]],
            forall|j: int| i <= j < keys@.len() ==> m@[#[trigger] keys@[j]] == old(m)@[keys@[j]],
        decreases keys.len() - i,
    {
        let k = keys[i];
        assert(keys@.to_set().contains(k));
        if let Some(e) = m.get(&k) {
            let e = Sampled { pair: e.pair, stale: Stale(true) };
            m.insert(k, e);
        }
        assert(m@.dom() =~= old(m)@.dom());
        i += 1;
    }
    assert forall|k: u64| old(m)@.contains_key(k) implies m@[k] == staled(old(m)@)[k] by {
        assert(keys@.to_set().contains(k));
        let j = choose|j: int| 0 <= j < keys@.len() && keys@[j] == k;
        assert(m@[keys@[j]] == staled(old(m)@)[keys@[j]]);
    }
    assert(m@ =~= staled(old(m)@));
}

/// Takes a sample for the number `k`.
pub fn take_sample<S: Copy>(m: &mut BTreeMap<u64, Sampled<S>>, k: u64, fresh: S, sample: S)
    ensures
        final(m)@ == taken(old(m)@, k, fresh, sample),
{
    let prev = match m.get(&k) {
        Some(e) => e.pair.cur,
        None => fresh,
    };
    m.insert(k, Sampled { pair: Pair { prev, cur: sample }, stale: Stale(false) });
}

/// Drops the sources that are stale.
pub fn sweep<S: Copy>(m: &mut BTreeMap<u64, Sampled<S>>)
    ensures
        final(m)@ == unstaled(old(m)@),
{
    let keys = keys_of(m);
    let mut i: usize = 0;
    while i < keys.len()
        invariant
            i <= keys.len(),
            keys@.to_set() == old(m)@.dom(),
            keys@.no_duplicates(),
            forall|k: u64| #[trigger]
                m@.contains_key(k) ==> old(m)@.contains_key(k) && m@[k] == old(m)@[k],
            forall|j: int|
                0 <= j < i ==> (m@.contains_key(#[trigger] keys@[j]) <==> !old(m)@[keys@[j]].stale.0),
            forall|j: int| i <= j < keys@.len() ==> m@.contains_key(#[trigger] keys@[j]),
        decreases keys.len() - i,
    {
        let k = keys[i];
        assert(keys@.to_set().contains(k));
        let gone = match m.get(&k) {
            Some(e) => e.stale.0,
            None => false,
        };
        let ghost before = m@;
        if gone {
            m.remove(&k);
            assert(m@ == before.remove(k));
        }
        i += 1;
    }
    assert forall|k: u64| old(m)@.contains_key(k) && !old(m)@[k].stale.0 implies m@.contains_key(
        k,
    ) by {
        assert(keys@.to_set().contains(k));
        let j = choose|j: int| 0 <= j < keys@.len() && keys@[j] == k;
        assert(m@.contains_key(keys@[j]));
    }
    assert forall|k: u64| m@.contains_key(k) implies !old(m)@[k].stale.0 by {
        assert(old(m)@.contains_key(k));
        assert(keys@.to_set().contains(k));
        let j = choose|j: int| 0 <= j < keys@.len() && keys@[j] == k;
        assert(m@.contains_key(keys@[j]));
    }
    assert(m@ =~= unstaled(old(m)@));
}

/// The entries that a list of slots stands for.
pub open spec fn slot_entries<S>(v: Seq<Slot<u64, Pair<S>>>) -> Seq<Entry<u64, Pair<S>>> {
    Seq::new(v.len(), |i: int| v[i]@)
}

/// What the map holds, in ascending order of the numbers.
pub fn entries<S: Copy>(m: &BTreeMap<u64, Sampled<S>>) -> (v: Vec<Slot<u64, Pair<S>>>)
    ensures
        stands_for(slot_entries(v@), m@),
{
    let keys = keys_of(m);
    let mut v: Vec<Slot<u64, Pair<S>>> = Vec::new();
    let mut i: usize = 0;
    while i < keys.len()
        invariant
            i <= keys.len(),
            keys@.to_set() == m@.dom(),
            v@.len() == i,
            forall|j: int| 0 <= j < i ==> held(m@, keys@[j]) == Some((#[trigger] v@[j])@),
        decreases keys.len() - i,
    {
        let k = keys[i];
        assert(keys@.to_set().contains(k));
        if let Some(e) = m.get(&k) {
            v.push(Slot { key: k, value: e.pair, stale: e.stale });
        }
        i += 1;
    }
    proof {
        let s = slot_entries(v@);
        assert forall|a: int, b: int| 0 <= a < b < s.len() implies crate::tracker::lex_less(
            #[trigger] s[a].key.rank(),
            #[trigger] s[b].key.rank(),
        ) by {
            assert(held(m@, keys@[a]) == Some(v@[a]@));
            assert(held(m@, keys@[b]) == Some(v@[b]@));
            lemma_rank_order(keys@[a], keys@[b]);
        }
        assert forall|k: u64| entry_of(s, k.rank()) == #[trigger] held(m@, k) by {
            if m@.contains_key(k) {
                assert(keys@.to_set().contains(k));
                let j = choose|j: int| 0 <= j < keys@.len() && keys@[j] == k;
                assert(held(m@, keys@[j]) == Some(v@[j]@));
                lemma_lookup_unique(s, k.rank(), j);
            } else {
                assert forall|x: int| 0 <= x < s.len() implies (#[trigger] s[x]).key.rank()
                    != k.rank() by {
                    assert(held(m@, keys@[x]) == Some(v@[x]@));
                    assert(keys@.to_set().contains(keys@[x]));
                    lemma_rank_order(keys@[x], k);
                }
                lemma_not_held(s, k.rank());
            }
        }
    }
    v
}

} // verus!
