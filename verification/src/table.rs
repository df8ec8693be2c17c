//! The per-key aggregate table and the sorted summary built from it.
//!
//! During the streaming phase the table maps each distinct key to its
//! running statistics; the aggregator is its only writer. The table also
//! carries, as ghost state, the full history of observations folded into
//! it, and its well-formedness invariant ties every entry's minimum,
//! maximum and count to exactly the readings of its key in that history.
//! Once the stream has ended, `into_sorted` consumes the table and produces
//! the summary order: the same entries, arranged in strictly ascending
//! lexicographic key order.

use vstd::prelude::*;
use vstd::seq_lib::group_to_multiset_ensures;
use crate::lex::bytes_eq;
use crate::lex::bytes_lt;
use crate::lex::lemma_lex_lt_irreflexive;
use crate::lex::lemma_lex_lt_transitive;
use crate::lex::lemma_lex_trichotomy;
use crate::lex::lex_lt;
use crate::order::lemma_stats_order_independent;
use crate::order::value_lt;
use crate::stats::Stored;

verus! {

/// One key with its running statistics.
pub struct Entry {
    pub key: Vec<u8>,
    pub stats: Stored,
}

impl View for Entry {
    type V = (Seq<u8>, Stored);

    open spec fn view(&self) -> (Seq<u8>, Stored) {
        (self.key@, self.stats)
    }
}

/// The views of a sequence of entries, in the same order.
pub open spec fn entry_views(s: Seq<Entry>) -> Seq<(Seq<u8>, Stored)> {
    s.map_values(|e: Entry| e@)
}

/// No key occurs twice.
pub open spec fn distinct_keys(s: Seq<(Seq<u8>, Stored)>) -> bool {
    forall|i: int, j: int| 0 <= i < j < s.len() ==> s[i].0 != s[j].0
}

/// Every key strictly precedes every later key.
pub open spec fn sorted_strictly(s: Seq<(Seq<u8>, Stored)>) -> bool {
    forall|i: int, j: int| 0 <= i < j < s.len() ==> lex_lt(s[i].0, s[j].0)
}

/// Some entry holds this key.
pub open spec fn table_has_key(s: Seq<(Seq<u8>, Stored)>, key: Seq<u8>) -> bool {
    exists|i: int| 0 <= i < s.len() && s[i].0 == key
}

/// The readings of one key in an observation history, in arrival order.
pub open spec fn key_values(h: Seq<(Seq<u8>, u32)>, key: Seq<u8>) -> Seq<u32>
    decreases h.len(),
{
    if h.len() == 0 {
        Seq::empty()
    } else {
        let rest = key_values(h.drop_last(), key);
        if h.last().0 == key {
            rest.push(h.last().1)
        } else {
            rest
        }
    }
}

proof fn lemma_key_values_push(h: Seq<(Seq<u8>, u32)>, r: (Seq<u8>, u32), key: Seq<u8>)
    ensures
        key_values(h.push(r), key) == (if r.0 == key {
            key_values(h, key).push(r.1)
        } else {
            key_values(h, key)
        }),
{
    assert(h.push(r).drop_last() =~= h);
    assert(h.push(r).last() == r);
}

proof fn lemma_key_values_member(h: Seq<(Seq<u8>, u32)>, key: Seq<u8>)
    requires
        key_values(h, key).len() > 0,
    ensures
        exists|j: int| 0 <= j < h.len() && h[j].0 == key,
    decreases h.len(),
{
    if h.len() > 0 {
        if h.last().0 == key {
            assert(h[h.len() - 1].0 == key);
        } else {
            lemma_key_values_member(h.drop_last(), key);
            let j = choose|j: int| 0 <= j < h.drop_last().len() && h.drop_last()[j].0 == key;
            assert(h[j].0 == key);
        }
    }
}

/// The aggregate table: per-key running statistics, keys unique, in no
/// particular order, together with the ghost history of every observation
/// folded into it.
pub struct AggregateTable {
    entries: Vec<Entry>,
    observations: Ghost<Seq<(Seq<u8>, u32)>>,
}

impl View for AggregateTable {
    type V = Seq<(Seq<u8>, Stored)>;

    closed spec fn view(&self) -> Seq<(Seq<u8>, Stored)> {
        entry_views(self.entries@)
    }
}

impl AggregateTable {
    /// Every observation ever folded into the table, as `(key, reading)`
    /// pairs in arrival order. Ghost state: it exists only for contracts.
    pub closed spec fn observed(&self) -> Seq<(Seq<u8>, u32)> {
        self.observations@
    }

    /// Keys are unique; each entry's statistics track exactly the readings
    /// of its key in the observation history; and every observed key has
    /// its entry.
    pub open spec fn wf(self) -> bool {
        &&& distinct_keys(self@)
        &&& forall|i: int|
            0 <= i < self@.len() ==> (#[trigger] self@[i]).1.tracks(
                key_values(self.observed(), self@[i].0),
            )
        &&& forall|j: int|
            0 <= j < self.observed().len() ==> table_has_key(
                self@,
                (#[trigger] self.observed()[j]).0,
            )
    }

    /// The empty table: nothing observed yet.
    pub fn new() -> (t: AggregateTable)
        ensures
            t@ == Seq::<(Seq<u8>, Stored)>::empty(),
            t.observed() == Seq::<(Seq<u8>, u32)>::empty(),
            t.wf(),
    {
        let t = AggregateTable { entries: Vec::new(), observations: Ghost(Seq::empty()) };
        proof {
            assert(t@ =~= Seq::<(Seq<u8>, Stored)>::empty());
        }
        t
    }

    /// Number of distinct keys seen so far.
    pub fn len(&self) -> (n: usize)
        ensures
            n == self@.len(),
    {
        self.entries.len()
    }

    /// The position of `key` in the table, if it has been seen.
    pub fn find(&self, key: &Vec<u8>) -> (r: Option<usize>)
        ensures
            (match r {
                Some(i) => i < self@.len() && self@[i as int].0 == key@,
                None => forall|i: int| 0 <= i < self@.len() ==> self@[i].0 != key@,
            }),
    {
        let mut i: usize = 0;
        while i < self.entries.len()
            invariant
                0 <= i <= self@.len(),
                self@.len() == self.entries@.len(),
                forall|q: int| 0 <= q < i ==> self@[q].0 != key@,
            decreases self.entries@.len() - i,
        {
            if bytes_eq(&self.entries[i].key, key) {
                return Some(i);
            }
            i = i + 1;
        }
        None
    }

    /// The statistics at position `i`.
    pub fn get_stats(&self, i: usize) -> (s: Stored)
        requires
            i < self@.len(),
        ensures
            s == self@[i as int].1,
    {
        self.entries[i].stats
    }

    /// First observation of a fresh key: append an entry initialized from
    /// this single reading.
    pub fn insert_new(&mut self, key: Vec<u8>, value_bits: u32)
        requires
            old(self).wf(),
            forall|i: int| 0 <= i < old(self)@.len() ==> old(self)@[i].0 != key@,
        ensures
            final(self).wf(),
            final(self)@ == old(self)@.push((key@, (Stored {
                min: value_bits,
                max: value_bits,
                sum: value_bits,
                count: 1usize,
            }))),
            final(self).observed() == old(self).observed().push((key@, value_bits)),
    {
        let stats = Stored::new(value_bits);
        let ghost k = key@;
        let ghost obs0 = self.observed();
        let ghost v0 = self@;
        self.entries.push(Entry { key, stats });
        proof {
            self.observations@ = obs0.push((k, value_bits));
        }
        proof {
            assert(self@ =~= v0.push((k, stats)));
            assert forall|i: int| 0 <= i < self@.len() implies (#[trigger] self@[i]).1.tracks(
                key_values(self.observed(), self@[i].0),
            ) by {
                lemma_key_values_push(obs0, (k, value_bits), self@[i].0);
                if i < v0.len() {
                    assert(self@[i] == v0[i]);
                    assert(v0[i].1.tracks(key_values(obs0, v0[i].0)));
                } else {
                    assert(self@[i] == (k, stats));
                    if key_values(obs0, k).len() > 0 {
                        lemma_key_values_member(obs0, k);
                        let j = choose|j: int| 0 <= j < obs0.len() && obs0[j].0 == k;
                        assert(table_has_key(v0, obs0[j].0));
                        assert(false);
                    }
                    assert(key_values(obs0, k) =~= Seq::<u32>::empty());
                    assert(key_values(self.observed(), k) =~= seq![value_bits]);
                }
            }
            assert forall|j: int| 0 <= j < self.observed().len() implies table_has_key(
                self@,
                (#[trigger] self.observed()[j]).0,
            ) by {
                if j < obs0.len() {
                    assert(table_has_key(v0, obs0[j].0));
                    let m = choose|m: int| 0 <= m < v0.len() && v0[m].0 == obs0[j].0;
                    assert(self@[m].0 == self.observed()[j].0);
                } else {
                    assert(self@[v0.len() as int].0 == k);
                }
            }
        }
    }

    /// A further observation of the key at position `i`: fold the reading
    /// into its statistics; everything else in the table stays as it was.
    pub fn update_at(&mut self, i: usize, v: u32, new_sum: u32)
        requires
            old(self).wf(),
            i < old(self)@.len(),
            old(self)@[i as int].1.count < usize::MAX,
        ensures
            final(self).wf(),
            final(self)@.len() == old(self)@.len(),
            forall|j: int| 0 <= j < old(self)@.len() && j != i ==> final(self)@[j] == old(self)@[j],
            final(self)@[i as int].0 == old(self)@[i as int].0,
            final(self)@[i as int].1.count == old(self)@[i as int].1.count + 1,
            final(self)@[i as int].1.sum == new_sum,
            final(self)@[i as int].1.min == (if value_lt(v, old(self)@[i as int].1.min) {
                v
            } else {
                old(self)@[i as int].1.min
            }),
            final(self)@[i as int].1.max == (if value_lt(old(self)@[i as int].1.max, v) {
                v
            } else {
                old(self)@[i as int].1.max
            }),
            final(self).observed() == old(self).observed().push((old(self)@[i as int].0, v)),
    {
        let ghost obs0 = self.observed();
        let ghost v0 = self@;
        let ghost k = self@[i as int].0;
        let mut s = self.entries[i].stats;
        s.update(v, new_sum);
        let e = &mut self.entries[i];
        e.stats = s;
        proof {
            self.observations@ = obs0.push((k, v));
        }
        proof {
            assert(self@ =~= v0.update(i as int, (k, s)));
            assert forall|m: int| 0 <= m < self@.len() implies (#[trigger] self@[m]).1.tracks(
                key_values(self.observed(), self@[m].0),
            ) by {
                lemma_key_values_push(obs0, (k, v), self@[m].0);
                assert(v0[m].1.tracks(key_values(obs0, v0[m].0)));
                if m == i {
                    assert(self@[m] == (k, s));
                } else {
                    assert(self@[m] == v0[m]);
                    assert(v0[m].0 != k);
                }
            }
            assert forall|j: int| 0 <= j < self.observed().len() implies table_has_key(
                self@,
                (#[trigger] self.observed()[j]).0,
            ) by {
                assert(forall|m: int| 0 <= m < self@.len() ==> (#[trigger] self@[m]).0 == v0[m].0);
                if j < obs0.len() {
                    assert(table_has_key(v0, obs0[j].0));
                    let m = choose|m: int| 0 <= m < v0.len() && v0[m].0 == obs0[j].0;
                    assert(self@[m].0 == self.observed()[j].0);
                } else {
                    assert(self@[i as int].0 == k);
                }
            }
            assert forall|p: int, q: int| 0 <= p < q < self@.len() implies self@[p].0
                != self@[q].0 by {
                assert(self@[p].0 == v0[p].0);
                assert(self@[q].0 == v0[q].0);
            }
        }
    }

    /// Consume the table and arrange its entries in strictly ascending
    /// lexicographic key order: the same entries — nothing added, dropped
    /// or changed — with every key before every greater key, each still
    /// tracking exactly its key's observed readings.
    #[verifier::loop_isolation(false)]
    pub fn into_sorted(self) -> (r: Vec<Entry>)
        requires
            self.wf(),
        ensures
            sorted_strictly(entry_views(r@)),
            entry_views(r@).to_multiset() == self@.to_multiset(),
            forall|i: int|
                0 <= i < entry_views(r@).len() ==> (#[trigger] entry_views(r@)[i]).1.tracks(
                    key_values(self.observed(), entry_views(r@)[i].0),
                ),
    {
        broadcast use group_to_multiset_ensures;

        let ghost t0 = self;
        let AggregateTable { entries, observations: _ } = self;
        let mut remaining = entries;
        let ghost orig: Seq<(Seq<u8>, Stored)> = entry_views(remaining@);
        let mut out: Vec<Entry> = Vec::new();
        proof {
            assert(orig == t0@);
            assert(entry_views(out@) =~= Seq::<(Seq<u8>, Stored)>::empty());
            assert(entry_views(out@).to_multiset().add(entry_views(remaining@).to_multiset())
                =~= orig.to_multiset());
        }
        while remaining.len() > 0
            invariant
                entry_views(out@).to_multiset().add(entry_views(remaining@).to_multiset())
                    == orig.to_multiset(),
                sorted_strictly(entry_views(out@)),
                distinct_keys(entry_views(remaining@)),
                forall|i: int, j: int|
                    0 <= i < out@.len() && 0 <= j < remaining@.len()
                        ==> entry_views(out@)[i].0 != entry_views(remaining@)[j].0,
            decreases remaining@.len(),
        {
            let ghost rem_before = remaining@;
            let e = remaining.pop().unwrap();
            proof {
                assert(entry_views(rem_before) =~= entry_views(remaining@).push(e@));
                assert(entry_views(rem_before).to_multiset()
                    == entry_views(remaining@).to_multiset().insert(e@));
                assert(forall|k: int|
                    0 <= k < remaining@.len() ==> #[trigger] entry_views(remaining@)[k]
                        == entry_views(rem_before)[k]);
                assert(e@ == entry_views(rem_before)[rem_before.len() - 1]);
                // The popped key occurs nowhere else: not in the sorted
                // part, and not among the still-unsorted entries.
                assert forall|i: int| 0 <= i < out@.len() implies entry_views(out@)[i].0
                    != e.key@ by {
                    assert(entry_views(out@)[i].0
                        != entry_views(rem_before)[rem_before.len() - 1].0);
                }
                assert forall|k: int| 0 <= k < remaining@.len() implies entry_views(
                    remaining@,
                )[k].0 != e.key@ by {
                    assert(entry_views(rem_before)[k].0
                        != entry_views(rem_before)[rem_before.len() - 1].0);
                }
            }
            let mut j: usize = 0;
            while j < out.len() && !bytes_lt(&e.key, &out[j].key)
                invariant
                    0 <= j <= out@.len(),
                    forall|m: int| 0 <= m < j ==> !lex_lt(e.key@, entry_views(out@)[m].0),
                decreases out@.len() - j,
            {
                j = j + 1;
            }
            let ghost out_before = out@;
            let ghost jj = j as int;
            out.insert(j, e);
            proof {
                assert(entry_views(out@) =~= entry_views(out_before).insert(jj, e@));
                let vs = entry_views(out_before);
                let vs2 = entry_views(out@);
                // Strict sortedness survives the insertion.
                assert forall|p: int, q: int| 0 <= p < q < vs2.len() implies lex_lt(
                    vs2[p].0,
                    vs2[q].0,
                ) by {
                    if q < jj {
                        assert(vs2[p] == vs[p] && vs2[q] == vs[q]);
                    } else if p > jj {
                        assert(vs2[p] == vs[p - 1] && vs2[q] == vs[q - 1]);
                    } else if p < jj && q > jj {
                        assert(vs2[p] == vs[p] && vs2[q] == vs[q - 1]);
                    } else if q == jj {
                        // vs2[q] is the new entry; everything before it is
                        // not above it and differs from it, hence below it.
                        assert(vs2[p] == vs[p]);
                        assert(!lex_lt(e.key@, vs[p].0));
                        assert(vs[p].0 != e.key@);
                        lemma_lex_trichotomy(vs[p].0, e.key@);
                    } else {
                        // p == jj: the new entry is below out[jj], and out
                        // was sorted beyond that point.
                        assert(vs2[q] == vs[q - 1]);
                        assert(lex_lt(e.key@, vs[jj].0));
                        if q - 1 > jj {
                            assert(lex_lt(vs[jj].0, vs[q - 1].0));
                            lemma_lex_lt_transitive(e.key@, vs[jj].0, vs[q - 1].0);
                        }
                    }
                }
                // The multiset balance moves one entry across.
                assert(vs2.to_multiset() == vs.to_multiset().insert(e@));
                assert(vs.to_multiset().insert(e@).add(entry_views(remaining@).to_multiset())
                    =~= vs.to_multiset().add(
                    entry_views(remaining@).to_multiset().insert(e@),
                ));
                // The inserted key is new to `out`, keeping keys distinct
                // across the two halves.
                assert forall|i: int, k: int|
                    0 <= i < vs2.len() && 0 <= k < remaining@.len() implies vs2[i].0
                    != entry_views(remaining@)[k].0 by {
                    assert(entry_views(rem_before)[k] == entry_views(remaining@)[k]);
                    if i < jj {
                        assert(vs2[i] == vs[i]);
                    } else if i > jj {
                        assert(vs2[i] == vs[i - 1]);
                    } else {
                        assert(vs2[i].0 == e.key@);
                        assert(entry_views(rem_before)[rem_before.len() - 1] == e@);
                    }
                }
            }
        }
        proof {
            assert(entry_views(remaining@) =~= Seq::<(Seq<u8>, Stored)>::empty());
            assert(entry_views(out@).to_multiset().add(entry_views(remaining@).to_multiset())
                =~= entry_views(out@).to_multiset());
            // Each sorted entry is one of the table's entries, so it still
            // tracks its key's observed readings.
            assert forall|i: int| 0 <= i < entry_views(out@).len() implies (#[trigger] entry_views(
                out@,
            )[i]).1.tracks(key_values(t0.observed(), entry_views(out@)[i].0)) by {
                let p = entry_views(out@)[i];
                assert(entry_views(out@).contains(p));
                assert(entry_views(out@).to_multiset().count(p) > 0);
                assert(t0@.to_multiset().count(p) > 0);
                assert(t0@.contains(p));
                let m = choose|m: int| 0 <= m < t0@.len() && t0@[m] == p;
                assert(t0@[m].1.tracks(key_values(t0.observed(), t0@[m].0)));
            }
        }
        out
    }
}

/// A key's minimum, maximum and count in the table do not depend on the
/// order in which readings arrived: two tables whose histories hold the
/// same readings for that key — the same multiset, in any arrival order
/// and however interleaved with other keys — agree on all three. Only the
/// caller-accumulated `sum` may differ, by accumulation order.
pub proof fn lemma_table_order_independent(
    t1: AggregateTable,
    t2: AggregateTable,
    i1: int,
    i2: int,
)
    requires
        t1.wf(),
        t2.wf(),
        0 <= i1 < t1@.len(),
        0 <= i2 < t2@.len(),
        t1@[i1].0 == t2@[i2].0,
        key_values(t1.observed(), t1@[i1].0).to_multiset() == key_values(
            t2.observed(),
            t2@[i2].0,
        ).to_multiset(),
    ensures
        t1@[i1].1.min == t2@[i2].1.min,
        t1@[i1].1.max == t2@[i2].1.max,
        t1@[i1].1.count == t2@[i2].1.count,
{
    let vs1 = key_values(t1.observed(), t1@[i1].0);
    let vs2 = key_values(t2.observed(), t2@[i2].0);
    assert(t1@[i1].1.tracks(vs1));
    assert(t2@[i2].1.tracks(vs2));
    lemma_stats_order_independent(vs1, vs2);
}

/// The sorted summary is unique: two strictly key-sorted arrangements of
/// the same entries are equal, element for element. Together with the
/// contract of [`AggregateTable::into_sorted`] this makes the summary a
/// function of the table's contents alone — repeating the sort, or sorting
/// after any reordering of the table, yields the identical sequence, and
/// with it identical rendered output.
pub proof fn lemma_sorted_summary_unique(s1: Seq<(Seq<u8>, Stored)>, s2: Seq<(Seq<u8>, Stored)>)
    requires
        sorted_strictly(s1),
        sorted_strictly(s2),
        s1.to_multiset() == s2.to_multiset(),
    ensures
        s1 == s2,
    decreases s1.len(),
{
    broadcast use group_to_multiset_ensures;

    assert(s1.len() == s1.to_multiset().len());
    assert(s2.len() == s2.to_multiset().len());
    if s1.len() == 0 {
        assert(s1 =~= s2);
    } else {
        let e1 = s1.last();
        let e2 = s2.last();
        assert(s1.contains(e1));
        assert(s2.contains(e2));
        assert(s1.to_multiset().count(e2) > 0);
        assert(s1.contains(e2));
        assert(s2.to_multiset().count(e1) > 0);
        assert(s2.contains(e1));
        let i = choose|i: int| 0 <= i < s1.len() && s1[i] == e2;
        let j = choose|j: int| 0 <= j < s2.len() && s2[j] == e1;
        if i < s1.len() - 1 && j < s2.len() - 1 {
            assert(lex_lt(e2.0, e1.0));
            assert(lex_lt(e1.0, e2.0));
            lemma_lex_lt_transitive(e1.0, e2.0, e1.0);
            lemma_lex_lt_irreflexive(e1.0);
        }
        assert(e1 == e2);
        let t1 = s1.drop_last();
        let t2 = s2.drop_last();
        assert(t1 =~= s1.remove(s1.len() - 1));
        assert(t2 =~= s2.remove(s2.len() - 1));
        assert(t1.to_multiset() == s1.to_multiset().remove(e1));
        assert(t2.to_multiset() == s2.to_multiset().remove(e1));
        assert(sorted_strictly(t1));
        assert(sorted_strictly(t2));
        lemma_sorted_summary_unique(t1, t2);
        assert(s1 =~= t1.push(e1));
        assert(s2 =~= t2.push(e1));
    }
}

/// Strictly ascending keys are in particular pairwise distinct.
pub proof fn lemma_sorted_keys_distinct(s: Seq<(Seq<u8>, Stored)>)
    requires
        sorted_strictly(s),
    ensures
        distinct_keys(s),
{
    assert forall|i: int, j: int| 0 <= i < j < s.len() implies s[i].0 != s[j].0 by {
        assert(lex_lt(s[i].0, s[j].0));
        lemma_lex_lt_irreflexive(s[i].0);
    }
}

} // verus!
