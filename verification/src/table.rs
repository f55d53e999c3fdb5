//! Aggregation tables: key → running statistics.
//!
//! The mathematical model of every table is a `Map<Seq<u8>, Stat>`. A table
//! is built by folding observations in with `spec_observe`; two tables from
//! different partitions are combined with `merge_maps`, which is proved to
//! agree with folding the concatenated observation sequence — the heart of
//! the claim that any chunking of the input yields the same result.

use vstd::prelude::*;

use crate::record::{add_stat, combine_stat, stat_wf, unit_stat, value_limit, Record, Stat};
use crate::scan::Obs;

verus! {

/// Fold one observation into a table: open the key with its unit aggregate,
/// or combine with what the key already holds.
pub open spec fn spec_observe(m: Map<Seq<u8>, Stat>, k: Seq<u8>, v: int) -> Map<Seq<u8>, Stat> {
    if m.dom().contains(k) {
        m.insert(k, add_stat(m[k], v))
    } else {
        m.insert(k, unit_stat(v))
    }
}

/// The table of a sequence of observations, folded in order.
pub open spec fn table_of_obs(o: Seq<Obs>) -> Map<Seq<u8>, Stat>
    decreases o.len(),
{
    if o.len() == 0 {
        Map::empty()
    } else {
        spec_observe(table_of_obs(o.drop_last()), o.last().key, o.last().val)
    }
}

/// The table of a byte region: the fold of its observations.
pub open spec fn table_of(s: Seq<u8>) -> Map<Seq<u8>, Stat> {
    table_of_obs(crate::scan::obs_of(s))
}

/// Merge two tables: the union of their keys, with the aggregates of keys
/// they share combined.
pub open spec fn merge_maps(a: Map<Seq<u8>, Stat>, b: Map<Seq<u8>, Stat>) -> Map<Seq<u8>, Stat> {
    Map::new(
        |k: Seq<u8>| a.dom().contains(k) || b.dom().contains(k),
        |k: Seq<u8>|
            if a.dom().contains(k) && b.dom().contains(k) {
                combine_stat(a[k], b[k])
            } else if a.dom().contains(k) {
                a[k]
            } else {
                b[k]
            },
    )
}

/// The set of keys that appear among the observations.
pub open spec fn obs_keys(o: Seq<Obs>) -> Set<Seq<u8>> {
    Set::new(|k: Seq<u8>| exists|i: int| 0 <= i < o.len() && (#[trigger] o[i]).key == k)
}

/// How many observations bear key `k`.
pub open spec fn count_matching(o: Seq<Obs>, k: Seq<u8>) -> int
    decreases o.len(),
{
    if o.len() == 0 {
        0
    } else {
        count_matching(o.drop_last(), k) + if o.last().key == k {
            1int
        } else {
            0int
        }
    }
}

/// No more observations match a key than there are observations.
pub proof fn lemma_count_matching_le_len(o: Seq<Obs>, k: Seq<u8>)
    ensures
        0 <= count_matching(o, k) <= o.len(),
    decreases o.len(),
{
    if o.len() > 0 {
        lemma_count_matching_le_len(o.drop_last(), k);
    }
}

/// The keys of a table are exactly the keys observed.
pub proof fn lemma_table_of_obs_dom(o: Seq<Obs>)
    ensures
        table_of_obs(o).dom() == obs_keys(o),
    decreases o.len(),
{
    if o.len() == 0 {
        assert(table_of_obs(o).dom() =~= obs_keys(o));
    } else {
        let o1 = o.drop_last();
        lemma_table_of_obs_dom(o1);
        assert forall|k: Seq<u8>| obs_keys(o).contains(k) implies table_of_obs(
            o,
        ).dom().contains(k) by {
            let i = choose|i: int| 0 <= i < o.len() && (#[trigger] o[i]).key == k;
            if i < o.len() - 1 {
                assert(o1[i] == o[i]);
                assert(obs_keys(o1).contains(k));
            }
        }
        assert forall|k: Seq<u8>| table_of_obs(o).dom().contains(k) implies obs_keys(o).contains(
            k,
        ) by {
            if k == o.last().key {
                assert(o[o.len() - 1].key == k);
            } else {
                assert(obs_keys(o1).contains(k));
                let i = choose|i: int| 0 <= i < o1.len() && (#[trigger] o1[i]).key == k;
                assert(o[i] == o1[i]);
            }
        }
        assert(table_of_obs(o).dom() =~= obs_keys(o));
    }
}

/// Per-key bookkeeping of a fold: every key present holds a well-formed
/// aggregate whose `count` is the number of matching observations, whose
/// extremes bound every matching value and are attained by one, as long as
/// every observed value lies within the fixed-point range.
pub proof fn lemma_table_of_obs_stats(o: Seq<Obs>)
    requires
        forall|i: int|
            0 <= i < o.len() ==> -value_limit() <= (#[trigger] o[i]).val <= value_limit(),
    ensures
        forall|k: Seq<u8>| #[trigger]
            table_of_obs(o).dom().contains(k) ==> {
                &&& table_of_obs(o)[k].count == count_matching(o, k)
                &&& stat_wf(table_of_obs(o)[k])
                &&& forall|i: int|
                    0 <= i < o.len() && (#[trigger] o[i]).key == k ==> table_of_obs(o)[k].min
                        <= o[i].val <= table_of_obs(o)[k].max
                &&& exists|i: int|
                    0 <= i < o.len() && (#[trigger] o[i]).key == k && o[i].val == table_of_obs(
                        o,
                    )[k].min
                &&& exists|i: int|
                    0 <= i < o.len() && (#[trigger] o[i]).key == k && o[i].val == table_of_obs(
                        o,
                    )[k].max
            },
    decreases o.len(),
{
    if o.len() > 0 {
        let o1 = o.drop_last();
        let t1 = table_of_obs(o1);
        let t = table_of_obs(o);
        let last = o.last();
        lemma_table_of_obs_stats(o1);
        lemma_table_of_obs_dom(o1);
        assert forall|k: Seq<u8>| #[trigger] t.dom().contains(k) implies {
            &&& t[k].count == count_matching(o, k)
            &&& stat_wf(t[k])
            &&& forall|i: int|
                0 <= i < o.len() && (#[trigger] o[i]).key == k ==> t[k].min <= o[i].val <= t[k].max
            &&& exists|i: int|
                0 <= i < o.len() && (#[trigger] o[i]).key == k && o[i].val == t[k].min
            &&& exists|i: int|
                0 <= i < o.len() && (#[trigger] o[i]).key == k && o[i].val == t[k].max
        } by {
            assert(o[o.len() - 1] == last);
            assert(forall|i: int| 0 <= i < o1.len() ==> o1[i] == #[trigger] o[i]);
            if k == last.key {
                assert(-value_limit() <= last.val <= value_limit());
                crate::record::lemma_unit_stat_wf(last.val);
                if t1.dom().contains(k) {
                    crate::record::lemma_combine_stat_wf(t1[k], unit_stat(last.val));
                    assert(t[k] == add_stat(t1[k], last.val));
                    assert(count_matching(o1, k) == t1[k].count);
                    assert(stat_wf(t[k]));
                    assert(t[k].count == count_matching(o, k));
                    assert forall|i: int| 0 <= i < o.len() && (#[trigger] o[i]).key == k implies t[k].min <= o[i].val <= t[k].max by {
                        if i < o.len() - 1 {
                            assert(o1[i] == o[i]);
                            assert(t1[k].min <= o1[i].val <= t1[k].max);
                        }
                    }
                    let imin = choose|i: int|
                        0 <= i < o1.len() && (#[trigger] o1[i]).key == k && o1[i].val == t1[k].min;
                    let imax = choose|i: int|
                        0 <= i < o1.len() && (#[trigger] o1[i]).key == k && o1[i].val == t1[k].max;
                    if t[k].min == t1[k].min {
                        assert(o[imin].key == k && o[imin].val == t[k].min);
                    } else {
                        assert(o[o.len() - 1].key == k && o[o.len() - 1].val == t[k].min);
                    }
                    if t[k].max == t1[k].max {
                        assert(o[imax].key == k && o[imax].val == t[k].max);
                    } else {
                        assert(o[o.len() - 1].key == k && o[o.len() - 1].val == t[k].max);
                    }
                } else {
                    assert(t[k] == unit_stat(last.val));
                    lemma_count_matching_none(o1, k);
                    assert(t[k].count == count_matching(o, k));
                    assert forall|i: int| 0 <= i < o.len() && (#[trigger] o[i]).key == k implies t[k].min <= o[i].val <= t[k].max by {
                        if i < o.len() - 1 {
                            assert(o1[i] == o[i]);
                            assert(obs_keys(o1).contains(k));
                            assert(false);
                        }
                    }
                    assert(o[o.len() - 1].key == k && o[o.len() - 1].val == t[k].min);
                }
            } else {
                assert(t[k] == t1[k]);
                assert(t1.dom().contains(k));
                assert(count_matching(o, k) == count_matching(o1, k));
                assert forall|i: int| 0 <= i < o.len() && (#[trigger] o[i]).key == k implies t[k].min <= o[i].val <= t[k].max by {
                    assert(i < o.len() - 1);
                    assert(o1[i] == o[i]);
                    assert(t1[k].min <= o1[i].val <= t1[k].max);
                }
                let imin = choose|i: int|
                    0 <= i < o1.len() && (#[trigger] o1[i]).key == k && o1[i].val == t1[k].min;
                let imax = choose|i: int|
                    0 <= i < o1.len() && (#[trigger] o1[i]).key == k && o1[i].val == t1[k].max;
                assert(o[imin].key == k && o[imin].val == t[k].min);
                assert(o[imax].key == k && o[imax].val == t[k].max);
            }
        }
    }
}

/// A key absent from the table has no matching observation.
proof fn lemma_count_matching_none(o: Seq<Obs>, k: Seq<u8>)
    requires
        !table_of_obs(o).dom().contains(k),
    ensures
        count_matching(o, k) == 0,
    decreases o.len(),
{
    if o.len() > 0 {
        lemma_count_matching_none(o.drop_last(), k);
    }
}

/// Folding an observation into a merged table is merging with the right-hand
/// table after folding it there.
proof fn lemma_observe_merge(a: Map<Seq<u8>, Stat>, b: Map<Seq<u8>, Stat>, k: Seq<u8>, v: int)
    ensures
        spec_observe(merge_maps(a, b), k, v) == merge_maps(a, spec_observe(b, k, v)),
{
    if a.dom().contains(k) && b.dom().contains(k) {
        crate::record::lemma_combine_stat_assoc(a[k], b[k], unit_stat(v));
    }
    assert(spec_observe(merge_maps(a, b), k, v) =~= merge_maps(a, spec_observe(b, k, v)));
}

/// The table of concatenated observation sequences is the merge of their
/// tables: folding is associative in the partition structure.
pub proof fn lemma_table_of_obs_concat(o1: Seq<Obs>, o2: Seq<Obs>)
    ensures
        table_of_obs(o1 + o2) == merge_maps(table_of_obs(o1), table_of_obs(o2)),
    decreases o2.len(),
{
    if o2.len() == 0 {
        assert(o1 + o2 =~= o1);
        assert(merge_maps(table_of_obs(o1), table_of_obs(o2)) =~= table_of_obs(o1));
    } else {
        let o2p = o2.drop_last();
        let last = o2.last();
        lemma_table_of_obs_concat(o1, o2p);
        assert((o1 + o2).drop_last() =~= o1 + o2p);
        assert((o1 + o2).last() == last);
        lemma_observe_merge(table_of_obs(o1), table_of_obs(o2p), last.key, last.val);
    }
}

/// The views of a vector of (key, record) entries.
pub open spec fn pair_views(es: Seq<(Vec<u8>, Record)>) -> Seq<(Seq<u8>, Stat)> {
    es.map_values(|e: (Vec<u8>, Record)| (e.0@, e.1@))
}

/// The association map of a sequence of (key, aggregate) pairs.
pub open spec fn pairs_map(ps: Seq<(Seq<u8>, Stat)>) -> Map<Seq<u8>, Stat>
    decreases ps.len(),
{
    if ps.len() == 0 {
        Map::empty()
    } else {
        pairs_map(ps.drop_last()).insert(ps.last().0, ps.last().1)
    }
}

/// No two pairs share a key.
pub open spec fn distinct_keys(ps: Seq<(Seq<u8>, Stat)>) -> bool {
    forall|i: int, j: int| 0 <= i < j < ps.len() ==> (#[trigger] ps[i]).0 != (#[trigger] ps[j]).0
}

/// A key is in the association map exactly when some pair bears it.
pub proof fn lemma_pairs_map_dom(ps: Seq<(Seq<u8>, Stat)>, k: Seq<u8>)
    ensures
        pairs_map(ps).dom().contains(k) <==> exists|i: int|
            0 <= i < ps.len() && (#[trigger] ps[i]).0 == k,
    decreases ps.len(),
{
    if ps.len() > 0 {
        let ps1 = ps.drop_last();
        lemma_pairs_map_dom(ps1, k);
        if pairs_map(ps).dom().contains(k) {
            if k == ps.last().0 {
                assert(ps[ps.len() - 1].0 == k);
            } else {
                let i = choose|i: int| 0 <= i < ps1.len() && (#[trigger] ps1[i]).0 == k;
                assert(ps[i].0 == k);
            }
        }
        if exists|i: int| 0 <= i < ps.len() && (#[trigger] ps[i]).0 == k {
            let i = choose|i: int| 0 <= i < ps.len() && (#[trigger] ps[i]).0 == k;
            if i < ps.len() - 1 {
                assert(ps1[i].0 == k);
            }
        }
    }
}

/// With distinct keys, the association map holds each pair's aggregate at its
/// key.
pub proof fn lemma_pairs_map_index(ps: Seq<(Seq<u8>, Stat)>, i: int)
    requires
        distinct_keys(ps),
        0 <= i < ps.len(),
    ensures
        pairs_map(ps).dom().contains(ps[i].0),
        pairs_map(ps)[ps[i].0] == ps[i].1,
    decreases ps.len(),
{
    if i < ps.len() - 1 {
        let ps1 = ps.drop_last();
        assert(ps1[i] == ps[i]);
        lemma_pairs_map_index(ps1, i);
        assert(ps[i].0 != ps.last().0);
    }
}

/// Replacing the aggregate of one pair replaces it in the association map.
pub proof fn lemma_pairs_map_update(ps: Seq<(Seq<u8>, Stat)>, i: int, p: (Seq<u8>, Stat))
    requires
        distinct_keys(ps),
        0 <= i < ps.len(),
        p.0 == ps[i].0,
    ensures
        pairs_map(ps.update(i, p)) == pairs_map(ps).insert(p.0, p.1),
    decreases ps.len(),
{
    let u = ps.update(i, p);
    if i == ps.len() - 1 {
        assert(u.drop_last() =~= ps.drop_last());
        assert(u.last() == p);
        assert(pairs_map(ps.drop_last()).insert(p.0, p.1) =~= pairs_map(ps).insert(p.0, p.1));
    } else {
        let ps1 = ps.drop_last();
        assert(ps1[i] == ps[i]);
        lemma_pairs_map_update(ps1, i, p);
        assert(u.drop_last() =~= ps1.update(i, p));
        assert(u.last() == ps.last());
        assert(p.0 != ps.last().0);
        assert(pairs_map(ps1).insert(p.0, p.1).insert(ps.last().0, ps.last().1) =~= pairs_map(
            ps,
        ).insert(p.0, p.1));
    }
}

/// Removing one pair removes exactly its key from the association map.
pub proof fn lemma_pairs_map_remove(ps: Seq<(Seq<u8>, Stat)>, i: int)
    requires
        distinct_keys(ps),
        0 <= i < ps.len(),
    ensures
        pairs_map(ps.remove(i)) == pairs_map(ps).remove(ps[i].0),
    decreases ps.len(),
{
    let u = ps.remove(i);
    let k = ps[i].0;
    if i == ps.len() - 1 {
        assert(u =~= ps.drop_last());
        lemma_pairs_map_dom(ps.drop_last(), k);
        assert forall|t: int| 0 <= t < ps.drop_last().len() implies (#[trigger] ps.drop_last()[t]).0
            != k by {
            assert(ps.drop_last()[t] == ps[t]);
        }
        assert(!pairs_map(ps.drop_last()).dom().contains(k));
        assert(pairs_map(u) =~= pairs_map(ps).remove(k));
    } else {
        let ps1 = ps.drop_last();
        assert(ps1[i] == ps[i]);
        lemma_pairs_map_remove(ps1, i);
        assert(u.drop_last() =~= ps1.remove(i));
        assert(u.last() == ps.last());
        assert(k != ps.last().0);
        assert(pairs_map(ps1).remove(k).insert(ps.last().0, ps.last().1) =~= pairs_map(ps).remove(
            k,
        ));
    }
}

/// An executable partition table: key → running statistics, keys pairwise
/// distinct. Its model is the association map of its entries.
pub struct Table {
    pub entries: Vec<(Vec<u8>, Record)>,
}

impl View for Table {
    type V = Map<Seq<u8>, Stat>;

    open spec fn view(&self) -> Map<Seq<u8>, Stat> {
        pairs_map(pair_views(self.entries@))
    }
}

/// A verified byte-for-byte copy of a key.
fn copy_key(src: &Vec<u8>) -> (r: Vec<u8>)
    ensures
        r@ == src@,
{
    let mut r: Vec<u8> = Vec::new();
    let mut i: usize = 0;
    while i < src.len()
        invariant
            i <= src.len(),
            r@ =~= src@.take(i as int),
        decreases src.len() - i,
    {
        r.push(src[i]);
        i = i + 1;
    }
    assert(r@ =~= src@);
    r
}

/// Byte-wise equality of two keys.
fn bytes_eq(a: &Vec<u8>, b: &Vec<u8>) -> (r: bool)
    ensures
        r == (a@ == b@),
{
    if a.len() != b.len() {
        assert(a@ != b@) by {
            if a@ == b@ {
                assert(a@.len() == b@.len());
            }
        }
        return false;
    }
    let mut i: usize = 0;
    while i < a.len()
        invariant
            i <= a.len(),
            a@.len() == b@.len(),
            forall|j: int| 0 <= j < i ==> a@[j] == b@[j],
        decreases a.len() - i,
    {
        if a[i] != b[i] {
            assert(a@ != b@) by {
                if a@ == b@ {
                    assert(a@[i as int] == b@[i as int]);
                }
            }
            return false;
        }
        i = i + 1;
    }
    assert(a@ =~= b@);
    true
}

impl Table {
    /// Distinct keys, every aggregate well-formed.
    pub open spec fn wf(self) -> bool {
        &&& distinct_keys(pair_views(self.entries@))
        &&& forall|i: int|
            0 <= i < self.entries@.len() ==> stat_wf((#[trigger] self.entries@[i]).1@)
    }

    /// The empty table.
    pub fn new() -> (t: Table)
        ensures
            t.wf(),
            t@ == Map::<Seq<u8>, Stat>::empty(),
            t.entries@.len() == 0,
    {
        Table { entries: Vec::new() }
    }

    /// The index of the entry bearing `key`, if any.
    fn find(&self, key: &Vec<u8>) -> (r: Option<usize>)
        ensures
            match r {
                Some(i) => i < self.entries@.len() && self.entries@[i as int].0@ == key@,
                None => forall|j: int|
                    0 <= j < self.entries@.len() ==> (#[trigger] self.entries@[j]).0@ != key@,
            },
    {
        let mut j: usize = 0;
        while j < self.entries.len()
            invariant
                j <= self.entries@.len(),
                forall|t: int| 0 <= t < j ==> (#[trigger] self.entries@[t]).0@ != key@,
            decreases self.entries@.len() - j,
        {
            if bytes_eq(&self.entries[j].0, key) {
                return Some(j);
            }
            j = j + 1;
        }
        None
    }

    /// Fold one observation into the table, exactly as `spec_observe` does.
    pub fn observe(&mut self, key: &Vec<u8>, v: i32)
        requires
            old(self).wf(),
            -value_limit() <= v <= value_limit(),
            forall|i: int|
                0 <= i < old(self).entries@.len() ==> (#[trigger] old(
                    self,
                ).entries@[i]).1@.count < u64::MAX,
        ensures
            final(self).wf(),
            final(self)@ == spec_observe(old(self)@, key@, v as int),
    {
        let ghost ps = pair_views(self.entries@);
        match self.find(key) {
            Some(i) => {
                proof {
                    assert(ps[i as int] == (self.entries@[i as int].0@, self.entries@[i as int].1@));
                    lemma_pairs_map_index(ps, i as int);
                    assert(self@[key@] == self.entries@[i as int].1@);
                    let c = self.entries@[i as int].1@.count;
                    let tot = self.entries@[i as int].1@.total;
                    assert(c < u64::MAX);
                    assert(-(c * value_limit()) - value_limit() <= tot + v <= c * value_limit()
                        + value_limit());
                    assert(c * value_limit() + value_limit() < i128::MAX) by (nonlinear_arith)
                        requires
                            0 <= c < u64::MAX,
                    ;
                }
                let e = &mut self.entries[i];
                e.1.add_temperature(v);
                proof {
                    assert(self.entries@ =~= old(self).entries@.update(
                        i as int,
                        self.entries@[i as int],
                    ));
                    assert(self.entries@[i as int].0@ == key@);
                    assert(self.entries@[i as int].1@ == add_stat(old(self)@[key@], v as int));
                    assert(pair_views(self.entries@) =~= ps.update(
                        i as int,
                        (key@, add_stat(old(self)@[key@], v as int)),
                    ));
                    lemma_pairs_map_update(
                        ps,
                        i as int,
                        (key@, add_stat(old(self)@[key@], v as int)),
                    );
                    assert(ps[i as int].0 == key@);
                    crate::record::lemma_unit_stat_wf(v as int);
                    crate::record::lemma_combine_stat_wf(old(self)@[key@], unit_stat(v as int));
                    assert(distinct_keys(pair_views(self.entries@)));
                }
            },
            None => {
                proof {
                    lemma_pairs_map_dom(ps, key@);
                    assert forall|i: int| 0 <= i < ps.len() implies (#[trigger] ps[i]).0
                        != key@ by {
                        assert(ps[i].0 == self.entries@[i].0@);
                    }
                    assert(!self@.dom().contains(key@));
                }
                let k2 = copy_key(key);
                let r = Record::new(v);
                self.entries.push((k2, r));
                proof {
                    assert(pair_views(self.entries@) =~= ps.push((key@, unit_stat(v as int))));
                    assert(pairs_map(ps.push((key@, unit_stat(v as int)))).dom().contains(key@));
                    assert(ps.push((key@, unit_stat(v as int))).drop_last() =~= ps);
                    crate::record::lemma_unit_stat_wf(v as int);
                    assert(final(self)@ == old(self)@.insert(key@, unit_stat(v as int)));
                    assert(distinct_keys(pair_views(self.entries@)));
                }
            },
        }
    }

    /// Fold another partition's table into this one, exactly as `merge_maps`
    /// does.
    pub fn merge_from(&mut self, other: &Table)
        requires
            old(self).wf(),
            other.wf(),
            forall|k: Seq<u8>| #![auto]
                old(self)@.dom().contains(k) && other@.dom().contains(k) ==> old(self)@[k].count
                    + other@[k].count <= u64::MAX,
        ensures
            final(self).wf(),
            final(self)@ == merge_maps(old(self)@, other@),
    {
        let ghost orig = self@;
        let ghost qs = pair_views(other.entries@);
        let mut j: usize = 0;
        proof {
            assert(merge_maps(orig, pairs_map(qs.take(0))) =~= orig);
        }
        while j < other.entries.len()
            invariant
                j <= other.entries@.len(),
                self.wf(),
                other.wf(),
                qs == pair_views(other.entries@),
                orig == pairs_map(pair_views(old(self).entries@)),
                self@ == merge_maps(orig, pairs_map(qs.take(j as int))),
                forall|k: Seq<u8>| #![auto]
                    orig.dom().contains(k) && other@.dom().contains(k) ==> orig[k].count
                        + other@[k].count <= u64::MAX,
            decreases other.entries@.len() - j,
        {
            let ghost pre = qs.take(j as int);
            let ghost cur = self@;
            let ghost es0 = self.entries@;
            let ghost cs = pair_views(es0);
            let ghost k = other.entries@[j as int].0@;
            let ghost s = other.entries@[j as int].1@;
            proof {
                assert(qs[j as int] == (k, s));
                assert(qs.take(j as int + 1) =~= pre.push((k, s)));
                assert(qs.take(j as int + 1).drop_last() =~= pre);
                assert(pairs_map(qs.take(j as int + 1)) == pairs_map(pre).insert(k, s));
                // `k` appears only once in `other`, so it is not in the prefix.
                assert forall|i: int| 0 <= i < pre.len() implies (#[trigger] pre[i]).0 != k by {
                    assert(pre[i] == qs[i]);
                }
                lemma_pairs_map_dom(pre, k);
                assert(!pairs_map(pre).dom().contains(k));
                lemma_pairs_map_index(qs, j as int);
                assert(other@[k] == s);
                assert(stat_wf(s));
            }
            let okey = &other.entries[j].0;
            let orec = other.entries[j].1;
            match self.find(okey) {
                Some(i) => {
                    proof {
                        assert(cs[i as int] == (k, es0[i as int].1@));
                        lemma_pairs_map_index(cs, i as int);
                        assert(cur[k] == es0[i as int].1@);
                        assert(cur.dom().contains(k));
                        // The key is not in the prefix, so its current
                        // aggregate is the original one.
                        assert(cur[k] == orig[k]);
                        assert(orig.dom().contains(k));
                        lemma_pairs_map_dom(qs, k);
                        assert(other@.dom().contains(k));
                        assert(orig[k].count + s.count <= u64::MAX);
                        assert(stat_wf(cur[k]));
                        let c1 = cur[k].count;
                        let c2 = s.count;
                        let t1 = cur[k].total;
                        let t2 = s.total;
                        assert(-((c1 + c2) * value_limit()) <= t1 + t2 <= (c1 + c2)
                            * value_limit()) by (nonlinear_arith)
                            requires
                                -(c1 * value_limit()) <= t1 <= c1 * value_limit(),
                                -(c2 * value_limit()) <= t2 <= c2 * value_limit(),
                        ;
                        assert((c1 + c2) * value_limit() < i128::MAX) by (nonlinear_arith)
                            requires
                                0 <= c1 + c2 <= u64::MAX,
                        ;
                    }
                    let e = &mut self.entries[i];
                    e.1.merge(&orec);
                    proof {
                        assert(self.entries@ =~= es0.update(i as int, self.entries@[i as int]));
                        assert(self.entries@[i as int].0@ == k);
                        assert(self.entries@[i as int].1@ == combine_stat(cur[k], s));
                        assert(pair_views(self.entries@) =~= cs.update(
                            i as int,
                            (k, combine_stat(cur[k], s)),
                        ));
                        lemma_pairs_map_update(cs, i as int, (k, combine_stat(cur[k], s)));
                        assert(self@ == cur.insert(k, combine_stat(cur[k], s)));
                        crate::record::lemma_combine_stat_wf(cur[k], s);
                        assert(distinct_keys(pair_views(self.entries@)));
                    }
                },
                None => {
                    proof {
                        assert forall|t: int| 0 <= t < cs.len() implies (#[trigger] cs[t]).0
                            != k by {
                            assert(cs[t].0 == es0[t].0@);
                        }
                        lemma_pairs_map_dom(cs, k);
                        assert(!cur.dom().contains(k));
                        assert(!orig.dom().contains(k));
                    }
                    let k2 = copy_key(okey);
                    self.entries.push((k2, orec));
                    proof {
                        assert(pair_views(self.entries@) =~= cs.push((k, s)));
                        assert(cs.push((k, s)).drop_last() =~= cs);
                        assert(self@ == cur.insert(k, s));
                        assert(distinct_keys(pair_views(self.entries@)));
                    }
                },
            }
            proof {
                assert(self@ =~= merge_maps(orig, pairs_map(qs.take(j as int + 1))));
            }
            j = j + 1;
        }
        proof {
            assert(qs.take(other.entries@.len() as int) =~= qs);
        }
    }
}

} // verus!
