//! Byte-wise lexicographic order on keys, and sorted extraction of a table's
//! entries. Keys are opaque byte strings: the order is raw byte order, never
//! locale-aware.

use vstd::prelude::*;

use crate::record::{stat_wf, Record, Stat};
use crate::table::{distinct_keys, lemma_pairs_map_dom, lemma_pairs_map_index, pair_views, pairs_map, Table};

verus! {

/// Strict lexicographic order by raw byte value; a proper prefix sorts first.
pub open spec fn lex_lt(a: Seq<u8>, b: Seq<u8>) -> bool
    decreases a.len(),
{
    if b.len() == 0 {
        false
    } else if a.len() == 0 {
        true
    } else if a[0] < b[0] {
        true
    } else if a[0] > b[0] {
        false
    } else {
        lex_lt(a.skip(1), b.skip(1))
    }
}

/// The order is irreflexive and asymmetric.
pub proof fn lemma_lex_asym(a: Seq<u8>, b: Seq<u8>)
    requires
        lex_lt(a, b),
    ensures
        !lex_lt(b, a),
        a != b,
    decreases a.len(),
{
    if b.len() == 0 {
    } else if a.len() == 0 {
    } else if a[0] == b[0] {
        lemma_lex_asym(a.skip(1), b.skip(1));
        assert(a != b) by {
            if a == b {
                assert(a.skip(1) == b.skip(1));
            }
        }
    }
}

/// Any two distinct keys are ordered one way or the other.
pub proof fn lemma_lex_total(a: Seq<u8>, b: Seq<u8>)
    requires
        a != b,
    ensures
        lex_lt(a, b) || lex_lt(b, a),
    decreases a.len(),
{
    if a.len() == 0 {
        assert(b.len() != 0) by {
            if b.len() == 0 {
                assert(a =~= b);
            }
        }
    } else if b.len() == 0 {
    } else if a[0] == b[0] {
        assert(a.skip(1) != b.skip(1)) by {
            if a.skip(1) == b.skip(1) {
                assert(a.skip(1).len() == a.len() - 1);
                assert(b.skip(1).len() == b.len() - 1);
                assert(a.len() == b.len());
                assert forall|j: int| 0 <= j < a.len() implies a[j] == b[j] by {
                    if j > 0 {
                        assert(a[j] == a.skip(1)[j - 1]);
                        assert(b[j] == b.skip(1)[j - 1]);
                    }
                }
                assert(a =~= b);
            }
        }
        lemma_lex_total(a.skip(1), b.skip(1));
    }
}

/// No key sorts below itself.
pub proof fn lemma_lex_irrefl(a: Seq<u8>)
    ensures
        !lex_lt(a, a),
    decreases a.len(),
{
    if a.len() > 0 {
        lemma_lex_irrefl(a.skip(1));
    }
}

/// The order is transitive.
pub proof fn lemma_lex_trans(a: Seq<u8>, b: Seq<u8>, c: Seq<u8>)
    requires
        lex_lt(a, b),
        lex_lt(b, c),
    ensures
        lex_lt(a, c),
    decreases a.len(),
{
    if b.len() == 0 {
    } else if c.len() == 0 {
    } else if a.len() == 0 {
    } else {
        if a[0] == b[0] && b[0] == c[0] {
            lemma_lex_trans(a.skip(1), b.skip(1), c.skip(1));
        }
    }
}

/// Executable comparison agreeing with `lex_lt`.
pub fn lex_less(a: &Vec<u8>, b: &Vec<u8>) -> (r: bool)
    ensures
        r == lex_lt(a@, b@),
{
    let mut i: usize = 0;
    proof {
        assert(a@.skip(0) =~= a@);
        assert(b@.skip(0) =~= b@);
    }
    while i < a.len() && i < b.len()
        invariant
            i <= a@.len(),
            i <= b@.len(),
            forall|j: int| 0 <= j < i ==> a@[j] == b@[j],
            lex_lt(a@, b@) == lex_lt(a@.skip(i as int), b@.skip(i as int)),
        decreases a@.len() - i,
    {
        let ghost sa = a@.skip(i as int);
        let ghost sb = b@.skip(i as int);
        proof {
            assert(sa[0] == a@[i as int]);
            assert(sb[0] == b@[i as int]);
        }
        if a[i] < b[i] {
            return true;
        }
        if a[i] > b[i] {
            return false;
        }
        proof {
            assert(a@.skip(i as int).skip(1) =~= a@.skip(i as int + 1));
            assert(b@.skip(i as int).skip(1) =~= b@.skip(i as int + 1));
        }
        i = i + 1;
    }
    proof {
        if i == a@.len() {
            assert(a@.skip(i as int).len() == 0);
            if i < b@.len() {
                assert(b@.skip(i as int).len() > 0);
            } else {
                assert(b@.skip(i as int).len() == 0);
            }
        } else {
            assert(i == b@.len());
            assert(b@.skip(i as int).len() == 0);
        }
    }
    a.len() < b.len()
}

/// A pair sequence sorted strictly ascending by key.
pub open spec fn sorted_by_key(ps: Seq<(Seq<u8>, Stat)>) -> bool {
    forall|i: int, j: int|
        0 <= i < j < ps.len() ==> lex_lt((#[trigger] ps[i]).0, (#[trigger] ps[j]).0)
}

/// Consume a table and hand its entries out in ascending byte order of key.
///
/// The result carries exactly the table's model: distinct keys, each bearing
/// its aggregate, sorted by `lex_lt`.
pub fn sorted_entries(t: Table) -> (r: Vec<(Vec<u8>, Record)>)
    requires
        t.wf(),
    ensures
        sorted_by_key(pair_views(r@)),
        distinct_keys(pair_views(r@)),
        pairs_map(pair_views(r@)) == t@,
        forall|i: int| 0 <= i < r@.len() ==> stat_wf((#[trigger] r@[i]).1@),
{
    let ghost target = t@;
    let mut rest = t;
    let mut out: Vec<(Vec<u8>, Record)> = Vec::new();
    proof {
        assert(pairs_map(pair_views(out@)).union_prefer_right(pairs_map(pair_views(rest.entries@)))
            =~= target);
    }
    while rest.entries.len() > 0
        invariant
            rest.wf(),
            distinct_keys(pair_views(out@)),
            sorted_by_key(pair_views(out@)),
            forall|i: int| 0 <= i < out@.len() ==> stat_wf((#[trigger] out@[i]).1@),
            forall|i: int, j: int|
                0 <= i < out@.len() && 0 <= j < rest.entries@.len() ==> lex_lt(
                    (#[trigger] out@[i]).0@,
                    (#[trigger] rest.entries@[j]).0@,
                ),
            pairs_map(pair_views(out@)).union_prefer_right(
                pairs_map(pair_views(rest.entries@)),
            ) == target,
        decreases rest.entries@.len(),
    {
        // Find the least remaining key.
        let mut m: usize = 0;
        let mut j: usize = 1;
        proof {
            lemma_lex_irrefl(rest.entries@[0].0@);
        }
        while j < rest.entries.len()
            invariant
                j <= rest.entries@.len(),
                m < j,
                1 <= j,
                forall|tt: int|
                    0 <= tt < j ==> !lex_lt(
                        (#[trigger] rest.entries@[tt]).0@,
                        rest.entries@[m as int].0@,
                    ),
            decreases rest.entries@.len() - j,
        {
            if lex_less(&rest.entries[j].0, &rest.entries[m].0) {
                proof {
                    assert forall|tt: int| 0 <= tt < j + 1 implies !lex_lt(
                        (#[trigger] rest.entries@[tt]).0@,
                        rest.entries@[j as int].0@,
                    ) by {
                        if tt < j {
                            if lex_lt(rest.entries@[tt].0@, rest.entries@[j as int].0@) {
                                lemma_lex_trans(
                                    rest.entries@[tt].0@,
                                    rest.entries@[j as int].0@,
                                    rest.entries@[m as int].0@,
                                );
                            }
                        } else {
                            lemma_lex_irrefl(rest.entries@[j as int].0@);
                        }
                    }
                }
                m = j;
            }
            j = j + 1;
        }
        let ghost es = rest.entries@;
        let ghost ps = pair_views(es);
        let ghost k = es[m as int].0@;
        let ghost s = es[m as int].1@;
        proof {
            // The minimum is strictly below every other remaining key.
            assert forall|tt: int| 0 <= tt < es.len() && tt != m implies lex_lt(
                k,
                (#[trigger] es[tt]).0@,
            ) by {
                assert(ps[tt].0 == es[tt].0@);
                assert(ps[m as int].0 == k);
                assert(es[tt].0@ != k);
                lemma_lex_total(k, es[tt].0@);
                assert(!lex_lt(es[tt].0@, k));
            }
            lemma_pairs_map_index(ps, m as int);
            crate::table::lemma_pairs_map_remove(ps, m as int);
            lemma_pairs_map_dom(pair_views(out@), k);
            assert(!pairs_map(pair_views(out@)).dom().contains(k)) by {
                if pairs_map(pair_views(out@)).dom().contains(k) {
                    let ii = choose|ii: int|
                        0 <= ii < pair_views(out@).len() && (#[trigger] pair_views(out@)[ii]).0
                            == k;
                    assert(out@[ii].0@ == k);
                    assert(lex_lt(out@[ii].0@, es[m as int].0@));
                    lemma_lex_asym(k, k);
                }
            }
        }
        let ghost out0 = out@;
        let entry = rest.entries.remove(m);
        out.push(entry);
        proof {
            assert(out@ =~= out0.push((entry.0, entry.1)));
            assert(pair_views(out@) =~= pair_views(out0).push((k, s)));
            assert(pair_views(out@).drop_last() =~= pair_views(out0));
            assert(pair_views(rest.entries@) =~= ps.remove(m as int)) by {
                assert forall|x: int| 0 <= x < rest.entries@.len() implies pair_views(
                    rest.entries@,
                )[x] == ps.remove(m as int)[x] by {
                    let px = if x < m { x } else { x + 1 };
                    assert(rest.entries@[x] == es.remove(m as int)[x]);
                    assert(es.remove(m as int)[x] == es[px]);
                    assert(ps.remove(m as int)[x] == ps[px]);
                }
            }
            // Distinctness, order and well-formedness of the extended output.
            assert forall|x: int, y: int|
                0 <= x < y < pair_views(out@).len() implies lex_lt(
                (#[trigger] pair_views(out@)[x]).0,
                (#[trigger] pair_views(out@)[y]).0,
            ) by {
                assert(pair_views(out@)[x] == pair_views(out0).push((k, s))[x]);
                assert(pair_views(out@)[y] == pair_views(out0).push((k, s))[y]);
                if y == pair_views(out@).len() - 1 {
                    assert(pair_views(out0)[x].0 == out0[x].0@);
                    assert(lex_lt(out0[x].0@, es[m as int].0@));
                }
            }
            assert(distinct_keys(pair_views(out@))) by {
                assert forall|x: int, y: int|
                    0 <= x < y < pair_views(out@).len() implies (#[trigger] pair_views(out@)[x]).0
                    != (#[trigger] pair_views(out@)[y]).0 by {
                    assert(lex_lt(pair_views(out@)[x].0, pair_views(out@)[y].0));
                    lemma_lex_asym(pair_views(out@)[x].0, pair_views(out@)[y].0);
                }
            }
            assert(pairs_map(pair_views(out@)) == pairs_map(pair_views(out0)).insert(k, s));
            assert(pairs_map(pair_views(out@)).union_prefer_right(
                pairs_map(pair_views(rest.entries@)),
            ) =~= target);
            // Remaining entries keep well-formedness and stay above all
            // output keys.
            assert(distinct_keys(pair_views(rest.entries@))) by {
                assert forall|x: int, y: int|
                    0 <= x < y < pair_views(rest.entries@).len() implies (#[trigger] pair_views(
                    rest.entries@,
                )[x]).0 != (#[trigger] pair_views(rest.entries@)[y]).0 by {
                    let px = if x < m { x } else { x + 1 };
                    let py = if y < m { y } else { y + 1 };
                    assert(pair_views(rest.entries@)[x] == ps[px]);
                    assert(pair_views(rest.entries@)[y] == ps[py]);
                }
            }
            assert forall|x: int| 0 <= x < rest.entries@.len() implies stat_wf(
                (#[trigger] rest.entries@[x]).1@,
            ) by {
                let px = if x < m { x } else { x + 1 };
                assert(rest.entries@[x] == es.remove(m as int)[x]);
                assert(es.remove(m as int)[x] == es[px]);
                assert(stat_wf(es[px].1@));
            }
            assert forall|x: int, y: int|
                0 <= x < out@.len() && 0 <= y < rest.entries@.len() implies lex_lt(
                (#[trigger] out@[x]).0@,
                (#[trigger] rest.entries@[y]).0@,
            ) by {
                let py = if y < m { y } else { y + 1 };
                assert(rest.entries@[y] == es.remove(m as int)[y]);
                assert(es.remove(m as int)[y] == es[py]);
                if x < out@.len() - 1 {
                    assert(out@[x] == out0[x]);
                    assert(lex_lt(out0[x].0@, es[py].0@));
                } else {
                    assert(out@[x].0@ == k);
                    assert(py != m);
                    assert(lex_lt(k, es[py].0@));
                }
            }
        }
    }
    proof {
        assert(pair_views(rest.entries@).len() == 0);
        assert(pairs_map(pair_views(out@)).union_prefer_right(
            pairs_map(pair_views(rest.entries@)),
        ) =~= pairs_map(pair_views(out@)));
    }
    out
}

} // verus!
