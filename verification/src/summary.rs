//! The whole pipeline: plan line-aligned chunks, scan each, merge the
//! partition tables, and render the sorted summary line — with the
//! partition-independence argument that makes the chunking invisible in the
//! output.

use vstd::prelude::*;

use crate::order::{lemma_lex_asym, lex_lt, sorted_by_key, sorted_entries};
use crate::planner::plan_chunks;
use crate::record::Stat;
use crate::render::{output_str, render_entries};
use crate::scan::{
    init_pstate, lemma_run_obs_append, lemma_run_obs_bounds, lemma_run_obs_len, lemma_run_snoc,
    lemma_run_st_append, obs_of, run_st, scan_range, step_st, term_byte, valid,
};
use crate::table::{
    count_matching, lemma_count_matching_le_len, lemma_pairs_map_dom, lemma_pairs_map_index,
    lemma_table_of_obs_concat, lemma_table_of_obs_stats, merge_maps, pair_views, pairs_map,
    table_of, Table,
};
use crate::InputError;

verus! {

/// A well-formed non-empty region ends with a line terminator.
pub proof fn lemma_valid_last_byte(s: Seq<u8>)
    requires
        valid(s),
        s.len() > 0,
    ensures
        s[s.len() - 1] == term_byte(),
{
    let s1 = s.drop_last();
    let b = s.last();
    assert(s =~= s1.push(b));
    lemma_run_snoc(init_pstate(), s1, b);
    match run_st(init_pstate(), s1) {
        None => {},
        Some(m) => {
            assert(step_st(m, b) == Some(init_pstate()));
            if !m.in_value {
                if b != term_byte() && b != crate::scan::sep_byte() {
                    assert(step_st(m, b)->Some_0.key.len() == m.key.len() + 1);
                }
            }
        },
    }
}

/// If a region splits after a line terminator, well-formedness of the whole
/// region passes to both halves, and the observations concatenate.
pub proof fn lemma_aligned_split(c: Seq<u8>, rest: Seq<u8>)
    requires
        valid(c + rest),
        c.len() == 0 || c[c.len() - 1] == term_byte(),
    ensures
        valid(c),
        valid(rest),
        obs_of(c + rest) == obs_of(c) + obs_of(rest),
    decreases c.len(),
{
    lemma_run_st_append(init_pstate(), c, rest);
    assert(run_st(init_pstate(), c) is Some);
    if c.len() == 0 {
        assert(c =~= Seq::<u8>::empty());
        assert(run_st(init_pstate(), c) == Some(init_pstate()));
    } else {
        let c1 = c.drop_last();
        let b = c.last();
        assert(c =~= c1.push(b));
        lemma_run_snoc(init_pstate(), c1, b);
        match run_st(init_pstate(), c1) {
            None => {},
            Some(m) => {
                assert(b == term_byte());
                if !m.in_value {
                    assert(step_st(m, b) is None);
                    assert(false);
                }
                assert(step_st(m, b) == Some(init_pstate()));
            },
        }
    }
    lemma_run_obs_append(init_pstate(), c, rest);
}

/// Merging the tables of two well-formed regions split at a line boundary
/// yields the table of the whole region: chunking is invisible in the result.
pub proof fn lemma_partition_merge(s1: Seq<u8>, s2: Seq<u8>)
    requires
        valid(s1),
        valid(s2),
    ensures
        valid(s1 + s2),
        obs_of(s1 + s2) == obs_of(s1) + obs_of(s2),
        table_of(s1 + s2) == merge_maps(table_of(s1), table_of(s2)),
{
    lemma_run_st_append(init_pstate(), s1, s2);
    lemma_run_obs_append(init_pstate(), s1, s2);
    lemma_table_of_obs_concat(obs_of(s1), obs_of(s2));
}

/// A sequence of chunks, joined back into one byte region.
pub open spec fn concat_chunks(chunks: Seq<Seq<u8>>) -> Seq<u8>
    decreases chunks.len(),
{
    if chunks.len() == 0 {
        Seq::empty()
    } else {
        concat_chunks(chunks.drop_last()) + chunks.last()
    }
}

/// The per-chunk tables, merged in order.
pub open spec fn merged_tables(chunks: Seq<Seq<u8>>) -> Map<Seq<u8>, Stat>
    decreases chunks.len(),
{
    if chunks.len() == 0 {
        Map::empty()
    } else {
        merge_maps(merged_tables(chunks.drop_last()), table_of(chunks.last()))
    }
}

/// Splitting the input into any number of well-formed chunks and merging
/// their tables yields exactly the table of the whole input.
pub proof fn lemma_any_partition_same_table(chunks: Seq<Seq<u8>>)
    requires
        forall|i: int| 0 <= i < chunks.len() ==> valid(#[trigger] chunks[i]),
    ensures
        valid(concat_chunks(chunks)),
        table_of(concat_chunks(chunks)) == merged_tables(chunks),
    decreases chunks.len(),
{
    if chunks.len() == 0 {
        assert(concat_chunks(chunks) =~= Seq::<u8>::empty());
        assert(table_of(Seq::<u8>::empty()) =~= Map::<Seq<u8>, Stat>::empty());
    } else {
        let front = chunks.drop_last();
        assert(forall|i: int| 0 <= i < front.len() ==> front[i] == #[trigger] chunks[i]);
        lemma_any_partition_same_table(front);
        assert(chunks[chunks.len() - 1] == chunks.last());
        lemma_partition_merge(concat_chunks(front), chunks.last());
    }
}

/// Two chunkings of the same input — one chunk, two, or any number, under
/// any valid alignment — merge to the same table, and so (by
/// `lemma_summary_deterministic`) to a byte-identical summary line.
pub proof fn lemma_partitioning_immaterial(c1: Seq<Seq<u8>>, c2: Seq<Seq<u8>>)
    requires
        forall|i: int| 0 <= i < c1.len() ==> valid(#[trigger] c1[i]),
        forall|i: int| 0 <= i < c2.len() ==> valid(#[trigger] c2[i]),
        concat_chunks(c1) == concat_chunks(c2),
    ensures
        merged_tables(c1) == merged_tables(c2),
{
    lemma_any_partition_same_table(c1);
    lemma_any_partition_same_table(c2);
}

/// The pairs a summary is rendered from: the table's entries, keys distinct
/// and sorted ascending by byte order.
pub open spec fn summary_pairs(ps: Seq<(Seq<u8>, Stat)>, m: Map<Seq<u8>, Stat>) -> bool {
    &&& sorted_by_key(ps)
    &&& crate::table::distinct_keys(ps)
    &&& pairs_map(ps) == m
}

/// `out` is the rendered summary of table `m`.
pub open spec fn is_summary(out: Seq<u8>, m: Map<Seq<u8>, Stat>) -> bool {
    exists|ps: Seq<(Seq<u8>, Stat)>| #[trigger] summary_pairs(ps, m) && out == output_str(ps)
}

/// A table has exactly one sorted, distinct pair sequence.
pub proof fn lemma_summary_pairs_unique(
    ps1: Seq<(Seq<u8>, Stat)>,
    ps2: Seq<(Seq<u8>, Stat)>,
    m: Map<Seq<u8>, Stat>,
)
    requires
        summary_pairs(ps1, m),
        summary_pairs(ps2, m),
    ensures
        ps1 == ps2,
    decreases ps1.len(),
{
    if ps1.len() == 0 {
        if ps2.len() > 0 {
            lemma_pairs_map_index(ps2, ps2.len() - 1);
            lemma_pairs_map_dom(ps1, ps2.last().0);
            assert(false);
        }
        assert(ps1 =~= ps2);
    } else if ps2.len() == 0 {
        lemma_pairs_map_index(ps1, ps1.len() - 1);
        lemma_pairs_map_dom(ps2, ps1.last().0);
        assert(false);
    } else {
        let k1 = ps1.last().0;
        let k2 = ps2.last().0;
        lemma_pairs_map_index(ps1, ps1.len() - 1);
        lemma_pairs_map_index(ps2, ps2.len() - 1);
        // Both last keys are the maximum key of `m`, hence equal.
        lemma_pairs_map_dom(ps1, k2);
        let i1 = choose|i: int| 0 <= i < ps1.len() && (#[trigger] ps1[i]).0 == k2;
        lemma_pairs_map_dom(ps2, k1);
        let i2 = choose|i: int| 0 <= i < ps2.len() && (#[trigger] ps2[i]).0 == k1;
        if k1 != k2 {
            assert(i1 < ps1.len() - 1);
            assert(lex_lt(k2, k1));
            assert(i2 < ps2.len() - 1);
            assert(lex_lt(k1, k2));
            lemma_lex_asym(k1, k2);
            assert(false);
        }
        assert(ps1.last().1 == m[k1]);
        assert(ps2.last().1 == m[k1]);
        assert(ps1.last() == ps2.last());
        // The fronts describe the table without its maximum key.
        let f1 = ps1.drop_last();
        let f2 = ps2.drop_last();
        assert forall|x: int| 0 <= x < f1.len() implies #[trigger] f1[x] == ps1[x] by {}
        assert forall|x: int| 0 <= x < f2.len() implies #[trigger] f2[x] == ps2[x] by {}
        lemma_pairs_map_dom(f1, k1);
        lemma_pairs_map_dom(f2, k1);
        assert(!pairs_map(f1).dom().contains(k1));
        assert(!pairs_map(f2).dom().contains(k1));
        assert(pairs_map(f1) =~= m.remove(k1));
        assert(pairs_map(f2) =~= m.remove(k1));
        assert(summary_pairs(f1, m.remove(k1)));
        assert(summary_pairs(f2, m.remove(k1)));
        lemma_summary_pairs_unique(f1, f2, m.remove(k1));
        assert(ps1 =~= f1.push(ps1.last()));
        assert(ps2 =~= f2.push(ps2.last()));
        assert(ps1 == ps2);
    }
}

/// One table has one summary line: any two renderings of it are
/// byte-identical. With `lemma_partition_merge`, splitting the input into
/// any number of line-aligned chunks cannot change the output.
pub proof fn lemma_summary_deterministic(o1: Seq<u8>, o2: Seq<u8>, m: Map<Seq<u8>, Stat>)
    requires
        is_summary(o1, m),
        is_summary(o2, m),
    ensures
        o1 == o2,
{
    let ps1 = choose|ps: Seq<(Seq<u8>, Stat)>| #[trigger] summary_pairs(ps, m) && o1
        == output_str(ps);
    let ps2 = choose|ps: Seq<(Seq<u8>, Stat)>| #[trigger] summary_pairs(ps, m) && o2
        == output_str(ps);
    lemma_summary_pairs_unique(ps1, ps2, m);
}

/// The keys of the table of a well-formed input are exactly the distinct
/// keys its lines bear.
pub proof fn lemma_keys_complete(s: Seq<u8>)
    requires
        valid(s),
    ensures
        table_of(s).dom() == crate::table::obs_keys(obs_of(s)),
{
    crate::table::lemma_table_of_obs_dom(obs_of(s));
}

/// For every key of a well-formed input, the aggregate's `count` is the
/// number of lines bearing that key.
pub proof fn lemma_count_is_line_count(s: Seq<u8>, k: Seq<u8>)
    requires
        valid(s),
        table_of(s).dom().contains(k),
    ensures
        table_of(s)[k].count == count_matching(obs_of(s), k),
{
    lemma_run_obs_bounds(init_pstate(), s);
    lemma_table_of_obs_stats(obs_of(s));
}

/// For every key of a well-formed input, `min` and `max` bound every value
/// recorded under that key, and each is attained by one of them.
pub proof fn lemma_extremes_attained(s: Seq<u8>, k: Seq<u8>)
    requires
        valid(s),
        table_of(s).dom().contains(k),
    ensures
        forall|i: int|
            0 <= i < obs_of(s).len() && (#[trigger] obs_of(s)[i]).key == k ==> table_of(s)[k].min
                <= obs_of(s)[i].val <= table_of(s)[k].max,
        exists|i: int|
            0 <= i < obs_of(s).len() && (#[trigger] obs_of(s)[i]).key == k && obs_of(s)[i].val
                == table_of(s)[k].min,
        exists|i: int|
            0 <= i < obs_of(s).len() && (#[trigger] obs_of(s)[i]).key == k && obs_of(s)[i].val
                == table_of(s)[k].max,
{
    lemma_run_obs_bounds(init_pstate(), s);
    lemma_table_of_obs_stats(obs_of(s));
}

/// Merging the tables of a prefix and the chunk after it never overflows a
/// count: each side's counts are bounded by half its bytes.
proof fn lemma_merge_headroom(prefix: Seq<u8>, chunk: Seq<u8>)
    requires
        valid(prefix),
        valid(chunk),
        prefix.len() + chunk.len() <= usize::MAX,
    ensures
        forall|key: Seq<u8>| #![auto]
            table_of(prefix).dom().contains(key) && table_of(chunk).dom().contains(key)
                ==> table_of(prefix)[key].count + table_of(chunk)[key].count <= u64::MAX,
{
    let o1 = obs_of(prefix);
    let o2 = obs_of(chunk);
    lemma_run_obs_bounds(init_pstate(), prefix);
    lemma_run_obs_bounds(init_pstate(), chunk);
    lemma_table_of_obs_stats(o1);
    lemma_table_of_obs_stats(o2);
    lemma_run_obs_len(init_pstate(), prefix);
    lemma_run_obs_len(init_pstate(), chunk);
    assert forall|key: Seq<u8>| #![auto]
        table_of(prefix).dom().contains(key) && table_of(chunk).dom().contains(key) implies
        table_of(prefix)[key].count + table_of(chunk)[key].count <= u64::MAX by {
        lemma_count_matching_le_len(o1, key);
        lemma_count_matching_le_len(o2, key);
        assert(2 * o1.len() <= prefix.len());
        assert(2 * o2.len() <= chunk.len());
    }
}

/// In well-formed data, the piece between a line boundary (or the start)
/// and a later line boundary (or the end) is itself well-formed.
proof fn lemma_chunk_of_valid_data(data: Seq<u8>, pe: int, ce: int)
    requires
        valid(data),
        valid(data.subrange(0, pe)),
        0 <= pe <= ce <= data.len(),
        ce == data.len() || data[ce - 1] == term_byte(),
    ensures
        valid(data.subrange(pe, ce)),
{
    let prefix = data.subrange(0, pe);
    let chunk = data.subrange(pe, ce);
    assert(data =~= prefix + data.subrange(pe, data.len() as int));
    if pe > 0 {
        lemma_valid_last_byte(prefix);
    }
    lemma_aligned_split(prefix, data.subrange(pe, data.len() as int));
    assert(data.subrange(pe, data.len() as int) =~= chunk + data.subrange(
        ce,
        data.len() as int,
    ));
    if ce == data.len() && chunk.len() > 0 {
        lemma_valid_last_byte(data);
    }
    if chunk.len() > 0 {
        assert(chunk[chunk.len() - 1] == data[ce - 1]);
    }
    lemma_aligned_split(chunk, data.subrange(ce, data.len() as int));
}

/// Scan the whole input with the given worker count: plan the chunks, scan
/// each range, merge the partition tables, and render the summary line.
///
/// Succeeds exactly on well-formed input — every line `key;value` with a
/// terminator, including the last — and the summary depends only on the
/// input's table, never on the worker count.
pub fn summarize(data: &Vec<u8>, workers: usize) -> (r: Result<Vec<u8>, InputError>)
    requires
        1 <= workers,
    ensures
        r is Ok <==> valid(data@),
        r is Ok ==> is_summary(r->Ok_0@, table_of(data@)),
        r is Err && r->Err_0 == InputError::MalformedLine ==> run_st(init_pstate(), data@)
            is None,
        workers == 1 && r is Err ==> r->Err_0 == (if run_st(init_pstate(), data@) is None {
            InputError::MalformedLine
        } else {
            InputError::MissingTerminator
        }),
{
    let n = data.len();
    let ranges = match plan_chunks(data, workers) {
        Ok(rs) => rs,
        Err(e) => {
            proof {
                // Some naive point sees no terminator ahead — so there are at
                // least two workers, and the input cannot end with one.
                let i = choose|i: int|
                    1 <= i < workers && crate::planner::naive_point(
                        data@.len() as int,
                        workers as int,
                        i,
                    ) < data@.len() && forall|j: int|
                        crate::planner::naive_point(data@.len() as int, workers as int, i) <= j
                            < data@.len() ==> data@[j] != term_byte();
                assert(workers > 1);
                if valid(data@) {
                    lemma_valid_last_byte(data@);
                    assert(false);
                }
            }
            return Err(e);
        },
    };
    let mut merged = Table::new();
    let mut k: usize = 0;
    proof {
        assert(data@.subrange(0, 0) =~= Seq::<u8>::empty());
        assert(valid(data@.subrange(0, 0)));
        assert(obs_of(data@.subrange(0, 0)) =~= Seq::<crate::scan::Obs>::empty());
        assert(merged@ =~= table_of(data@.subrange(0, 0)));
    }
    while k < ranges.len()
        invariant
            k <= ranges@.len(),
            n == data@.len() <= usize::MAX,
            ranges@.len() >= 1,
            crate::planner::ranges_partition(ranges@, n as int),
            1 <= workers,
            ranges@.len() == workers,
            forall|i: int|
                1 <= i < workers ==> crate::planner::boundary_ok(
                    data@,
                    workers as int,
                    i,
                    (#[trigger] ranges@[i]).start as int,
                ),
            merged.wf(),
            valid(data@.subrange(0, prefix_end(ranges@, k as int))),
            merged@ == table_of(data@.subrange(0, prefix_end(ranges@, k as int))),
            0 <= prefix_end(ranges@, k as int) <= n,
            k < ranges@.len() ==> ranges@[k as int].start == prefix_end(ranges@, k as int),
        decreases ranges@.len() - k,
    {
        let rg = ranges[k];
        let ghost pe = prefix_end(ranges@, k as int);
        let ghost prefix = data@.subrange(0, pe);
        let ghost chunk = data@.subrange(rg.start as int, rg.end as int);
        match scan_range(data, rg.start, rg.end) {
            Ok(t) => {
                proof {
                    assert(valid(chunk));
                    assert(prefix + chunk =~= data@.subrange(0, rg.end as int));
                    lemma_partition_merge(prefix, chunk);
                    lemma_merge_headroom(prefix, chunk);
                }
                merged.merge_from(&t);
                proof {
                    assert(merged@ == table_of(data@.subrange(0, rg.end as int)));
                    assert(prefix_end(ranges@, k as int + 1) == rg.end as int);
                }
            },
            Err(e) => {
                proof {
                    if valid(data@) {
                        // This chunk runs from one line boundary to another
                        // (or to the end of the input), so it would have to
                        // be well-formed — contradicting the failed scan.
                        if (rg.end as int) < n as int {
                            assert(ranges@[k as int].end == ranges@[k as int + 1].start);
                            assert(crate::planner::boundary_ok(
                                data@,
                                workers as int,
                                k as int + 1,
                                rg.end as int,
                            ));
                        }
                        lemma_chunk_of_valid_data(data@, pe, rg.end as int);
                        assert(false);
                    }
                    // A malformed byte in the chunk is a malformed byte of
                    // the whole input, behind an intact prefix.
                    if run_st(init_pstate(), chunk) is None {
                        lemma_run_st_append(init_pstate(), prefix, chunk);
                        assert(prefix + chunk =~= data@.subrange(0, rg.end as int));
                        lemma_run_st_append(
                            init_pstate(),
                            prefix + chunk,
                            data@.subrange(rg.end as int, n as int),
                        );
                        assert((prefix + chunk) + data@.subrange(rg.end as int, n as int)
                            =~= data@);
                    }
                    if workers == 1 {
                        assert(k == 0 && rg.start == 0 && rg.end == n);
                        assert(chunk =~= data@);
                    }
                }
                return Err(e);
            },
        }
        k = k + 1;
    }
    proof {
        assert(prefix_end(ranges@, ranges@.len() as int) == n);
        assert(data@.subrange(0, n as int) =~= data@);
    }
    let sorted = sorted_entries(merged);
    let out = render_entries(&sorted);
    proof {
        assert(summary_pairs(pair_views(sorted@), table_of(data@)));
    }
    Ok(out)
}

/// Where the ranges before index `k` end: 0 for the first, the previous
/// range's end after that.
pub open spec fn prefix_end(rs: Seq<crate::planner::ChunkRange>, k: int) -> int {
    if k == 0 {
        0
    } else {
        rs[k - 1].end as int
    }
}

} // verus!

