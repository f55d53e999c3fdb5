//! The line scanner: a byte-by-byte state machine over `key;value\n` records.
//!
//! The machine is given twice. The spec side (`step_st`, `run_st`, `run_obs`)
//! is a small-step relation over bytes: it tracks the parser state and the
//! sequence of observations — (key, fixed-point value) pairs — emitted at each
//! line terminator, and rejects malformed bytes. The exec side (`scan_range`)
//! walks a byte range once and folds every observation into a table, and is
//! proved to agree with the spec machine exactly.

use vstd::prelude::*;

use crate::record::value_limit;
use crate::table::{table_of, table_of_obs, Table};
use crate::InputError;

verus! {

/// The field separator, `;`.
pub open spec fn sep_byte() -> u8 {
    59
}

/// The line terminator, `\n`.
pub open spec fn term_byte() -> u8 {
    10
}

/// Parser state between two bytes.
///
/// `in_value` distinguishes the two phases of a line: collecting key bytes
/// before the separator, and accumulating the value after it. `acc` is the
/// magnitude accumulated from the digits seen so far (the decimal point is
/// skipped, which realises the one-fractional-digit fixed-point convention);
/// `neg` records a leading minus and `seen_digit` guards it.
pub struct PState {
    pub key: Seq<u8>,
    pub in_value: bool,
    pub neg: bool,
    pub seen_digit: bool,
    pub acc: int,
}

/// The idle state: at a line start, nothing buffered. The machine returns to
/// exactly this state after every completed line.
pub open spec fn init_pstate() -> PState {
    PState { key: Seq::empty(), in_value: false, neg: false, seen_digit: false, acc: 0 }
}

/// One observation: a finalized line's key and fixed-point value.
pub struct Obs {
    pub key: Seq<u8>,
    pub val: int,
}

/// One step of the machine; `None` is a malformed byte.
///
/// In the key phase every byte but the separator joins the key; a terminator
/// there means the line had no separator. In the value phase a terminator
/// finalizes the line and resets the machine, a minus is legal only once and
/// only before any digit, the decimal point is skipped, a digit extends the
/// accumulator while it stays within the fixed-point range, and any other
/// byte is malformed.
pub open spec fn step_st(st: PState, b: u8) -> Option<PState> {
    if !st.in_value {
        if b == sep_byte() {
            Some(PState { key: st.key, in_value: true, neg: false, seen_digit: false, acc: 0 })
        } else if b == term_byte() {
            None
        } else {
            Some(PState { key: st.key.push(b), ..st })
        }
    } else {
        if b == term_byte() {
            Some(init_pstate())
        } else if b == 45 {
            if !st.neg && !st.seen_digit {
                Some(PState { neg: true, ..st })
            } else {
                None
            }
        } else if b == 46 {
            Some(st)
        } else if 48 <= b && b <= 57 {
            let acc2 = st.acc * 10 + (b - 48);
            if acc2 <= value_limit() {
                Some(PState { seen_digit: true, acc: acc2, ..st })
            } else {
                None
            }
        } else {
            None
        }
    }
}

/// What one step emits: the finalized observation at a terminator in the
/// value phase, nothing otherwise.
pub open spec fn step_obs(st: PState, b: u8) -> Seq<Obs> {
    if st.in_value && b == term_byte() {
        seq![Obs { key: st.key, val: if st.neg { -st.acc } else { st.acc } }]
    } else {
        Seq::empty()
    }
}

/// Run the machine over `s` from `st`; `None` as soon as a step fails.
pub open spec fn run_st(st: PState, s: Seq<u8>) -> Option<PState>
    decreases s.len(),
{
    if s.len() == 0 {
        Some(st)
    } else {
        match step_st(st, s[0]) {
            None => None,
            Some(st2) => run_st(st2, s.skip(1)),
        }
    }
}

/// The observations emitted while running the machine over `s` from `st`
/// (up to the first failing step, if any).
pub open spec fn run_obs(st: PState, s: Seq<u8>) -> Seq<Obs>
    decreases s.len(),
{
    if s.len() == 0 {
        Seq::empty()
    } else {
        match step_st(st, s[0]) {
            None => Seq::empty(),
            Some(st2) => step_obs(st, s[0]) + run_obs(st2, s.skip(1)),
        }
    }
}

/// A well-formed input region: every byte is accepted and the machine ends
/// idle, i.e. the region is a whole number of complete, well-formed lines.
pub open spec fn valid(s: Seq<u8>) -> bool {
    run_st(init_pstate(), s) == Some(init_pstate())
}

/// The observations of a well-formed region, one per line in order.
pub open spec fn obs_of(s: Seq<u8>) -> Seq<Obs> {
    run_obs(init_pstate(), s)
}

/// Running over `s1 + s2` is running over `s1`, then over `s2` from where
/// that left off.
pub proof fn lemma_run_st_append(st: PState, s1: Seq<u8>, s2: Seq<u8>)
    ensures
        run_st(st, s1 + s2) == match run_st(st, s1) {
            None => None::<PState>,
            Some(m) => run_st(m, s2),
        },
    decreases s1.len(),
{
    if s1.len() == 0 {
        assert(s1 + s2 =~= s2);
    } else {
        assert((s1 + s2)[0] == s1[0]);
        assert((s1 + s2).skip(1) =~= s1.skip(1) + s2);
        match step_st(st, s1[0]) {
            None => {},
            Some(st2) => {
                lemma_run_st_append(st2, s1.skip(1), s2);
            },
        }
    }
}

/// The observations over `s1 + s2` are those of `s1` followed by those of
/// `s2`, run from the state `s1` leaves behind.
pub proof fn lemma_run_obs_append(st: PState, s1: Seq<u8>, s2: Seq<u8>)
    requires
        run_st(st, s1) is Some,
    ensures
        run_obs(st, s1 + s2) == run_obs(st, s1) + run_obs(run_st(st, s1)->Some_0, s2),
    decreases s1.len(),
{
    if s1.len() == 0 {
        assert(s1 + s2 =~= s2);
        assert(run_obs(st, s1) + run_obs(st, s2) =~= run_obs(st, s2));
    } else {
        assert((s1 + s2)[0] == s1[0]);
        assert((s1 + s2).skip(1) =~= s1.skip(1) + s2);
        let st2 = step_st(st, s1[0])->Some_0;
        lemma_run_obs_append(st2, s1.skip(1), s2);
        assert(step_obs(st, s1[0]) + (run_obs(st2, s1.skip(1)) + run_obs(
            run_st(st, s1)->Some_0,
            s2,
        )) =~= (step_obs(st, s1[0]) + run_obs(st2, s1.skip(1))) + run_obs(
            run_st(st, s1)->Some_0,
            s2,
        ));
    }
}

/// A run over a single byte is one step.
pub proof fn lemma_run_single(st: PState, b: u8)
    ensures
        run_st(st, seq![b]) == step_st(st, b),
        run_obs(st, seq![b]) == if step_st(st, b) is Some {
            step_obs(st, b)
        } else {
            Seq::<Obs>::empty()
        },
{
    let s = seq![b];
    assert(s.skip(1) =~= Seq::<u8>::empty());
    match step_st(st, b) {
        None => {},
        Some(x) => {
            assert(run_st(x, Seq::<u8>::empty()) == Some(x));
            assert(run_obs(x, Seq::<u8>::empty()) == Seq::<Obs>::empty());
            assert(run_obs(st, s) == step_obs(st, b) + run_obs(x, s.skip(1)));
            assert(step_obs(st, b) + Seq::<Obs>::empty() =~= step_obs(st, b));
        },
    }
}

/// Unfolding one byte at the end of a run.
pub proof fn lemma_run_snoc(st: PState, s: Seq<u8>, b: u8)
    ensures
        run_st(st, s.push(b)) == match run_st(st, s) {
            None => None::<PState>,
            Some(m) => step_st(m, b),
        },
        run_st(st, s) is Some ==> run_obs(st, s.push(b)) == run_obs(st, s) + step_obs(
            run_st(st, s)->Some_0,
            b,
        ),
{
    assert(s.push(b) =~= s + seq![b]);
    lemma_run_st_append(st, s, seq![b]);
    match run_st(st, s) {
        None => {},
        Some(m) => {
            lemma_run_obs_append(st, s, seq![b]);
            lemma_run_single(m, b);
            match step_st(m, b) {
                None => {},
                Some(m2) => {},
            }
        },
    }
}

/// A reachable parser state: the accumulator is a magnitude within the
/// fixed-point range.
pub open spec fn pstate_wf(st: PState) -> bool {
    0 <= st.acc <= value_limit()
}

/// Running from a well-formed state keeps the state well-formed and emits
/// only observations whose values lie within the fixed-point range.
pub proof fn lemma_run_obs_bounds(st: PState, s: Seq<u8>)
    requires
        pstate_wf(st),
    ensures
        run_st(st, s) is Some ==> pstate_wf(run_st(st, s)->Some_0),
        forall|i: int|
            0 <= i < run_obs(st, s).len() ==> -value_limit() <= #[trigger] run_obs(st, s)[i].val
                <= value_limit(),
    decreases s.len(),
{
    if s.len() > 0 {
        match step_st(st, s[0]) {
            None => {},
            Some(st2) => {
                lemma_run_obs_bounds(st2, s.skip(1));
                let o = run_obs(st, s);
                let head = step_obs(st, s[0]);
                let tail = run_obs(st2, s.skip(1));
                assert forall|i: int| 0 <= i < o.len() implies -value_limit() <= #[trigger] o[i].val
                    <= value_limit() by {
                    if i < head.len() {
                        assert(o[i] == head[0]);
                    } else {
                        assert(o[i] == tail[i - head.len()]);
                    }
                }
            },
        }
    }
}

/// Every observation costs at least two bytes: its separator and its
/// terminator (one byte may already stand consumed when the run starts
/// mid-value).
pub proof fn lemma_run_obs_len(st: PState, s: Seq<u8>)
    ensures
        2 * run_obs(st, s).len() <= s.len() + if st.in_value {
            1int
        } else {
            0int
        },
    decreases s.len(),
{
    if s.len() > 0 {
        match step_st(st, s[0]) {
            None => {},
            Some(st2) => {
                lemma_run_obs_len(st2, s.skip(1));
            },
        }
    }
}

/// Scan the byte range `[start, end)` of `data` and aggregate its lines.
///
/// Returns the table of exactly that region's observations when the region is
/// a whole number of well-formed lines; `MalformedLine` when some byte is
/// rejected by the state machine (the whole run is aborted, lines are never
/// skipped); `MissingTerminator` when every byte is accepted but the region
/// ends inside a line.
pub fn scan_range(data: &Vec<u8>, start: usize, end: usize) -> (r: Result<Table, InputError>)
    requires
        start <= end <= data@.len(),
    ensures
        ({
            let sub = data@.subrange(start as int, end as int);
            match r {
                Ok(t) => valid(sub) && t.wf() && t@ == table_of(sub),
                Err(e) => !valid(sub) && e == (if run_st(init_pstate(), sub) is None {
                    InputError::MalformedLine
                } else {
                    InputError::MissingTerminator
                }),
            }
        }),
{
    let ghost sub = data@.subrange(start as int, end as int);
    let n = data.len();
    let mut table = Table::new();
    let mut key_buf: Vec<u8> = Vec::new();
    let mut in_value: bool = false;
    let mut neg: bool = false;
    let mut seen_digit: bool = false;
    let mut acc: i64 = 0;
    let mut i: usize = start;
    proof {
        assert(data@.subrange(start as int, start as int) =~= Seq::<u8>::empty());
    }
    while i < end
        invariant
            start <= i <= end <= data@.len(),
            data@.len() <= usize::MAX,
            sub == data@.subrange(start as int, end as int),
            0 <= acc <= value_limit(),
            run_st(init_pstate(), data@.subrange(start as int, i as int)) == Some(
                PState {
                    key: key_buf@,
                    in_value: in_value,
                    neg: neg,
                    seen_digit: seen_digit,
                    acc: acc as int,
                },
            ),
            !in_value ==> !neg && !seen_digit && acc == 0,
            table.wf(),
            table@ == table_of_obs(run_obs(init_pstate(), data@.subrange(start as int, i as int))),
        decreases end - i,
    {
        let ghost prefix = data@.subrange(start as int, i as int);
        let ghost st = PState {
            key: key_buf@,
            in_value: in_value,
            neg: neg,
            seen_digit: seen_digit,
            acc: acc as int,
        };
        let b = data[i];
        proof {
            assert(data@.subrange(start as int, i as int + 1) =~= prefix.push(b));
            lemma_run_snoc(init_pstate(), prefix, b);
        }
        if !in_value {
            if b == 59 {
                in_value = true;
                neg = false;
                seen_digit = false;
                acc = 0;
            } else if b == 10 {
                proof {
                    assert(step_st(st, b) is None);
                    assert(sub =~= prefix.push(b) + data@.subrange(i as int + 1, end as int));
                    lemma_run_st_append(
                        init_pstate(),
                        prefix.push(b),
                        data@.subrange(i as int + 1, end as int),
                    );
                }
                return Err(InputError::MalformedLine);
            } else {
                key_buf.push(b);
            }
        } else {
            if b == 10 {
                let v: i32 = if neg {
                    -(acc as i32)
                } else {
                    acc as i32
                };
                proof {
                    let o = run_obs(init_pstate(), prefix);
                    lemma_run_obs_bounds(init_pstate(), prefix);
                    lemma_run_obs_len(init_pstate(), prefix);
                    crate::table::lemma_table_of_obs_stats(o);
                    let ps = crate::table::pair_views(table.entries@);
                    assert forall|t: int| 0 <= t < table.entries@.len() implies (#[trigger] table.entries@[t]).1@.count < u64::MAX by {
                        crate::table::lemma_pairs_map_index(ps, t);
                        assert(ps[t] == (table.entries@[t].0@, table.entries@[t].1@));
                        assert(table@.dom().contains(ps[t].0));
                        assert(table@[ps[t].0].count == crate::table::count_matching(o, ps[t].0));
                        crate::table::lemma_count_matching_le_len(o, ps[t].0);
                        assert(2 * o.len() <= prefix.len());
                    }
                }
                table.observe(&key_buf, v);
                key_buf.clear();
                in_value = false;
                neg = false;
                seen_digit = false;
                acc = 0;
                proof {
                    let o = run_obs(init_pstate(), prefix);
                    let o2 = run_obs(init_pstate(), prefix.push(b));
                    assert(step_obs(st, b) == seq![Obs { key: st.key, val: v as int }]);
                    assert(o2 == o + seq![Obs { key: st.key, val: v as int }]);
                    assert(o2.drop_last() =~= o);
                    assert(o2.last() == Obs { key: st.key, val: v as int });
                    assert(table_of_obs(o2) == crate::table::spec_observe(
                        table_of_obs(o),
                        st.key,
                        v as int,
                    ));
                }
            } else if b == 45 {
                if neg || seen_digit {
                    proof {
                        assert(step_st(st, b) is None);
                        assert(sub =~= prefix.push(b) + data@.subrange(i as int + 1, end as int));
                        lemma_run_st_append(
                            init_pstate(),
                            prefix.push(b),
                            data@.subrange(i as int + 1, end as int),
                        );
                    }
                    return Err(InputError::MalformedLine);
                }
                neg = true;
            } else if b == 46 {
                proof {
                    assert(step_st(st, b) == Some(st));
                }
            } else if 48 <= b && b <= 57 {
                let d: i64 = (b - 48) as i64;
                let a2: i64 = acc * 10 + d;
                if a2 > 0x7fff_ffff {
                    proof {
                        assert(step_st(st, b) is None);
                        assert(sub =~= prefix.push(b) + data@.subrange(i as int + 1, end as int));
                        lemma_run_st_append(
                            init_pstate(),
                            prefix.push(b),
                            data@.subrange(i as int + 1, end as int),
                        );
                    }
                    return Err(InputError::MalformedLine);
                }
                acc = a2;
                seen_digit = true;
            } else {
                proof {
                    assert(step_st(st, b) is None);
                    assert(sub =~= prefix.push(b) + data@.subrange(i as int + 1, end as int));
                    lemma_run_st_append(
                        init_pstate(),
                        prefix.push(b),
                        data@.subrange(i as int + 1, end as int),
                    );
                }
                return Err(InputError::MalformedLine);
            }
        }
        i = i + 1;
    }
    if !in_value && key_buf.len() == 0 {
        proof {
            assert(key_buf@ =~= Seq::<u8>::empty());
            assert(run_st(init_pstate(), sub) == Some(init_pstate()));
        }
        Ok(table)
    } else {
        proof {
            let st = run_st(init_pstate(), sub)->Some_0;
            assert(st != init_pstate());
        }
        Err(InputError::MissingTerminator)
    }
}

} // verus!
