//! Rendering the merged table as one summary line.
//!
//! Every number is a fixed-point integer in tenths and is printed with
//! exactly one fractional digit, entirely in integer arithmetic. The mean is
//! the total divided by the count, rounded to the nearest tenth with ties
//! away from zero.

use vstd::arithmetic::div_mod::{
    lemma_div_is_ordered, lemma_div_multiples_vanish, lemma_fundamental_div_mod,
};
use vstd::prelude::*;

use crate::record::{stat_wf, value_limit, Record, Stat};
use crate::table::pair_views;

verus! {

/// The byte of one decimal digit.
pub open spec fn digit_byte(d: int) -> u8 {
    (48 + d) as u8
}

/// The decimal digits of `n >= 0`, most significant first.
pub open spec fn dec_str(n: int) -> Seq<u8>
    decreases n,
{
    if n < 10 {
        seq![digit_byte(n)]
    } else {
        dec_str(n / 10).push(digit_byte(n % 10))
    }
}

/// A fixed-point value in tenths, rendered as `-?digits.digit`.
pub open spec fn fixed_str(v: int) -> Seq<u8> {
    let a = if v < 0 {
        -v
    } else {
        v
    };
    (if v < 0 {
        seq![45u8]
    } else {
        Seq::<u8>::empty()
    }) + dec_str(a / 10) + seq![46u8, digit_byte(a % 10)]
}

/// Nearest integer to `t / c` for `t >= 0`, ties rounded up.
pub open spec fn round_div_nn(t: int, c: int) -> int {
    if 2 * (t % c) >= c {
        t / c + 1
    } else {
        t / c
    }
}

/// Nearest integer to `t / c`, ties away from zero.
pub open spec fn round_div(t: int, c: int) -> int {
    if t >= 0 {
        round_div_nn(t, c)
    } else {
        -round_div_nn(-t, c)
    }
}

/// The displayed mean is exact to half a tenth: `2·|t − round_div(t,c)·c| <= c`,
/// so `round_div(t, c)` is a nearest integer to the exact quotient `t / c`.
pub proof fn lemma_round_div_accuracy(t: int, c: int)
    requires
        c >= 1,
    ensures
        -c <= 2 * (t - round_div(t, c) * c) <= c,
{
    if t >= 0 {
        lemma_round_div_nn_accuracy(t, c);
    } else {
        lemma_round_div_nn_accuracy(-t, c);
        assert(round_div(t, c) * c == -(round_div_nn(-t, c) * c)) by (nonlinear_arith)
            requires
                round_div(t, c) == -round_div_nn(-t, c),
        ;
    }
}

proof fn lemma_round_div_nn_accuracy(t: int, c: int)
    requires
        c >= 1,
        t >= 0,
    ensures
        -c <= 2 * (t - round_div_nn(t, c) * c) <= c,
{
    lemma_fundamental_div_mod(t, c);
    let q = t / c;
    let r = t % c;
    assert(0 <= r < c);
    if 2 * r >= c {
        assert((q + 1) * c == q * c + c) by (nonlinear_arith);
        assert(t - (q + 1) * c == r - c) by {
            assert(t == c * q + r);
            assert(c * q == q * c) by (nonlinear_arith);
        }
    } else {
        assert(t - q * c == r) by {
            assert(t == c * q + r);
            assert(c * q == q * c) by (nonlinear_arith);
        }
    }
}

/// The rounded mean of values lying within a bound stays within it.
pub proof fn lemma_round_div_bound(t: int, c: int, bound: int)
    requires
        c >= 1,
        bound >= 0,
        -(c * bound) <= t <= c * bound,
    ensures
        -bound <= round_div(t, c) <= bound,
{
    if t >= 0 {
        lemma_round_div_nn_bound(t, c, bound);
    } else {
        lemma_round_div_nn_bound(-t, c, bound);
    }
}

proof fn lemma_round_div_nn_bound(t: int, c: int, bound: int)
    requires
        c >= 1,
        bound >= 0,
        0 <= t <= c * bound,
    ensures
        0 <= round_div_nn(t, c) <= bound,
{
    lemma_div_is_ordered(t, c * bound, c);
    lemma_div_multiples_vanish(bound, c);
    assert(t / c <= bound);
    assert(t / c >= 0) by {
        lemma_fundamental_div_mod(t, c);
        assert(0 <= t % c < c);
        if t / c < 0 {
            assert(c * (t / c) <= -c) by (nonlinear_arith)
                requires
                    c >= 1,
                    t / c <= -1,
            ;
        }
    }
    if 2 * (t % c) >= c && t / c == bound {
        lemma_fundamental_div_mod(t, c);
        assert(c * bound + t % c == t);
        assert(c * bound >= t);
        assert(t % c <= 0);
        assert(false);
    }
}

/// One rendered entry: `key=min/mean/max`.
pub open spec fn entry_str(k: Seq<u8>, s: Stat) -> Seq<u8> {
    k + seq![61u8] + fixed_str(s.min) + seq![47u8] + fixed_str(round_div(s.total, s.count))
        + seq![47u8] + fixed_str(s.max)
}

/// The entries joined with `, `.
pub open spec fn entries_str(ps: Seq<(Seq<u8>, Stat)>) -> Seq<u8>
    decreases ps.len(),
{
    if ps.len() == 0 {
        Seq::empty()
    } else if ps.len() == 1 {
        entry_str(ps[0].0, ps[0].1)
    } else {
        entries_str(ps.drop_last()) + seq![44u8, 32u8] + entry_str(ps.last().0, ps.last().1)
    }
}

/// The whole summary line: the joined entries wrapped in braces.
pub open spec fn output_str(ps: Seq<(Seq<u8>, Stat)>) -> Seq<u8> {
    seq![123u8] + entries_str(ps) + seq![125u8]
}

/// Append the decimal digits of `n`.
fn push_digits(out: &mut Vec<u8>, n: u64)
    ensures
        final(out)@ == old(out)@ + dec_str(n as int),
    decreases n,
{
    if n < 10 {
        out.push(48 + (n as u8));
        proof {
            assert(out@ =~= old(out)@ + dec_str(n as int));
        }
    } else {
        push_digits(out, n / 10);
        out.push(48 + ((n % 10) as u8));
        proof {
            assert((n / 10) as int == (n as int) / 10);
            assert((n % 10) as int == (n as int) % 10);
            assert(out@ =~= old(out)@ + dec_str(n as int));
        }
    }
}

/// Append a fixed-point value with one fractional digit.
fn push_fixed(out: &mut Vec<u8>, v: i64)
    requires
        -value_limit() <= v <= value_limit(),
    ensures
        final(out)@ == old(out)@ + fixed_str(v as int),
{
    let a: u64;
    if v < 0 {
        out.push(45);
        a = (-v) as u64;
    } else {
        a = v as u64;
    }
    push_digits(out, a / 10);
    out.push(46);
    out.push(48 + ((a % 10) as u8));
    proof {
        assert((a / 10) as int == (a as int) / 10);
        assert((a % 10) as int == (a as int) % 10);
        assert(out@ =~= old(out)@ + fixed_str(v as int));
    }
}

/// The mean in tenths: `total / count` rounded to the nearest, ties away
/// from zero.
fn rounded_mean(total: i128, count: u64) -> (m: i64)
    requires
        count >= 1,
        -(count * value_limit()) <= total <= count * value_limit(),
    ensures
        m == round_div(total as int, count as int),
        -value_limit() <= m <= value_limit(),
{
    proof {
        lemma_round_div_bound(total as int, count as int, value_limit());
        assert(count * value_limit() < i128::MAX) by (nonlinear_arith)
            requires
                0 <= count <= u64::MAX,
        ;
    }
    let neg = total < 0;
    let a: u128 = if neg {
        (-total) as u128
    } else {
        total as u128
    };
    let c: u128 = count as u128;
    let q = a / c;
    let r = a % c;
    proof {
        assert(q == (a as int) / (c as int));
        assert(r == (a as int) % (c as int));
        if neg {
            lemma_round_div_nn_bound((-total) as int, count as int, value_limit());
        } else {
            lemma_round_div_nn_bound(total as int, count as int, value_limit());
        }
    }
    let m0: u128 = if 2 * r >= c {
        q + 1
    } else {
        q
    };
    let m1: i64 = m0 as i64;
    if neg {
        -m1
    } else {
        m1
    }
}

/// Render sorted (key, statistics) entries as the final summary line.
pub fn render_entries(entries: &Vec<(Vec<u8>, Record)>) -> (out: Vec<u8>)
    requires
        forall|i: int| 0 <= i < entries@.len() ==> stat_wf((#[trigger] entries@[i]).1@),
    ensures
        out@ == output_str(pair_views(entries@)),
{
    let ghost ps = pair_views(entries@);
    let mut out: Vec<u8> = Vec::new();
    out.push(123);
    let mut i: usize = 0;
    proof {
        assert(out@ =~= seq![123u8] + entries_str(ps.take(0)));
    }
    while i < entries.len()
        invariant
            i <= entries@.len(),
            ps == pair_views(entries@),
            forall|t: int| 0 <= t < entries@.len() ==> stat_wf((#[trigger] entries@[t]).1@),
            out@ == seq![123u8] + entries_str(ps.take(i as int)),
        decreases entries@.len() - i,
    {
        let ghost pre = out@;
        if i > 0 {
            out.push(44);
            out.push(32);
        }
        let ghost s = entries@[i as int].1@;
        proof {
            assert(stat_wf(s));
            assert(ps[i as int] == (entries@[i as int].0@, s));
        }
        let e = &entries[i];
        let key_slice = e.0.as_slice();
        out.extend_from_slice(key_slice);
        out.push(61);
        push_fixed(&mut out, e.1.min as i64);
        out.push(47);
        let mean = rounded_mean(e.1.total, e.1.count);
        push_fixed(&mut out, mean);
        out.push(47);
        push_fixed(&mut out, e.1.max as i64);
        proof {
            assert(ps.take(i as int + 1).drop_last() =~= ps.take(i as int));
            assert(ps.take(i as int + 1).last() == ps[i as int]);
            if i == 0 {
                assert(ps.take(1)[0] == ps[0]);
                assert(out@ =~= seq![123u8] + entries_str(ps.take(1)));
            } else {
                assert(out@ =~= seq![123u8] + entries_str(ps.take(i as int + 1)));
            }
        }
        i = i + 1;
    }
    out.push(125);
    proof {
        assert(ps.take(entries@.len() as int) =~= ps);
        assert(out@ =~= output_str(ps));
    }
    out
}

} // verus!
