//! The last few percentages, and their average.

use vstd::prelude::*;

verus! {

/// How many samples the average runs over.
pub const AVG_SAMPLES: usize = 30;

/// The sum of samples.
pub open spec fn sum(s: Seq<u8>) -> nat
    decreases s.len(),
{
    if s.len() == 0 {
        0
    } else {
        sum(s.drop_last()) + s.last() as nat
    }
}

/// The average of samples, rounded down; zero where there are none.
pub open spec fn average(s: Seq<u8>) -> int {
    if s.len() == 0 {
        0
    } else {
        sum(s) as int / s.len() as int
    }
}

/// Every sample is a percentage.
pub open spec fn percentages(s: Seq<u8>) -> bool {
    forall|i: int| 0 <= i < s.len() ==> #[trigger] s[i] <= 100
}

/// `s` with `v` at its end; a full window loses its first sample.
pub open spec fn pushed(s: Seq<u8>, v: u8) -> Seq<u8> {
    if s.len() >= AVG_SAMPLES {
        s.skip(1).push(v)
    } else {
        s.push(v)
    }
}

/// Adds a sample to the window.
pub fn push_recent(buf: &mut Vec<u8>, v: u8)
    ensures
        final(buf)@ == pushed(old(buf)@, v),
{
    if buf.len() >= AVG_SAMPLES {
        buf.remove(0);
        assert(buf@ =~= old(buf)@.skip(1));
    }
    buf.push(v);
}

/// A sum is at most its length times a bound on its samples.
proof fn lemma_sum_bounds(s: Seq<u8>, lo: u8, hi: u8)
    requires
        forall|i: int| 0 <= i < s.len() ==> lo <= #[trigger] s[i] <= hi,
    ensures
        lo * s.len() <= sum(s) <= hi * s.len(),
    decreases s.len(),
{
    if s.len() > 0 {
        lemma_sum_bounds(s.drop_last(), lo, hi);
        assert(lo <= s[s.len() - 1] <= hi);
        let n = s.len() as int;
        assert(lo * n == lo * (n - 1) + lo) by (nonlinear_arith);
        assert(hi * n == hi * (n - 1) + hi) by (nonlinear_arith);
    }
}

/// The sum of a beginning is at most the whole sum.
proof fn lemma_sum_take(s: Seq<u8>, n: int)
    requires
        0 <= n <= s.len(),
    ensures
        sum(s.take(n)) <= sum(s),
    decreases s.len(),
{
    if n == s.len() {
        assert(s.take(n) =~= s);
    } else {
        lemma_sum_take(s.drop_last(), n);
        assert(s.drop_last().take(n) =~= s.take(n));
    }
}

/// The samples of a window add up within 32 bits.
pub proof fn lemma_sum_fits(s: Seq<u8>)
    requires
        s.len() <= AVG_SAMPLES,
    ensures
        sum(s) <= u32::MAX,
{
    lemma_sum_bounds(s, 0, u8::MAX);
}

/// The average of the samples, rounded down. Samples are added up and counted in 32 bits.
pub fn rolling_avg(buf: &[u8]) -> (r: u8)
    requires
        buf@.len() <= u32::MAX,
        sum(buf@) <= u32::MAX,
    ensures
        r == average(buf@),
{
    if buf.len() == 0 {
        return 0;
    }
    let mut s: u32 = 0;
    let mut i: usize = 0;
    while i < buf.len()
        invariant
            i <= buf@.len(),
            s == sum(buf@.take(i as int)),
            sum(buf@) <= u32::MAX,
        decreases buf@.len() - i,
    {
        proof {
            assert(buf@.take(i + 1).drop_last() =~= buf@.take(i as int));
            lemma_sum_take(buf@, i + 1);
        }
        s = s + buf[i] as u32;
        i = i + 1;
    }
    assert(buf@.take(i as int) =~= buf@);
    proof {
        average_lies_between(buf@, 0, u8::MAX);
    }
    (s / buf.len() as u32) as u8
}

/// The average lies between the least and the greatest sample.
pub proof fn average_lies_between(s: Seq<u8>, lo: u8, hi: u8)
    requires
        s.len() > 0,
        forall|i: int| 0 <= i < s.len() ==> lo <= #[trigger] s[i] <= hi,
    ensures
        lo <= average(s) <= hi,
{
    lemma_sum_bounds(s, lo, hi);
    let n = s.len() as int;
    let t = sum(s) as int;
    assert(lo <= t / n <= hi) by (nonlinear_arith)
        requires
            n > 0,
            lo * n <= t <= hi * n,
    ;
}

/// A window never holds more than its limit, and always ends in the latest sample.
pub proof fn window_is_bounded(s: Seq<u8>, v: u8)
    requires
        s.len() <= AVG_SAMPLES,
    ensures
        0 < pushed(s, v).len() <= AVG_SAMPLES,
        pushed(s, v).last() == v,
{
}

/// A window of percentages stays one, and its average is a percentage.
pub proof fn percentages_stay(s: Seq<u8>, v: u8)
    requires
        percentages(s),
        v <= 100,
    ensures
        percentages(pushed(s, v)),
        average(s) <= 100,
        average(pushed(s, v)) <= 100,
{
    let t = pushed(s, v);
    assert forall|i: int| 0 <= i < t.len() implies #[trigger] t[i] <= 100 by {
        if i < t.len() - 1 {
            if s.len() >= AVG_SAMPLES {
                assert(t[i] == s[i + 1]);
            } else {
                assert(t[i] == s[i]);
            }
        }
    }
    average_lies_between(t, 0, 100);
    if s.len() > 0 {
        average_lies_between(s, 0, 100);
    }
}

/// The window after a series of samples.
pub open spec fn after_samples(s: Seq<u8>, vs: Seq<u8>) -> Seq<u8>
    decreases vs.len(),
{
    if vs.len() == 0 {
        s
    } else {
        pushed(after_samples(s, vs.drop_last()), vs.last())
    }
}

/// The last samples of a series, as many as the window holds.
pub open spec fn latest(vs: Seq<u8>) -> Seq<u8> {
    if vs.len() <= AVG_SAMPLES {
        vs
    } else {
        vs.skip(vs.len() - AVG_SAMPLES)
    }
}

/// A window that started empty holds the latest samples, and no others.
pub proof fn window_holds_latest(vs: Seq<u8>)
    ensures
        after_samples(Seq::empty(), vs) == latest(vs),
    decreases vs.len(),
{
    if vs.len() > 0 {
        let earlier = vs.drop_last();
        window_holds_latest(earlier);
        assert(pushed(latest(earlier), vs.last()) =~= latest(vs));
    } else {
        assert(vs =~= Seq::empty());
    }
}

/// A sum is that of its parts.
pub proof fn sums_add_up(a: Seq<u8>, v: u8, b: Seq<u8>)
    ensures
        sum(Seq::empty()) == 0,
        sum(seq![v]) == v,
        sum(a + b) == sum(a) + sum(b),
    decreases b.len(),
{
    reveal_with_fuel(sum, 2);
    assert(seq![v].drop_last() =~= Seq::empty());
    if b.len() == 0 {
        assert(a + b =~= a);
    } else {
        sums_add_up(a, v, b.drop_last());
        assert((a + b).drop_last() =~= a + b.drop_last());
        assert((a + b).last() == b.last());
    }
}

/// As many samples as there are, all of the size of the average, add up to the sum, or fall
/// short of it by less than one each.
pub proof fn average_is_of_the_sum(s: Seq<u8>)
    ensures
        s.len() == 0 ==> average(s) == 0,
        s.len() > 0 ==> average(s) * s.len() <= sum(s) < (average(s) + 1) * s.len(),
{
    if s.len() > 0 {
        let n = s.len() as int;
        let t = sum(s) as int;
        assert((t / n) * n <= t < (t / n + 1) * n) by (nonlinear_arith)
            requires
                n > 0,
                t >= 0,
        ;
    }
}

/// A sample comes last; of thirty the first gives way to it, and all others stay.
pub proof fn sample_comes_last(s: Seq<u8>, first: u8, v: u8)
    ensures
        s.len() < 30 ==> pushed(s, v) == s + seq![v],
        s.len() >= 29 ==> pushed(seq![first] + s, v) == s + seq![v],
{
    assert((seq![first] + s).skip(1) =~= s);
    assert(s.push(v) =~= s + seq![v]);
}

} // verus!
