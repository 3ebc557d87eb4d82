use vstd::prelude::*;

verus! {

/// Minutes needed to read `words` words at `wpm` words per minute, rounded up
/// to the next whole minute: the smallest `m` with `m * wpm >= words`.
pub open spec fn minutes_for(words: nat, wpm: nat) -> nat {
    if words == 0 {
        0
    } else {
        ((words + wpm - 1) / wpm as int) as nat
    }
}

/// Calculate reading time in minutes from a word count, always rounding up to
/// the nearest minute. No words take no time, whatever the speed.
pub fn estimate_reading_time(word_count: usize, words_per_minute: usize) -> (minutes: usize)
    requires
        word_count == 0 || words_per_minute > 0,
    ensures
        minutes == minutes_for(word_count as nat, words_per_minute as nat),
        word_count > 0 ==> minutes * words_per_minute >= word_count,
        word_count > 0 ==> (minutes - 1) * words_per_minute < word_count,
{
    if word_count == 0 {
        return 0;
    }
    let q = word_count / words_per_minute;
    let r = word_count % words_per_minute;
    assert(r != 0 ==> q < usize::MAX) by (nonlinear_arith)
        requires
            words_per_minute > 0,
            q == word_count / words_per_minute,
            r == word_count % words_per_minute,
            word_count <= usize::MAX,
    {
        if r != 0 {
            assert(words_per_minute >= 2);
            assert(q * words_per_minute <= word_count);
            assert(q * 2 <= q * words_per_minute);
        }
    }
    let minutes = if r == 0 { q } else { q + 1 };
    proof {
        let w = word_count as int;
        let d = words_per_minute as int;
        assert(w == d * q + r) by (nonlinear_arith)
            requires d > 0, q == w / d, r == w % d;
        assert(minutes == (w + d - 1) / d) by (nonlinear_arith)
            requires d > 0, w == d * q + r, 0 <= r < d,
                minutes == (if r == 0 { q as int } else { q + 1 });
        assert(minutes * d >= w) by (nonlinear_arith)
            requires w == d * q + r, 0 <= r < d, minutes == (if r == 0 { q as int } else { q + 1 });
        assert((minutes - 1) * d < w) by (nonlinear_arith)
            requires w == d * q + r, 0 <= r < d, w > 0, minutes == (if r == 0 { q as int } else { q + 1 });
    }
    minutes
}

proof fn lemma_minutes_bounds(w: nat, p: nat)
    requires
        w > 0,
        p > 0,
    ensures
        minutes_for(w, p) * p >= w,
        (minutes_for(w, p) - 1) * p < w,
{
    let n = (w + p - 1) as int;
    let d = p as int;
    let m = minutes_for(w, p) as int;
    assert(m == n / d);
    assert(n == d * (n / d) + n % d && 0 <= n % d < d) by (nonlinear_arith)
        requires
            d > 0,
    ;
    assert(m * d >= w && (m - 1) * d < w) by (nonlinear_arith)
        requires
            n == d * m + n % d,
            0 <= n % d < d,
            n == w + d - 1,
    ;
}

/// More words never take less time, and a faster reading speed never takes
/// longer.
pub proof fn lemma_reading_time_monotone(w1: nat, w2: nat, p1: nat, p2: nat)
    requires
        0 < p1 <= p2,
        w1 <= w2,
    ensures
        minutes_for(w1, p1) <= minutes_for(w2, p1),
        minutes_for(w2, p2) <= minutes_for(w2, p1),
{
    if w1 > 0 {
        lemma_minutes_bounds(w1, p1);
        lemma_minutes_bounds(w2, p1);
        let a = minutes_for(w1, p1) as int;
        let b = minutes_for(w2, p1) as int;
        assert(a <= b) by (nonlinear_arith)
            requires
                (a - 1) * p1 < w1,
                b * p1 >= w2,
                w1 <= w2,
                p1 > 0,
        ;
    }
    if w2 > 0 {
        lemma_minutes_bounds(w2, p1);
        lemma_minutes_bounds(w2, p2);
        let a = minutes_for(w2, p2) as int;
        let b = minutes_for(w2, p1) as int;
        assert(a <= b) by (nonlinear_arith)
            requires
                (a - 1) * p2 < w2,
                b * p1 >= w2,
                0 < p1 <= p2,
                b >= 0,
        ;
    }
}

} // verus!
