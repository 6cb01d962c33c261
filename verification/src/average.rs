//! Fixed-capacity moving average over integer temperature samples.
//!
//! The buffer is a ring: below capacity a push appends, at capacity it
//! overwrites the oldest sample, so memory stays bounded forever. The average
//! is reported exactly, as the pair (sum of held samples, number of held
//! samples), never as a rounded quotient.

use vstd::prelude::*;

verus! {

/// Sum of a sequence of samples, as an unbounded integer.
pub open spec fn sum_of(s: Seq<i64>) -> int
    decreases s.len(),
{
    if s.len() == 0 {
        0
    } else {
        sum_of(s.drop_last()) + s.last()
    }
}

/// How one push changes the logical window: append while below capacity,
/// otherwise evict the oldest sample and then append.
pub open spec fn pushed(s: Seq<i64>, cap: nat, v: i64) -> Seq<i64> {
    if s.len() < cap {
        s.push(v)
    } else {
        s.drop_first().push(v)
    }
}

/// The window left after pushing each value of `vs`, in order, into a buffer
/// of capacity `cap` whose window held `w`.
pub open spec fn pushed_all(w: Seq<i64>, cap: nat, vs: Seq<i64>) -> Seq<i64>
    decreases vs.len(),
{
    if vs.len() == 0 {
        w
    } else {
        pushed(pushed_all(w, cap, vs.drop_last()), cap, vs.last())
    }
}

/// A buffer filled from empty holds exactly the most recent samples: all of
/// them while they fit the capacity (so the mean over a full or partial
/// window is the exact mean of everything pushed), and only the latest `cap`
/// once more have been pushed (the oldest evicted first).
pub proof fn lemma_window_holds_latest(cap: nat, vs: Seq<i64>)
    requires
        cap >= 1,
    ensures
        vs.len() <= cap ==> pushed_all(Seq::empty(), cap, vs) =~= vs,
        vs.len() > cap ==> pushed_all(Seq::empty(), cap, vs) =~= vs.skip(vs.len() - cap),
    decreases vs.len(),
{
    if vs.len() > 0 {
        lemma_window_holds_latest(cap, vs.drop_last());
        let w = pushed_all(Seq::empty(), cap, vs.drop_last());
        if vs.len() <= cap {
            assert(w.push(vs.last()) =~= vs);
        } else if vs.len() == cap + 1 {
            assert(w.drop_first().push(vs.last()) =~= vs.skip(1));
        } else {
            assert(w =~= vs.drop_last().skip(vs.len() - 1 - cap));
            assert(w.drop_first().push(vs.last()) =~= vs.skip(vs.len() - cap));
        }
    }
}

/// The window is empty exactly when nothing has been pushed since
/// construction: with the contract of `avg`, the mean is absent exactly then.
pub proof fn lemma_window_empty_iff_no_samples(cap: nat, vs: Seq<i64>)
    requires
        cap >= 1,
    ensures
        pushed_all(Seq::empty(), cap, vs).len() == 0 <==> vs.len() == 0,
{
    lemma_window_holds_latest(cap, vs);
}

/// `sum_of` splits over concatenation.
proof fn lemma_sum_append(a: Seq<i64>, b: Seq<i64>)
    ensures
        sum_of(a + b) == sum_of(a) + sum_of(b),
    decreases b.len(),
{
    if b.len() == 0 {
        assert(a + b =~= a);
    } else {
        lemma_sum_append(a, b.drop_last());
        assert((a + b).drop_last() =~= a + b.drop_last());
    }
}

/// The exact arithmetic mean of a non-empty group of samples, kept as the
/// unreduced fraction `sum / count` so that no precision is lost.
#[derive(Clone, Copy, PartialEq, Eq, Structural, Debug)]
pub struct Mean {
    pub sum: i128,
    pub count: usize,
}

impl Mean {
    /// "The threshold does not exceed this mean": for a mean of `count >= 1`
    /// samples, `threshold <= sum / count` in exact rational arithmetic,
    /// stated multiplied through by `count`.
    pub open spec fn spec_at_least(self, threshold: i64) -> bool {
        threshold * self.count <= self.sum
    }

    /// Inclusive comparison of a threshold against the mean: true exactly
    /// when the mean reaches the threshold, equality included.
    pub fn at_least(&self, threshold: i64) -> (r: bool)
        ensures
            r == self.spec_at_least(threshold),
    {
        let t = threshold as i128;
        let c = self.count as i128;
        proof {
            assert(-0x8000_0000_0000_0000 <= t <= 0x7fff_ffff_ffff_ffff);
            assert(0 <= c <= 0xffff_ffff_ffff_ffff);
            assert(-0x8000_0000_0000_0000_0000_0000_0000_0000 <= t * c
                <= 0x7fff_ffff_ffff_ffff_ffff_ffff_ffff_ffff) by (nonlinear_arith)
                requires
                    -0x8000_0000_0000_0000 <= t <= 0x7fff_ffff_ffff_ffff,
                    0 <= c <= 0xffff_ffff_ffff_ffff,
            ;
        }
        t * c <= self.sum
    }
}

/// Number of samples a smoothing window of `window_ms` spans when one sample
/// arrives every `interval_ms`: the window is first clamped up to at least one
/// interval, then divided by the interval, rounded up. Always at least 1.
pub open spec fn spec_window_capacity(window_ms: u64, interval_ms: u64) -> int {
    let w = if window_ms >= interval_ms {
        window_ms as int
    } else {
        interval_ms as int
    };
    (w - 1) / (interval_ms as int) + 1
}

/// Capacity of the moving average derived from the configured smoothing
/// window and sample interval, as the ceiling of their quotient after
/// clamping the window up to the interval.
pub fn window_capacity(window_ms: u64, interval_ms: u64) -> (c: u64)
    requires
        window_ms >= 1,
        interval_ms >= 1,
    ensures
        c == spec_window_capacity(window_ms, interval_ms),
        c >= 1,
        // c is the least sample count covering the clamped window:
        (c - 1) * interval_ms < (if window_ms >= interval_ms {
            window_ms as int
        } else {
            interval_ms as int
        }),
        (if window_ms >= interval_ms {
            window_ms as int
        } else {
            interval_ms as int
        }) <= c * interval_ms,
{
    let w = if window_ms >= interval_ms {
        window_ms
    } else {
        interval_ms
    };
    let c = (w - 1) / interval_ms + 1;
    proof {
        let wi = w as int;
        let ii = interval_ms as int;
        let q = (wi - 1) / ii;
        vstd::arithmetic::div_mod::lemma_fundamental_div_mod(wi - 1, ii);
        vstd::arithmetic::div_mod::lemma_mod_bound(wi - 1, ii);
        assert(wi - 1 == ii * q + (wi - 1) % ii);
        assert((q + 1 - 1) * ii == ii * q) by (nonlinear_arith);
        assert(wi <= (q + 1) * ii) by (nonlinear_arith)
            requires
                wi - 1 == ii * q + (wi - 1) % ii,
                0 <= (wi - 1) % ii < ii,
        ;
    }
    c
}

/// Smoothing buffer over the most recent `window` samples.
pub struct MovingAverage {
    window: usize,
    pointer: usize,
    values: Vec<i64>,
}

impl MovingAverage {
    /// Capacity fixed at construction.
    pub closed spec fn cap(&self) -> nat {
        self.window as nat
    }

    /// The samples currently held, oldest first.
    pub closed spec fn samples(&self) -> Seq<i64> {
        self.values@.subrange(self.pointer as int, self.values@.len() as int)
            + self.values@.subrange(0, self.pointer as int)
    }

    /// Internal consistency of the ring: the write pointer is meaningful only
    /// once the buffer is full, and the buffer never outgrows the window.
    pub closed spec fn wf(&self) -> bool {
        &&& self.window >= 1
        &&& self.values@.len() <= self.window
        &&& (self.values@.len() < self.window ==> self.pointer == 0)
        &&& self.pointer < self.window
        &&& self.pointer <= self.values@.len()
    }

    /// A fresh buffer holds no samples at all.
    pub fn new(window: usize) -> (ma: MovingAverage)
        requires
            window >= 1,
        ensures
            ma.wf(),
            ma.cap() == window,
            ma.samples().len() == 0,
    {
        MovingAverage { window, pointer: 0, values: Vec::new() }
    }

    /// Record one sample; once the buffer is full the oldest sample is
    /// evicted, so the window always holds the most recent `cap()` samples.
    pub fn push(&mut self, value: i64)
        requires
            old(self).wf(),
        ensures
            final(self).wf(),
            final(self).cap() == old(self).cap(),
            final(self).samples() == pushed(old(self).samples(), old(self).cap(), value),
    {
        if self.values.len() < self.window {
            self.values.push(value);
            proof {
                assert(final(self).samples() =~= pushed(
                    old(self).samples(),
                    old(self).cap(),
                    value,
                ));
            }
        } else {
            let p = self.pointer;
            self.values.set(p, value);
            self.pointer = if p + 1 == self.window { 0 } else { p + 1 };
            proof {
                assert(old(self).samples().len() == old(self).cap());
                assert(final(self).samples() =~= pushed(
                    old(self).samples(),
                    old(self).cap(),
                    value,
                ));
            }
        }
    }

    /// The exact mean of the held samples, absent while no sample has been
    /// pushed (so "no data yet" is never mistaken for a real reading).
    pub fn avg(&self) -> (r: Option<Mean>)
        requires
            self.wf(),
        ensures
            match r {
                Option::None => self.samples().len() == 0,
                Option::Some(m) => self.samples().len() > 0 && m.count == self.samples().len()
                    && m.sum == sum_of(self.samples()),
            },
    {
        let n = self.values.len();
        if n == 0 {
            return Option::None;
        }
        let mut acc: i128 = 0;
        let mut i: usize = 0;
        while i < n
            invariant
                n == self.values@.len(),
                i <= n,
                acc == sum_of(self.values@.subrange(0, i as int)),
                -((i as int) * 0x8000_0000_0000_0000) <= acc
                    <= (i as int) * 0x8000_0000_0000_0000,
            decreases n - i,
        {
            let v = self.values[i];
            proof {
                assert(self.values@.subrange(0, i + 1 as int).drop_last() =~= self.values@
                    .subrange(0, i as int));
                assert(n as int <= 0xffff_ffff_ffff_ffff);
            }
            acc = acc + (v as i128);
            i = i + 1;
        }
        proof {
            let p = self.pointer as int;
            let l = self.values@.len() as int;
            assert(self.values@.subrange(0, n as int) =~= self.values@);
            lemma_sum_append(self.values@.subrange(p, l), self.values@.subrange(0, p));
            lemma_sum_append(self.values@.subrange(0, p), self.values@.subrange(p, l));
            assert(self.values@.subrange(0, p) + self.values@.subrange(p, l) =~= self.values@);
        }
        Option::Some(Mean { sum: acc, count: n })
    }
}

} // verus!
