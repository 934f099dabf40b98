//! Upsampling by a whole number with a polyphase FIR filter.
//!
//! The filter has `l * m` taps: `l` phases of `m` taps each. Every input sample gives `l` output
//! samples, one per phase, each the sum of products of that phase with the last `m` inputs. The
//! delay of the filter, `(l * m - 1) / 2` samples, is dropped from the start of the output.
//!
//! The arithmetic on samples is handed in: `mac(acc, tap, input)` adds one product to a sum.

use vstd::prelude::*;
use crate::frames::{lemma_at, nested};
use vstd::slice::slice_subrange;

verus! {

/// The state of an upsampler.
pub struct UpsamplerView<T> {
    /// The output samples per input sample.
    pub ratio: int,
    /// The taps per phase.
    pub taps: int,
    /// The taps of each phase, the one for the oldest input first.
    pub phases: Seq<Seq<T>>,
    /// The last `taps - 1` inputs, the oldest first.
    pub history: Seq<T>,
    /// The output samples still to be dropped.
    pub skip: int,
}

/// An upsampler for one channel.
pub struct Upsampler<T> {
    l: usize,
    m: usize,
    phases: Vec<Vec<T>>,
    hist: Vec<T>,
    skip: usize,
}

/// `partial` lists the sums on the way: `zero` first, then one more product of a tap and an input added
/// by each call of `mac`.
pub open spec fn are_partial_sums<T, F: Fn(T, T, T) -> T>(
    mac: F,
    zero: T,
    taps: Seq<T>,
    inputs: Seq<T>,
    partial: Seq<T>,
) -> bool {
    &&& partial.len() == taps.len() + 1
    &&& partial[0] == zero
    &&& forall|i: int|
        0 <= i < taps.len() ==> #[trigger] call_ensures(mac, (partial[i], taps[i], inputs[i]), partial[i + 1])
}

/// `y` is the sum that `mac` makes of the products of `taps` and `inputs`, taken in order from `zero`.
pub open spec fn is_sum<T, F: Fn(T, T, T) -> T>(mac: F, zero: T, taps: Seq<T>, inputs: Seq<T>, y: T) -> bool {
    exists|partial: Seq<T>| #[trigger]
        are_partial_sums(mac, zero, taps, inputs, partial) && y == partial[taps.len() as int]
}

/// `partial` lists the sums up to the first `k` products, the last of them `acc`.
spec fn sums_up_to<T, F: Fn(T, T, T) -> T>(
    mac: F,
    zero: T,
    taps: Seq<T>,
    inputs: Seq<T>,
    partial: Seq<T>,
    k: int,
    acc: T,
) -> bool {
    &&& partial.len() == k + 1
    &&& partial[0] == zero
    &&& partial[k] == acc
    &&& forall|i: int|
        0 <= i < k ==> #[trigger] call_ensures(mac, (partial[i], taps[i], inputs[i]), partial[i + 1])
}

/// One more product.
proof fn lemma_one_more<T, F: Fn(T, T, T) -> T>(
    mac: F,
    zero: T,
    taps: Seq<T>,
    inputs: Seq<T>,
    partial: Seq<T>,
    k: int,
    acc: T,
    next: T,
)
    requires
        k >= 0,
        sums_up_to(mac, zero, taps, inputs, partial, k, acc),
        call_ensures(mac, (acc, taps[k], inputs[k]), next),
    ensures
        sums_up_to(mac, zero, taps, inputs, partial.push(next), k + 1, next),
{
    let after = partial.push(next);
    assert forall|i: int| 0 <= i < k + 1 implies #[trigger] call_ensures(
        mac,
        (after[i], taps[i], inputs[i]),
        after[i + 1],
    ) by {
        if i < k {
            assert(after[i] == partial[i] && after[i + 1] == partial[i + 1]);
            assert(call_ensures(mac, (partial[i], taps[i], inputs[i]), partial[i + 1]));
        }
    }
}

impl<T> UpsamplerView<T> {
    /// The parts fit together.
    pub open spec fn wf(self) -> bool {
        &&& self.ratio >= 2
        &&& self.taps >= 2
        &&& self.phases.len() == self.ratio
        &&& forall|p: int| 0 <= p < self.ratio ==> (#[trigger] self.phases[p]).len() == self.taps
        &&& self.history.len() == self.taps - 1
        &&& self.skip >= 0
    }

    /// The `taps` inputs that end with input `t` of `x`.
    pub open spec fn window(self, x: Seq<T>, t: int) -> Seq<T> {
        (self.history + x).subrange(t, t + self.taps)
    }

    /// `raw` is what the filter makes of `x`, the delay included: `ratio` samples per input, sample
    /// `k` by phase `k % ratio` from the inputs up to `k / ratio`.
    pub open spec fn filters<F: Fn(T, T, T) -> T>(self, mac: F, zero: T, x: Seq<T>, raw: Seq<T>) -> bool {
        &&& raw.len() == x.len() * self.ratio
        &&& forall|k: int|
            0 <= k < raw.len() ==> is_sum(
                mac,
                zero,
                self.phases[k % self.ratio],
                self.window(x, k / self.ratio),
                #[trigger] raw[k],
            )
    }

    /// The output samples dropped while `x` is processed.
    pub open spec fn dropped(self, x: Seq<T>) -> int {
        if self.skip < x.len() * self.ratio {
            self.skip
        } else {
            x.len() * self.ratio
        }
    }

    /// The state after `x`.
    pub open spec fn advanced(self, x: Seq<T>) -> Self {
        UpsamplerView {
            history: (self.history + x).skip(x.len() as int),
            skip: self.skip - self.dropped(x),
            ..self
        }
    }

    /// `out` is what an upsampler in this state gives for `x`.
    pub open spec fn gives<F: Fn(T, T, T) -> T>(self, mac: F, zero: T, x: Seq<T>, out: Seq<T>) -> bool {
        exists|raw: Seq<T>| #[trigger] self.filters(mac, zero, x, raw) && out == raw.skip(self.dropped(x))
    }
}

/// The inputs handed in when the input has ended.
pub open spec fn flush_len(taps: int) -> int {
    taps / 2 + 1
}

/// The delay of a filter with `l` phases of `m` taps.
pub open spec fn delay(l: int, m: int) -> int {
    (l * m - 1) / 2
}

/// Phase `p` of a filter: every `l`-th tap from `p` on, the last one first.
pub open spec fn phase_of<T>(h: Seq<T>, l: int, m: int, p: int) -> Seq<T> {
    Seq::new(m as nat, |k: int| h[(m - 1 - k) * l + p])
}

impl<T: Copy> Upsampler<T> {
    /// The state as a mathematical value.
    pub closed spec fn view(&self) -> UpsamplerView<T> {
        UpsamplerView {
            ratio: self.l as int,
            taps: self.m as int,
            phases: nested(self.phases@),
            history: self.hist@,
            skip: self.skip as int,
        }
    }

    /// An upsampler by `l` with `m` taps per phase and the filter `h`, before any input.
    pub fn new(l: usize, m: usize, h: &[T], zero: T) -> (u: Upsampler<T>)
        requires
            l >= 2,
            m >= 2,
            h@.len() == l * m,
        ensures
            u@.wf(),
            u@.ratio == l,
            u@.taps == m,
            u@.phases == Seq::new(l as nat, |p: int| phase_of(h@, l as int, m as int, p)),
            u@.history == Seq::new((m - 1) as nat, |i: int| zero),
            u@.skip == delay(l as int, m as int),
    {
        let n = h.len();
        assert(l * m >= 4) by (nonlinear_arith)
            requires
                l >= 2,
                m >= 2,
        ;
        let mut phases: Vec<Vec<T>> = Vec::new();
        for p in 0..l
            invariant
                l >= 2,
                m >= 2,
                n == h@.len() == l * m,
                phases@.len() == p,
                forall|q: int| 0 <= q < p ==> (#[trigger] phases@[q])@ == phase_of(h@, l as int, m as int, q),
        {
            let mut phase: Vec<T> = Vec::new();
            for k in 0..m
                invariant
                    p < l,
                    n == h@.len() == l * m,
                    phase@.len() == k,
                    forall|i: int| 0 <= i < k ==> phase@[i] == phase_of(h@, l as int, m as int, p as int)[i],
            {
                assert((m - 1 - k) * l + p < l * m && 0 <= (m - 1 - k) * l <= l * m) by (nonlinear_arith)
                    requires
                        p < l,
                        k < m,
                        0 <= k,
                ;
                phase.push(h[(m - 1 - k) * l + p]);
            }
            assert(phase@ =~= phase_of(h@, l as int, m as int, p as int));
            phases.push(phase);
        }
        let mut hist: Vec<T> = Vec::new();
        for i in 0..(m - 1)
            invariant
                m >= 2,
                hist@ == Seq::new(i as nat, |j: int| zero),
        {
            hist.push(zero);
        }
        let u = Upsampler { l, m, phases, hist, skip: (n - 1) / 2 };
        assert(u@.phases =~= Seq::new(l as nat, |p: int| phase_of(h@, l as int, m as int, p)));
        u
    }

    /// The output samples per input sample.
    pub fn ratio(&self) -> (l: usize)
        ensures
            l == self@.ratio,
    {
        self.l
    }

    /// The sum of products of phase `p` with the inputs of a window.
    fn sum<F: Fn(T, T, T) -> T>(&self, window: &[T], p: usize, zero: T, mac: &F) -> (y: T)
        requires
            self@.wf(),
            p < self.l,
            window@.len() == self.m,
            forall|a: T, c: T, v: T| call_requires(*mac, (a, c, v)),
        ensures
            is_sum(*mac, zero, self@.phases[p as int], window@, y),
    {
        let taps = self.phases[p].as_slice();
        assert(taps@ == self@.phases[p as int]);
        let mut acc = zero;
        let ghost mut partial = seq![zero];
        let m = self.m;
        for k in 0..m
            invariant
                taps@.len() == m,
                window@.len() == m,
                forall|a: T, c: T, v: T| call_requires(*mac, (a, c, v)),
                sums_up_to(*mac, zero, taps@, window@, partial, k as int, acc),
        {
            let v = window[k];
            let next = mac(acc, taps[k], v);
            proof {
                lemma_one_more(*mac, zero, taps@, window@, partial, k as int, acc, next);
                partial = partial.push(next);
            }
            acc = next;
        }
        assert(are_partial_sums(*mac, zero, taps@, window@, partial));
        acc
    }

    /// The sums of phases `p` to `p + 3`, all with one window. No sum has to wait for another, so this is faster than one
    /// after the other.
    fn four_sums<F: Fn(T, T, T) -> T>(&self, window: &[T], p: usize, zero: T, mac: &F) -> (y: (T, T, T, T))
        requires
            self@.wf(),
            p + 3 < self.l,
            window@.len() == self.m,
            forall|a: T, c: T, v: T| call_requires(*mac, (a, c, v)),
        ensures
            is_sum(*mac, zero, self@.phases[p as int], window@, y.0),
            is_sum(*mac, zero, self@.phases[p + 1], window@, y.1),
            is_sum(*mac, zero, self@.phases[p + 2], window@, y.2),
            is_sum(*mac, zero, self@.phases[p + 3], window@, y.3),
    {
        let taps_0 = self.phases[p].as_slice();
        let taps_1 = self.phases[p + 1].as_slice();
        let taps_2 = self.phases[p + 2].as_slice();
        let taps_3 = self.phases[p + 3].as_slice();
        assert(taps_0@ == self@.phases[p as int]);
        assert(taps_1@ == self@.phases[p + 1]);
        assert(taps_2@ == self@.phases[p + 2]);
        assert(taps_3@ == self@.phases[p + 3]);
        let (mut acc_0, mut acc_1, mut acc_2, mut acc_3) = (zero, zero, zero, zero);
        let ghost mut partial_0 = seq![zero];
        let ghost mut partial_1 = seq![zero];
        let ghost mut partial_2 = seq![zero];
        let ghost mut partial_3 = seq![zero];
        let m = self.m;
        for k in 0..m
            invariant
                taps_0@.len() == m,
                taps_1@.len() == m,
                taps_2@.len() == m,
                taps_3@.len() == m,
                window@.len() == m,
                forall|a: T, c: T, v: T| call_requires(*mac, (a, c, v)),
                sums_up_to(*mac, zero, taps_0@, window@, partial_0, k as int, acc_0),
                sums_up_to(*mac, zero, taps_1@, window@, partial_1, k as int, acc_1),
                sums_up_to(*mac, zero, taps_2@, window@, partial_2, k as int, acc_2),
                sums_up_to(*mac, zero, taps_3@, window@, partial_3, k as int, acc_3),
        {
            let v = window[k];
            let next_0 = mac(acc_0, taps_0[k], v);
            let next_1 = mac(acc_1, taps_1[k], v);
            let next_2 = mac(acc_2, taps_2[k], v);
            let next_3 = mac(acc_3, taps_3[k], v);
            proof {
                lemma_one_more(*mac, zero, taps_0@, window@, partial_0, k as int, acc_0, next_0);
                lemma_one_more(*mac, zero, taps_1@, window@, partial_1, k as int, acc_1, next_1);
                lemma_one_more(*mac, zero, taps_2@, window@, partial_2, k as int, acc_2, next_2);
                lemma_one_more(*mac, zero, taps_3@, window@, partial_3, k as int, acc_3, next_3);
                partial_0 = partial_0.push(next_0);
                partial_1 = partial_1.push(next_1);
                partial_2 = partial_2.push(next_2);
                partial_3 = partial_3.push(next_3);
            }
            acc_0 = next_0;
            acc_1 = next_1;
            acc_2 = next_2;
            acc_3 = next_3;
        }
        assert(are_partial_sums(*mac, zero, taps_0@, window@, partial_0));
        assert(are_partial_sums(*mac, zero, taps_1@, window@, partial_1));
        assert(are_partial_sums(*mac, zero, taps_2@, window@, partial_2));
        assert(are_partial_sums(*mac, zero, taps_3@, window@, partial_3));
        (acc_0, acc_1, acc_2, acc_3)
    }

    /// Processes one block of input and returns what comes out.
    pub fn process<F: Fn(T, T, T) -> T>(&mut self, x: &[T], zero: T, mac: &F) -> (out: Vec<T>)
        requires
            old(self)@.wf(),
            forall|a: T, c: T, v: T| call_requires(*mac, (a, c, v)),
        ensures
            final(self)@.wf(),
            final(self)@ == old(self)@.advanced(x@),
            old(self)@.gives(*mac, zero, x@, out@),
    {
        let l = self.l;
        let m = self.m;
        let mut buf: Vec<T> = Vec::new();
        for i in 0..self.hist.len()
            invariant
                buf@ == self.hist@.take(i as int),
        {
            buf.push(self.hist[i]);
        }
        for i in 0..x.len()
            invariant
                buf@ == self.hist@ + x@.take(i as int),
        {
            buf.push(x[i]);
        }
        assert(buf@ =~= self.hist@ + x@);
        let total = buf.len();
        let mut out: Vec<T> = Vec::new();
        assert(0 * l == 0);
        let ghost start = self@;
        for t in 0..x.len()
            invariant
                self@ == start,
                start == old(self)@,
                start.wf(),
                l == self.l,
                m == self.m,
                total == buf@.len(),
                buf@ == self.hist@ + x@,
                buf@.len() == m - 1 + x@.len(),
                forall|a: T, c: T, v: T| call_requires(*mac, (a, c, v)),
                out@.len() == t * l,
                forall|k: int|
                    0 <= k < out@.len() ==> is_sum(
                        *mac,
                        zero,
                        start.phases[k % start.ratio],
                        start.window(x@, k / start.ratio),
                        #[trigger] out@[k],
                    ),
        {
            let window = slice_subrange(buf.as_slice(), t, t + m);
            assert(window@ == start.window(x@, t as int));
            let mut p: usize = 0;
            while p < l
                invariant
                    p <= l,
                    self@ == start,
                    start.wf(),
                    l == self.l,
                    m == self.m,
                    t < x@.len(),
                    window@ == start.window(x@, t as int),
                    window@.len() == m,
                    forall|a: T, c: T, v: T| call_requires(*mac, (a, c, v)),
                    out@.len() == t * l + p,
                    forall|k: int|
                        0 <= k < out@.len() ==> is_sum(
                            *mac,
                            zero,
                            start.phases[k % start.ratio],
                            start.window(x@, k / start.ratio),
                            #[trigger] out@[k],
                        ),
                decreases l - p,
            {
                proof {
                    lemma_at(t as int, p as int, l as int);
                }
                if l - p >= 4 {
                    proof {
                        lemma_at(t as int, p + 1, l as int);
                        lemma_at(t as int, p + 2, l as int);
                        lemma_at(t as int, p + 3, l as int);
                    }
                    let y = self.four_sums(window, p, zero, mac);
                    out.push(y.0);
                    out.push(y.1);
                    out.push(y.2);
                    out.push(y.3);
                    p = p + 4;
                } else {
                    let y = self.sum(window, p, zero, mac);
                    out.push(y);
                    p = p + 1;
                }
            }
            assert((t + 1) * l == t * l + l) by (nonlinear_arith);
        }
        let ghost raw = out@;
        let keep = m - 1;
        let mut hist: Vec<T> = Vec::new();
        for i in 0..keep
            invariant
                total == buf@.len(),
                keep <= total,
                hist@.len() == i,
                forall|j: int| 0 <= j < i ==> hist@[j] == buf@[total - keep + j],
        {
            hist.push(buf[total - keep + i]);
        }
        self.hist = hist;
        assert(self.hist@ =~= (old(self).hist@ + x@).skip(x@.len() as int));
        let drop = if self.skip < out.len() {
            self.skip
        } else {
            out.len()
        };
        self.skip = self.skip - drop;
        let kept = out.split_off(drop);
        assert(kept@ =~= raw.skip(drop as int));
        proof {
            assert(start.filters(*mac, zero, x@, raw));
            assert(self@.phases == start.phases);
            assert(self@ == start.advanced(x@));
        }
        kept
    }

    /// Called when the input has ended: pushes the delay out with silence.
    pub fn flush<F: Fn(T, T, T) -> T>(&mut self, zero: T, mac: &F) -> (out: Vec<T>)
        requires
            old(self)@.wf(),
            forall|a: T, c: T, v: T| call_requires(*mac, (a, c, v)),
        ensures
            final(self)@.wf(),
            ({
                let silence = Seq::new(flush_len(old(self)@.taps) as nat, |i: int| zero);
                &&& final(self)@ == old(self)@.advanced(silence)
                &&& old(self)@.gives(*mac, zero, silence, out@)
            }),
    {
        let n: usize = self.m / 2 + 1;
        let mut zeros: Vec<T> = Vec::new();
        for i in 0..n
            invariant
                zeros@ == Seq::new(i as nat, |j: int| zero),
        {
            zeros.push(zero);
        }
        self.process(zeros.as_slice(), zero, mac)
    }
}

/// What comes out for two blocks in turn may come out for both at once, and the state afterwards is the same.
pub proof fn blocks_may_be_joined<T, F: Fn(T, T, T) -> T>(
    u: UpsamplerView<T>,
    mac: F,
    zero: T,
    a: Seq<T>,
    b: Seq<T>,
    out_a: Seq<T>,
    out_b: Seq<T>,
)
    requires
        u.wf(),
        u.gives(mac, zero, a, out_a),
        u.advanced(a).gives(mac, zero, b, out_b),
    ensures
        u.gives(mac, zero, a + b, out_a + out_b),
        u.advanced(a + b) == u.advanced(a).advanced(b),
{
    let r = u.ratio;
    let v = u.advanced(a);
    let raw_a = choose|raw: Seq<T>| #[trigger] u.filters(mac, zero, a, raw) && out_a == raw.skip(u.dropped(a));
    let raw_b = choose|raw: Seq<T>| #[trigger] v.filters(mac, zero, b, raw) && out_b == raw.skip(v.dropped(b));
    let raw = raw_a + raw_b;
    assert((a + b).len() * r == a.len() * r + b.len() * r) by (nonlinear_arith)
        requires
            (a + b).len() == a.len() + b.len(),
    ;
    assert(a.len() * r >= 0 && b.len() * r >= 0) by (nonlinear_arith)
        requires
            r >= 2,
    ;
    assert((u.history + (a + b)) =~= (u.history + a) + b);
    assert forall|k: int| 0 <= k < raw.len() implies is_sum(
        mac,
        zero,
        u.phases[k % r],
        u.window(a + b, k / r),
        #[trigger] raw[k],
    ) by {
        if k < raw_a.len() {
            crate::frames::lemma_position(k, r, a.len() as int);
            assert(u.window(a + b, k / r) =~= u.window(a, k / r));
            assert(raw[k] == raw_a[k]);
        } else {
            let j = k - raw_a.len();
            crate::frames::lemma_position(j, r, b.len() as int);
            crate::frames::lemma_at(a.len() + j / r, j % r, r);
            assert(k == crate::frames::at(a.len() + j / r, j % r, r)) by (nonlinear_arith)
                requires
                    j == (j / r) * r + j % r,
                    k == j + a.len() * r,
                    crate::frames::at(a.len() + j / r, j % r, r) == (a.len() + j / r) * r + j % r,
            ;
            assert(u.window(a + b, k / r) =~= v.window(b, j / r));
            assert(raw[k] == raw_b[j]);
        }
    }
    assert(u.filters(mac, zero, a + b, raw));
    assert(out_a + out_b =~= raw.skip(u.dropped(a + b)));
    assert(u.advanced(a + b).history =~= v.advanced(b).history);
}

/// `mac` always makes the same of the same values.
pub open spec fn is_function<T, F: Fn(T, T, T) -> T>(mac: F) -> bool {
    forall|acc: T, c: T, v: T, y: T, z: T|
        #![trigger call_ensures(mac, (acc, c, v), y), call_ensures(mac, (acc, c, v), z)]
        call_ensures(mac, (acc, c, v), y) && call_ensures(mac, (acc, c, v), z) ==> y == z
}

/// The sums on the way are the same, up to the one after `k` products.
proof fn lemma_one_way<T, F: Fn(T, T, T) -> T>(
    mac: F,
    zero: T,
    taps: Seq<T>,
    inputs: Seq<T>,
    p: Seq<T>,
    q: Seq<T>,
    k: int,
)
    requires
        is_function(mac),
        are_partial_sums(mac, zero, taps, inputs, p),
        are_partial_sums(mac, zero, taps, inputs, q),
        0 <= k <= taps.len(),
    ensures
        p[k] == q[k],
    decreases k,
{
    if k > 0 {
        lemma_one_way(mac, zero, taps, inputs, p, q, k - 1);
        let i = k - 1;
        assert(call_ensures(mac, (p[i], taps[i], inputs[i]), p[i + 1]));
        assert(call_ensures(mac, (q[i], taps[i], inputs[i]), q[i + 1]));
    }
}

/// There is one sum.
proof fn lemma_one_sum<T, F: Fn(T, T, T) -> T>(mac: F, zero: T, taps: Seq<T>, inputs: Seq<T>, y: T, z: T)
    requires
        is_function(mac),
        is_sum(mac, zero, taps, inputs, y),
        is_sum(mac, zero, taps, inputs, z),
    ensures
        y == z,
{
    let p = choose|partial: Seq<T>| #[trigger]
        are_partial_sums(mac, zero, taps, inputs, partial) && y == partial[taps.len() as int];
    let q = choose|partial: Seq<T>| #[trigger]
        are_partial_sums(mac, zero, taps, inputs, partial) && z == partial[taps.len() as int];
    lemma_one_way(mac, zero, taps, inputs, p, q, taps.len() as int);
}

/// There is one output.
proof fn lemma_one_output<T, F: Fn(T, T, T) -> T>(
    u: UpsamplerView<T>,
    mac: F,
    zero: T,
    x: Seq<T>,
    out: Seq<T>,
    other: Seq<T>,
)
    requires
        is_function(mac),
        u.gives(mac, zero, x, out),
        u.gives(mac, zero, x, other),
    ensures
        out == other,
{
    let r = choose|raw: Seq<T>| #[trigger] u.filters(mac, zero, x, raw) && out == raw.skip(u.dropped(x));
    let s = choose|raw: Seq<T>| #[trigger] u.filters(mac, zero, x, raw) && other == raw.skip(u.dropped(x));
    assert forall|k: int| 0 <= k < r.len() implies r[k] == s[k] by {
        lemma_one_sum(mac, zero, u.phases[k % u.ratio], u.window(x, k / u.ratio), r[k], s[k]);
    }
    assert(r =~= s);
}

impl<T> UpsamplerView<T> {
    /// `outs` is what comes out for the blocks in turn.
    pub open spec fn gives_in_turn<F: Fn(T, T, T) -> T>(
        self,
        mac: F,
        zero: T,
        blocks: Seq<Seq<T>>,
        outs: Seq<Seq<T>>,
    ) -> bool
        decreases blocks.len(),
    {
        &&& outs.len() == blocks.len()
        &&& blocks.len() > 0 ==> {
            &&& self.gives(mac, zero, blocks[0], outs[0])
            &&& self.advanced(blocks[0]).gives_in_turn(mac, zero, blocks.drop_first(), outs.drop_first())
        }
    }

    /// The state after blocks in turn.
    pub open spec fn advanced_in_turn(self, blocks: Seq<Seq<T>>) -> Self
        decreases blocks.len(),
    {
        if blocks.len() == 0 {
            self
        } else {
            self.advanced(blocks[0]).advanced_in_turn(blocks.drop_first())
        }
    }
}

/// What comes out for blocks in turn may come out for all of them at once.
proof fn lemma_joined<T, F: Fn(T, T, T) -> T>(
    u: UpsamplerView<T>,
    mac: F,
    zero: T,
    blocks: Seq<Seq<T>>,
    outs: Seq<Seq<T>>,
)
    requires
        u.wf(),
        u.gives_in_turn(mac, zero, blocks, outs),
    ensures
        u.gives(mac, zero, blocks.flatten(), outs.flatten()),
        u.advanced(blocks.flatten()) == u.advanced_in_turn(blocks),
    decreases blocks.len(),
{
    if blocks.len() == 0 {
        let none = Seq::<T>::empty();
        assert(0 * u.ratio == 0);
        assert(blocks.flatten() =~= none && outs.flatten() =~= none);
        assert(u.filters(mac, zero, none, none));
        assert(none =~= none.skip(u.dropped(none)));
        assert(u.advanced(none).history =~= u.history);
    } else {
        let v = u.advanced(blocks[0]);
        assert(blocks[0].len() * u.ratio >= 0) by (nonlinear_arith)
            requires
                u.ratio >= 2,
        ;
        lemma_joined(v, mac, zero, blocks.drop_first(), outs.drop_first());
        blocks_may_be_joined(
            u,
            mac,
            zero,
            blocks[0],
            blocks.drop_first().flatten(),
            outs[0],
            outs.drop_first().flatten(),
        );
    }
}

/// Cutting the input into blocks changes nothing: however it is cut, what comes out for the blocks in turn is,
/// put together, what comes out for all of it at once, and the state afterwards is the same.
pub proof fn cutting_changes_nothing<T, F: Fn(T, T, T) -> T>(
    u: UpsamplerView<T>,
    mac: F,
    zero: T,
    blocks: Seq<Seq<T>>,
    outs: Seq<Seq<T>>,
    out: Seq<T>,
)
    requires
        u.wf(),
        is_function(mac),
        u.gives_in_turn(mac, zero, blocks, outs),
        u.gives(mac, zero, blocks.flatten(), out),
    ensures
        outs.flatten() == out,
        u.advanced_in_turn(blocks) == u.advanced(blocks.flatten()),
{
    lemma_joined(u, mac, zero, blocks, outs);
    lemma_one_output(u, mac, zero, blocks.flatten(), outs.flatten(), out);
}

/// With the delay made up for, what comes out covers what went in: `ratio` samples for every input, and then
/// only what is left of the silence handed in at the end once the delay is taken off.
pub proof fn output_covers_the_input<T, F: Fn(T, T, T) -> T>(
    u: UpsamplerView<T>,
    mac: F,
    zero: T,
    x: Seq<T>,
    out: Seq<T>,
    tail: Seq<T>,
)
    requires
        u.wf(),
        u.skip == delay(u.ratio, u.taps),
        u.gives(mac, zero, x, out),
        u.advanced(x).gives(mac, zero, Seq::new(flush_len(u.taps) as nat, |i: int| zero), tail),
    ensures
        out.len() + tail.len() == x.len() * u.ratio + flush_len(u.taps) * u.ratio - delay(u.ratio, u.taps),
        flush_len(u.taps) * u.ratio >= delay(u.ratio, u.taps),
{
    let silence = Seq::new(flush_len(u.taps) as nat, |i: int| zero);
    let l = u.ratio;
    let m = u.taps;
    assert((m / 2 + 1) * l >= (l * m - 1) / 2) by (nonlinear_arith)
        requires
            l >= 2,
            m >= 2,
    ;
    assert(x.len() * l >= 0) by (nonlinear_arith)
        requires
            l >= 2,
    ;
    let raw = choose|raw: Seq<T>| #[trigger] u.filters(mac, zero, x, raw) && out == raw.skip(u.dropped(x));
    let v = u.advanced(x);
    let raw2 = choose|raw: Seq<T>| #[trigger]
        v.filters(mac, zero, silence, raw) && tail == raw.skip(v.dropped(silence));
    assert(raw.len() == x.len() * l);
    assert(raw2.len() == silence.len() * l);
}

/// Each tap meets the input to which it belongs: with `l` outputs for every input, output `n` is the sum over inputs `j` of tap
/// `n - l * j` times input `j`, the input `m - 1` places back first, with silence before the first. The delay, half of the taps but
/// one, is not put out.
pub proof fn every_output_is_a_sum_over_the_last_inputs<T: Copy, F: Fn(T, T, T) -> T>(
    l: usize,
    m: usize,
    h: &[T],
    zero: T,
    u: Upsampler<T>,
    mac: F,
    x: Seq<T>,
    out: Seq<T>,
    n: int,
    taps: Seq<T>,
    inputs: Seq<T>,
)
    requires
        l >= 2,
        m >= 2,
        h@.len() == l * m,
        call_ensures(Upsampler::<T>::new, (l, m, h, zero), u),
        u@.gives(mac, zero, x, out),
        (l * m - 1) / 2 <= n < x.len() * l,
        taps.len() == m,
        inputs.len() == m,
        forall|k: int|
            #![trigger taps[k]]
            #![trigger inputs[k]]
            0 <= k < m ==> {
                let j = n / (l as int) - (m - 1) + k;
                &&& taps[k] == h@[n - l * j]
                &&& inputs[k] == (if j >= 0 {
                    x[j]
                } else {
                    zero
                })
            },
    ensures
        out.len() == x.len() * l - (l * m - 1) / 2,
        is_sum(mac, zero, taps, inputs, out[n - (l * m - 1) / 2]),
{
    let r = l as int;
    let v = u@;
    let raw = choose|raw: Seq<T>| #[trigger] v.filters(mac, zero, x, raw) && out == raw.skip(v.dropped(x));
    let t = n / r;
    let p = n % r;
    assert(l * m >= 4) by (nonlinear_arith)
        requires
            l >= 2,
            m >= 2,
    ;
    vstd::arithmetic::div_mod::lemma_fundamental_div_mod(n, r);
    vstd::arithmetic::div_mod::lemma_mod_bound(n, r);
    vstd::arithmetic::div_mod::lemma_div_pos_is_pos(n, r);
    crate::frames::lemma_position(n, r, x.len() as int);
    assert(raw.len() == x.len() * r);
    assert(is_sum(mac, zero, v.phases[p], v.window(x, t), raw[n]));
    assert(v.window(x, t) =~= inputs) by {
        assert forall|k: int| 0 <= k < m implies v.window(x, t)[k] == inputs[k] by {
            assert(v.window(x, t)[k] == (v.history + x)[t + k]);
        }
    }
    assert(v.phases[p] =~= taps) by {
        assert forall|k: int| 0 <= k < m implies v.phases[p][k] == taps[k] by {
            let j = t - (m - 1) + k;
            assert((m - 1 - k) * l + p == n - l * j) by (nonlinear_arith)
                requires
                    n == r * t + p,
                    r == l,
                    j == t - (m - 1) + k,
            ;
        }
    }
}

/// At the end half as many silent inputs as there are taps in a phase, and one more, push out what is left.
pub proof fn the_end_is_pushed_out_with_silence<T: Copy, F: Fn(T, T, T) -> T>()
    ensures
        forall|u: &mut Upsampler<T>, zero: T, mac: &F, out: Vec<T>, silence: Seq<T>|
            #![trigger call_ensures(Upsampler::<T>::flush::<F>, (u, zero, mac), out), (*u)@.gives(*mac, zero, silence, out@)]
            call_ensures(Upsampler::<T>::flush::<F>, (u, zero, mac), out) && silence.len() == (*u)@.taps / 2 + 1 && (
            forall|i: int| 0 <= i < silence.len() ==> silence[i] == zero) ==> (*u)@.gives(*mac, zero, silence, out@),
{
    assert forall|u: &mut Upsampler<T>, zero: T, mac: &F, out: Vec<T>, silence: Seq<T>|
        #![trigger call_ensures(Upsampler::<T>::flush::<F>, (u, zero, mac), out), (*u)@.gives(*mac, zero, silence, out@)]
        call_ensures(Upsampler::<T>::flush::<F>, (u, zero, mac), out) && silence.len() == (*u)@.taps / 2 + 1 && (forall|
            i: int,
        | 0 <= i < silence.len() ==> silence[i] == zero) implies (*u)@.gives(*mac, zero, silence, out@) by {
        assert(silence =~= Seq::new(flush_len((*u)@.taps) as nat, |i: int| zero));
    }
}

/// Nothing is lost between blocks: the last inputs are kept for the next one, and what is still to be dropped of the delay.
pub proof fn the_last_inputs_are_kept_for_the_next_block<T: Copy, F: Fn(T, T, T) -> T>()
    ensures
        forall|u: &mut Upsampler<T>, x: &[T], zero: T, mac: &F, out: Vec<T>| #[trigger]
            call_ensures(Upsampler::<T>::process::<F>, (u, x, zero, mac), out) && (*u)@.wf() ==> {
                let v = (*u)@;
                let z = (*final(u))@;
                &&& v.gives(*mac, zero, x@, out@)
                &&& z.history.len() == v.history.len()
                &&& forall|i: int| 0 <= i < z.history.len() ==> #[trigger] z.history[i] == (v.history + x@)[x@.len() + i]
                &&& out@.len() + (v.skip - z.skip) == x@.len() * v.ratio
                &&& z.skip > 0 ==> out@.len() == 0
                &&& z.ratio == v.ratio && z.taps == v.taps && z.phases == v.phases
            },
{
    assert forall|u: &mut Upsampler<T>, x: &[T], zero: T, mac: &F, out: Vec<T>| #[trigger]
        call_ensures(Upsampler::<T>::process::<F>, (u, x, zero, mac), out) && (*u)@.wf() implies {
        let v = (*u)@;
        let z = (*final(u))@;
        &&& v.gives(*mac, zero, x@, out@)
        &&& z.history.len() == v.history.len()
        &&& forall|i: int| 0 <= i < z.history.len() ==> #[trigger] z.history[i] == (v.history + x@)[x@.len() + i]
        &&& out@.len() + (v.skip - z.skip) == x@.len() * v.ratio
        &&& z.skip > 0 ==> out@.len() == 0
        &&& z.ratio == v.ratio && z.taps == v.taps && z.phases == v.phases
    } by {
        let v = (*u)@;
        let n = x@.len() as int;
        assert(n * v.ratio >= 0) by (nonlinear_arith)
            requires
                n >= 0,
                v.ratio >= 2,
        ;
        let raw = choose|raw: Seq<T>| #[trigger]
            v.filters(*mac, zero, x@, raw) && out@ == raw.skip(v.dropped(x@));
        assert(raw.len() == n * v.ratio);
    }
}

} // verus!
