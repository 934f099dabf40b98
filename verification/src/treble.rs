//! Bringing back some treble to MP3, which low bit rates rob of it.

use vstd::prelude::*;
use crate::text::{
    ascii_lower_all,
    eq_ignore_ascii_case,
    extension_in,
    is_portable_path,
    path_extension,
};

verus! {

/// An extension stands for MP3, in any case.
pub fn is_mp3_extension(ext: Option<&str>) -> (r: bool)
    ensures
        r == (ext matches Some(e) && ascii_lower_all(e@) == ascii_lower_all("mp3"@)),
{
    match ext {
        Some(e) => eq_ignore_ascii_case(e, "mp3"),
        None => false,
    }
}

/// Whether a path has the extension of MP3, in any case.
pub fn is_mp3_path(path: &str) -> (r: bool)
    ensures
        is_portable_path(path@) ==> r == (extension_in(path@) matches Some(e) && ascii_lower_all(e)
            == ascii_lower_all("mp3"@)),
        !path@.contains('.') ==> !r,
{
    match path_extension(path) {
        Some(e) => is_mp3_extension(Some(e.as_str())),
        None => false,
    }
}

/// A filter for interleaved audio. `B` is the state of the filter for one channel.
pub struct TrebleRestore<B> {
    stages: Vec<B>,
}

impl<B: Copy> TrebleRestore<B> {
    /// The state of each channel.
    pub closed spec fn stages(&self) -> Seq<B> {
        self.stages@
    }

    /// A filter in which every channel starts as `stage`. There is at least one channel.
    pub fn new(stage: B, channels: usize) -> (f: Self)
        ensures
            f.stages() == Seq::new(
                if channels == 0 {
                    1
                } else {
                    channels as nat
                },
                |c: int| stage,
            ),
    {
        let n = if channels == 0 {
            1
        } else {
            channels
        };
        let mut stages: Vec<B> = Vec::new();
        for c in 0..n
            invariant
                stages@ == Seq::new(c as nat, |i: int| stage),
        {
            stages.push(stage);
            assert(stages@ =~= Seq::new((c + 1) as nat, |i: int| stage));
        }
        TrebleRestore { stages }
    }

    /// Filters interleaved audio in place. `step` takes the state of a channel and a sample to the next
    /// state and the filtered sample.
    pub fn process_interleaved<T: Copy, F: Fn(B, T) -> (B, T)>(&mut self, samples: &mut Vec<T>, step: &F)
        requires
            old(self).stages().len() > 0,
            forall|b: B, v: T| call_requires(*step, (b, v)),
        ensures
            final(self).stages().len() == old(self).stages().len(),
            final(samples)@.len() == old(samples)@.len(),
            exists|after: Seq<B>|
                is_filtered(
                    *step,
                    old(self).stages(),
                    old(samples)@,
                    final(samples)@,
                    after,
                ) && final(self).stages() == last_states(old(self).stages(), after),
    {
        let n = self.stages.len();
        let len = samples.len();
        let ghost start = self.stages@;
        let ghost given = samples@;
        let ghost mut after: Seq<B> = seq![];
        assert(self.stages@ =~= last_states(start, after));
        for i in 0..len
            invariant
                n == start.len() == self.stages@.len(),
                n > 0,
                len == given.len() == samples@.len(),
                forall|b: B, v: T| call_requires(*step, (b, v)),
                after.len() == i,
                forall|k: int| i <= k < len ==> samples@[k] == given[k],
                is_filtered(*step, start, given.take(i as int), samples@.take(i as int), after),
                self.stages@ == last_states(start, after),
        {
            let c = i % n;
            let ghost before_after = after;
            let ghost before_samples = samples@;
            let b = self.stages[c];
            let r = step(b, samples[i]);
            self.stages.set(c, r.0);
            samples.set(i, r.1);
            proof {
                after = after.push(r.0);
                lemma_latest(i as int, n as int);
                assert(b == state_before(start, before_after, i as int));
                assert(self.stages@ =~= last_states(start, after)) by {
                    assert forall|x: int| 0 <= x < n implies self.stages@[x] == last_states(start, after)[x] by {
                        lemma_latest_step(i as int, n as int, x);
                    }
                }
                assert forall|k: int| 0 <= k < i + 1 implies call_ensures(
                    *step,
                    (state_before(start, after, k), given.take(i + 1)[k]),
                    (#[trigger] after[k], samples@.take(i + 1)[k]),
                ) by {
                    assert(state_before(start, after, k) == state_before(start, before_after, k));
                    if k < i {
                        assert(after[k] == before_after[k]);
                        assert(samples@[k] == before_samples[k]);
                        assert(given.take(i as int)[k] == given[k]);
                        assert(before_samples.take(i as int)[k] == before_samples[k]);
                        assert(call_ensures(
                            *step,
                            (state_before(start, before_after, k), given.take(i as int)[k]),
                            (before_after[k], before_samples.take(i as int)[k]),
                        ));
                    }
                }
            }
        }
        proof {
            assert(given.take(len as int) =~= given);
            assert(samples@.take(len as int) =~= samples@);
        }
    }
}

/// The state of the channel of sample `k` just before it: that after the sample before it in the same
/// channel, or the first.
pub open spec fn state_before<B>(start: Seq<B>, after: Seq<B>, k: int) -> B {
    let n = start.len() as int;
    if k < n {
        start[k]
    } else {
        after[k - n]
    }
}

/// `after` lists the states after each sample: every sample was taken by the filter of its own channel, in
/// order, and the channels did not mix.
pub open spec fn is_filtered<B, T, F: Fn(B, T) -> (B, T)>(
    step: F,
    start: Seq<B>,
    given: Seq<T>,
    filtered: Seq<T>,
    after: Seq<B>,
) -> bool {
    &&& after.len() == given.len() == filtered.len()
    &&& forall|k: int|
        0 <= k < given.len() ==> call_ensures(
            step,
            (state_before(start, after, k), given[k]),
            (#[trigger] after[k], filtered[k]),
        )
}

/// The last sample before `i` that belongs to channel `c` of `n`, or a negative number.
pub open spec fn latest(i: int, n: int, c: int) -> int {
    i - 1 - (i - 1 - c) % n
}

/// The state of each channel after all samples.
pub open spec fn last_states<B>(start: Seq<B>, after: Seq<B>) -> Seq<B> {
    let n = start.len() as int;
    Seq::new(
        start.len(),
        |c: int|
            if latest(after.len() as int, n, c) >= 0 {
                after[latest(after.len() as int, n, c)]
            } else {
                start[c]
            },
    )
}

/// Filtering whole frames in two parts, one after the other, is filtering them at once: the filter goes on
/// where it left off.
pub proof fn filtering_may_be_cut_between_frames<B, T, F: Fn(B, T) -> (B, T)>(
    step: F,
    start: Seq<B>,
    given_a: Seq<T>,
    filtered_a: Seq<T>,
    after_a: Seq<B>,
    given_b: Seq<T>,
    filtered_b: Seq<T>,
    after_b: Seq<B>,
)
    requires
        start.len() > 0,
        given_a.len() as int % start.len() as int == 0,
        is_filtered(step, start, given_a, filtered_a, after_a),
        is_filtered(step, last_states(start, after_a), given_b, filtered_b, after_b),
    ensures
        is_filtered(step, start, given_a + given_b, filtered_a + filtered_b, after_a + after_b),
{
    let n = start.len() as int;
    let m = given_a.len() as int;
    let after = after_a + after_b;
    let middle = last_states(start, after_a);
    vstd::arithmetic::div_mod::lemma_fundamental_div_mod(m, n);
    let q = m / n;
    assert forall|k: int| 0 <= k < (given_a + given_b).len() implies call_ensures(
        step,
        (state_before(start, after, k), (given_a + given_b)[k]),
        (#[trigger] after[k], (filtered_a + filtered_b)[k]),
    ) by {
        if k < m {
            assert(state_before(start, after, k) == state_before(start, after_a, k));
            assert(after[k] == after_a[k]);
        } else {
            let j = k - m;
            assert(after[k] == after_b[j]);
            if j < n {
                assert((m - 1 - j) % n == n - 1 - j) by {
                    assert(m - 1 - j == (q - 1) * n + (n - 1 - j)) by (nonlinear_arith)
                        requires
                            m == n * q,
                    ;
                    vstd::arithmetic::div_mod::lemma_fundamental_div_mod_converse(m - 1 - j, n, q - 1, n - 1 - j);
                }
                assert(latest(m, n, j) == k - n);
                if k < n {
                    assert(q == 0) by (nonlinear_arith)
                        requires
                            m == n * q,
                            0 <= m < n,
                            n > 0,
                    ;
                }
                if m > 0 {
                    assert(q >= 1) by (nonlinear_arith)
                        requires
                            m == n * q,
                            m > 0,
                            n > 0,
                    ;
                    assert(m >= n) by (nonlinear_arith)
                        requires
                            m == n * q,
                            q >= 1,
                            n > 0,
                    ;
                }
                assert(state_before(start, after, k) == middle[j]);
            } else {
                assert(state_before(start, after, k) == after_b[j - n]);
            }
            assert(state_before(middle, after_b, j) == state_before(start, after, k));
        }
    }
}

/// The last sample before `i` in its own channel is `n` samples earlier.
proof fn lemma_latest(i: int, n: int)
    requires
        0 <= i,
        n > 0,
    ensures
        latest(i, n, i % n) == i - n,
        i < n ==> i % n == i,
        0 <= i % n < n,
{
    vstd::arithmetic::div_mod::lemma_fundamental_div_mod(i, n);
    vstd::arithmetic::div_mod::lemma_mod_bound(i, n);
    let q = i / n;
    let c = i % n;
    assert((i - 1 - c) % n == n - 1) by {
        assert(i - 1 - c == n * (q - 1) + (n - 1)) by (nonlinear_arith)
            requires
                i == n * q + c,
        ;
        vstd::arithmetic::div_mod::lemma_mod_multiples_vanish(q - 1, n - 1, n);
        vstd::arithmetic::div_mod::lemma_small_mod((n - 1) as nat, n as nat);
        assert(n * (q - 1) + (n - 1) == (q - 1) * n + (n - 1)) by (nonlinear_arith);
    }
    if i < n {
        vstd::arithmetic::div_mod::lemma_small_mod(i as nat, n as nat);
    }
}

/// One more sample is the last of its channel, and changes nothing for the others.
proof fn lemma_latest_step(i: int, n: int, x: int)
    requires
        0 <= i,
        0 <= x < n,
    ensures
        latest(i + 1, n, x) == (if x == i % n {
            i
        } else {
            latest(i, n, x)
        }),
        latest(i, n, x) < i,
{
    let r = (i - 1 - x) % n;
    vstd::arithmetic::div_mod::lemma_mod_bound(i - 1 - x, n);
    vstd::arithmetic::div_mod::lemma_mod_bound(i - x, n);
    vstd::arithmetic::div_mod::lemma_fundamental_div_mod(i - 1 - x, n);
    vstd::arithmetic::div_mod::lemma_fundamental_div_mod(i, n);
    vstd::arithmetic::div_mod::lemma_mod_bound(i, n);
    let q = (i - 1 - x) / n;
    let p = i / n;
    let c = i % n;
    if x == c {
        assert((i - x) % n == 0) by {
            assert(i - x == p * n) by (nonlinear_arith)
                requires
                    i == n * p + c,
                    x == c,
            ;
            vstd::arithmetic::div_mod::lemma_mod_multiples_basic(p, n);
        }
    } else {
        assert(r < n - 1) by {
            if r == n - 1 {
                assert(i == n * (q + 1) + x) by (nonlinear_arith)
                    requires
                        i - 1 - x == n * q + r,
                        r == n - 1,
                ;
                vstd::arithmetic::div_mod::lemma_fundamental_div_mod_converse(i, n, q + 1, x);
            }
        }
        assert((i - x) % n == r + 1) by {
            assert(i - x == q * n + (r + 1)) by (nonlinear_arith)
                requires
                    i - 1 - x == n * q + r,
            ;
            vstd::arithmetic::div_mod::lemma_fundamental_div_mod_converse(i - x, n, q, r + 1);
        }
    }
}

/// A path is MP3 exactly if the part after the last dot of its name is `mp3` in any case.
pub proof fn mp3_is_told_by_the_extension(folder: Seq<char>, name: Seq<char>, e: Seq<char>, path: &str, r: bool)
    requires
        call_ensures(is_mp3_path, (path,), r),
        path@ == folder + seq!['/'] + name + seq!['.'] + e,
        folder.len() > 1 && folder[0] != '/' && folder[0] != '\\' && folder[1] != '/',
        name.len() > 0,
        e.len() > 0,
        forall|i: int| 0 <= i < name.len() ==> name[i] != '/' && name[i] != '\\',
        forall|i: int| 0 <= i < e.len() ==> e[i] != '/' && e[i] != '\\' && e[i] != '.',
    ensures
        r <==> e.len() == 3 && (e[0] == 'm' || e[0] == 'M') && (e[1] == 'p' || e[1] == 'P') && e[2] == '3',
{
    let file = name + seq!['.'] + e;
    let cut = folder.len() + 1;
    let dot = name.len() as int + 1;
    let u = crate::text::unified(path@);
    assert(path@.last() == e.last());
    assert(crate::text::without_end_slashes(path@) == path@);
    assert forall|i: int| cut <= i < u.len() implies #[trigger] u[i] == file[i - cut] by {}
    crate::text::lemma_after_last_index(u, '/', cut as int);
    assert(crate::text::file_name(path@) =~= file);
    crate::text::lemma_after_last_index(file, '.', dot);
    assert(crate::text::name_extension(file) == Some(file.skip(dot)));
    assert(file.skip(dot) =~= e);
    assert(u[0] != '/');
    assert(file.len() >= 3);
    assert(file != seq!['.'] && file != seq!['.', '.']);
    assert(crate::text::file_name(path@) != path@) by {
        assert(file.len() < path@.len());
    }
    assert(is_portable_path(path@));
    reveal_strlit("mp3");
    let x = ascii_lower_all(e);
    let y = ascii_lower_all("mp3"@);
    assert(y =~= "mp3"@);
    assert forall|i: int| 0 <= i < e.len() implies x[i] == #[trigger] crate::text::ascii_lower(e[i]) by {}
    if r {
        assert(x.len() == 3 && x[0] == 'm' && x[1] == 'p' && x[2] == '3');
        assert(crate::text::ascii_lower(e[0]) == 'm' && crate::text::ascii_lower(e[1]) == 'p'
            && crate::text::ascii_lower(e[2]) == '3');
    }
    if e.len() == 3 && (e[0] == 'm' || e[0] == 'M') && (e[1] == 'p' || e[1] == 'P') && e[2] == '3' {
        assert(x =~= y);
    }
}

/// A filter has the channels that were asked for, or one, and all of them start alike.
pub proof fn every_channel_starts_alike<B: Copy>(stage: B, channels: usize, f: TrebleRestore<B>, c: int)
    requires
        call_ensures(TrebleRestore::<B>::new, (stage, channels), f),
        0 <= c < f.stages().len(),
    ensures
        channels > 0 ==> f.stages().len() == channels,
        channels == 0 ==> f.stages().len() == 1,
        f.stages()[c] == stage,
{
}

/// The filter of channel `c` takes the samples of that channel one after the other and nothing else: `x` are the samples of the
/// channel, `y` what comes out for them and `states` what the filter is in before each of them and at
/// the end.
pub open spec fn goes_through<B, T, F: Fn(B, T) -> (B, T)>(step: F, x: Seq<T>, y: Seq<T>, states: Seq<B>) -> bool {
    &&& y.len() == x.len()
    &&& states.len() == x.len() + 1
    &&& forall|i: int| 0 <= i < x.len() ==> #[trigger] call_ensures(step, (states[i], x[i]), (states[i + 1], y[i]))
}

/// The samples of channel `c` of `n`, from so many frames.
pub open spec fn one_channel<T>(s: Seq<T>, n: int, c: int, frames: int) -> Seq<T> {
    Seq::new(frames as nat, |i: int| s[i * n + c])
}

/// The states of the filter of a channel.
spec fn states_of<B>(start: Seq<B>, after: Seq<B>, c: int, frames: int) -> Seq<B> {
    Seq::new(
        (frames + 1) as nat,
        |i: int|
            if i == 0 {
                start[c]
            } else {
                after[(i - 1) * start.len() + c]
            },
    )
}

/// Each channel has a filter of its own: in whole frames every channel goes through its filter by itself.
pub proof fn channels_do_not_mix<B: Copy, T: Copy, F: Fn(B, T) -> (B, T)>(
    step: F,
    start: Seq<B>,
    given: Seq<T>,
    filtered: Seq<T>,
    after: Seq<B>,
    frames: int,
    c: int,
)
    requires
        start.len() > 0,
        frames >= 0,
        given.len() == frames * start.len(),
        is_filtered(step, start, given, filtered, after),
        0 <= c < start.len(),
    ensures
        exists|states: Seq<B>|
            {
                &&& #[trigger] goes_through(
                    step,
                    one_channel(given, start.len() as int, c, frames),
                    one_channel(filtered, start.len() as int, c, frames),
                    states,
                )
                &&& states[0] == start[c]
                &&& states[frames] == last_states(start, after)[c]
            },
{
    let n = start.len() as int;
    let x = one_channel(given, n, c, frames);
    let y = one_channel(filtered, n, c, frames);
    let states = states_of(start, after, c, frames);
    assert forall|i: int| 0 <= i < x.len() implies #[trigger] call_ensures(step, (states[i], x[i]), (states[i + 1], y[i])) by {
        let k = i * n + c;
        crate::frames::lemma_at_bound(i, c, n, frames);
        assert(0 <= k < given.len());
        assert(call_ensures(step, (state_before(start, after, k), given[k]), (after[k], filtered[k])));
        assert(states[i + 1] == after[k]);
        if i == 0 {
            assert(k == c);
        } else {
            assert(k >= n && k - n == (i - 1) * n + c) by (nonlinear_arith)
                requires
                    k == i * n + c,
                    i >= 1,
                    c >= 0,
                    n > 0,
            ;
            assert(states[i] == after[k - n]);
        }
    }
    assert(goes_through(step, x, y, states));
    let len = after.len() as int;
    if frames == 0 {
        assert(len == 0) by (nonlinear_arith)
            requires
                len == frames * n,
                frames == 0,
        ;
        vstd::arithmetic::div_mod::lemma_mod_bound(-1 - c, n);
        assert(latest(len, n, c) < 0);
    } else {
        assert(len - 1 - c == (frames - 1) * n + (n - 1 - c)) by (nonlinear_arith)
            requires
                len == frames * n,
        ;
        vstd::arithmetic::div_mod::lemma_fundamental_div_mod_converse(len - 1 - c, n, frames - 1, n - 1 - c);
        assert(latest(len, n, c) == (frames - 1) * n + c);
        assert((frames - 1) * n + c >= 0) by (nonlinear_arith)
            requires
                frames >= 1,
                n > 0,
                c >= 0,
        ;
    }
}

} // verus!
