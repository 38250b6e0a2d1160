//! Generic operations on the samples of a signal: what a channel adds before
//! and after it, and thinning it out for display.
use vstd::prelude::*;
use vstd::arithmetic::div_mod::*;
use vstd::arithmetic::mul::*;

verus! {

/// `count` copies of `v`.
pub open spec fn repeated<T>(v: T, count: nat) -> Seq<T> {
    Seq::new(count, |_i: int| v)
}

/// Padding with silence adds exactly `count` samples, all of them `silence`.
pub proof fn lemma_repeated<T>(v: T, count: nat)
    ensures
        repeated(v, count).len() == count,
        forall|i: int| 0 <= i < count ==> #[trigger] repeated(v, count)[i] == v,
{
}

/// One sample every `step`, starting with the first.
pub open spec fn every_nth<T>(s: Seq<T>, step: nat) -> Seq<T>
    decreases s.len(),
{
    if s.len() == 0 || step == 0 {
        Seq::empty()
    } else if s.len() <= step {
        seq![s[0]]
    } else {
        seq![s[0]] + every_nth(s.skip(step as int), step)
    }
}

/// Thinning keeps the points at `0, step, 2 * step, ...`: point `i` of the
/// result is point `i * step` of the input, and as many points are kept as
/// `step` goes into the length, rounded up.
pub proof fn lemma_every_nth<T>(s: Seq<T>, step: nat, i: int)
    requires
        step > 0,
        0 <= i,
        i * step < s.len(),
    ensures
        every_nth(s, step).len() == (s.len() + step - 1) as int / (step as int),
        i < every_nth(s, step).len(),
        every_nth(s, step)[i] == s[i * step],
    decreases s.len(),
{
    lemma_every_nth_len(s, step);
    if s.len() <= step {
        if i > 0 {
            lemma_mul_inequality(1, i, step as int);
        }
        assert(i == 0);
    } else if i > 0 {
        lemma_mul_is_distributive_sub_other_way(step as int, i, 1);
        lemma_every_nth(s.skip(step as int), step, i - 1);
    }
}

/// Number of points kept: the length divided by `step`, rounded up.
proof fn lemma_every_nth_len<T>(s: Seq<T>, step: nat)
    requires
        step > 0,
    ensures
        every_nth(s, step).len() == (s.len() + step - 1) as int / (step as int),
    decreases s.len(),
{
    if s.len() == 0 {
        lemma_basic_div((step - 1) as int, step as int);
    } else if s.len() <= step {
        lemma_fundamental_div_mod_converse(
            (s.len() + step - 1) as int,
            step as int,
            1,
            (s.len() - 1) as int,
        );
    } else {
        lemma_every_nth_len(s.skip(step as int), step);
        lemma_div_plus_one((s.len() - step + step - 1) as int, step as int);
    }
}

fn repeat_value<T: Copy>(v: T, count: usize) -> (res: Vec<T>)
    ensures
        res@ == repeated(v, count as nat),
{
    let mut out: Vec<T> = Vec::new();
    let mut i: usize = 0;
    while i < count
        invariant
            i <= count,
            out@ == repeated(v, i as nat),
        decreases count - i,
    {
        out.push(v);
        i += 1;
        assert(out@ =~= repeated(v, i as nat));
    }
    out
}

/// Puts `count` samples of `silence` in front of the signal (the channel's delay).
pub fn prepend_silence<T: Copy>(signal: &mut Vec<T>, count: usize, silence: T)
    ensures
        final(signal)@ == repeated(silence, count as nat) + old(signal)@,
        final(signal)@.len() == old(signal)@.len() + count,
        forall|i: int| 0 <= i < count ==> #[trigger] final(signal)@[i] == silence,
        forall|i: int| 0 <= i < old(signal)@.len() ==> #[trigger] final(signal)@[count + i] == old(
            signal,
        )@[i],
{
    let mut out = repeat_value(silence, count);
    let ghost start = out@;
    let mut j: usize = 0;
    while j < signal.len()
        invariant
            0 <= j <= signal@.len(),
            out@ == start + signal@.take(j as int),
        decreases signal@.len() - j,
    {
        out.push(signal[j]);
        j += 1;
        assert(out@ =~= start + signal@.take(j as int));
    }
    assert(signal@.take(signal@.len() as int) =~= signal@);
    *signal = out;
}

/// Puts `count` samples of `silence` after the signal (what the channel
/// records after it ends).
pub fn append_silence<T: Copy>(signal: &mut Vec<T>, count: usize, silence: T)
    ensures
        final(signal)@ == old(signal)@ + repeated(silence, count as nat),
        final(signal)@.len() == old(signal)@.len() + count,
        forall|i: int| 0 <= i < old(signal)@.len() ==> #[trigger] final(signal)@[i] == old(
            signal,
        )@[i],
        forall|i: int|
            old(signal)@.len() <= i < old(signal)@.len() + count ==> #[trigger] final(signal)@[i]
                == silence,
{
    let ghost start = signal@;
    let mut i: usize = 0;
    while i < count
        invariant
            i <= count,
            signal@ == start + repeated(silence, i as nat),
        decreases count - i,
    {
        signal.push(silence);
        i += 1;
        assert(signal@ =~= start + repeated(silence, i as nat));
    }
}

/// Keeps one point every `step` points, starting with the first.
pub fn subsample<T: Copy>(points: &Vec<T>, step: usize) -> (res: Vec<T>)
    requires
        step > 0 || points@.len() == 0,
    ensures
        res@ == every_nth(points@, step as nat),
{
    let mut out: Vec<T> = Vec::new();
    if points.len() == 0 {
        return out;
    }
    let mut i: usize = 0;
    assert(points@.skip(0) =~= points@);
    loop
        invariant_except_break
            step > 0,
            i < points@.len(),
            out@ + every_nth(points@.skip(i as int), step as nat) == every_nth(
                points@,
                step as nat,
            ),
        ensures
            out@ == every_nth(points@, step as nat),
        decreases points@.len() - i,
    {
        let ghost rest = points@.skip(i as int);
        out.push(points[i]);
        if points.len() - i <= step {
            assert(every_nth(rest, step as nat) =~= seq![points@[i as int]]);
            assert(out@ =~= every_nth(points@, step as nat));
            break;
        }
        assert(rest.skip(step as int) =~= points@.skip(i + step));
        i = i + step;
        assert(out@ + every_nth(points@.skip(i as int), step as nat) =~= every_nth(
            points@,
            step as nat,
        ));
    }
    out
}

} // verus!
