//! Summaries of the pool that are shown while the simulation runs.

use vstd::prelude::*;

use extra_collections::RingBuf;

use crate::ring_buffer::pushed;

verus! {

#[verifier::external_type_specification]
#[verifier::external_body]
#[verifier::reject_recursive_types(T)]
pub struct ExRingBuf<T>(RingBuf<T>);

/// The values held by a ring buffer of `extra_collections`, oldest first.
pub uninterp spec fn ring_contents(buf: RingBuf<usize>) -> Seq<usize>;

/// The number of values a ring buffer of `extra_collections` was made to hold.
pub uninterp spec fn ring_capacity(buf: RingBuf<usize>) -> nat;

/// Calls `extra_collections::RingBuf::new`, which allocates room for `capacity`
/// values and starts empty with that capacity. Its source allocates with the layout
/// of `capacity` values, which fails for sizes past `isize::MAX` bytes and is not
/// meant for a size of zero; both are left out here. An allocation that the system
/// refuses aborts the program, which no precondition can rule out.
#[verifier::external_body]
fn ring_new(capacity: usize) -> (r: RingBuf<usize>)
    requires
        0 < capacity <= isize::MAX / 8,
    ensures
        ring_capacity(r) == capacity,
        ring_contents(r) == Seq::<usize>::empty(),
{
    RingBuf::new(capacity)
}

/// Calls `extra_collections::RingBuf::push`. The buffer's source writes the value at
/// its tail and, when it already holds `capacity` values, moves its head past the
/// oldest one; so the contents are the old contents with the value appended, less the
/// oldest value when the buffer was full, and they never exceed the capacity. The
/// capacity must be positive (the source takes positions modulo it).
#[verifier::external_body]
fn ring_push(buf: &mut RingBuf<usize>, value: usize)
    requires
        ring_capacity(*old(buf)) > 0,
    ensures
        ring_capacity(*final(buf)) == ring_capacity(*old(buf)),
        ring_contents(*final(buf)) == pushed(
            ring_contents(*old(buf)),
            ring_capacity(*old(buf)),
            value,
        ),
        ring_contents(*final(buf)).len() <= ring_capacity(*final(buf)),
{
    buf.push(value)
}

/// Calls `extra_collections::RingBuf::iter` and copies what it yields: the buffer's
/// values, oldest first.
#[verifier::external_body]
fn ring_values(buf: &RingBuf<usize>) -> (r: Vec<usize>)
    ensures
        r@ == ring_contents(*buf),
{
    buf.iter().copied().collect()
}

/// How many samples the graphs keep.
pub const GRAPH_POINTS: usize = 20_000;

/// Over how many samples the shown queue times are smoothed.
pub const SMOOTHING: usize = 2000;

/// An empty ring buffer for queue-time samples, holding the last [`SMOOTHING`] of them.
pub fn wait_time_samples() -> (r: RingBuf<usize>)
    ensures
        ring_capacity(r) == SMOOTHING,
        ring_contents(r) == Seq::<usize>::empty(),
{
    ring_new(SMOOTHING)
}

/// The sum of `values`.
pub open spec fn sum(values: Seq<usize>) -> int
    decreases values.len(),
{
    if values.len() == 0 {
        0
    } else {
        sum(values.drop_last()) + values.last()
    }
}

/// `sum` adds up the values exactly: nothing for no values, a single value is its
/// own sum, and the sum of two runs of values put together is the sum of their sums.
pub proof fn lemma_sum_adds_up(a: Seq<usize>, b: Seq<usize>, v: usize)
    ensures
        sum(Seq::<usize>::empty()) == 0,
        sum(seq![v]) == v,
        sum(a + b) == sum(a) + sum(b),
        sum(a.push(v)) == sum(a) + v,
    decreases b.len(),
{
    assert(sum(Seq::<usize>::empty()) == 0);
    assert(seq![v].drop_last() =~= Seq::<usize>::empty());
    assert(seq![v].last() == v);
    assert(sum(seq![v]) == sum(seq![v].drop_last()) + seq![v].last());
    assert(a.push(v).drop_last() =~= a);
    if b.len() == 0 {
        assert(a + b =~= a);
    } else {
        lemma_sum_adds_up(a, b.drop_last(), v);
        assert((a + b).drop_last() =~= a + b.drop_last());
    }
}

/// The smoothed value counts every sample in full: it is the whole sum of the samples
/// divided by [`SMOOTHING`], so adding a sample never lowers it, and `SMOOTHING`
/// samples of the same wait give that wait back.
pub proof fn lemma_smoothing_counts_every_sample(samples: Seq<usize>, v: usize)
    ensures
        sum(samples) / (SMOOTHING as int) <= sum(samples.push(v)) / (SMOOTHING as int),
        sum(Seq::new(SMOOTHING as nat, |i: int| v)) == SMOOTHING * v,
        sum(Seq::new(SMOOTHING as nat, |i: int| v)) / (SMOOTHING as int) == v,
{
    lemma_sum_adds_up(samples, Seq::empty(), v);
    vstd::arithmetic::div_mod::lemma_div_is_ordered(
        sum(samples),
        sum(samples.push(v)),
        SMOOTHING as int,
    );
    lemma_sum_constant(SMOOTHING as nat, v);
    vstd::arithmetic::div_mod::lemma_div_multiples_vanish(v as int, SMOOTHING as int);
    assert(SMOOTHING * v == (SMOOTHING as int) * (v as int));
}

/// `n` copies of `v` add up to `n * v`.
proof fn lemma_sum_constant(n: nat, v: usize)
    ensures
        sum(Seq::new(n, |i: int| v)) == n * v,
    decreases n,
{
    if n > 0 {
        lemma_sum_constant((n - 1) as nat, v);
        let s = Seq::new(n, |i: int| v);
        assert(s.drop_last() =~= Seq::new((n - 1) as nat, |i: int| v));
        assert(s.last() == v);
        assert(sum(s) == sum(s.drop_last()) + s.last());
        assert(n * v == (n - 1) * v + v) by (nonlinear_arith);
        assert(sum(s) == n * v);
    } else {
        assert(Seq::new(n, |i: int| v).len() == 0);
        assert(n * v == 0);
    }
}

/// The lowest and the highest wait time of the queued players, and the one at the
/// middle position (the upper one of the two middles for an even count) in the order
/// the players were gathered; all three are zero when nobody is queued.
pub fn wait_time_summary(wait_times: &Vec<usize>) -> (r: (usize, usize, usize))
    ensures
        wait_times@.len() == 0 ==> r == (0usize, 0usize, 0usize),
        wait_times@.len() > 0 ==> {
            &&& wait_times@.contains(r.0)
            &&& wait_times@.contains(r.1)
            &&& forall|i: int|
                0 <= i < wait_times@.len() ==> r.0 <= #[trigger] wait_times@[i] <= r.1
            &&& r.2 == wait_times@[(wait_times@.len() / 2) as int]
        },
{
    if wait_times.len() == 0 {
        return (0, 0, 0);
    }
    let mut low = wait_times[0];
    let mut high = wait_times[0];
    let mut i: usize = 1;
    while i < wait_times.len()
        invariant
            1 <= i <= wait_times@.len(),
            wait_times@.contains(low),
            wait_times@.contains(high),
            forall|j: int| 0 <= j < i ==> low <= #[trigger] wait_times@[j] <= high,
        decreases wait_times@.len() - i,
    {
        if wait_times[i] < low {
            low = wait_times[i];
        }
        if wait_times[i] > high {
            high = wait_times[i];
        }
        i = i + 1;
    }
    let middle = wait_times[wait_times.len() / 2];
    (low, high, middle)
}

/// The sum of the samples divided by [`SMOOTHING`], rounded down.
pub fn smoothed(samples: &Vec<usize>) -> (r: usize)
    requires
        sum(samples@) <= usize::MAX,
    ensures
        r == sum(samples@) / (SMOOTHING as int),
{
    let mut total: usize = 0;
    let mut i: usize = 0;
    while i < samples.len()
        invariant
            i <= samples@.len(),
            sum(samples@) <= usize::MAX,
            total == sum(samples@.take(i as int)),
        decreases samples@.len() - i,
    {
        assert(samples@.take(i + 1).drop_last() =~= samples@.take(i as int));
        proof {
            lemma_sum_prefix_le(samples@, i + 1);
        }
        total = total + samples[i];
        i = i + 1;
    }
    assert(samples@.take(samples@.len() as int) =~= samples@);
    total / SMOOTHING
}

/// The sum of a prefix is at most the sum of the whole.
proof fn lemma_sum_prefix_le(values: Seq<usize>, n: int)
    requires
        0 <= n <= values.len(),
    ensures
        sum(values.take(n)) <= sum(values),
    decreases values.len() - n,
{
    if n < values.len() {
        lemma_sum_prefix_le(values, n + 1);
        assert(values.take(n + 1).drop_last() =~= values.take(n));
    } else {
        assert(values.take(n) =~= values);
    }
}


/// Records the lowest, highest and middle wait time of the queued players (as
/// [`wait_time_summary`] finds them) in the three ring buffers.
pub fn record_wait_times(
    wait_times: &Vec<usize>,
    low: &mut RingBuf<usize>,
    high: &mut RingBuf<usize>,
    median: &mut RingBuf<usize>,
)
    requires
        ring_capacity(*old(low)) > 0,
        ring_capacity(*old(high)) > 0,
        ring_capacity(*old(median)) > 0,
    ensures
        ({
            let (l, h, m) = if wait_times@.len() == 0 {
                (0usize, 0usize, 0usize)
            } else {
                (
                    ring_contents(*final(low)).last(),
                    ring_contents(*final(high)).last(),
                    ring_contents(*final(median)).last(),
                )
            };
            &&& ring_contents(*final(low)) == pushed(
                ring_contents(*old(low)),
                ring_capacity(*old(low)),
                l,
            )
            &&& ring_contents(*final(high)) == pushed(
                ring_contents(*old(high)),
                ring_capacity(*old(high)),
                h,
            )
            &&& ring_contents(*final(median)) == pushed(
                ring_contents(*old(median)),
                ring_capacity(*old(median)),
                m,
            )
            &&& wait_times@.len() > 0 ==> {
                &&& wait_times@.contains(l)
                &&& wait_times@.contains(h)
                &&& forall|i: int| 0 <= i < wait_times@.len() ==> l <= #[trigger] wait_times@[i] <= h
                &&& m == wait_times@[(wait_times@.len() / 2) as int]
            }
        }),
        ring_capacity(*final(low)) == ring_capacity(*old(low)),
        ring_capacity(*final(high)) == ring_capacity(*old(high)),
        ring_capacity(*final(median)) == ring_capacity(*old(median)),
{
    let (l, h, m) = wait_time_summary(wait_times);
    ring_push(low, l);
    ring_push(high, h);
    ring_push(median, m);
    proof {
        let c = ring_capacity(*old(low));
        assert(pushed(ring_contents(*old(low)), c, l).last() == l);
        let c = ring_capacity(*old(high));
        assert(pushed(ring_contents(*old(high)), c, h).last() == h);
        let c = ring_capacity(*old(median));
        assert(pushed(ring_contents(*old(median)), c, m).last() == m);
    }
}

/// The smoothed value of a ring buffer of samples: their sum divided by
/// [`SMOOTHING`], rounded down.
pub fn smoothed_samples(buf: &RingBuf<usize>) -> (r: usize)
    requires
        sum(ring_contents(*buf)) <= usize::MAX,
    ensures
        r == sum(ring_contents(*buf)) / (SMOOTHING as int),
{
    let values = ring_values(buf);
    smoothed(&values)
}

} // verus!
