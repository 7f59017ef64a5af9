//! A convolution effect for long impulse responses.
//!
//! The filter is cut into partitions of one block each. Every call takes one
//! block of input per channel, combines the last blocks with the partitions
//! and overlap-adds the result, in exact integer arithmetic.
//!
//! The taps of the filter and the two gains are counted in thousandths, as
//! the gains of tracks are: a tap or a gain of 1000 leaves a sample as it
//! is. The sums are kept in thousandths of a PCM step and are exact; only
//! the output is rounded, once.

use crate::ring_buffer::RingBuffer;
use crate::rounding::{lemma_floor, lemma_floor_is};
use crate::section::GAIN_UNIT;
use vstd::prelude::*;

verus! {

/// The number of frames that one call of the effect consumes and produces.
pub const FRAMES_PER_BUFFER: usize = 512;

/// The longest filter that the effect takes. With it, no output of the
/// effect leaves the range of `i64`.
pub const MAX_FILTER_LEN: usize = 1_048_576;

/// The most partitions that a filter has.
pub const MAX_PARTITIONS: usize = 2048;

/// The value of `s` at `i`, and 0 outside of `s`.
pub open spec fn tap(s: Seq<i16>, i: int) -> int {
    if 0 <= i < s.len() {
        s[i] as int
    } else {
        0
    }
}

/// The tap of the filter `h` at `j`, in thousandths, and 0 outside of `h`.
pub open spec fn weight(h: Seq<i32>, j: int) -> int {
    if 0 <= j < h.len() {
        h[j] as int
    } else {
        0
    }
}

/// The sum of `x[t - j] * h[j]` over `0 <= j < n`, in thousandths.
pub open spec fn convolution_sum(x: Seq<i16>, h: Seq<i32>, t: int, n: nat) -> int
    decreases n,
{
    if n == 0 {
        0
    } else {
        convolution_sum(x, h, t, (n - 1) as nat) + tap(x, t - (n - 1)) * weight(h, n - 1)
    }
}

/// Sample `t` of the direct-form convolution of the signal `x` with the
/// filter `h`, in thousandths.
pub open spec fn direct_convolution(x: Seq<i16>, h: Seq<i32>, t: int) -> int {
    convolution_sum(x, h, t, h.len())
}

/// The number of partitions of a filter of `len` taps.
pub open spec fn partition_count(len: int) -> int {
    (len - 1) / (FRAMES_PER_BUFFER as int) + 1
}

/// Partition `k` of the filter `h`: one block of taps, padded with zeros
/// where the filter has ended.
pub open spec fn partition(h: Seq<i32>, k: int) -> Seq<i32> {
    Seq::new(
        FRAMES_PER_BUFFER as nat,
        |j: int|
            if k * FRAMES_PER_BUFFER + j < h.len() {
                h[k * FRAMES_PER_BUFFER + j]
            } else {
                0i32
            },
    )
}

/// The partitions of the filter `h`, the first taps first.
pub open spec fn partitions_of(h: Seq<i32>) -> Seq<Seq<i32>> {
    Seq::new(partition_count(h.len() as int) as nat, |k: int| partition(h, k))
}

/// Sample `m` of the product of an input block with a filter partition: what
/// the two blocks, each padded to twice its length, give when convolved.
pub open spec fn block_product(block: Seq<i16>, part: Seq<i32>, m: int) -> int {
    convolution_sum(block, part, m, FRAMES_PER_BUFFER as nat)
}

/// Sample `m` of the sum, over the first `n` partitions, of the product of
/// partition `k` with the block that came `k` calls before the newest.
pub open spec fn accumulated(
    history: Seq<Seq<i16>>,
    parts: Seq<Seq<i32>>,
    m: int,
    n: nat,
) -> int
    decreases n,
{
    if n == 0 {
        0
    } else {
        accumulated(history, parts, m, (n - 1) as nat) + block_product(
            history[history.len() - n],
            parts[n - 1],
            m,
        )
    }
}

/// A block of silence.
pub open spec fn silence() -> Seq<i16> {
    Seq::new(FRAMES_PER_BUFFER as nat, |j: int| 0i16)
}

/// What one channel of the effect remembers between calls.
pub struct ChannelState {
    /// The last input blocks, one for each partition, oldest first.
    pub history: Seq<Seq<i16>>,
    /// The tail of the last call's sum, in thousandths, which the next
    /// call adds to its own.
    pub residual: Seq<int>,
}

impl ChannelState {
    /// The state of a channel that has heard nothing yet.
    pub open spec fn silent(parts: nat) -> ChannelState {
        ChannelState {
            history: Seq::new(parts, |k: int| silence()),
            residual: Seq::new(FRAMES_PER_BUFFER as nat, |m: int| 0int),
        }
    }

    /// The history once the first block of `input` has joined it.
    pub open spec fn heard(self, input: Seq<i16>) -> Seq<Seq<i16>> {
        self.history.drop_first().push(input.take(FRAMES_PER_BUFFER as int))
    }

    /// The state after a call with `input`.
    pub open spec fn step(self, parts: Seq<Seq<i32>>, input: Seq<i16>) -> ChannelState {
        ChannelState {
            history: self.heard(input),
            residual: Seq::new(
                FRAMES_PER_BUFFER as nat,
                |m: int|
                    accumulated(self.heard(input), parts, FRAMES_PER_BUFFER + m, parts.len()),
            ),
        }
    }

    /// The wet signal that a call with `input` gives, in thousandths: the
    /// head of this call's sum with the tail of the last call's sum added.
    pub open spec fn wet(self, parts: Seq<Seq<i32>>, input: Seq<i16>) -> Seq<int> {
        Seq::new(
            FRAMES_PER_BUFFER as nat,
            |m: int| accumulated(self.heard(input), parts, m, parts.len()) + self.residual[m],
        )
    }
}

/// One frame of the output: the wet sample at the wet gain plus the input
/// sample at the dry gain, rounded down to a whole PCM step. The wet sample
/// and the gains come in thousandths.
pub open spec fn mixed_frame(wet_gain: int, dry_gain: int, wet: int, input: int) -> int {
    (wet_gain * wet + dry_gain * input * GAIN_UNIT) / (GAIN_UNIT * GAIN_UNIT)
}

/// The output of a call: each frame is the wet sample at the wet gain plus
/// the input sample at the dry gain.
pub open spec fn mixed(wet_gain: int, dry_gain: int, wet: Seq<int>, input: Seq<i16>) -> Seq<int> {
    Seq::new(
        FRAMES_PER_BUFFER as nat,
        |m: int| mixed_frame(wet_gain, dry_gain, wet[m], input[m] as int),
    )
}

/// The values of `v` as mathematical integers.
pub open spec fn ints(v: Seq<i64>) -> Seq<int> {
    Seq::new(v.len(), |m: int| v[m] as int)
}

/// The values of `v` as mathematical integers.
pub open spec fn wide(v: Seq<i128>) -> Seq<int> {
    Seq::new(v.len(), |m: int| v[m] as int)
}

/// The views of the blocks in `v`.
pub open spec fn blocks<T>(v: Seq<Vec<T>>) -> Seq<Seq<T>> {
    Seq::new(v.len(), |k: int| v[k]@)
}

/// No product of a sample and a tap exceeds this bound.
pub open spec fn product_bound() -> int {
    0x4000_0000_0000
}

/// No sample of a block product exceeds this bound.
pub open spec fn block_bound() -> int {
    0x80_0000_0000_0000
}

/// The product of a sample and a tap lies within `product_bound`.
proof fn lemma_product_bound(a: i16, b: i32)
    ensures
        -product_bound() <= (a as int) * (b as int) <= product_bound(),
{
    assert(-0x4000_0000_0000 <= (a as int) * (b as int) <= 0x4000_0000_0000) by (nonlinear_arith)
        requires
            -0x8000 <= a as int <= 0x7fff,
            -0x8000_0000 <= b as int <= 0x7fff_ffff,
    ;
}

/// Taps that meet no sample of the block add nothing to the sum.
proof fn lemma_no_overlap(block: Seq<i16>, part: Seq<i32>, m: int, from: nat, to: nat)
    requires
        from <= to,
        forall|i: int| m - to < i <= m - from ==> #[trigger] tap(block, i) == 0,
    ensures
        convolution_sum(block, part, m, to) == convolution_sum(block, part, m, from),
    decreases to - from,
{
    if from < to {
        lemma_no_overlap(block, part, m, from, (to - 1) as nat);
        assert(tap(block, m - (to - 1)) == 0);
    }
}

/// Sample `m` of the product of two blocks.
fn block_product_at(block: &Vec<i16>, part: &Vec<i32>, m: usize) -> (sum: i64)
    requires
        block@.len() == FRAMES_PER_BUFFER,
        part@.len() == FRAMES_PER_BUFFER,
        m < 2 * FRAMES_PER_BUFFER,
    ensures
        sum == block_product(block@, part@, m as int),
        -block_bound() <= sum <= block_bound(),
{
    let first: usize = if m < FRAMES_PER_BUFFER {
        0
    } else {
        m - FRAMES_PER_BUFFER + 1
    };
    let last: usize = if m < FRAMES_PER_BUFFER {
        m + 1
    } else {
        FRAMES_PER_BUFFER
    };
    proof {
        lemma_no_overlap(block@, part@, m as int, 0, first as nat);
    }
    let mut sum: i64 = 0;
    for j in first..last
        invariant
            block@.len() == FRAMES_PER_BUFFER,
            part@.len() == FRAMES_PER_BUFFER,
            first <= last <= FRAMES_PER_BUFFER,
            last <= m + 1,
            m < first + FRAMES_PER_BUFFER,
            sum == convolution_sum(block@, part@, m as int, j as nat),
            -j * product_bound() <= sum <= j * product_bound(),
    {
        proof {
            lemma_product_bound(block[m - j], part[j as int]);
        }
        sum = sum + (block[m - j] as i64) * (part[j] as i64);
    }
    proof {
        lemma_no_overlap(block@, part@, m as int, last as nat, FRAMES_PER_BUFFER as nat);
    }
    sum
}

/// A block of `FRAMES_PER_BUFFER` zeros.
fn silent_block() -> (block: Vec<i16>)
    ensures
        block@ == silence(),
{
    let mut block: Vec<i16> = Vec::new();
    for j in 0..FRAMES_PER_BUFFER
        invariant
            block@.len() == j,
            forall|i: int| 0 <= i < j ==> block@[i] == 0i16,
    {
        block.push(0);
    }
    assert(block@ =~= silence());
    block
}

/// One channel of the effect: the last input blocks and the tail that the
/// last call left.
struct Channel {
    history: RingBuffer<Vec<i16>>,
    residual: Vec<i128>,
}

impl Channel {
    spec fn state(&self) -> ChannelState {
        ChannelState { history: blocks(self.history@), residual: wide(self.residual@) }
    }

    spec fn wf(&self, parts: int) -> bool {
        &&& self.history@.len() == parts
        &&& forall|k: int| 0 <= k < parts ==> (#[trigger] self.history@[k])@.len() == FRAMES_PER_BUFFER
        &&& self.residual@.len() == FRAMES_PER_BUFFER
        &&& forall|m: int|
            0 <= m < FRAMES_PER_BUFFER ==> -parts * block_bound() <= #[trigger] self.residual@[m]
                <= parts * block_bound()
    }

    /// A channel that has heard nothing yet, for a filter of `parts`
    /// partitions.
    fn silent(parts: usize) -> (channel: Channel)
        requires
            parts > 0,
        ensures
            channel.wf(parts as int),
            channel.state() == ChannelState::silent(parts as nat),
    {
        let mut history: Vec<Vec<i16>> = Vec::new();
        for k in 0..parts
            invariant
                history@.len() == k,
                forall|i: int| 0 <= i < k ==> (#[trigger] history@[i])@ == silence(),
        {
            history.push(silent_block());
        }
        let mut residual: Vec<i128> = Vec::new();
        for m in 0..FRAMES_PER_BUFFER
            invariant
                residual@.len() == m,
                forall|i: int| 0 <= i < m ==> residual@[i] == 0i128,
        {
            residual.push(0);
        }
        let channel = Channel { history: RingBuffer::from_vec(history), residual };
        assert(channel.state().history =~= ChannelState::silent(parts as nat).history);
        assert(channel.state().residual =~= ChannelState::silent(parts as nat).residual);
        channel
    }

    /// Takes in the first block of `input` and gives the wet signal.
    fn process(&mut self, parts: &Vec<Vec<i32>>, input: &Vec<i16>) -> (wet: Vec<i128>)
        requires
            old(self).wf(parts@.len() as int),
            1 <= parts@.len() <= MAX_PARTITIONS,
            forall|k: int| 0 <= k < parts@.len() ==> (#[trigger] parts@[k])@.len() == FRAMES_PER_BUFFER,
            input@.len() >= FRAMES_PER_BUFFER,
        ensures
            final(self).wf(parts@.len() as int),
            final(self).state() == old(self).state().step(blocks(parts@), input@),
            wide(wet@) == old(self).state().wet(blocks(parts@), input@),
            forall|m: int|
                0 <= m < FRAMES_PER_BUFFER ==> -2 * parts@.len() * block_bound() <= #[trigger] wet@[m]
                    <= 2 * parts@.len() * block_bound(),
    {
        let count = parts.len();
        let mut block: Vec<i16> = Vec::new();
        for j in 0..FRAMES_PER_BUFFER
            invariant
                input@.len() >= FRAMES_PER_BUFFER,
                block@ == input@.take(j as int),
        {
            block.push(input[j]);
            assert(block@ =~= input@.take(j + 1));
        }
        self.history.push(block);
        let ghost history = blocks(self.history@);
        let ghost pieces = blocks(parts@);
        assert(history =~= old(self).state().heard(input@));

        let mut acc: Vec<i128> = Vec::new();
        for m in 0..2 * FRAMES_PER_BUFFER
            invariant
                acc@.len() == m,
                forall|i: int| 0 <= i < m ==> acc@[i] == 0i128,
        {
            acc.push(0);
        }
        for k in 0..count
            invariant
                count == parts@.len(),
                1 <= count <= MAX_PARTITIONS,
                forall|i: int| 0 <= i < count ==> (#[trigger] parts@[i])@.len() == FRAMES_PER_BUFFER,
                self.history@.len() == count,
                forall|i: int| 0 <= i < count ==> (#[trigger] self.history@[i])@.len() == FRAMES_PER_BUFFER,
                history == blocks(self.history@),
                pieces == blocks(parts@),
                acc@.len() == 2 * FRAMES_PER_BUFFER,
                forall|i: int|
                    0 <= i < 2 * FRAMES_PER_BUFFER ==> #[trigger] acc@[i] == accumulated(
                        history,
                        pieces,
                        i,
                        k as nat,
                    ),
                forall|i: int|
                    0 <= i < 2 * FRAMES_PER_BUFFER ==> -k * block_bound() <= #[trigger] acc@[i] <= k
                        * block_bound(),
        {
            let recent = self.history.from_newest(k);
            let part = &parts[k];
            for m in 0..2 * FRAMES_PER_BUFFER
                invariant
                    k < count,
                    count == parts@.len(),
                    1 <= count <= MAX_PARTITIONS,
                    self.history@.len() == count,
                    history == blocks(self.history@),
                    pieces == blocks(parts@),
                    recent@.len() == FRAMES_PER_BUFFER,
                    part@.len() == FRAMES_PER_BUFFER,
                    recent@ == history[count - 1 - k],
                    part@ == pieces[k as int],
                    acc@.len() == 2 * FRAMES_PER_BUFFER,
                    forall|i: int|
                        0 <= i < m ==> #[trigger] acc@[i] == accumulated(
                            history,
                            pieces,
                            i,
                            (k + 1) as nat,
                        ),
                    forall|i: int|
                        m <= i < 2 * FRAMES_PER_BUFFER ==> #[trigger] acc@[i] == accumulated(
                            history,
                            pieces,
                            i,
                            k as nat,
                        ),
                    forall|i: int|
                        0 <= i < 2 * FRAMES_PER_BUFFER ==> -(k + 1) * block_bound() <= #[trigger] acc@[i]
                            <= (k + 1) * block_bound(),
                    forall|i: int|
                        m <= i < 2 * FRAMES_PER_BUFFER ==> -k * block_bound() <= #[trigger] acc@[i] <= k
                            * block_bound(),
            {
                let product = block_product_at(recent, part, m);
                let sum = acc[m] + (product as i128);
                acc[m] = sum;
            }
        }

        let mut wet: Vec<i128> = Vec::new();
        let mut residual: Vec<i128> = Vec::new();
        for m in 0..FRAMES_PER_BUFFER
            invariant
                count == parts@.len(),
                1 <= count <= MAX_PARTITIONS,
                acc@.len() == 2 * FRAMES_PER_BUFFER,
                self.residual@.len() == FRAMES_PER_BUFFER,
                self.residual@ == old(self).residual@,
                forall|i: int|
                    0 <= i < FRAMES_PER_BUFFER ==> -count * block_bound() <= #[trigger] self.residual@[i]
                        <= count * block_bound(),
                forall|i: int|
                    0 <= i < 2 * FRAMES_PER_BUFFER ==> -count * block_bound() <= #[trigger] acc@[i]
                        <= count * block_bound(),
                wet@.len() == m,
                residual@.len() == m,
                forall|i: int| 0 <= i < m ==> #[trigger] wet@[i] == acc@[i] + self.residual@[i],
                forall|i: int| 0 <= i < m ==> #[trigger] residual@[i] == acc@[FRAMES_PER_BUFFER + i],
        {
            wet.push(acc[m] + self.residual[m]);
            residual.push(acc[FRAMES_PER_BUFFER + m]);
        }
        self.residual = residual;
        assert(self.state().residual =~= old(self).state().step(pieces, input@).residual);
        assert(wide(wet@) =~= old(self).state().wet(pieces, input@));
        wet
    }
}

/// No wet sample exceeds this bound.
pub open spec fn wet_bound() -> int {
    2 * MAX_PARTITIONS * block_bound()
}

/// The sum that is rounded to a frame of the output fits in 128 bits, and
/// the frame fits in 64.
proof fn lemma_gain_bound(gain: i16, wet: i128, dry: i16, input: i16)
    requires
        -wet_bound() <= wet <= wet_bound(),
    ensures
        -0x4_0000_0100_0000_0000_0000 <= (gain as int) * (wet as int) + (dry as int) * (
        input as int) * GAIN_UNIT <= 0x4_0000_0100_0000_0000_0000,
        -0x4_0000_0000_0000_0000_0000 <= (gain as int) * (wet as int)
            <= 0x4_0000_0000_0000_0000_0000,
        -0x100_0000_0000 <= (dry as int) * (input as int) * GAIN_UNIT <= 0x100_0000_0000,
        -0x7000_0000_0000_0000 <= mixed_frame(gain as int, dry as int, wet as int, input as int)
            <= 0x7000_0000_0000_0000,
{
    let g = gain as int;
    let w = wet as int;
    let d = dry as int;
    let x = input as int;
    assert(-0x4_0000_0000_0000_0000_0000 <= g * w <= 0x4_0000_0000_0000_0000_0000)
        by (nonlinear_arith)
        requires
            -0x8000 <= g <= 0x7fff,
            -0x8_0000_0000_0000_0000 <= w <= 0x8_0000_0000_0000_0000,
    ;
    assert(-0x4000_0000 <= d * x <= 0x4000_0000) by (nonlinear_arith)
        requires
            -0x8000 <= d <= 0x7fff,
            -0x8000 <= x <= 0x7fff,
    ;
    let n = g * w + d * x * GAIN_UNIT;
    lemma_floor(n, 1_000_000);
}

/// The wet signal and the input, each at its gain, added and rounded.
fn mix(wet_gain: i16, dry_gain: i16, wet: &Vec<i128>, input: &Vec<i16>) -> (out: Vec<i64>)
    requires
        wet@.len() == FRAMES_PER_BUFFER,
        input@.len() >= FRAMES_PER_BUFFER,
        forall|m: int| 0 <= m < FRAMES_PER_BUFFER ==> -wet_bound() <= #[trigger] wet@[m] <= wet_bound(),
    ensures
        ints(out@) == mixed(wet_gain as int, dry_gain as int, wide(wet@), input@),
{
    let mut out: Vec<i64> = Vec::new();
    for m in 0..FRAMES_PER_BUFFER
        invariant
            wet@.len() == FRAMES_PER_BUFFER,
            input@.len() >= FRAMES_PER_BUFFER,
            forall|i: int|
                0 <= i < FRAMES_PER_BUFFER ==> -wet_bound() <= #[trigger] wet@[i] <= wet_bound(),
            out@.len() == m,
            forall|i: int|
                0 <= i < m ==> #[trigger] out@[i] == mixed_frame(
                    wet_gain as int,
                    dry_gain as int,
                    wet@[i] as int,
                    input@[i] as int,
                ),
    {
        proof {
            lemma_gain_bound(wet_gain, wet[m as int], dry_gain, input[m as int]);
        }
        let sum: i128 = (wet_gain as i128) * wet[m] + (dry_gain as i128) * (input[m] as i128) * (
        GAIN_UNIT as i128);
        let unit: i128 = (GAIN_UNIT as i128) * (GAIN_UNIT as i128);
        let frame: i128 = if sum >= 0 {
            sum / unit
        } else {
            let up = (-sum + unit - 1) / unit;
            proof {
                lemma_floor(-sum + unit - 1, unit as int);
                lemma_floor_is(sum as int, unit as int, -up);
            }
            -up
        };
        out.push(frame as i64);
    }
    assert(ints(out@) =~= mixed(wet_gain as int, dry_gain as int, wide(wet@), input@));
    out
}

/// A stereo convolution effect with a fixed filter and fixed gains.
pub struct ConvolutionEffect {
    filter: Vec<i32>,
    partitions: Vec<Vec<i32>>,
    left: Channel,
    right: Channel,
    dry: i16,
    wet: i16,
}

impl ConvolutionEffect {
    /// The effect is consistent: its partitions are those of its filter,
    /// and each channel remembers one block for each partition.
    pub closed spec fn wf(&self) -> bool {
        &&& 1 <= self.filter@.len() <= MAX_FILTER_LEN
        &&& blocks(self.partitions@) == partitions_of(self.filter@)
        &&& self.left.wf(self.partitions@.len() as int)
        &&& self.right.wf(self.partitions@.len() as int)
    }

    /// The taps of the filter, in thousandths.
    pub closed spec fn filter(&self) -> Seq<i32> {
        self.filter@
    }

    /// The gain of the unprocessed input in the output, in thousandths.
    pub closed spec fn dry(&self) -> i16 {
        self.dry
    }

    /// The gain of the convolved signal in the output, in thousandths.
    pub closed spec fn wet(&self) -> i16 {
        self.wet
    }

    /// What the left channel remembers.
    pub closed spec fn left(&self) -> ChannelState {
        self.left.state()
    }

    /// What the right channel remembers.
    pub closed spec fn right(&self) -> ChannelState {
        self.right.state()
    }

    /// An effect for `filter` that has heard nothing yet. The taps of the
    /// filter and the two gains are given in thousandths.
    ///
    /// The filter is cut into `partition_count` blocks, the last of them
    /// padded with zeros.
    pub fn new(filter: &Vec<i32>, dry: i16, wet: i16) -> (effect: Self)
        requires
            1 <= filter@.len() <= MAX_FILTER_LEN,
        ensures
            effect.wf(),
            effect.filter() == filter@,
            effect.dry() == dry,
            effect.wet() == wet,
            effect.left() == ChannelState::silent(partition_count(filter@.len() as int) as nat),
            effect.right() == ChannelState::silent(partition_count(filter@.len() as int) as nat),
    {
        let mut partitions: Vec<Vec<i32>> = Vec::new();
        let mut taps: Vec<i32> = Vec::new();
        let block_size = (filter.len() - 1) / FRAMES_PER_BUFFER + 1;
        for block_idx in 0..block_size
            invariant
                1 <= filter@.len() <= MAX_FILTER_LEN,
                block_size == partition_count(filter@.len() as int),
                partitions@.len() == block_idx,
                forall|k: int| 0 <= k < block_idx ==> (#[trigger] partitions@[k])@ == partition(filter@, k),
        {
            let mut part: Vec<i32> = Vec::new();
            for sample_idx in 0..FRAMES_PER_BUFFER
                invariant
                    1 <= filter@.len() <= MAX_FILTER_LEN,
                    block_idx < block_size,
                    block_size == partition_count(filter@.len() as int),
                    part@.len() == sample_idx,
                    forall|j: int| 0 <= j < sample_idx ==> #[trigger] part@[j] == partition(filter@, block_idx as int)[j],
            {
                if sample_idx + block_idx * FRAMES_PER_BUFFER < filter.len() {
                    part.push(filter[sample_idx + block_idx * FRAMES_PER_BUFFER]);
                } else {
                    part.push(0);
                }
            }
            assert(part@ =~= partition(filter@, block_idx as int));
            partitions.push(part);
        }
        for i in 0..filter.len()
            invariant
                taps@ == filter@.take(i as int),
        {
            taps.push(filter[i]);
            assert(taps@ =~= filter@.take(i + 1));
        }
        assert(taps@ =~= filter@);
        assert(blocks(partitions@) =~= partitions_of(filter@));
        let left = Channel::silent(block_size);
        let right = Channel::silent(block_size);
        ConvolutionEffect { filter: taps, partitions, left, right, dry, wet }
    }

    /// Processes one block per channel.
    ///
    /// Of each input the first `FRAMES_PER_BUFFER` frames are read. Each
    /// output has `FRAMES_PER_BUFFER` frames: the convolved signal at the
    /// wet gain plus the input at the dry gain, rounded down to whole PCM
    /// steps.
    pub fn effect(&mut self, left_wave: &Vec<i16>, right_wave: &Vec<i16>) -> (out: (
        Vec<i64>,
        Vec<i64>,
    ))
        requires
            old(self).wf(),
            left_wave@.len() >= FRAMES_PER_BUFFER,
            right_wave@.len() >= FRAMES_PER_BUFFER,
        ensures
            final(self).wf(),
            final(self).filter() == old(self).filter(),
            final(self).dry() == old(self).dry(),
            final(self).wet() == old(self).wet(),
            final(self).left() == old(self).left().step(
                partitions_of(old(self).filter()),
                left_wave@,
            ),
            final(self).right() == old(self).right().step(
                partitions_of(old(self).filter()),
                right_wave@,
            ),
            ints(out.0@) == mixed(
                old(self).wet() as int,
                old(self).dry() as int,
                old(self).left().wet(partitions_of(old(self).filter()), left_wave@),
                left_wave@,
            ),
            ints(out.1@) == mixed(
                old(self).wet() as int,
                old(self).dry() as int,
                old(self).right().wet(partitions_of(old(self).filter()), right_wave@),
                right_wave@,
            ),
    {
        proof {
            assert(blocks(self.partitions@).len() == partitions_of(self.filter@).len());
            assert(forall|k: int|
                0 <= k < self.partitions@.len() ==> (#[trigger] self.partitions@[k])@ == blocks(
                    self.partitions@,
                )[k]);
        }
        let convolved_left = self.left.process(&self.partitions, left_wave);
        let convolved_right = self.right.process(&self.partitions, right_wave);
        assert(wide(convolved_left@).len() == FRAMES_PER_BUFFER);
        assert(wide(convolved_right@).len() == FRAMES_PER_BUFFER);
        let new_left_wave = mix(self.wet, self.dry, &convolved_left, left_wave);
        let new_right_wave = mix(self.wet, self.dry, &convolved_right, right_wave);
        (new_left_wave, new_right_wave)
    }
}

} // verus!
