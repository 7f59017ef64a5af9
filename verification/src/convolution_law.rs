//! The convolution effect, fed block by block, gives the direct-form
//! convolution of everything it was fed.

use crate::convolution::{
    accumulated, convolution_sum, direct_convolution, mixed, mixed_frame, partition,
    partitions_of, silence, tap, weight, ChannelState, FRAMES_PER_BUFFER,
};
use vstd::prelude::*;

verus! {

/// The state of a channel that started silent and then heard `inputs`, one
/// call each.
pub open spec fn run(parts: Seq<Seq<i32>>, inputs: Seq<Seq<i16>>) -> ChannelState
    decreases inputs.len(),
{
    if inputs.len() == 0 {
        ChannelState::silent(parts.len())
    } else {
        run(parts, inputs.drop_last()).step(parts, inputs.last())
    }
}

/// The signal that the calls with `inputs` have read: the first block of
/// each input, one after the other.
pub open spec fn stream(inputs: Seq<Seq<i16>>) -> Seq<i16>
    decreases inputs.len(),
{
    if inputs.len() == 0 {
        Seq::empty()
    } else {
        stream(inputs.drop_last()) + inputs.last().take(FRAMES_PER_BUFFER as int)
    }
}

/// Block `i` of the stream, and silence before its start and after its end.
spec fn block_at(inputs: Seq<Seq<i16>>, i: int) -> Seq<i16> {
    if 0 <= i < inputs.len() {
        inputs[i].take(FRAMES_PER_BUFFER as int)
    } else {
        silence()
    }
}

/// The sum of `x[u - j] * h[base + j]` over `0 <= j < c`.
spec fn chunk_sum(x: Seq<i16>, h: Seq<i32>, u: int, base: int, c: nat) -> int
    decreases c,
{
    if c == 0 {
        0
    } else {
        chunk_sum(x, h, u, base, (c - 1) as nat) + tap(x, u - (c - 1)) * weight(h, base + (c - 1))
    }
}

spec fn long_enough(inputs: Seq<Seq<i16>>) -> bool {
    forall|i: int| 0 <= i < inputs.len() ==> (#[trigger] inputs[i]).len() >= FRAMES_PER_BUFFER
}

proof fn lemma_stream(inputs: Seq<Seq<i16>>)
    requires
        long_enough(inputs),
    ensures
        stream(inputs).len() == inputs.len() * FRAMES_PER_BUFFER,
        forall|i: int, r: int|
            0 <= i < inputs.len() && 0 <= r < FRAMES_PER_BUFFER ==> stream(inputs)[i
                * FRAMES_PER_BUFFER + r] == #[trigger] inputs[i][r],
    decreases inputs.len(),
{
    if inputs.len() > 0 {
        let before = inputs.drop_last();
        assert(long_enough(before)) by {
            assert forall|i: int| 0 <= i < before.len() implies (#[trigger] before[i]).len()
                >= FRAMES_PER_BUFFER by {
                assert(before[i] == inputs[i]);
            }
        }
        lemma_stream(before);
        assert forall|i: int, r: int|
            0 <= i < inputs.len() && 0 <= r < FRAMES_PER_BUFFER implies stream(inputs)[i
            * FRAMES_PER_BUFFER + r] == #[trigger] inputs[i][r] by {
            if i < before.len() {
                assert(before[i] == inputs[i]);
            }
        }
    }
}

/// A tap of a block of the stream is the tap of the stream at that place.
proof fn lemma_block_tap(inputs: Seq<Seq<i16>>, i: int, r: int)
    requires
        long_enough(inputs),
        0 <= r < FRAMES_PER_BUFFER,
    ensures
        tap(block_at(inputs, i), r) == tap(stream(inputs), i * FRAMES_PER_BUFFER + r),
{
    lemma_stream(inputs);
    if 0 <= i < inputs.len() {
        assert(stream(inputs)[i * FRAMES_PER_BUFFER + r] == inputs[i][r]);
    }
}

/// The two products that meet in one output sample: the head of the product
/// of block `i` and the tail of the product of block `i - 1`, each with the
/// same partition, add up to one chunk of the direct sum.
proof fn lemma_pair(inputs: Seq<Seq<i16>>, h: Seq<i32>, i: int, k: int, m: int, c: nat)
    requires
        long_enough(inputs),
        0 <= k,
        0 <= m < FRAMES_PER_BUFFER,
        c <= FRAMES_PER_BUFFER,
    ensures
        convolution_sum(block_at(inputs, i), partition(h, k), m, c) + convolution_sum(
            block_at(inputs, i - 1),
            partition(h, k),
            FRAMES_PER_BUFFER + m,
            c,
        ) == chunk_sum(
            stream(inputs),
            h,
            i * FRAMES_PER_BUFFER + m,
            k * FRAMES_PER_BUFFER,
            c,
        ),
    decreases c,
{
    if c > 0 {
        let j = c - 1;
        lemma_pair(inputs, h, i, k, m, j as nat);
        let a = tap(block_at(inputs, i), m - j);
        let b = tap(block_at(inputs, i - 1), FRAMES_PER_BUFFER + m - j);
        let p = weight(partition(h, k), j);
        let x = tap(stream(inputs), i * FRAMES_PER_BUFFER + m - j);
        assert(p == weight(h, k * FRAMES_PER_BUFFER + j));
        assert(a + b == x) by {
            if j <= m {
                lemma_block_tap(inputs, i, m - j);
            } else {
                lemma_block_tap(inputs, i - 1, FRAMES_PER_BUFFER + m - j);
            }
        }
        assert(a * p + b * p == x * p) by (nonlinear_arith)
            requires
                a + b == x,
        ;
    }
}

/// The direct sum, cut after `base` taps.
proof fn lemma_cut(x: Seq<i16>, h: Seq<i32>, t: int, base: nat, c: nat)
    ensures
        convolution_sum(x, h, t, base + c) == convolution_sum(x, h, t, base) + chunk_sum(
            x,
            h,
            t - base,
            base as int,
            c,
        ),
    decreases c,
{
    if c > 0 {
        lemma_cut(x, h, t, base, (c - 1) as nat);
    }
}

/// Taps past the end of the filter add nothing to the direct sum.
proof fn lemma_past_end(x: Seq<i16>, h: Seq<i32>, t: int, n: nat)
    requires
        n >= h.len(),
    ensures
        convolution_sum(x, h, t, n) == convolution_sum(x, h, t, h.len()),
    decreases n,
{
    if n > h.len() {
        lemma_past_end(x, h, t, (n - 1) as nat);
    }
}

/// A product with a block of silence is zero.
proof fn lemma_silence(part: Seq<i32>, m: int, c: nat)
    ensures
        convolution_sum(silence(), part, m, c) == 0,
    decreases c,
{
    if c > 0 {
        lemma_silence(part, m, (c - 1) as nat);
    }
}

proof fn lemma_silent_history(parts: Seq<Seq<i32>>, m: int, n: nat)
    requires
        n <= parts.len(),
    ensures
        accumulated(ChannelState::silent(parts.len()).history, parts, m, n) == 0,
    decreases n,
{
    if n > 0 {
        lemma_silent_history(parts, m, (n - 1) as nat);
        lemma_silence(parts[n - 1], m, FRAMES_PER_BUFFER as nat);
    }
}

/// After the calls with `inputs`, the history holds the last blocks of the
/// stream, and the residual is the tail of the sum over that history.
proof fn lemma_run(parts: Seq<Seq<i32>>, inputs: Seq<Seq<i16>>)
    requires
        parts.len() >= 1,
    ensures
        run(parts, inputs).history.len() == parts.len(),
        forall|idx: int|
            0 <= idx < parts.len() ==> #[trigger] run(parts, inputs).history[idx] == block_at(
                inputs,
                inputs.len() - parts.len() + idx,
            ),
        run(parts, inputs).residual.len() == FRAMES_PER_BUFFER,
        forall|m: int|
            0 <= m < FRAMES_PER_BUFFER ==> #[trigger] run(parts, inputs).residual[m]
                == accumulated(
                run(parts, inputs).history,
                parts,
                FRAMES_PER_BUFFER + m,
                parts.len(),
            ),
    decreases inputs.len(),
{
    if inputs.len() == 0 {
        assert forall|m: int| 0 <= m < FRAMES_PER_BUFFER implies #[trigger] run(
            parts,
            inputs,
        ).residual[m] == accumulated(
            run(parts, inputs).history,
            parts,
            FRAMES_PER_BUFFER + m,
            parts.len(),
        ) by {
            lemma_silent_history(parts, FRAMES_PER_BUFFER + m, parts.len());
        }
    } else {
        let before = inputs.drop_last();
        lemma_run(parts, before);
        let old_state = run(parts, before);
        let new_state = run(parts, inputs);
        assert(new_state.history == old_state.heard(inputs.last()));
        assert forall|idx: int| 0 <= idx < parts.len() implies #[trigger] new_state.history[idx]
            == block_at(inputs, inputs.len() - parts.len() + idx) by {
            if idx < parts.len() - 1 {
                assert(new_state.history[idx] == old_state.history[idx + 1]);
                let i = before.len() - parts.len() + idx + 1;
                if 0 <= i < before.len() {
                    assert(before[i] == inputs[i]);
                }
            }
        }
    }
}

/// The sum over the first `q` partitions of the head of this call's
/// products and of the tail of the last call's products is the direct sum
/// over the first `q` blocks of taps.
proof fn lemma_partial(h: Seq<i32>, inputs: Seq<Seq<i16>>, next: Seq<i16>, m: int, q: nat)
    requires
        h.len() >= 1,
        long_enough(inputs),
        next.len() >= FRAMES_PER_BUFFER,
        0 <= m < FRAMES_PER_BUFFER,
        q <= partitions_of(h).len(),
    ensures
        accumulated(run(partitions_of(h), inputs).heard(next), partitions_of(h), m, q)
            + accumulated(
            run(partitions_of(h), inputs).history,
            partitions_of(h),
            FRAMES_PER_BUFFER + m,
            q,
        ) == convolution_sum(
            stream(inputs.push(next)),
            h,
            inputs.len() * FRAMES_PER_BUFFER + m,
            (q * FRAMES_PER_BUFFER) as nat,
        ),
    decreases q,
{
    if q > 0 {
        let parts = partitions_of(h);
        let k = (q - 1) as nat;
        let all = inputs.push(next);
        let n = inputs.len() as int;
        let t = n * FRAMES_PER_BUFFER + m;
        lemma_partial(h, inputs, next, m, k);
        lemma_run(parts, inputs);
        let state = run(parts, inputs);
        let heard = state.heard(next);
        assert(long_enough(all));
        assert(heard[heard.len() - q] == block_at(all, n - k)) by {
            if k > 0 {
                let i = n - k;
                assert(heard[heard.len() - q] == state.history[parts.len() - q + 1]);
                if 0 <= i < n {
                    assert(all[i] == inputs[i]);
                }
            }
        }
        assert(state.history[state.history.len() - q] == block_at(all, n - k - 1)) by {
            let i = n - k - 1;
            if 0 <= i < n {
                assert(all[i] == inputs[i]);
            }
        }
        assert(parts[k as int] == partition(h, k as int));
        lemma_pair(all, h, n - k, k as int, m, FRAMES_PER_BUFFER as nat);
        lemma_cut(
            stream(all),
            h,
            t,
            (k * FRAMES_PER_BUFFER) as nat,
            FRAMES_PER_BUFFER as nat,
        );
    }
}

/// Fed block by block, the effect gives the direct-form convolution.
///
/// Let a channel start silent and hear `inputs`, one call each, and then
/// `next`. Sample `m` of the wet signal of that last call is the sample of the
/// direct-form convolution of the whole stream with the filter `h` at the
/// place of that sample in the stream.
pub proof fn lemma_effect_is_direct_convolution(
    h: Seq<i32>,
    inputs: Seq<Seq<i16>>,
    next: Seq<i16>,
    m: int,
)
    requires
        h.len() >= 1,
        forall|i: int| 0 <= i < inputs.len() ==> (#[trigger] inputs[i]).len() >= FRAMES_PER_BUFFER,
        next.len() >= FRAMES_PER_BUFFER,
        0 <= m < FRAMES_PER_BUFFER,
    ensures
        run(partitions_of(h), inputs).wet(partitions_of(h), next)[m] == direct_convolution(
            stream(inputs.push(next)),
            h,
            inputs.len() * FRAMES_PER_BUFFER + m,
        ),
{
    let parts = partitions_of(h);
    lemma_run(parts, inputs);
    lemma_partial(h, inputs, next, m, parts.len());
    lemma_past_end(
        stream(inputs.push(next)),
        h,
        inputs.len() * FRAMES_PER_BUFFER + m,
        (parts.len() * FRAMES_PER_BUFFER) as nat,
    );
}

/// What a call gives out: the direct-form convolution at the wet gain plus
/// the input at the dry gain, rounded down to a whole PCM step.
pub proof fn lemma_output_is_direct_convolution(
    h: Seq<i32>,
    inputs: Seq<Seq<i16>>,
    next: Seq<i16>,
    wet_gain: int,
    dry_gain: int,
    m: int,
)
    requires
        h.len() >= 1,
        forall|i: int| 0 <= i < inputs.len() ==> (#[trigger] inputs[i]).len() >= FRAMES_PER_BUFFER,
        next.len() >= FRAMES_PER_BUFFER,
        0 <= m < FRAMES_PER_BUFFER,
    ensures
        mixed(
            wet_gain,
            dry_gain,
            run(partitions_of(h), inputs).wet(partitions_of(h), next),
            next,
        )[m] == mixed_frame(
            wet_gain,
            dry_gain,
            direct_convolution(stream(inputs.push(next)), h, inputs.len() * FRAMES_PER_BUFFER + m),
            next[m] as int,
        ),
{
    lemma_effect_is_direct_convolution(h, inputs, next, m);
}

/// With whole taps, a wet gain of one and a dry gain of none, a call gives
/// out the direct-form convolution in whole PCM steps: nothing is rounded.
pub proof fn lemma_whole_taps(y: int, input: int)
    ensures
        mixed_frame(1000, 0, y * 1000, input) == y,
{
    crate::rounding::lemma_floor_is(1000 * (y * 1000) + 0 * input * 1000, 1_000_000, y);
}

/// The state after one more call is a step on from the state before it.
pub proof fn lemma_run_push(parts: Seq<Seq<i32>>, inputs: Seq<Seq<i16>>, next: Seq<i16>)
    ensures
        run(parts, inputs.push(next)) == run(parts, inputs).step(parts, next),
{
    assert(inputs.push(next).drop_last() =~= inputs);
    assert(inputs.push(next).last() == next);
}

} // verus!
