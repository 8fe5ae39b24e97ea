//! Mathematical model of interleaved chunks and bounded histories.

use vstd::prelude::*;

verus! {

/// The most recent `n` elements of `s` (all of `s` when it is no longer).
pub open spec fn keep_last<T>(s: Seq<T>, n: nat) -> Seq<T> {
    if s.len() <= n {
        s
    } else {
        s.subrange(s.len() - n, s.len() as int)
    }
}

/// Number of complete frames of `channels` samples in a chunk of `len`
/// samples; a trailing partial frame does not count.
pub open spec fn frame_count(len: nat, channels: nat) -> nat {
    if channels == 0 {
        0
    } else {
        len / channels
    }
}

/// The samples of channel `c` in an interleaved chunk, one per complete
/// frame, in chronological order.
pub open spec fn channel_samples<T>(chunk: Seq<T>, channels: nat, c: int) -> Seq<T> {
    Seq::new(frame_count(chunk.len(), channels), |f: int| chunk[f * channels + c])
}

/// Every channel history after a chunk has been appended and each history
/// trimmed from the front to at most `bound` samples.
pub open spec fn after_ingest<T>(buffers: Seq<Seq<T>>, chunk: Seq<T>, bound: nat) -> Seq<
    Seq<T>,
> {
    Seq::new(
        buffers.len(),
        |c: int| keep_last(buffers[c] + channel_samples(chunk, buffers.len(), c), bound),
    )
}

/// The samples of every channel at time index `i`.
pub open spec fn frame_at<T>(buffers: Seq<Seq<T>>, i: int) -> Seq<T> {
    Seq::new(buffers.len(), |c: int| buffers[c][i])
}

/// Whether every channel holds a full window of `bound` samples; never so
/// without channels.
pub open spec fn is_ready<T>(buffers: Seq<Seq<T>>, bound: nat) -> bool {
    buffers.len() > 0 && forall|c: int| 0 <= c < buffers.len() ==> #[trigger] buffers[c].len() >= bound
}

/// The most recent `bound` samples of every channel, where all are full.
pub open spec fn windows_of<T>(buffers: Seq<Seq<T>>, bound: nat) -> Option<Seq<Seq<T>>> {
    if is_ready(buffers, bound) {
        Some(
            Seq::new(
                buffers.len(),
                |c: int| buffers[c].subrange(buffers[c].len() - bound, buffers[c].len() as int),
            ),
        )
    } else {
        None
    }
}

/// `value` is what `mean` returned for a vector holding exactly `frame`.
pub open spec fn is_mean_of<T, F: Fn(Vec<T>) -> T>(mean: F, frame: Seq<T>, value: T) -> bool {
    exists|v: Vec<T>| v@ == frame && call_ensures(mean, (v,), value)
}

/// Length of the waveform: empty without history, else the requested
/// resolution or the natural length.
pub open spec fn waveform_len<T>(buffers: Seq<Seq<T>>, resolution: Option<usize>) -> nat {
    if min_len(buffers) == 0 {
        0
    } else {
        match resolution {
            Some(n) => n as nat,
            None => min_len(buffers),
        }
    }
}

/// Number of time indices that are averaged into the front of the waveform.
pub open spec fn waveform_samples<T>(buffers: Seq<Seq<T>>, resolution: Option<usize>) -> nat {
    let m = min_len(buffers);
    let n = waveform_len(buffers, resolution);
    if n < m {
        n
    } else {
        m
    }
}

/// Values of bin `i` across all channel spectra.
pub open spec fn bin_column<T>(spectra: Seq<Seq<T>>, i: int) -> Seq<T> {
    frame_at(spectra, i)
}

/// Shortest history among the first `n` channels (`n >= 1`).
pub open spec fn min_len_upto<T>(buffers: Seq<Seq<T>>, n: int) -> nat
    decreases n,
{
    if n <= 1 {
        buffers[0].len()
    } else {
        let m = min_len_upto(buffers, n - 1);
        if buffers[n - 1].len() < m {
            buffers[n - 1].len()
        } else {
            m
        }
    }
}

/// Shortest history across all channels; zero where there are no channels.
pub open spec fn min_len<T>(buffers: Seq<Seq<T>>) -> nat {
    if buffers.len() == 0 {
        0
    } else {
        min_len_upto(buffers, buffers.len() as int)
    }
}

pub proof fn lemma_min_len_upto<T>(buffers: Seq<Seq<T>>, n: int)
    requires
        1 <= n <= buffers.len(),
    ensures
        forall|c: int| 0 <= c < n ==> min_len_upto(buffers, n) <= #[trigger] buffers[c].len(),
        exists|c: int| 0 <= c < n && min_len_upto(buffers, n) == #[trigger] buffers[c].len(),
    decreases n,
{
    if n > 1 {
        lemma_min_len_upto(buffers, n - 1);
        let m = min_len_upto(buffers, n - 1);
        let w = choose|c: int| 0 <= c < n - 1 && m == #[trigger] buffers[c].len();
        if buffers[n - 1].len() < m {
            assert(0 <= n - 1 < n && min_len_upto(buffers, n) == buffers[n - 1].len());
        } else {
            assert(0 <= w < n && min_len_upto(buffers, n) == buffers[w].len());
        }
    } else {
        assert(min_len_upto(buffers, n) == buffers[0].len());
    }
}

/// The shortest history is no longer than any channel's history.
pub proof fn lemma_min_len_bound<T>(buffers: Seq<Seq<T>>)
    ensures
        forall|c: int| 0 <= c < buffers.len() ==> min_len(buffers) <= #[trigger] buffers[c].len(),
{
    if buffers.len() > 0 {
        lemma_min_len_upto(buffers, buffers.len() as int);
    }
}

/// Position of sample `c` of frame `f` inside a chunk: it lies in the chunk
/// whenever the frame is complete.
pub proof fn lemma_frame_position(f: int, c: int, channels: int, len: int)
    requires
        0 < channels,
        0 <= c < channels,
        0 <= f < len / channels,
        0 <= len,
    ensures
        0 <= f * channels + c < len,
{
    let q = len / channels;
    assert(q * channels <= len) by (nonlinear_arith)
        requires
            q == len / channels,
            channels > 0,
            len >= 0,
    ;
    assert((f + 1) * channels <= q * channels) by (nonlinear_arith)
        requires
            f + 1 <= q,
            0 < channels,
    ;
    assert((f + 1) * channels == f * channels + channels) by (nonlinear_arith);
    assert(0 <= f * channels) by (nonlinear_arith)
        requires
            0 <= f,
            0 < channels,
    ;
}

/// After any chunk, no channel history is longer than the bound.
pub proof fn ingest_respects_bound<T>(buffers: Seq<Seq<T>>, chunk: Seq<T>, bound: nat)
    ensures
        after_ingest(buffers, chunk, bound).len() == buffers.len(),
        forall|c: int|
            0 <= c < buffers.len() ==> (#[trigger] after_ingest(buffers, chunk, bound)[c]).len()
                <= bound,
{
}

/// Eviction is first in, first out: when a channel's history together with
/// its new samples exceeds the bound by `excess`, exactly the `excess` oldest
/// samples are dropped and the rest keep their order.
pub proof fn ingest_evicts_oldest<T>(
    buffers: Seq<Seq<T>>,
    chunk: Seq<T>,
    bound: nat,
    c: int,
    excess: nat,
)
    requires
        0 <= c < buffers.len(),
        buffers[c].len() + channel_samples(chunk, buffers.len(), c).len() == bound + excess,
    ensures
        ({
            let all = buffers[c] + channel_samples(chunk, buffers.len(), c);
            let kept = after_ingest(buffers, chunk, bound)[c];
            &&& kept.len() == bound
            &&& kept == all.subrange(excess as int, all.len() as int)
            &&& forall|j: int| 0 <= j < bound ==> #[trigger] kept[j] == all[excess + j]
        }),
{
}

/// Ingesting an empty chunk leaves every history as it was.
pub proof fn empty_chunk_changes_nothing<T>(buffers: Seq<Seq<T>>, bound: nat)
    requires
        forall|c: int| 0 <= c < buffers.len() ==> #[trigger] buffers[c].len() <= bound,
    ensures
        after_ingest(buffers, Seq::<T>::empty(), bound) == buffers,
{
    assert forall|c: int| 0 <= c < buffers.len() implies #[trigger] after_ingest(
        buffers,
        Seq::<T>::empty(),
        bound,
    )[c] == buffers[c] by {
        assert(channel_samples(Seq::<T>::empty(), buffers.len(), c) =~= Seq::<T>::empty());
        assert(buffers[c] + Seq::<T>::empty() =~= buffers[c]);
    }
    assert(after_ingest(buffers, Seq::<T>::empty(), bound) =~= buffers);
}

/// A trailing partial frame is ignored: ingesting a chunk has the same effect
/// as ingesting only its leading complete frames.
pub proof fn partial_frame_is_dropped<T>(buffers: Seq<Seq<T>>, chunk: Seq<T>, bound: nat)
    requires
        buffers.len() > 0,
    ensures
        ({
            let whole = frame_count(chunk.len(), buffers.len()) * buffers.len();
            after_ingest(buffers, chunk, bound) == after_ingest(
                buffers,
                chunk.take(whole as int),
                bound,
            )
        }),
{
    let n = buffers.len();
    let k = chunk.len() / n;
    let whole = k * n;
    assert(whole <= chunk.len()) by (nonlinear_arith)
        requires
            k == chunk.len() / n,
            n > 0,
            whole == k * n,
    ;
    assert(whole / n == k) by {
        vstd::arithmetic::div_mod::lemma_div_multiples_vanish(k as int, n as int);
    }
    let leading = chunk.take(whole as int);
    assert forall|c: int| 0 <= c < n implies channel_samples(chunk, n, c) == channel_samples(
        leading,
        n,
        c,
    ) by {
        assert forall|f: int| 0 <= f < k implies #[trigger] chunk[f * n + c] == leading[f * n
            + c] by {
            assert(f * n + c < whole) by (nonlinear_arith)
                requires
                    f < k,
                    c < n,
                    0 <= f,
                    whole == k * n,
            ;
            assert(0 <= f * n) by (nonlinear_arith)
                requires
                    0 <= f,
                    n > 0,
            ;
        }
        assert(channel_samples(chunk, n, c) =~= channel_samples(leading, n, c));
    }
    assert(after_ingest(buffers, chunk, bound) =~= after_ingest(buffers, leading, bound));
}

} // verus!
