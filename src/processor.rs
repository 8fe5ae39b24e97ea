//! Bounded per-channel sample histories and the analyses read from them.

use std::collections::VecDeque;
use vstd::prelude::*;

use crate::frames::{
    after_ingest, bin_column, channel_samples, frame_at, frame_count, is_mean_of, is_ready,
    keep_last, lemma_frame_position, lemma_min_len_bound, min_len, min_len_upto, waveform_len,
    waveform_samples, windows_of,
};

verus! {

/// Configuration of an [`AudioProcessor`]. Only `resolution` may change after
/// construction.
struct AudioProcessorConfig {
    /// Window size of one spectral transform, in samples; also the bound on
    /// every channel history.
    fft_resolution: usize,
    /// Requested waveform length; `None` is the natural length.
    resolution: Option<usize>,
    /// Sampling rate of the incoming stream, in Hz.
    sampling_rate: u32,
    /// Number of interleaved channels.
    channel_count: usize,
}

/// One bounded FIFO history of samples per channel, fed by interleaved chunks.
pub struct AudioProcessor<T> {
    channel_buffers: Vec<VecDeque<T>>,
    config: AudioProcessorConfig,
}

impl<T: Copy> AudioProcessor<T> {
    /// The channel histories, oldest sample first.
    pub closed spec fn buffers(&self) -> Seq<Seq<T>> {
        Seq::new(self.channel_buffers.len() as nat, |c: int| self.channel_buffers[c]@)
    }

    /// Window size of one spectral transform and bound on every history.
    pub closed spec fn fft_resolution_spec(&self) -> nat {
        self.config.fft_resolution as nat
    }

    /// Requested waveform length.
    pub closed spec fn resolution_spec(&self) -> Option<usize> {
        self.config.resolution
    }

    /// Sampling rate of the incoming stream, in Hz.
    pub closed spec fn sampling_rate_spec(&self) -> u32 {
        self.config.sampling_rate
    }

    /// Number of interleaved channels.
    pub closed spec fn channel_count_spec(&self) -> nat {
        self.config.channel_count as nat
    }

    /// One history per channel, a positive window size, and no history longer
    /// than the window.
    pub closed spec fn wf(&self) -> bool {
        &&& self.channel_buffers.len() == self.config.channel_count
        &&& self.config.fft_resolution > 0
        &&& forall|c: int|
            0 <= c < self.channel_buffers.len() ==> #[trigger] self.channel_buffers[c]@.len()
                <= self.config.fft_resolution
    }

    /// Creates a processor with one empty history per channel.
    pub fn new(
        fft_resolution: usize,
        resolution: Option<usize>,
        sampling_rate: u32,
        channel_count: usize,
    ) -> (r: Self)
        requires
            fft_resolution > 0,
        ensures
            r.wf(),
            r.fft_resolution_spec() == fft_resolution,
            r.resolution_spec() == resolution,
            r.sampling_rate_spec() == sampling_rate,
            r.channel_count_spec() == channel_count,
            r.buffers().len() == channel_count,
            forall|c: int| 0 <= c < channel_count ==> (#[trigger] r.buffers()[c]).len() == 0,
    {
        let mut channel_buffers: Vec<VecDeque<T>> = Vec::with_capacity(channel_count);
        let mut c: usize = 0;
        while c < channel_count
            invariant
                c <= channel_count,
                channel_buffers.len() == c,
                forall|i: int| 0 <= i < c ==> (#[trigger] channel_buffers[i])@.len() == 0,
            decreases channel_count - c,
        {
            channel_buffers.push(VecDeque::with_capacity(fft_resolution));
            c += 1;
        }
        AudioProcessor {
            channel_buffers,
            config: AudioProcessorConfig { fft_resolution, resolution, sampling_rate, channel_count },
        }
    }

    /// Appends every complete frame of an interleaved chunk, sample `i` of a
    /// frame to channel `i`, drops a trailing partial frame, then evicts the
    /// oldest samples of each channel beyond the window size.
    pub fn ingest(&mut self, chunk: &[T])
        requires
            old(self).wf(),
        ensures
            final(self).wf(),
            final(self).buffers() == after_ingest(
                old(self).buffers(),
                chunk@,
                old(self).fft_resolution_spec(),
            ),
            final(self).fft_resolution_spec() == old(self).fft_resolution_spec(),
            final(self).resolution_spec() == old(self).resolution_spec(),
            final(self).sampling_rate_spec() == old(self).sampling_rate_spec(),
            final(self).channel_count_spec() == old(self).channel_count_spec(),
    {
        let channels = self.config.channel_count;
        let bound = self.config.fft_resolution;
        let ghost prev = self.buffers();
        if channels == 0 {
            assert(self.buffers() =~= after_ingest(prev, chunk@, bound as nat));
            return;
        }
        let len = chunk.len();
        let frames = len / channels;
        let mut pending: Vec<VecDeque<T>> = Vec::new();
        std::mem::swap(&mut pending, &mut self.channel_buffers);
        let mut rebuilt: Vec<VecDeque<T>> = Vec::with_capacity(channels);
        let mut c: usize = 0;
        while c < channels
            invariant
                channels == prev.len(),
                channels > 0,
                len == chunk@.len(),
                frames == frame_count(chunk@.len(), channels as nat),
                frames == len / channels,
                c <= channels,
                pending.len() == channels - c,
                forall|i: int| 0 <= i < channels - c ==> (#[trigger] pending[i])@ == prev[c + i],
                rebuilt.len() == c,
                forall|i: int|
                    0 <= i < c ==> (#[trigger] rebuilt[i])@ == keep_last(
                        prev[i] + channel_samples(chunk@, channels as nat, i),
                        bound as nat,
                    ),
            decreases channels - c,
        {
            let mut buffer = pending.remove(0);
            let ghost added = channel_samples(chunk@, channels as nat, c as int);
            let mut f: usize = 0;
            while f < frames
                invariant
                    channels > 0,
                    channels == prev.len(),
                    c < channels,
                    len == chunk@.len(),
                    frames == len / channels,
                    frames == frame_count(chunk@.len(), channels as nat),
                    added == channel_samples(chunk@, channels as nat, c as int),
                    f <= frames,
                    buffer@ == prev[c as int] + added.take(f as int),
                decreases frames - f,
            {
                proof {
                    lemma_frame_position(f as int, c as int, channels as int, len as int);
                }
                buffer.push_back(chunk[f * channels + c]);
                proof {
                    assert(added.take(f as int + 1) =~= added.take(f as int).push(added[f as int]));
                }
                f += 1;
            }
            assert(added.take(frames as int) =~= added);
            let ghost full = buffer@;
            let excess: usize = if buffer.len() > bound {
                buffer.len() - bound
            } else {
                0
            };
            let mut k: usize = 0;
            while k < excess
                invariant
                    k <= excess,
                    excess <= full.len(),
                    buffer@ == full.subrange(k as int, full.len() as int),
                decreases excess - k,
            {
                buffer.pop_front();
                k += 1;
            }
            assert(buffer@ =~= keep_last(full, bound as nat));
            rebuilt.push(buffer);
            c += 1;
        }
        self.channel_buffers = rebuilt;
        assert(self.buffers() =~= after_ingest(prev, chunk@, bound as nat));
    }

    /// The requested waveform length; `None` is the natural length.
    pub fn resolution(&self) -> (r: Option<usize>)
        ensures
            r == self.resolution_spec(),
    {
        self.config.resolution
    }

    /// Changes the requested waveform length; nothing else changes.
    pub fn set_resolution(&mut self, new_resolution: Option<usize>)
        requires
            old(self).wf(),
        ensures
            final(self).wf(),
            final(self).resolution_spec() == new_resolution,
            final(self).buffers() == old(self).buffers(),
            final(self).fft_resolution_spec() == old(self).fft_resolution_spec(),
            final(self).sampling_rate_spec() == old(self).sampling_rate_spec(),
            final(self).channel_count_spec() == old(self).channel_count_spec(),
    {
        self.config.resolution = new_resolution;
    }

    /// Window size of one spectral transform, in samples.
    pub fn fft_resolution(&self) -> (r: usize)
        ensures
            r == self.fft_resolution_spec(),
    {
        self.config.fft_resolution
    }

    /// Sampling rate of the incoming stream, in Hz.
    pub fn sampling_rate(&self) -> (r: u32)
        ensures
            r == self.sampling_rate_spec(),
    {
        self.config.sampling_rate
    }

    /// Number of interleaved channels.
    pub fn channel_count(&self) -> (r: usize)
        ensures
            r == self.channel_count_spec(),
    {
        self.config.channel_count
    }

    /// A copy of one channel's history, oldest sample first.
    pub fn history(&self, channel: usize) -> (r: Vec<T>)
        requires
            self.wf(),
            channel < self.channel_count_spec(),
        ensures
            r@ == self.buffers()[channel as int],
    {
        let buffer = &self.channel_buffers[channel];
        let len = buffer.len();
        let mut r: Vec<T> = Vec::with_capacity(len);
        let mut i: usize = 0;
        while i < len
            invariant
                len == buffer@.len(),
                i <= len,
                r@ == buffer@.take(i as int),
            decreases len - i,
        {
            r.push(buffer[i]);
            proof {
                assert(buffer@.take(i + 1) =~= buffer@.take(i as int).push(buffer@[i as int]));
            }
            i += 1;
        }
        assert(buffer@.take(len as int) =~= buffer@);
        r
    }

    /// Whether every channel holds a full spectral window (and there is at
    /// least one channel).
    pub fn is_ready(&self) -> (r: bool)
        requires
            self.wf(),
        ensures
            r == is_ready(self.buffers(), self.fft_resolution_spec()),
    {
        let n = self.channel_buffers.len();
        if n == 0 {
            return false;
        }
        let mut c: usize = 0;
        while c < n
            invariant
                n == self.channel_buffers.len(),
                c <= n,
                forall|i: int|
                    0 <= i < c ==> #[trigger] self.buffers()[i].len() >= self.fft_resolution_spec(),
            decreases n - c,
        {
            if self.channel_buffers[c].len() < self.config.fft_resolution {
                assert(self.buffers()[c as int].len() < self.fft_resolution_spec());
                return false;
            }
            c += 1;
        }
        true
    }

    /// The most recent `fft_resolution` samples of each channel, oldest
    /// first, or `None` while some channel holds fewer (or there are no
    /// channels).
    pub fn spectrum_windows(&self) -> (r: Option<Vec<Vec<T>>>)
        requires
            self.wf(),
        ensures
            r.is_some() == windows_of(self.buffers(), self.fft_resolution_spec()).is_some(),
            r matches Some(w) ==> {
                let expected = windows_of(self.buffers(), self.fft_resolution_spec())->0;
                &&& w.len() == expected.len()
                &&& forall|c: int| 0 <= c < w.len() ==> (#[trigger] w[c])@ == expected[c]
            },
    {
        if !self.is_ready() {
            return None;
        }
        let bound = self.config.fft_resolution;
        let n = self.channel_buffers.len();
        let ghost expected = windows_of(self.buffers(), bound as nat)->0;
        let mut windows: Vec<Vec<T>> = Vec::with_capacity(n);
        let mut c: usize = 0;
        while c < n
            invariant
                n == self.channel_buffers.len(),
                bound == self.fft_resolution_spec(),
                is_ready(self.buffers(), bound as nat),
                expected == windows_of(self.buffers(), bound as nat)->0,
                c <= n,
                windows.len() == c,
                forall|i: int| 0 <= i < c ==> (#[trigger] windows[i])@ == expected[i],
            decreases n - c,
        {
            let buffer = &self.channel_buffers[c];
            let len = buffer.len();
            assert(self.buffers()[c as int].len() >= bound);
            let start = len - bound;
            let mut window: Vec<T> = Vec::with_capacity(bound);
            let mut i: usize = start;
            while i < len
                invariant
                    len == buffer@.len(),
                    start <= i <= len,
                    window@ == buffer@.subrange(start as int, i as int),
                decreases len - i,
            {
                window.push(buffer[i]);
                proof {
                    assert(buffer@.subrange(start as int, i + 1) =~= buffer@.subrange(
                        start as int,
                        i as int,
                    ).push(buffer@[i as int]));
                }
                i += 1;
            }
            windows.push(window);
            c += 1;
        }
        Some(windows)
    }

    /// Shortest history across all channels; zero without channels.
    pub fn min_history_len(&self) -> (r: usize)
        ensures
            r == min_len(self.buffers()),
    {
        let n = self.channel_buffers.len();
        if n == 0 {
            return 0;
        }
        let mut m = self.channel_buffers[0].len();
        let mut c: usize = 1;
        while c < n
            invariant
                n == self.channel_buffers.len(),
                1 <= c <= n,
                m == min_len_upto(self.buffers(), c as int),
            decreases n - c,
        {
            let len = self.channel_buffers[c].len();
            if len < m {
                m = len;
            }
            c += 1;
        }
        m
    }

    /// Time-domain snapshot: the cross-channel means of the most recent time
    /// indices, oldest first, right-padded with `zero` up to the requested
    /// resolution. Empty while no history is held.
    pub fn compute_waveform<F: Fn(Vec<T>) -> T>(&self, zero: T, mean: F) -> (r: Vec<T>)
        requires
            self.wf(),
            forall|v: Vec<T>| v@.len() == self.buffers().len() ==> call_requires(mean, (v,)),
        ensures
            r.len() == waveform_len(self.buffers(), self.resolution_spec()),
            forall|k: int|
                0 <= k < waveform_samples(self.buffers(), self.resolution_spec()) ==> is_mean_of(
                    mean,
                    frame_at(
                        self.buffers(),
                        min_len(self.buffers()) - waveform_samples(
                            self.buffers(),
                            self.resolution_spec(),
                        ) + k,
                    ),
                    #[trigger] r[k],
                ),
            forall|k: int|
                waveform_samples(self.buffers(), self.resolution_spec()) <= k < r.len() ==> #[trigger] r[k]
                    == zero,
    {
        let ghost buffers = self.buffers();
        let m = self.min_history_len();
        if m == 0 {
            return Vec::new();
        }
        let n = self.channel_buffers.len();
        let out_len = match self.config.resolution {
            Some(requested) => requested,
            None => m,
        };
        let num = if out_len < m {
            out_len
        } else {
            m
        };
        let start = m - num;
        proof {
            lemma_min_len_bound(buffers);
        }
        let mut r: Vec<T> = Vec::with_capacity(out_len);
        let mut k: usize = 0;
        while k < num
            invariant
                buffers == self.buffers(),
                n == buffers.len(),
                m == min_len(buffers),
                forall|c: int| 0 <= c < n ==> m <= #[trigger] buffers[c].len(),
                forall|v: Vec<T>| v@.len() == n ==> call_requires(mean, (v,)),
                num <= m,
                start == m - num,
                k <= num,
                r.len() == k,
                forall|j: int|
                    0 <= j < k ==> is_mean_of(mean, frame_at(buffers, start + j), #[trigger] r[j]),
            decreases num - k,
        {
            let index = start + k;
            let mut frame: Vec<T> = Vec::with_capacity(n);
            let mut c: usize = 0;
            while c < n
                invariant
                    buffers == self.buffers(),
                    n == buffers.len(),
                    forall|c: int| 0 <= c < n ==> m <= #[trigger] buffers[c].len(),
                    index < m,
                    c <= n,
                    frame@ == frame_at(buffers, index as int).take(c as int),
                decreases n - c,
            {
                assert(m <= buffers[c as int].len());
                frame.push(self.channel_buffers[c][index]);
                proof {
                    assert(frame@ =~= frame_at(buffers, index as int).take(c as int + 1));
                }
                c += 1;
            }
            assert(frame@ =~= frame_at(buffers, index as int));
            let ghost given = frame;
            let value = mean(frame);
            assert(is_mean_of(mean, frame_at(buffers, index as int), value)) by {
                assert(given@ == frame_at(buffers, index as int) && call_ensures(
                    mean,
                    (given,),
                    value,
                ));
            }
            r.push(value);
            k += 1;
        }
        while r.len() < out_len
            invariant
                num <= r.len() <= out_len,
                forall|j: int|
                    0 <= j < num ==> is_mean_of(mean, frame_at(buffers, start + j), #[trigger] r[j]),
                forall|j: int| num <= j < r.len() ==> #[trigger] r[j] == zero,
            decreases out_len - r.len(),
        {
            r.push(zero);
        }
        r
    }
}

/// The spectrum is withheld exactly while some channel holds fewer than
/// `fft_resolution` samples (given at least one channel).
pub proof fn readiness_gate<T: Copy>(p: AudioProcessor<T>)
    requires
        p.wf(),
        p.channel_count_spec() > 0,
    ensures
        windows_of(p.buffers(), p.fft_resolution_spec()).is_none() <==> exists|c: int|
            0 <= c < p.buffers().len() && #[trigger] p.buffers()[c].len() < p.fft_resolution_spec(),
{
}

/// What the spectrum is computed from depends on the channel histories and
/// the window size alone: two processors that agree on those (the same
/// processor read twice, or before and after a change of the waveform
/// resolution) give identical windows.
pub proof fn spectrum_input_depends_on_history_only<T: Copy>(
    p: AudioProcessor<T>,
    q: AudioProcessor<T>,
)
    requires
        p.buffers() == q.buffers(),
        p.fft_resolution_spec() == q.fft_resolution_spec(),
    ensures
        windows_of(p.buffers(), p.fft_resolution_spec()) == windows_of(
            q.buffers(),
            q.fft_resolution_spec(),
        ),
{
}

/// Averages channel spectra bin by bin: output bin `i` is `mean` applied to
/// the values of bin `i` of every channel, in channel order.
pub fn average_bins<T: Copy, F: Fn(Vec<T>) -> T>(spectra: &Vec<Vec<T>>, mean: F) -> (r: Vec<T>)
    requires
        spectra.len() > 0,
        forall|c: int| 0 <= c < spectra.len() ==> (#[trigger] spectra[c]).len() == spectra[0].len(),
        forall|v: Vec<T>| v@.len() == spectra.len() ==> call_requires(mean, (v,)),
    ensures
        r.len() == spectra[0].len(),
        forall|i: int|
            0 <= i < r.len() ==> is_mean_of(
                mean,
                bin_column(spectra@.map_values(|s: Vec<T>| s@), i),
                #[trigger] r[i],
            ),
{
    let ghost rows = spectra@.map_values(|s: Vec<T>| s@);
    let bins = spectra[0].len();
    let n = spectra.len();
    let mut r: Vec<T> = Vec::with_capacity(bins);
    let mut i: usize = 0;
    while i < bins
        invariant
            n == spectra.len(),
            n > 0,
            bins == spectra[0].len(),
            rows == spectra@.map_values(|s: Vec<T>| s@),
            forall|c: int| 0 <= c < n ==> (#[trigger] spectra[c]).len() == bins,
            forall|v: Vec<T>| v@.len() == n ==> call_requires(mean, (v,)),
            i <= bins,
            r.len() == i,
            forall|k: int| 0 <= k < i ==> is_mean_of(mean, bin_column(rows, k), #[trigger] r[k]),
        decreases bins - i,
    {
        let mut column: Vec<T> = Vec::with_capacity(n);
        let mut c: usize = 0;
        while c < n
            invariant
                n == spectra.len(),
                i < bins,
                rows == spectra@.map_values(|s: Vec<T>| s@),
                forall|c: int| 0 <= c < n ==> (#[trigger] spectra[c]).len() == bins,
                c <= n,
                column@ == bin_column(rows, i as int).take(c as int),
            decreases n - c,
        {
            column.push(spectra[c][i]);
            proof {
                assert(column@ =~= bin_column(rows, i as int).take(c as int + 1));
            }
            c += 1;
        }
        assert(column@ =~= bin_column(rows, i as int));
        let ghost given = column;
        let value = mean(column);
        assert(is_mean_of(mean, bin_column(rows, i as int), value)) by {
            assert(given@ == bin_column(rows, i as int) && call_ensures(mean, (given,), value));
        }
        r.push(value);
        i += 1;
    }
    r
}

} // verus!
