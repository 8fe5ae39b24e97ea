use audio_spectrum::processor::{average_bins, AudioProcessor};

fn mean(frame: Vec<f32>) -> f32 {
    let mut sum = 0.0f32;
    for sample in &frame {
        sum += *sample;
    }
    sum / frame.len() as f32
}

fn interleave(a: &[f32], b: &[f32]) -> Vec<f32> {
    let mut chunk = Vec::new();
    for i in 0..a.len() {
        chunk.push(a[i]);
        chunk.push(b[i]);
    }
    chunk
}

#[test]
fn new_processor_is_empty() {
    let p: AudioProcessor<f32> = AudioProcessor::new(8, Some(4), 48000, 2);
    assert_eq!(p.fft_resolution(), 8);
    assert_eq!(p.resolution(), Some(4));
    assert_eq!(p.sampling_rate(), 48000);
    assert_eq!(p.channel_count(), 2);
    assert_eq!(p.history(0), Vec::<f32>::new());
    assert_eq!(p.history(1), Vec::<f32>::new());
    assert!(!p.is_ready());
    assert_eq!(p.compute_waveform(0.0, mean), Vec::<f32>::new());
}

#[test]
fn ingest_deinterleaves_channels() {
    let mut p: AudioProcessor<f32> = AudioProcessor::new(8, None, 44100, 3);
    p.ingest(&[1.0, 2.0, 3.0, 4.0, 5.0, 6.0]);
    assert_eq!(p.history(0), vec![1.0, 4.0]);
    assert_eq!(p.history(1), vec![2.0, 5.0]);
    assert_eq!(p.history(2), vec![3.0, 6.0]);
}

#[test]
fn history_never_exceeds_window() {
    let mut p: AudioProcessor<f32> = AudioProcessor::new(5, None, 44100, 2);
    for round in 0..20 {
        let chunk: Vec<f32> = (0..(round * 2)).map(|i| i as f32).collect();
        p.ingest(&chunk);
        assert!(p.history(0).len() <= 5);
        assert!(p.history(1).len() <= 5);
    }
    assert_eq!(p.history(0).len(), 5);
}

#[test]
fn eviction_keeps_most_recent_in_order() {
    let mut p: AudioProcessor<u32> = AudioProcessor::new(4, None, 44100, 1);
    p.ingest(&[1, 2, 3]);
    p.ingest(&[4, 5, 6]);
    assert_eq!(p.history(0), vec![3, 4, 5, 6]);
    p.ingest(&[7, 8, 9, 10, 11]);
    assert_eq!(p.history(0), vec![8, 9, 10, 11]);
}

#[test]
fn eviction_per_channel() {
    let mut p: AudioProcessor<u32> = AudioProcessor::new(2, None, 44100, 2);
    p.ingest(&[1, 10, 2, 20, 3, 30]);
    assert_eq!(p.history(0), vec![2, 3]);
    assert_eq!(p.history(1), vec![20, 30]);
}

#[test]
fn readiness_at_window_boundaries() {
    let mut p: AudioProcessor<f32> = AudioProcessor::new(4, None, 44100, 1);
    p.ingest(&[0.1, 0.2, 0.3]);
    assert!(!p.is_ready());
    assert!(p.spectrum_windows().is_none());
    p.ingest(&[0.4]);
    assert!(p.is_ready());
    assert_eq!(p.spectrum_windows(), Some(vec![vec![0.1, 0.2, 0.3, 0.4]]));
    p.ingest(&[0.5]);
    assert!(p.is_ready());
    assert_eq!(p.spectrum_windows(), Some(vec![vec![0.2, 0.3, 0.4, 0.5]]));
}

#[test]
fn readiness_needs_every_channel() {
    let mut p: AudioProcessor<f32> = AudioProcessor::new(2, None, 44100, 2);
    p.ingest(&[1.0, 2.0, 3.0]);
    assert_eq!(p.history(0), vec![1.0]);
    assert_eq!(p.history(1), vec![2.0]);
    assert!(p.spectrum_windows().is_none());
    p.ingest(&[3.0, 4.0]);
    assert_eq!(
        p.spectrum_windows(),
        Some(vec![vec![1.0, 3.0], vec![2.0, 4.0]])
    );
}

#[test]
fn no_channels_is_never_ready() {
    let mut p: AudioProcessor<f32> = AudioProcessor::new(2, Some(10), 44100, 0);
    p.ingest(&[1.0, 2.0, 3.0]);
    assert!(!p.is_ready());
    assert!(p.spectrum_windows().is_none());
    assert_eq!(p.compute_waveform(0.0, mean), Vec::<f32>::new());
}

#[test]
fn spectrum_input_is_deterministic() {
    let mut p: AudioProcessor<f32> = AudioProcessor::new(3, None, 44100, 2);
    p.ingest(&[0.5, -0.5, 0.25, -0.25, 0.125, -0.125, 1.0, -1.0]);
    let first = p.spectrum_windows().unwrap();
    let second = p.spectrum_windows().unwrap();
    assert_eq!(first, second);
    assert_eq!(average_bins(&first, mean), average_bins(&second, mean));
}

#[test]
fn averaging_two_constant_channels() {
    let x = 0.75f32;
    let y = 0.25f32;
    let spectra = vec![vec![x; 6], vec![y; 6]];
    let averaged = average_bins(&spectra, mean);
    assert_eq!(averaged.len(), 6);
    for bin in averaged {
        assert_eq!(bin, (x + y) / 2.0);
    }
}

#[test]
fn averaging_is_per_bin() {
    let spectra = vec![vec![1.0, 2.0, 3.0], vec![3.0, 4.0, 5.0], vec![2.0, 0.0, 1.0]];
    assert_eq!(average_bins(&spectra, mean), vec![2.0, 2.0, 3.0]);
}

#[test]
fn waveform_pads_with_zeros() {
    let mut p: AudioProcessor<f32> = AudioProcessor::new(1000, Some(100), 44100, 2);
    let a: Vec<f32> = (0..40).map(|i| i as f32).collect();
    let b: Vec<f32> = (0..40).map(|i| (i * 3) as f32).collect();
    p.ingest(&interleave(&a, &b));
    let waveform = p.compute_waveform(0.0, mean);
    assert_eq!(waveform.len(), 100);
    for i in 0..40 {
        assert_eq!(waveform[i], (a[i] + b[i]) / 2.0);
    }
    for i in 40..100 {
        assert_eq!(waveform[i], 0.0);
    }
}

#[test]
fn waveform_truncates_to_most_recent() {
    let mut p: AudioProcessor<f32> = AudioProcessor::new(1000, Some(10), 44100, 2);
    let a: Vec<f32> = (0..1000).map(|i| i as f32).collect();
    let b: Vec<f32> = (0..1000).map(|i| (i + 2) as f32).collect();
    p.ingest(&interleave(&a, &b));
    let waveform = p.compute_waveform(0.0, mean);
    assert_eq!(waveform.len(), 10);
    for k in 0..10 {
        let i = 990 + k;
        assert_eq!(waveform[k], (a[i] + b[i]) / 2.0);
    }
}

#[test]
fn waveform_natural_length() {
    let mut p: AudioProcessor<f32> = AudioProcessor::new(8, None, 44100, 2);
    p.ingest(&[1.0, 3.0, 2.0, 4.0, 5.0, 7.0]);
    assert_eq!(p.compute_waveform(0.0, mean), vec![2.0, 3.0, 6.0]);
}

#[test]
fn waveform_zero_resolution_is_empty() {
    let mut p: AudioProcessor<f32> = AudioProcessor::new(8, Some(0), 44100, 1);
    p.ingest(&[1.0, 2.0]);
    assert_eq!(p.compute_waveform(0.0, mean), Vec::<f32>::new());
}

#[test]
fn waveform_without_history_is_empty() {
    let p: AudioProcessor<f32> = AudioProcessor::new(8, Some(16), 44100, 2);
    assert_eq!(p.compute_waveform(0.0, mean), Vec::<f32>::new());
}

#[test]
fn resolution_change_affects_only_waveform() {
    let mut p: AudioProcessor<f32> = AudioProcessor::new(4, Some(2), 44100, 1);
    p.ingest(&[1.0, 2.0, 3.0, 4.0, 5.0]);
    let spectrum_before = p.spectrum_windows();
    assert_eq!(p.compute_waveform(0.0, mean), vec![4.0, 5.0]);
    p.set_resolution(Some(6));
    assert_eq!(p.resolution(), Some(6));
    assert_eq!(p.compute_waveform(0.0, mean), vec![2.0, 3.0, 4.0, 5.0, 0.0, 0.0]);
    assert_eq!(p.spectrum_windows(), spectrum_before);
    p.set_resolution(None);
    assert_eq!(p.compute_waveform(0.0, mean), vec![2.0, 3.0, 4.0, 5.0]);
    assert_eq!(p.spectrum_windows(), spectrum_before);
}

#[test]
fn empty_chunk_is_a_no_op() {
    let mut p: AudioProcessor<f32> = AudioProcessor::new(4, None, 44100, 2);
    p.ingest(&[1.0, 2.0, 3.0, 4.0]);
    p.ingest(&[]);
    assert_eq!(p.history(0), vec![1.0, 3.0]);
    assert_eq!(p.history(1), vec![2.0, 4.0]);
}

#[test]
fn partial_frame_is_discarded() {
    let mut p: AudioProcessor<f32> = AudioProcessor::new(8, None, 44100, 3);
    p.ingest(&[1.0, 2.0, 3.0, 4.0, 5.0]);
    assert_eq!(p.history(0), vec![1.0]);
    assert_eq!(p.history(1), vec![2.0]);
    assert_eq!(p.history(2), vec![3.0]);
    p.ingest(&[6.0, 7.0]);
    assert_eq!(p.history(0), vec![1.0]);
    assert_eq!(p.history(1), vec![2.0]);
}

#[test]
fn min_history_len_across_channels() {
    let mut p: AudioProcessor<f32> = AudioProcessor::new(8, None, 44100, 2);
    assert_eq!(p.min_history_len(), 0);
    p.ingest(&[1.0, 2.0, 3.0, 4.0]);
    assert_eq!(p.min_history_len(), 2);
}
