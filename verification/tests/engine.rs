//! Per-pixel compositing engine tests: quartiles, thresholds, outlier
//! scenarios and the full band file pipeline.

use chrono_photo::chrono::{OutlierProcessor, ProcessError};
use chrono_photo::fixed::SCALE;
use chrono_photo::layout::{Frame, RasterLayout};
use chrono_photo::options::{BackgroundMode, Fade, OutlierSelectionMode, Threshold};
use chrono_photo::slicer::{SliceLength, TimeSlicer};
use chrono_photo::streams::Compression;
use chrono_photo::streams::PixelOutputStream;
use chrono_photo::color::{blend_into_u8, blend_into_fixed_u8};

#[test]
fn quartiles_test() {
    let values = vec![0, 1, 2, 3, 4, 5, 6];
    // Fixed-point representations of (1.0, 3.0, 5.0).
    assert_eq!(
        OutlierProcessor::quartiles(&values),
        (1 * SCALE, 3 * SCALE, 5 * SCALE)
    );
}

#[test]
fn quartiles_interpolated() {
    let values = vec![0, 10, 20, 30];
    // Positions 1.25 and 3.75: interpolated quarter values.
    let q = OutlierProcessor::quartiles(&values);
    assert_eq!(q.0, 25_000); // 0 * 0.75 + 10 * 0.25 = 2.5
    assert_eq!(q.1, 15 * SCALE); // (10 + 20) / 2
    assert_eq!(q.2, 27 * SCALE + 5000); // 20 * 0.25 + 30 * 0.75 = 27.5
}

#[test]
fn blend_value_boundaries() {
    // abs(0.05, 0.2) in fixed point: bounds scaled by 255 internally.
    let t = Threshold::abs(500, 2000);
    assert_eq!(t.min(), 127_500);
    assert_eq!(t.max(), 510_000);
    assert_eq!(t.blend_value(0), 0);
    assert_eq!(t.blend_value(127_500), 0);
    assert_eq!(t.blend_value(510_000), SCALE);
    assert_eq!(t.blend_value(1_000_000), SCALE);
    // The midpoint blends halfway.
    assert_eq!(t.blend_value(318_750), SCALE / 2);
    // Linear in between: a quarter of the way.
    assert_eq!(t.blend_value(223_125), SCALE / 4);
}

fn processor(bg: BackgroundMode, outlier: OutlierSelectionMode, min: i64) -> OutlierProcessor {
    let mut p = OutlierProcessor::new(
        Threshold::abs(min, 2000),
        bg,
        outlier,
        [10000, 10000, 10000, 0],
        Fade::none(),
        Compression::GZip(6),
        None,
        42,
    );
    p.sample_indices = (0..10).collect();
    p
}

fn stack(rows: &[[u8; 3]]) -> Vec<u8> {
    let mut data = Vec::new();
    for r in rows {
        data.extend_from_slice(r);
    }
    data
}

#[test]
fn single_outlier_pixel() {
    // 10 frames, 9 identical, frame 4 beyond the threshold.
    let mut rows = [[10u8, 10, 10]; 10];
    rows[4] = [200, 200, 200];
    let data = stack(&rows);
    let mut p = processor(BackgroundMode::First, OutlierSelectionMode::Extreme, 500);
    let mut pixel = vec![0u8; 3];
    let (blend, warning) = p.calc_pixel(&data, &mut pixel, 0);
    assert!(!warning);
    assert!(blend > 0);
    // The distance is far above the upper bound: the outlier replaces the
    // background entirely.
    assert_eq!(pixel, vec![200, 200, 200]);
    assert_eq!(blend, 255);
}

#[test]
fn no_outlier_pixel() {
    let rows = [[10u8, 10, 10]; 10];
    let data = stack(&rows);
    let mut p = processor(BackgroundMode::First, OutlierSelectionMode::Extreme, 500);
    let mut pixel = vec![0u8; 3];
    let (blend, warning) = p.calc_pixel(&data, &mut pixel, 0);
    assert!(!warning);
    assert_eq!(blend, 0);
    assert_eq!(pixel, vec![10, 10, 10]);
}

#[test]
fn all_outliers_degradation() {
    // Pairwise-divergent stack: every frame is far from the median.
    let mut rows = [[0u8, 0, 0]; 10];
    for (i, r) in rows.iter_mut().enumerate() {
        let v = (i * 25) as u8;
        *r = [v, v, v];
    }
    let data = stack(&rows);
    let mut p = processor(BackgroundMode::First, OutlierSelectionMode::Extreme, 100);
    let mut pixel = vec![0u8; 3];
    let (_blend, warning) = p.calc_pixel(&data, &mut pixel, 0);
    // First falls back to frame 0 and raises the warning flag.
    assert!(warning);
    assert_eq!(pixel, vec![0, 0, 0]);
}

#[test]
fn random_background_picks_a_frame() {
    let mut rows = [[10u8, 10, 10]; 10];
    for (i, r) in rows.iter_mut().enumerate() {
        r[0] = 10 + i as u8;
    }
    let data = stack(&rows);
    let mut p = processor(BackgroundMode::Random, OutlierSelectionMode::Extreme, 2000);
    let mut pixel = vec![0u8; 3];
    let (blend, warning) = p.calc_pixel(&data, &mut pixel, 0);
    assert!(!warning);
    assert_eq!(blend, 0);
    assert!(rows.iter().any(|r| pixel == r.to_vec()));
}

#[test]
fn average_background_means_channels() {
    let rows = [[10u8, 20, 30], [20, 30, 40]];
    let data = stack(&rows);
    let mut p = processor(BackgroundMode::Average, OutlierSelectionMode::Extreme, 2000);
    p.sample_indices = (0..2).collect();
    let mut pixel = vec![0u8; 3];
    let (blend, _warning) = p.calc_pixel(&data, &mut pixel, 0);
    assert_eq!(blend, 0);
    assert_eq!(pixel, vec![15, 25, 35]);
}

#[test]
fn median_background_uses_center() {
    // The threshold is wide enough that no frame is an outlier.
    let rows = [[10u8, 10, 10], [20, 20, 20], [90, 90, 90]];
    let data = stack(&rows);
    let mut p = OutlierProcessor::new(
        Threshold::abs(4800, 4900),
        BackgroundMode::Median,
        OutlierSelectionMode::Extreme,
        [10000, 10000, 10000, 0],
        Fade::none(),
        Compression::GZip(6),
        None,
        42,
    );
    p.sample_indices = (0..3).collect();
    let mut pixel = vec![0u8; 3];
    let (blend, warning) = p.calc_pixel(&data, &mut pixel, 0);
    assert!(!warning);
    assert_eq!(blend, 0);
    assert_eq!(pixel, vec![20, 20, 20]);
}

#[test]
fn process_reconstructs_uniform_stack() {
    // Write a stack of identical frames through the store and composite it:
    // the output must equal the frame, with a zero blend raster.
    let layout = RasterLayout::new(4, 2, 3);
    let bytes = layout.frame_bytes();
    let mut samples = Vec::new();
    for i in 0..bytes {
        samples.push((i * 5 % 256) as u8);
    }
    let mut frames = Vec::new();
    for _ in 0..4 {
        frames.push(Frame { layout, samples: samples.clone() });
    }
    let slicer = TimeSlicer::new_8bit();
    let compression = Compression::GZip(6);
    let slices = SliceLength::Rows(1);
    let (bands, _, _) = slicer.write_time_slices(&frames, &compression, &slices).unwrap();
    let files: Vec<Vec<u8>> = bands.into_iter().map(|b| b.buffer).collect();
    let mut p = processor(BackgroundMode::First, OutlierSelectionMode::Extreme, 500);
    p.sample_indices = Vec::new();
    let (buffer, blend, warnings) = p.process(&layout, &files, &slices, None).unwrap();
    assert_eq!(buffer, samples);
    assert!(blend.iter().all(|&b| b == 0));
    assert_eq!(warnings, 0);
}

#[test]
fn process_consumes_selected_frames() {
    // Distinct frames; the selective read consumes only the listed ones,
    // and the First background is the first selected frame.
    let layout = RasterLayout::new(4, 2, 3);
    let bytes = layout.frame_bytes();
    let mut frames = Vec::new();
    for f in 0..4u8 {
        frames.push(Frame { layout, samples: vec![f * 10 + 5; bytes] });
    }
    let slicer = TimeSlicer::new_8bit();
    let compression = Compression::GZip(6);
    let slices = SliceLength::Rows(1);
    let (bands, _, _) = slicer.write_time_slices(&frames, &compression, &slices).unwrap();
    let files: Vec<Vec<u8>> = bands.into_iter().map(|b| b.buffer).collect();
    let mut p = processor(BackgroundMode::First, OutlierSelectionMode::Extreme, 4800);
    p.threshold = Threshold::abs(4800, 4900);
    p.sample_indices = Vec::new();
    let indices = vec![1usize, 3];
    let (buffer, _blend, _warnings) = p.process(&layout, &files, &slices, Some(&indices)).unwrap();
    assert_eq!(buffer, frames[1].samples);
}

#[test]
fn blend_ignores_channels_beyond_sample() {
    // A shorter sample blends only its own channels; the rest of the color
    // stays unchanged.
    let mut a = vec![10u8, 20, 30, 40];
    blend_into_u8(&mut a, &[200, 200], SCALE);
    assert_eq!(a, vec![200, 200, 30, 40]);
    let mut a = vec![10u8, 20, 30];
    blend_into_u8(&mut a, &[200, 200, 200], SCALE / 2);
    assert_eq!(a, vec![105, 110, 115]);
    let mut f = vec![100_000i64, 200_000, 300_000];
    blend_into_fixed_u8(&mut f, &[100], SCALE);
    assert_eq!(f, vec![1_000_000, 200_000, 300_000]);
}

#[test]
fn process_rejects_empty_sub_sample() {
    let layout = RasterLayout::new(4, 2, 3);
    let compression = Compression::GZip(6);
    let mut out = PixelOutputStream::new(compression);
    out.write_chunk(&[1, 2, 3, 4, 5, 6, 7, 8, 9, 10, 11, 12]).unwrap();
    let files = vec![out.buffer];
    let mut p = processor(BackgroundMode::First, OutlierSelectionMode::Extreme, 500);
    p.sample_count = Some(0);
    p.sample_indices = Vec::new();
    let r = p.process(&layout, &files, &SliceLength::Rows(1), None);
    assert_eq!(r.unwrap_err(), ProcessError::Unsupported);
}

#[test]
fn process_rejects_misaligned_chunks() {
    let layout = RasterLayout::new(4, 2, 3);
    let compression = Compression::GZip(6);
    let mut out = PixelOutputStream::new(compression);
    out.write_chunk(&[1, 2, 3, 4, 5, 6]).unwrap();
    out.write_chunk(&[1, 2, 3]).unwrap();
    let files = vec![out.buffer];
    let mut p = processor(BackgroundMode::First, OutlierSelectionMode::Extreme, 500);
    let r = p.process(&layout, &files, &SliceLength::Rows(1), None);
    assert_eq!(r.unwrap_err(), ProcessError::ChunkLengthMismatch);
}
