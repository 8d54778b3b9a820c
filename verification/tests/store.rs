//! Round-trip and band file format tests for the time-slicing store.

use chrono_photo::layout::{Frame, RasterLayout};
use chrono_photo::slicer::{SliceLength, TimeSlicer, TimeSliceError};
use chrono_photo::streams::{Compression, PixelInputStream, PixelOutputStream};

fn make_frames(layout: &RasterLayout, count: usize) -> Vec<Frame> {
    let bytes = layout.frame_bytes();
    let mut frames = Vec::new();
    for f in 0..count {
        let mut samples = Vec::new();
        for i in 0..bytes {
            samples.push(((f * 31 + i * 7) % 256) as u8);
        }
        frames.push(Frame { layout: *layout, samples });
    }
    frames
}

fn round_trip(compression: Compression, slices: SliceLength) {
    let layout = RasterLayout::new(4, 2, 3);
    let frames = make_frames(&layout, 3);
    let slicer = TimeSlicer::new_8bit();
    let (bands, out_layout, count) = slicer
        .write_time_slices(&frames, &compression, &slices)
        .expect("write failed");
    assert_eq!(out_layout, layout);
    assert_eq!(count, 3);

    // Read back every chunk of every band and reassemble each frame.
    let mut chunks_per_band: Vec<Vec<Vec<u8>>> = Vec::new();
    for band in bands {
        let mut stream = PixelInputStream::new(band.buffer, compression);
        let mut chunks = Vec::new();
        loop {
            let mut out = Vec::new();
            match stream.read_chunk(&mut out) {
                Ok(Some(_)) => chunks.push(out),
                Ok(None) => break,
                Err(_) => panic!("chunk decode failed"),
            }
        }
        chunks_per_band.push(chunks);
    }
    for f in 0..3 {
        let mut rebuilt: Vec<u8> = Vec::new();
        for chunks in &chunks_per_band {
            rebuilt.extend_from_slice(&chunks[f]);
        }
        assert_eq!(rebuilt, frames[f].samples, "frame {} differs", f);
    }
}

#[test]
fn round_trip_gzip_rows() {
    round_trip(Compression::GZip(6), SliceLength::Rows(1));
}

#[test]
fn round_trip_zlib_rows() {
    round_trip(Compression::ZLib(6), SliceLength::Rows(1));
}

#[test]
fn round_trip_deflate_rows() {
    round_trip(Compression::Deflate(6), SliceLength::Rows(1));
}

#[test]
fn round_trip_gzip_pixels() {
    round_trip(Compression::GZip(6), SliceLength::Pixels(4));
}

#[test]
fn round_trip_zlib_count() {
    round_trip(Compression::ZLib(6), SliceLength::Count(2));
}

#[test]
fn write_no_images_fails() {
    let slicer = TimeSlicer::new_8bit();
    let frames: Vec<Frame> = Vec::new();
    let r = slicer.write_time_slices(&frames, &Compression::GZip(6), &SliceLength::Rows(1));
    match r {
        Err(e) => assert_eq!(e, TimeSliceError::NoImages),
        Ok(_) => panic!("expected an error for an empty stack"),
    }
}

#[test]
fn write_layout_mismatch_fails() {
    let a = RasterLayout::new(4, 2, 3);
    let b = RasterLayout::new(2, 2, 3);
    let mut frames = make_frames(&a, 1);
    frames.extend(make_frames(&b, 1));
    let slicer = TimeSlicer::new_8bit();
    let r = slicer.write_time_slices(&frames, &Compression::GZip(6), &SliceLength::Rows(1));
    match r {
        Err(e) => assert_eq!(e, TimeSliceError::LayoutMismatch),
        Ok(_) => panic!("expected an error for mismatched layouts"),
    }
}

#[test]
fn skip_chunk_advances_past_record() {
    let mut out = PixelOutputStream::new(Compression::GZip(6));
    out.write_chunk(&[1, 2, 3, 4]).unwrap();
    out.write_chunk(&[9, 8, 7, 6]).unwrap();
    let mut stream = PixelInputStream::new(out.buffer, Compression::GZip(6));
    assert_eq!(stream.skip_chunk(), Some(0));
    let mut data = Vec::new();
    assert_eq!(stream.read_chunk(&mut data), Ok(Some(4)));
    assert_eq!(data, vec![9, 8, 7, 6]);
    assert_eq!(stream.read_chunk(&mut data), Ok(None));
}

#[test]
fn skip_chunk_clamps_on_truncated_record() {
    // A readable header with a truncated payload: the skip seeks to the end
    // and reports success; the next read is a normal end-of-stream.
    let mut out = PixelOutputStream::new(Compression::GZip(6));
    out.write_chunk(&[7, 7]).unwrap();
    let mut bytes = out.buffer;
    bytes.extend_from_slice(&[0, 0, 0, 50, 1, 2, 3]);
    let mut stream = PixelInputStream::new(bytes, Compression::GZip(6));
    assert_eq!(stream.skip_chunk(), Some(0));
    assert_eq!(stream.skip_chunk(), Some(0));
    assert_eq!(stream.skip_chunk(), None);
    let mut data = Vec::new();
    assert_eq!(stream.read_chunk(&mut data), Ok(None));
}

#[test]
fn truncated_trailing_data_is_end_of_stream() {
    let mut out = PixelOutputStream::new(Compression::ZLib(6));
    out.write_chunk(&[5, 5, 5]).unwrap();
    let mut bytes = out.buffer;
    // A record header promising more data than is present.
    bytes.extend_from_slice(&[0, 0, 0, 99, 1, 2]);
    let mut stream = PixelInputStream::new(bytes, Compression::ZLib(6));
    let mut data = Vec::new();
    assert_eq!(stream.read_chunk(&mut data), Ok(Some(3)));
    assert_eq!(stream.read_chunk(&mut data), Ok(None));
}
