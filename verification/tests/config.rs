//! Configuration type tests: fade curves, frame windows, mode parsing and
//! crop rectangles.

use chrono_photo::flist::{FileLister, FrameRange};
use chrono_photo::fixed::SCALE;
use chrono_photo::layout::{xy_to_index, RasterLayout};
use chrono_photo::options::{
    BackgroundMode, Fade, FadeMode, OutlierSelectionMode, SelectionMode,
};
use chrono_photo::shake::Crop;
use chrono_photo::simple::SimpleProcessor;
use chrono_photo::flist::window_indices;
use chrono_photo::img_stream::Compression as LegacyCompression;

#[test]
fn fade_boundaries_clamp() {
    // Curve over frames [0, 10], rising from 0 to 1.
    let f = Fade::new(FadeMode::Clamp, true, vec![(0i32, 0i64), (10i32, SCALE)]);
    assert_eq!(f.get(-5), f.get(0));
    assert_eq!(f.get(15), f.get(10));
    assert_eq!(f.get(0), 0);
    assert_eq!(f.get(10), SCALE);
    assert_eq!(f.get(5), SCALE / 2);
}

#[test]
fn fade_boundaries_repeat() {
    let f = Fade::new(FadeMode::Repeat, true, vec![(0i32, 0i64), (10i32, SCALE)]);
    assert_eq!(f.get(-1), f.get(10));
    assert_eq!(f.get(11), f.get(0));
}

#[test]
fn fade_none_is_constant_one() {
    let f = Fade::none();
    assert_eq!(f.get(-100), SCALE);
    assert_eq!(f.get(0), SCALE);
    assert_eq!(f.get(100), SCALE);
}

#[test]
fn frame_windowing() {
    // start/end/step 2/9/3 over 8 frames: end clipped to 8.
    let r = FrameRange::new(Some(2), Some(9), 3);
    assert_eq!(window_indices(&r, 8), vec![2, 5]);
    // Unbounded window with step 2 over 5 frames.
    let r2 = FrameRange::new(None, None, 2);
    assert_eq!(window_indices(&r2, 5), vec![0, 2, 4]);
    // A start past the end keeps nothing.
    let r3 = FrameRange::new(Some(7), Some(9), 1);
    assert_eq!(window_indices(&r3, 5), Vec::<usize>::new());
}

#[test]
fn frame_range_accessors() {
    let r = FrameRange::new(Some(1), Some(9), 2);
    assert_eq!(r.start(), Some(1));
    assert_eq!(r.end(), Some(9));
    assert_eq!(r.step(), 2);
    assert_eq!(r.range(), Some(8));
    let e = FrameRange::empty();
    assert_eq!(e.step(), 1);
    assert_eq!(e.range(), None);
}

#[test]
fn mode_parsing() {
    assert_eq!(SelectionMode::from_str("lighter"), Ok(SelectionMode::Lighter));
    assert_eq!(SelectionMode::from_str("darker"), Ok(SelectionMode::Darker));
    assert_eq!(SelectionMode::from_str("outlier"), Ok(SelectionMode::Outlier));
    assert!(SelectionMode::from_str("brighter").is_err());

    assert_eq!(FadeMode::from_str("clamp"), Ok(FadeMode::Clamp));
    assert_eq!(FadeMode::from_str("repeat"), Ok(FadeMode::Repeat));
    assert!(FadeMode::from_str("mirror").is_err());

    assert_eq!(
        OutlierSelectionMode::from_str("extreme"),
        Ok(OutlierSelectionMode::Extreme)
    );
    assert_eq!(
        OutlierSelectionMode::from_str("backward"),
        Ok(OutlierSelectionMode::AllBackward)
    );
    assert!(OutlierSelectionMode::from_str("middle").is_err());

    assert_eq!(BackgroundMode::from_str("random"), Ok(BackgroundMode::Random));
    assert_eq!(BackgroundMode::from_str("median"), Ok(BackgroundMode::Median));
    assert!(BackgroundMode::from_str("mode").is_err());

    assert_eq!(
        LegacyCompression::from_string("gzip"),
        Ok(LegacyCompression::GZip)
    );
    assert!(LegacyCompression::from_string("lz4").is_err());
}

#[test]
fn crop_rectangles_from_offsets() {
    let layout = RasterLayout::new(100, 80, 3);
    // No shake: no crops.
    assert!(Crop::create(&vec![(0, 0), (0, 0)], &layout).is_none());
    // A shifted second frame.
    let crops = Crop::create(&vec![(0, 0), (2, -1)], &layout).unwrap();
    assert_eq!(crops.len(), 2);
    assert_eq!(crops[0], Crop::new(0, 1, 98, 79));
    assert_eq!(crops[1], Crop::new(2, 0, 98, 79));
}

#[test]
fn xy_to_index_packed() {
    assert_eq!(xy_to_index((10, 5), 3, 0, 0), 0);
    assert_eq!(xy_to_index((10, 5), 3, 2, 1), 10 * 3 + 6);
}

#[test]
fn simple_processor_keeps_extremes() {
    // Two frames, one pixel, three channels; lighter mode keeps the larger
    // weighted sum.
    let p = SimpleProcessor::new(
        [10000, 10000, 10000, 0],
        Fade::none(),
        false,
    );
    let mut buffer = vec![0u8; 3];
    let mut extremes = p.init_extremes(1);
    p.process_frame(&mut buffer, &mut extremes, &vec![10, 10, 10], 3, 0, 2, 0);
    assert_eq!(buffer, vec![10, 10, 10]);
    p.process_frame(&mut buffer, &mut extremes, &vec![5, 5, 5], 3, 1, 2, 0);
    assert_eq!(buffer, vec![10, 10, 10]);
    p.process_frame(&mut buffer, &mut extremes, &vec![90, 90, 90], 3, 1, 2, 0);
    assert_eq!(buffer, vec![90, 90, 90]);

    // Darker mode keeps the smaller sum.
    let d = SimpleProcessor::new([10000, 10000, 10000, 0], Fade::none(), true);
    let mut buffer = vec![0u8; 3];
    let mut extremes = d.init_extremes(1);
    d.process_frame(&mut buffer, &mut extremes, &vec![10, 10, 10], 3, 0, 2, 0);
    d.process_frame(&mut buffer, &mut extremes, &vec![90, 90, 90], 3, 1, 2, 0);
    assert_eq!(buffer, vec![10, 10, 10]);
}

#[test]
fn lister_keeps_pattern() {
    let lister = FileLister::new("test_data/*.txt", &None);
    assert_eq!(lister.pattern, "test_data/*.txt");
}

#[test]
fn invalid_pattern_is_an_error() {
    let lister = FileLister::new("a[", &None);
    assert!(lister.files_vec().is_err());
}
