//! Image stream construction tests.

use chrono_photo::streams::ImageStream;

#[test]
fn streams_iterate() {
    let pattern = "test_data/*.png";
    let _stream = ImageStream::from_pattern(&pattern, &None).expect("Error processing pattern");
}

#[test]
fn img_stream_iterate() {
    let pattern = "test_data/*.png";
    let _stream =
        chrono_photo::img_stream::ImageStream::from_pattern(&pattern).expect("Error processing pattern");
}

#[test]
fn imgstream_iterate() {
    let pattern = "test_data/*.txt";
    let _stream =
        chrono_photo::imgstream::ImageStream::from_pattern(&pattern).expect("Error processing pattern");
}

#[test]
fn stream_len_and_skip() {
    let mut stream = ImageStream {
        files: vec!["a.png".to_string(), "b.png".to_string()],
        pos: 0,
    };
    assert_eq!(stream.len(), 2);
    assert_eq!(stream.skip(), Some(()));
    assert_eq!(stream.len(), 1);
    assert_eq!(stream.next_path(), Some("b.png".to_string()));
    assert_eq!(stream.len(), 0);
    assert_eq!(stream.skip(), None);
    assert_eq!(stream.next_path(), None);
}
