use au_splitter::splitter::{frame_slice, split_video, SplitError};

#[test]
fn test_split_video() {
    let video: &[u8] = &[0, 0, 0, 1, 25, 0, 0, 0, 1, 38, 0, 0, 0, 1, 2];
    let frames = split_video(video).unwrap();
    assert_eq!(2, frames.len());
    assert_eq!(&[0, 0, 0, 1, 25, 0, 0, 0, 1, 38][..], frame_slice(video, &frames[0]));
    assert_eq!(&[0, 0, 0, 1, 2][..], frame_slice(video, &frames[1]));
}

#[test]
fn two_frames_ranges() {
    let video: &[u8] = &[0, 0, 0, 1, 25, 0, 0, 0, 1, 38, 0, 0, 0, 1, 2];
    let frames = split_video(video).unwrap();
    assert_eq!(2, frames.len());
    assert_eq!(0, frames[0].start);
    assert_eq!(10, frames[0].end);
    assert_eq!(10, frames[1].start);
    assert_eq!(15, frames[1].end);
}

#[test]
fn single_group_spans_whole_buffer() {
    let video: &[u8] = &[0, 0, 0, 1, 99, 5, 5];
    let frames = split_video(video).unwrap();
    assert_eq!(1, frames.len());
    assert_eq!(0, frames[0].start);
    assert_eq!(7, frames[0].end);
    assert_eq!(video, frame_slice(video, &frames[0]));
}

#[test]
fn empty_buffer_yields_no_frames() {
    let video: &[u8] = &[];
    let frames = split_video(video).unwrap();
    assert!(frames.is_empty());
}

#[test]
fn no_marker_discards_leading_bytes() {
    let video: &[u8] = &[1, 2, 3];
    let frames = split_video(video).unwrap();
    assert!(frames.is_empty());
}

#[test]
fn no_marker_in_longer_buffer() {
    let video: &[u8] = &[0, 0, 1, 0, 0, 2, 255, 7, 0, 1, 0, 0];
    let frames = split_video(video).unwrap();
    assert!(frames.is_empty());
}

#[test]
fn frames_gapless_ordered_and_first_at_first_marker() {
    // junk prefix, markers at 2 (header 7), 7 (header 2, terminal),
    // 12 (header 38, terminal), 17 (header 5, group open to the end)
    let video: &[u8] = &[
        9, 9, 0, 0, 0, 1, 7, 0, 0, 0, 1, 2, 0, 0, 0, 1, 38, 0, 0, 0, 1, 5,
    ];
    let frames = split_video(video).unwrap();
    assert_eq!(3, frames.len());
    assert_eq!(2, frames[0].start);
    for i in 0..frames.len() - 1 {
        assert_eq!(frames[i].end, frames[i + 1].start);
        assert!(frames[i].start < frames[i + 1].start);
    }
    assert_eq!(video.len(), frames[frames.len() - 1].end);
    assert_eq!(12, frames[1].start);
    assert_eq!(17, frames[2].start);
}

#[test]
fn concatenation_reproduces_suffix() {
    let video: &[u8] = &[
        9, 9, 0, 0, 0, 1, 7, 0, 0, 0, 1, 2, 0, 0, 0, 1, 38, 0, 0, 0, 1, 5,
    ];
    let frames = split_video(video).unwrap();
    assert!(!frames.is_empty());
    let mut joined: Vec<u8> = Vec::new();
    for f in &frames {
        joined.extend_from_slice(frame_slice(video, f));
    }
    assert_eq!(&video[frames[0].start..], &joined[..]);
}

#[test]
fn resplitting_concatenation_keeps_boundaries() {
    let video: &[u8] = &[
        9, 9, 0, 0, 0, 1, 7, 0, 0, 0, 1, 2, 0, 0, 0, 1, 38, 0, 0, 0, 1, 5,
    ];
    let frames = split_video(video).unwrap();
    let mut joined: Vec<u8> = Vec::new();
    for f in &frames {
        joined.extend_from_slice(frame_slice(video, f));
    }
    let reframes = split_video(&joined).unwrap();
    assert_eq!(frames.len(), reframes.len());
    let base = frames[0].start;
    for i in 0..frames.len() {
        assert_eq!(frames[i].start - base, reframes[i].start);
        assert_eq!(frames[i].end - base, reframes[i].end);
    }
}

#[test]
fn marker_in_last_four_bytes_is_rejected() {
    let video: &[u8] = &[0, 0, 0, 1];
    assert_eq!(Err(SplitError::TruncatedMarker), split_video(video));
    let video2: &[u8] = &[0, 0, 0, 1, 38, 0, 0, 0, 1];
    assert_eq!(Err(SplitError::TruncatedMarker), split_video(video2));
}

#[test]
fn header_two_is_terminal() {
    // markers at 0 (header 2, terminal) and 5 (header 9, open to the end)
    let video: &[u8] = &[0, 0, 0, 1, 2, 0, 0, 0, 1, 9, 9];
    let frames = split_video(video).unwrap();
    assert_eq!(2, frames.len());
    assert_eq!(0, frames[0].start);
    assert_eq!(5, frames[0].end);
    assert_eq!(5, frames[1].start);
    assert_eq!(11, frames[1].end);
}
