use std::sync::Arc;
use subtitle_embed::embedder::{composite, composite_frame, frames_fit, raw_embed, EmbedError, Offset, SubtitleEmbedder};
use subtitle_embed::frame::Frame;
use subtitle_embed::render::{RenderData, SubtitleWrapper};

fn solid(width: i32, height: i32, linesize: i32, rgb: [u8; 3]) -> Frame {
    let mut data = vec![0u8; (height * linesize) as usize];
    for r in 0..height {
        for c in 0..width {
            let base = (r * linesize + c * 3) as usize;
            data[base..base + 3].copy_from_slice(&rgb);
        }
    }
    Frame { width, height, linesize, data, pts: Some(7) }
}

fn binding(flap: usize, major: Option<Frame>, minor: Option<Frame>) -> RenderData {
    RenderData {
        flap,
        major: major.map(|f| SubtitleWrapper { id: 1, image: Arc::new(f) }),
        minor: minor.map(|f| SubtitleWrapper { id: 2, image: Arc::new(f) }),
        bottom_offset: 1,
        top_offset: 1,
    }
}

#[test]
fn black_subtitle_pixel_halves_the_frame() {
    let mut dst = vec![200u8, 100, 50];
    raw_embed(&mut dst, 1, 1, 3, &[0, 0, 0], 1, 1, 3, Offset::MinorTop(0));
    assert_eq!(dst, vec![100, 50, 25]);
}

#[test]
fn coloured_subtitle_pixel_overwrites() {
    let mut dst = vec![200u8, 100, 50];
    raw_embed(&mut dst, 1, 1, 3, &[10, 0, 0], 1, 1, 3, Offset::MajorBottom(0));
    assert_eq!(dst, vec![10, 0, 0]);
}

#[test]
fn odd_values_average_down() {
    let mut dst = vec![201u8, 1, 255];
    raw_embed(&mut dst, 1, 1, 3, &[0, 0, 0], 1, 1, 3, Offset::MinorTop(0));
    assert_eq!(dst, vec![100, 0, 127]);
}

#[test]
fn placement_respects_stride_and_anchor() {
    // 4x3 frame with rows of 16 bytes (4 bytes of padding each).
    let frame = solid(4, 3, 16, [9, 9, 9]);
    let mut dst = frame.data.clone();
    // 2x1 subtitle with rows of 8 bytes.
    let sub = vec![1u8, 2, 3, 4, 5, 6, 77, 77];
    raw_embed(&mut dst, 4, 3, 16, &sub, 2, 1, 8, Offset::MajorBottom(1));
    // Top row = 3 - 1 - 1 = 1, left column = (4 - 2) / 2 = 1.
    let mut expected = frame.data.clone();
    expected[16 + 3..16 + 9].copy_from_slice(&[1, 2, 3, 4, 5, 6]);
    assert_eq!(dst, expected);
}

#[test]
fn centering_truncates() {
    // 5 wide frame, 2 wide subtitle: left column (5 - 2) / 2 = 1.
    let mut dst = vec![0u8; 15];
    raw_embed(&mut dst, 5, 1, 15, &[1, 1, 1, 2, 2, 2], 2, 1, 6, Offset::MinorTop(0));
    assert_eq!(dst, vec![0, 0, 0, 1, 1, 1, 2, 2, 2, 0, 0, 0, 0, 0, 0]);
}

#[test]
fn minor_subtitle_is_top_anchored() {
    let mut frame = solid(2, 4, 6, [50, 50, 50]);
    let b = binding(0, None, Some(solid(2, 1, 6, [1, 2, 3])));
    let before = frame.data.clone();
    composite_frame(&mut frame, &b, 2, 0);
    for (k, v) in frame.data.iter().enumerate() {
        if (12..18).contains(&k) {
            assert_eq!(*v, [1, 2, 3][k % 3]);
        } else {
            assert_eq!(*v, before[k]);
        }
    }
}

#[test]
fn lone_subtitle_changes_only_its_region() {
    let mut frame = solid(4, 4, 12, [80, 80, 80]);
    let before = frame.data.clone();
    let b = binding(0, Some(solid(2, 1, 6, [0, 0, 0])), None);
    composite_frame(&mut frame, &b, 0, 1);
    // Region: row 4 - 1 - 1 = 2, columns 1 and 2.
    for (k, v) in frame.data.iter().enumerate() {
        let row = k / 12;
        let col = (k % 12) / 3;
        if row == 2 && (1..3).contains(&col) {
            assert_eq!(*v, 40);
        } else {
            assert_eq!(*v, before[k]);
        }
    }
    assert_eq!(frame.pts, Some(7));
}

#[test]
fn frame_without_binding_is_untouched() {
    let mut frame = solid(3, 3, 9, [5, 6, 7]);
    let before = frame.data.clone();
    composite_frame(&mut frame, &binding(0, None, None), 0, 0);
    assert_eq!(frame.data, before);
}

#[test]
fn composite_rejects_length_mismatch() {
    let mut frames: Vec<Frame> = (0..10).map(|_| solid(2, 2, 6, [3, 3, 3])).collect();
    let bindings: Vec<RenderData> = (0..9).map(|i| binding(i, Some(solid(1, 1, 3, [9, 9, 9])), None)).collect();
    let before: Vec<Vec<u8>> = frames.iter().map(|f| f.data.clone()).collect();
    assert_eq!(composite(&mut frames, &bindings, 0, 0), Err(EmbedError::RangeMismatch));
    let after: Vec<Vec<u8>> = frames.iter().map(|f| f.data.clone()).collect();
    assert_eq!(after, before);
}

#[test]
fn parallel_matches_sequential() {
    let make = || -> Vec<Frame> {
        (0..16).map(|i| solid(6, 5, 20, [i as u8 * 10, 100, 200])).collect()
    };
    let bindings: Vec<RenderData> = (0..16)
        .map(|i| {
            let major = if i % 2 == 0 { Some(solid(4, 2, 12, [0, 0, 0])) } else { None };
            let minor = if i % 3 == 0 { Some(solid(2, 1, 6, [i as u8, 1, 2])) } else { None };
            binding(i, major, minor)
        })
        .collect();
    let mut parallel = make();
    assert!(frames_fit(&parallel, &bindings, 1, 1));
    assert_eq!(composite(&mut parallel, &bindings, 1, 1), Ok(()));
    let mut sequential = make();
    for (f, b) in sequential.iter_mut().zip(bindings.iter()) {
        composite_frame(f, b, 1, 1);
    }
    for (p, s) in parallel.iter().zip(sequential.iter()) {
        assert_eq!(p.data, s.data);
    }
    assert_ne!(parallel[0].data, make()[0].data);
}

#[test]
fn fit_check_rejects_oversized_subtitle() {
    let frames = vec![solid(2, 2, 6, [0, 0, 0])];
    let too_wide = vec![binding(0, Some(solid(3, 1, 9, [1, 1, 1])), None)];
    assert!(!frames_fit(&frames, &too_wide, 0, 0));
    let too_low = vec![binding(0, Some(solid(1, 2, 3, [1, 1, 1])), None)];
    assert!(!frames_fit(&frames, &too_low, 0, 1));
    let fine = vec![binding(0, Some(solid(1, 2, 3, [1, 1, 1])), None)];
    assert!(frames_fit(&frames, &fine, 0, 0));
}

#[test]
fn push_reports_full_and_refuses_more() {
    let table: Vec<RenderData> = Vec::new();
    let mut embedder = SubtitleEmbedder::new(&table, 2, 0, 0);
    assert_eq!(embedder.send_frame(solid(1, 1, 3, [1, 1, 1])), Ok(false));
    assert_eq!(embedder.send_frame(solid(1, 1, 3, [2, 2, 2])), Ok(true));
    assert_eq!(embedder.send_frame(solid(1, 1, 3, [3, 3, 3])), Err(EmbedError::BufferFull));
    let held: Vec<Vec<u8>> = embedder.get_buf().iter().map(|f| f.data.clone()).collect();
    assert_eq!(held, vec![vec![1, 1, 1], vec![2, 2, 2]]);
    embedder.finish();
    assert!(embedder.get_buf().is_empty());
    assert_eq!(embedder.send_frame(solid(1, 1, 3, [4, 4, 4])), Ok(false));
}

#[test]
fn zero_capacity_buffer_is_always_full() {
    let table: Vec<RenderData> = Vec::new();
    let mut embedder = SubtitleEmbedder::new(&table, 0, 0, 0);
    assert_eq!(embedder.send_frame(solid(1, 1, 3, [1, 1, 1])), Err(EmbedError::BufferFull));
    assert!(embedder.get_buf().is_empty());
}

#[test]
fn embed_uses_the_matching_bindings() {
    let table = vec![
        binding(0, None, None),
        binding(1, Some(solid(1, 1, 3, [7, 8, 9])), None),
        binding(2, None, None),
    ];
    let mut embedder = SubtitleEmbedder::new(&table, 2, 0, 0);
    embedder.send_frame(solid(1, 1, 3, [1, 1, 1])).unwrap();
    embedder.send_frame(solid(1, 1, 3, [1, 1, 1])).unwrap();
    assert!(embedder.fits(2, 3));
    assert_eq!(embedder.embed(2, 3), Ok(()));
    assert_eq!(embedder.get_buf()[0].data, vec![7, 8, 9]);
    assert_eq!(embedder.get_buf()[1].data, vec![1, 1, 1]);
}

#[test]
fn embed_rejects_a_wrong_range() {
    let table = vec![
        binding(0, Some(solid(1, 1, 3, [7, 8, 9])), None),
        binding(1, Some(solid(1, 1, 3, [7, 8, 9])), None),
    ];
    let mut embedder = SubtitleEmbedder::new(&table, 2, 0, 0);
    embedder.send_frame(solid(1, 1, 3, [1, 1, 1])).unwrap();
    embedder.send_frame(solid(1, 1, 3, [1, 1, 1])).unwrap();
    assert_eq!(embedder.embed(1, 3), Err(EmbedError::RangeMismatch));
    assert_eq!(embedder.embed(2, 3), Err(EmbedError::RangeMismatch));
    assert_eq!(embedder.embed(0, 1), Err(EmbedError::RangeMismatch));
    assert_eq!(embedder.get_buf()[0].data, vec![1, 1, 1]);
    assert_eq!(embedder.embed(1, 2), Ok(()));
    assert_eq!(embedder.get_buf()[1].data, vec![7, 8, 9]);
}
