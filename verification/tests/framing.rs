use hifisampler::framing::{
    bins_match, center_padding, frame_count, frame_start, freq_bins, mirror_bin, model_frames,
    overlap_add_len, overlap_place, round_up_to_multiple, segment_padding, validate_shape,
};

#[test]
fn test_cumsum() {
    let ratio = vec![1.0, 2.0, 3.0];
    let first_ratio = ratio[0];
    let cumsum = ratio
        .iter()
        .scan(0.0, |state, &r| {
            *state += r;
            Some(*state - first_ratio)
        })
        .collect::<Vec<_>>();
    assert_eq!(cumsum, vec![0.0, 2.0, 5.0]);
}

#[test]
fn test_stft_freq_bin_mismatch() {
    let wrong_bins = 2048 / 2;
    let err =
        validate_shape(&[wrong_bins], &[freq_bins(2048)], "STFT frequency bins").unwrap_err();
    assert!(
        err.message().contains("Invalid STFT frequency bins shape"),
        "Incorrect error message: {}",
        err.message()
    );
}

#[test]
fn shape_errors_carry_both_shapes() {
    let err = validate_shape(&[1024], &[1025], "STFT frequency bins").unwrap_err();
    assert_eq!(err.expected, vec![1025]);
    assert_eq!(err.actual, vec![1024]);
    assert_eq!(
        err.message(),
        "Invalid STFT frequency bins shape: expected [1025], got [1024]"
    );
    let err = validate_shape(&[1, 20, 300], &[], "mask").unwrap_err();
    assert_eq!(err.message(), "Invalid mask shape: expected [], got [1, 20, 300]");
    assert!(validate_shape(&[1025], &[freq_bins(2048)], "bins").is_ok());
    assert!(validate_shape(&[1025, 1], &[1025], "bins").is_err());
    assert!(validate_shape(&[], &[], "bins").is_ok());
    assert_eq!(
        validate_shape(&[0], &[usize::MAX], "x").unwrap_err().message(),
        format!("Invalid x shape: expected [{}], got [0]", usize::MAX)
    );
}

#[test]
fn frame_counts() {
    assert_eq!(frame_count(2048, 2048, 512), 1);
    assert_eq!(frame_count(2047, 2048, 512), 0);
    assert_eq!(frame_count(2048 + 511, 2048, 512), 1);
    assert_eq!(frame_count(2048 + 512, 2048, 512), 2);
    assert_eq!(frame_count(44100, 2048, 512), 83);
    assert_eq!(frame_count(10, 0, 512), 0);
    assert_eq!(frame_count(10, 4, 0), 0);
    assert_eq!(frame_start(82, 44100, 2048, 512), 41984);
}

#[test]
fn round_trip_length_on_whole_hops() {
    let len = 2048 + 7 * 512;
    let frames = frame_count(len, 2048, 512);
    assert_eq!(frames, 8);
    assert_eq!(overlap_add_len(frames, 2048, 512), Some(len));
    assert_eq!(overlap_add_len(0, 2048, 512), None);
    assert_eq!(overlap_add_len(usize::MAX, 2048, 512), None);
}

#[test]
fn rounding_up() {
    assert_eq!(round_up_to_multiple(0, 512), Some(0));
    assert_eq!(round_up_to_multiple(1, 512), Some(512));
    assert_eq!(round_up_to_multiple(512, 512), Some(512));
    assert_eq!(round_up_to_multiple(513, 512), Some(1024));
    assert_eq!(round_up_to_multiple(usize::MAX, 512), None);
    assert_eq!(model_frames(83), Some(96));
    assert_eq!(model_frames(96), Some(96));
}

#[test]
fn segment_padding_fills_whole_segments() {
    let (left, right) = segment_padding(22050).unwrap();
    assert_eq!(left, 4608);
    assert_eq!(right, 5598);
    assert_eq!((left + 22050 + right + 512) % 16384, 0);
    let (left, right) = segment_padding(0).unwrap();
    assert_eq!((left, right), (7680, 8192));
    assert_eq!(segment_padding(usize::MAX), None);
}

#[test]
fn spectrum_bins() {
    assert_eq!(freq_bins(2048), 1025);
    assert_eq!(freq_bins(0), 1);
    assert!(bins_match(1025, 2048));
    assert!(!bins_match(1024, 2048));
}

#[test]
fn centred_frames() {
    assert_eq!(center_padding(2048, 128), (960, 960));
    assert_eq!(center_padding(2049, 128), (960, 961));
    assert_eq!(center_padding(512, 512), (0, 0));
    let (left, right) = center_padding(2048, 128);
    assert_eq!(frame_count(left + 44100 + right, 2048, 128), 44100 / 128);
}

#[test]
fn overlap_places_and_mirrors() {
    assert_eq!(overlap_place(0, 0, 8, 2048, 512), 0);
    assert_eq!(overlap_place(7, 2047, 8, 2048, 512), 2048 + 7 * 512 - 1);
    assert_eq!(mirror_bin(1, 2048), 2047);
    assert_eq!(mirror_bin(1023, 2048), 1025);
    assert_eq!(mirror_bin(1, 5), 4);
}
