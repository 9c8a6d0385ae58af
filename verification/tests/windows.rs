use hifisampler::padding::{reflect_pad_1d, reflect_pad_columns};
use hifisampler::request::{classify_failure, Failure};
use hifisampler::tensor::{
    crop_prediction, pack_planes, tensor_index, transpose_flat, CropError,
};
use hifisampler::text::{find_bytes, parse_digits, parse_i32_in, parse_unsigned_in, split_spans};
use hifisampler::timeline::{
    clamp_range, fade_len, loud_span, render_window, restore_plan, slope_span, square_high,
    trim_end, trim_region,
};

#[test]
fn reflect_pad_of_a_signal() {
    let signal = [1.0, 2.0, 3.0, 4.0];
    assert_eq!(
        reflect_pad_1d(&signal, 2, 5, 0.0),
        vec![2.0, 3.0, 1.0, 2.0, 3.0, 4.0, 3.0, 2.0, 1.0, 3.0, 2.0]
    );
    assert_eq!(reflect_pad_1d(&signal, 0, 0, 0.0), signal.to_vec());
}

#[test]
fn reflect_pad_of_short_signals() {
    let none: [f64; 0] = [];
    assert_eq!(reflect_pad_1d(&none, 2, 1, 0.0), vec![0.0, 0.0, 0.0]);
    assert_eq!(reflect_pad_1d(&[7], 2, 1, 0), vec![7, 7, 7, 7]);
    assert_eq!(reflect_pad_1d(&[1, 2], 3, 3, 0), vec![2, 2, 2, 1, 2, 1, 1, 1]);
}

#[test]
fn reflect_pad_of_columns() {
    assert_eq!(reflect_pad_columns(4, 5), vec![0, 1, 2, 3, 2, 1, 0, 2, 1]);
    assert_eq!(reflect_pad_columns(4, 0), vec![0, 1, 2, 3]);
    assert_eq!(reflect_pad_columns(0, 3), Vec::<usize>::new());
    assert_eq!(reflect_pad_columns(1, 2), vec![0, 0, 0]);
    assert_eq!(reflect_pad_columns(2, 3), vec![0, 1, 0, 0, 0]);
}

#[test]
fn render_windows() {
    // 100 frames, note starts at frame 10 and needs 60 frames, 6 frames of margin.
    assert_eq!(render_window(100, 10, 60, 6), (4, 66, 62));
    assert_eq!(render_window(100, 3, 60, 6), (0, 66, 66));
    assert_eq!(render_window(100, 10, 98, 6), (4, 100, 96));
    assert_eq!(render_window(100, 10, 200, 6), (4, 100, 96));
    assert_eq!(render_window(5, 20, 0, 6), (14, 5, 0));
    assert_eq!(render_window(0, 0, 0, 6), (0, 0, 0));
}

#[test]
fn clamped_ranges() {
    assert_eq!(clamp_range(3, 8, 10), (3, 8));
    assert_eq!(clamp_range(3, 80, 10), (3, 10));
    assert_eq!(clamp_range(30, 80, 10), (10, 10));
    assert_eq!(clamp_range(8, 3, 10), (8, 8));
    assert_eq!(clamp_range(0, 0, 0), (0, 0));
}

#[test]
fn trim_and_fade() {
    // 20 ms gates 10 ms apart at 44100 Hz, ten hops of margin.
    assert_eq!(trim_end(4410, 441, 882, 10, 44100), 10143);
    assert_eq!(trim_end(43000, 441, 882, 10, 44100), 44100);
    assert_eq!(trim_end(usize::MAX, 1, 882, 10, 44100), 44100);
    assert_eq!(fade_len(44100, 8820), 8820);
    assert_eq!(fade_len(1000, 8820), 250);
    assert_eq!(fade_len(0, 8820), 0);
    assert_eq!(fade_len(3, 8820), 0);
}

#[test]
fn loud_spans() {
    assert_eq!(loud_span(&[false, true, false, true, false]), Some((1, 3)));
    assert_eq!(loud_span(&[true]), Some((0, 0)));
    assert_eq!(loud_span(&[false, false]), None);
    assert_eq!(loud_span(&[]), None);
}

#[test]
fn slopes_and_square_wave() {
    assert_eq!(slope_span(0, 5), (0, 1));
    assert_eq!(slope_span(4, 5), (3, 4));
    assert_eq!(slope_span(2, 5), (1, 3));
    assert_eq!(slope_span(1, 2), (0, 1));
    let high: Vec<bool> = (0..8).map(|n| square_high(n, 4)).collect();
    assert_eq!(high, vec![true, true, false, false, true, true, false, false]);
    assert!((0..10).all(|n| square_high(n, 1)));
    let odd: Vec<bool> = (0..3).map(|n| square_high(n, 3)).collect();
    assert_eq!(odd, vec![true, true, false]);
}

#[test]
fn packed_planes() {
    // two bins, two frames, padded to three frames
    let re = [1.0, 2.0, 3.0, 4.0];
    let im = [5.0, 6.0, 7.0, 8.0];
    assert_eq!(
        pack_planes(&re, &im, 2, 2, 3, 0.0),
        vec![1.0, 3.0, 0.0, 2.0, 4.0, 0.0, 5.0, 7.0, 0.0, 6.0, 8.0, 0.0]
    );
    let none: [f32; 0] = [];
    assert_eq!(pack_planes(&none, &none, 0, 0, 4, 0.0), Vec::<f32>::new());
}

#[test]
fn cropped_prediction() {
    assert_eq!(crop_prediction(100, 10, 80), Ok((10, 90)));
    assert_eq!(crop_prediction(100, 10, 90), Ok((10, 100)));
    assert_eq!(crop_prediction(100, 10, 91), Err(CropError::TooShort));
    assert_eq!(crop_prediction(100, usize::MAX, 1), Err(CropError::TooShort));
}

#[test]
fn failures_by_message() {
    assert_eq!(classify_failure("model file not found at x"), Failure::NotFound);
    assert_eq!(classify_failure("not found"), Failure::NotFound);
    assert_eq!(classify_failure("Not found"), Failure::Internal);
    assert_eq!(classify_failure("inference failed"), Failure::Internal);
    assert_eq!(classify_failure(""), Failure::Internal);
}

#[test]
fn text_helpers() {
    assert_eq!(split_spans(b"a,,bc", b','), vec![(0, 1), (2, 2), (3, 5)]);
    assert_eq!(split_spans(b"", b','), vec![(0, 0)]);
    assert_eq!(split_spans(b",", b','), vec![(0, 0), (1, 1)]);
    assert_eq!(find_bytes(b"xx.wav y.wav ", 13, b".wav "), Some(2));
    assert_eq!(find_bytes(b"xx.wav y.wav ", 6, b".wav "), None);
    assert_eq!(find_bytes(b"abc", 3, b""), Some(0));
    assert_eq!(parse_digits(b"x123y", 1, 4, 1000), Some(123));
    assert_eq!(parse_digits(b"x123y", 1, 4, 122), None);
    assert_eq!(parse_digits(b"x123y", 1, 5, 1000), None);
    assert_eq!(parse_digits(b"", 0, 0, 1000), None);
    assert_eq!(parse_digits(b"18446744073709551615", 0, 20, u64::MAX), Some(u64::MAX));
    assert_eq!(parse_digits(b"18446744073709551616", 0, 20, u64::MAX), None);
    assert_eq!(parse_unsigned_in(b"+12", 0, 3, 100), Some(12));
    assert_eq!(parse_unsigned_in(b"+", 0, 1, 100), None);
    assert_eq!(parse_i32_in(b"-2147483648", 0, 11), Some(i32::MIN));
    assert_eq!(parse_i32_in(b"-2147483649", 0, 11), None);
    assert_eq!(parse_i32_in(b"-", 0, 1), None);
    assert_eq!(parse_i32_in(b"007", 0, 3), Some(7));
}

#[test]
fn tensor_places() {
    assert_eq!(tensor_index(0, 0, 0, 2, 3), 0);
    assert_eq!(tensor_index(0, 1, 2, 2, 3), 5);
    assert_eq!(tensor_index(1, 0, 0, 2, 3), 6);
    assert_eq!(tensor_index(1, 1, 2, 2, 3), 11);
    let re = [1, 2, 3, 4];
    let im = [5, 6, 7, 8];
    let packed = pack_planes(&re, &im, 2, 2, 3, 0);
    assert_eq!(packed[tensor_index(1, 1, 0, 2, 3)], 6);
    assert_eq!(packed[tensor_index(0, 0, 1, 2, 3)], 3);
}

#[test]
fn transposed_grid() {
    // two rows of three
    assert_eq!(transpose_flat(&[1, 2, 3, 4, 5, 6], 2, 3), vec![1, 4, 2, 5, 3, 6]);
    assert_eq!(transpose_flat(&[1.5, 2.5], 1, 2), vec![1.5, 2.5]);
    assert_eq!(transpose_flat(&[1.5, 2.5], 2, 1), vec![1.5, 2.5]);
    let none: [u8; 0] = [];
    assert_eq!(transpose_flat(&none, 0, 7), Vec::<u8>::new());
}

#[test]
fn trimmed_regions() {
    // one second at 44100 Hz has 99 gates of 882 samples, 441 apart
    let mut loud = vec![false; 99];
    assert_eq!(trim_region(&loud, 441, 882, 10, 44100), None);
    loud[10] = true;
    loud[20] = true;
    assert_eq!(trim_region(&loud, 441, 882, 10, 44100), Some((4410, 31 * 441 + 882)));
    loud[98] = true;
    assert_eq!(trim_region(&loud, 441, 882, 10, 44100), Some((4410, 44100)));
    assert_eq!(trim_region(&[true], 441, 882, 0, 882), Some((0, 882)));
    assert_eq!(trim_region(&[], 441, 882, 0, 100), None);
}

#[test]
fn restore_plans() {
    assert_eq!(restore_plan(100, 10, 50), (50, 40));
    assert_eq!(restore_plan(100, 10, 90), (90, 0));
    assert_eq!(restore_plan(100, 10, 500), (90, 0));
    assert_eq!(restore_plan(100, 100, 5), (0, 0));
    assert_eq!(restore_plan(0, 0, 0), (0, 0));
}
