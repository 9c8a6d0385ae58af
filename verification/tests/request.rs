use hifisampler::parser::pitch_parser;
use hifisampler::request::{split_arguments, ArgumentError};
use std::path::PathBuf;

#[test]
fn test_basic_arguments() {
    let input = "input.wav output.wav C4 1.0 \"\" 0.0 1000.0 0.0 0.0 100.0 0.0 !120 AA";
    let args = split_arguments(input).unwrap();
    assert_eq!(args[0], "input.wav");
    assert_eq!(args[1], "output.wav");
    let pitch = pitch_parser(&args[2]).unwrap();
    assert_eq!(pitch, 60);
    let tempo: f64 = args[11][1..].parse().unwrap();
    assert_eq!(tempo, 120.0);
}

#[test]
fn test_paths_with_spaces() {
    let input = "my audio file.wav output dir/result.wav A4 0.8 \"flag\" 1.5 2000.0 0.5 0.3 90.0 2.0 !90 B7CPCV";
    let args = split_arguments(input).unwrap();
    assert_eq!(args[0], "my audio file.wav");
    assert_eq!(args[1], "output dir/result.wav");
    let pitch = pitch_parser(&args[2]).unwrap();
    assert_eq!(pitch, 69);
}

#[test]
fn test_minimum_tokens() {
    let input = "a.wav b.wav 60 0.0 x 0.0 0.0 0.0 0.0 0.0 0.0 !100 zz";
    let args = split_arguments(input).unwrap();
    assert_eq!(args.len(), 13);
    assert_eq!(args[0], "a.wav");
    assert_eq!(args[1], "b.wav");
}

#[test]
fn test_parameter_types() {
    let input = "in.wav out.wav C5 1.5 \"fe+10\" -2.3 500.5 3.0 -0.5 80.0 -1.0 !150 AB#14#CD";
    let args = split_arguments(input).unwrap();
    let pitch = pitch_parser(&args[2]).unwrap();
    assert_eq!(pitch, 72);
    let tempo: f64 = args[11][1..].parse().unwrap();
    assert_eq!(tempo, 150.0);
    let offset: f64 = args[5].parse().unwrap();
    assert_eq!(offset, -2.3);
}

#[test]
fn test_path_compatibility() {
    let input = "test data/input.wav output_dir/out.wav D4 1.0 \"\" 0.0 500.0 0.0 0.0 80.0 0.0 !100 C5CC";
    let args = split_arguments(input).unwrap();
    let in_path = PathBuf::from(&args[0]);
    assert!(in_path.ends_with("input.wav"));
    let out_path = PathBuf::from(&args[1]);
    assert!(out_path.ends_with("out.wav"));
    assert!(out_path.starts_with("output_dir"));
}

#[test]
fn request_keeps_all_thirteen_fields() {
    let input = "in.wav out.wav C5 1.5 \"fe+10\" -2.3 500.5 3.0 -0.5 80.0 -1.0 !150 AB#14#CD";
    let args = split_arguments(input).unwrap();
    let expected = vec![
        "in.wav", "out.wav", "C5", "1.5", "\"fe+10\"", "-2.3", "500.5", "3.0", "-0.5", "80.0",
        "-1.0", "!150", "AB#14#CD",
    ];
    assert_eq!(args, expected);
}

#[test]
fn request_trims_spaces_before_second_name() {
    let input = "a.wav   b c.wav 1 2 3 4 5 6 7 8 9 10 11";
    let args = split_arguments(input).unwrap();
    assert_eq!(args[0], "a.wav");
    assert_eq!(args[1], "b c.wav");
    assert_eq!(args[12], "11");
}

#[test]
fn request_with_non_ascii_names() {
    let input = "\u{3042}.wav \u{3044} \u{3046}.wav 1 2 3 4 5 6 7 8 9 10 11";
    let args = split_arguments(input).unwrap();
    assert_eq!(args[0], "\u{3042}.wav");
    assert_eq!(args[1], "\u{3044} \u{3046}.wav");
}

#[test]
fn request_error_variants() {
    assert_eq!(split_arguments("a.wav b.wav 1 2 3"), Err(ArgumentError::TooFewFields));
    assert_eq!(split_arguments(""), Err(ArgumentError::TooFewFields));
    assert_eq!(
        split_arguments("1 2 3 4 5 6 7 8 9 10 11"),
        Err(ArgumentError::MissingWavSplit)
    );
    assert_eq!(
        split_arguments("a.flac b.flac 1 2 3 4 5 6 7 8 9 10 11"),
        Err(ArgumentError::MissingWavSplit)
    );
    assert_eq!(
        split_arguments("a.wav 1 2 3 4 5 6 7 8 9 10 11"),
        Err(ArgumentError::MissingWavSplit)
    );
}

#[test]
fn request_with_empty_second_name() {
    let args = split_arguments("a.wav  1 2 3 4 5 6 7 8 9 10 11").unwrap();
    assert_eq!(args[0], "a.wav");
    assert_eq!(args[1], "");
    assert_eq!(args[2], "1");
}
