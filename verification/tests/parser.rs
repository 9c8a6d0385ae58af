use hifisampler::parser::{
    pitch_parser, pitch_string_to_cents, to_int12, to_int12_stream, to_uint6, PitchError,
    PitchbendError,
};

#[test]
fn test_pitch() {
    let pitch = pitch_parser("C4").unwrap();
    assert_eq!(pitch, 60);
    let pitch = pitch_parser("C5").unwrap();
    assert_eq!(pitch, 72);
    let pitch = pitch_parser("A4").unwrap();
    assert_eq!(pitch, 69);
}

#[test]
fn test_string() {
    let test = "B7CPCVCVCTCQCNCICDB+B5B0BvBrBnBlBk#14#BjBF/++Y8k615d4p4f4l4y5G5f596e7B7l8H8n9D9Z9q9092919y9t9n9f9Y9Q9I9C898584858/9L9b9v+G+f+4/Q/m/5AIATAY#2#AWAUARAOALAHAFACABAA";
    let pitchbend = pitch_string_to_cents(test).unwrap();
    pitchbend.iter().for_each(|p| println!("{}", p));
}

#[test]
fn pitchbend_known_string_has_expected_length_and_zero_pad() {
    let test = "B7CPCVCVCTCQCNCICDB+B5B0BvBrBnBlBk#14#BjBF/++Y8k615d4p4f4l4y5G5f596e7B7l8H8n9D9Z9q9092919y9t9n9f9Y9Q9I9C898584858/9L9b9v+G+f+4/Q/m/5AIATAY#2#AWAUARAOALAHAFACABAA";
    let cents = pitch_string_to_cents(test).unwrap();
    // 17 values and a run of 14, 50 values and a run of 2, 10 values, one zero.
    assert_eq!(cents.len(), 17 + 14 + 50 + 2 + 10 + 1);
    assert_eq!(cents[0], 123);
    assert_eq!(cents[16], 100);
    assert_eq!(cents[17], 100);
    assert_eq!(cents[30], 100);
    assert_eq!(cents[31], 99);
    assert_eq!(*cents.last().unwrap(), 0);
    assert_eq!(cents[cents.len() - 2], 0);
}

#[test]
fn pitchbend_run_repeats_last_value() {
    assert_eq!(pitch_string_to_cents("AB#3#").unwrap(), vec![1, 1, 1, 1, 0]);
    assert_eq!(pitch_string_to_cents("AB#0#AC").unwrap(), vec![1, 2, 0]);
    assert_eq!(pitch_string_to_cents("AB#+2").unwrap(), vec![1, 1, 1, 0]);
}

#[test]
fn pitchbend_empty_string_is_one_zero() {
    assert_eq!(pitch_string_to_cents("").unwrap(), vec![0]);
}

#[test]
fn pitchbend_odd_byte_is_ignored() {
    assert_eq!(pitch_string_to_cents("ABA").unwrap(), vec![1, 0]);
}

#[test]
fn pitchbend_negative_values() {
    assert_eq!(pitch_string_to_cents("//").unwrap(), vec![-1, 0]);
    assert_eq!(pitch_string_to_cents("gA").unwrap(), vec![-2048, 0]);
    assert_eq!(pitch_string_to_cents("f/").unwrap(), vec![2047, 0]);
}

#[test]
fn pitchbend_rejects_bad_run_length() {
    assert_eq!(pitch_string_to_cents("AB#x#"), Err(PitchbendError::InvalidRunLength));
    assert_eq!(pitch_string_to_cents("AB##"), Err(PitchbendError::InvalidRunLength));
    assert_eq!(pitch_string_to_cents("AB#-1#"), Err(PitchbendError::InvalidRunLength));
    assert_eq!(
        pitch_string_to_cents("AB#99999999999999999999999#"),
        Err(PitchbendError::InvalidRunLength)
    );
}

#[test]
fn pitchbend_rejects_run_on_empty_stream() {
    assert_eq!(pitch_string_to_cents("#2#"), Err(PitchbendError::EmptyStream));
    assert_eq!(pitch_string_to_cents("A#2#"), Err(PitchbendError::EmptyStream));
    assert_eq!(pitch_string_to_cents("#0#AB").unwrap(), vec![1, 0]);
}

#[test]
fn uint6_alphabet() {
    assert_eq!(to_uint6(b'A'), 0);
    assert_eq!(to_uint6(b'Z'), 25);
    assert_eq!(to_uint6(b'a'), 26);
    assert_eq!(to_uint6(b'z'), 51);
    assert_eq!(to_uint6(b'0'), 52);
    assert_eq!(to_uint6(b'9'), 61);
    assert_eq!(to_uint6(b'+'), 62);
    assert_eq!(to_uint6(b'/'), 63);
    assert_eq!(to_uint6(b'#'), 0);
    assert_eq!(to_uint6(200), 0);
}

#[test]
fn int12_pairs() {
    assert_eq!(to_int12(b'A', b'A'), 0);
    assert_eq!(to_int12(b'B', b'7'), 123);
    assert_eq!(to_int12(b'/', b'/'), -1);
    assert_eq!(to_int12(b'g', b'A'), -2048);
    assert_eq!(to_int12_stream("B7CP"), vec![123, 143]);
    assert_eq!(to_int12_stream(""), Vec::<i16>::new());
}

#[test]
fn pitch_accepts_numbers() {
    assert_eq!(pitch_parser("60"), Ok(60));
    assert_eq!(pitch_parser("-3"), Ok(-3));
    assert_eq!(pitch_parser("+7"), Ok(7));
    assert_eq!(pitch_parser("2147483647"), Ok(2147483647));
    assert_eq!(pitch_parser("-2147483648"), Ok(-2147483648));
}

#[test]
fn pitch_accepts_sharps_and_negative_octaves() {
    assert_eq!(pitch_parser("A#3"), Ok(58));
    assert_eq!(pitch_parser("C-1"), Ok(0));
    assert_eq!(pitch_parser("B9"), Ok(131));
    assert_eq!(pitch_parser("G#+2"), Ok(44));
}

#[test]
fn pitch_error_variants() {
    assert_eq!(pitch_parser(""), Err(PitchError::InvalidFormat));
    assert_eq!(pitch_parser("C"), Err(PitchError::InvalidFormat));
    assert_eq!(pitch_parser("\u{e9}"), Err(PitchError::InvalidFormat));
    assert_eq!(pitch_parser("H4"), Err(PitchError::InvalidNote));
    assert_eq!(pitch_parser("E#4"), Err(PitchError::InvalidNote));
    assert_eq!(pitch_parser("\u{e9}4"), Err(PitchError::InvalidNote));
    assert_eq!(pitch_parser("Cx"), Err(PitchError::InvalidOctave));
    assert_eq!(pitch_parser("C#"), Err(PitchError::InvalidOctave));
    assert_eq!(pitch_parser("2147483648"), Err(PitchError::InvalidNote));
    assert_eq!(pitch_parser("C2147483647"), Err(PitchError::OutOfRange));
    assert_eq!(pitch_parser("C99999999999"), Err(PitchError::InvalidOctave));
}
