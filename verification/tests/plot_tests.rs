use poc1to2::plot::{NameField, Plot, PlotError, NONCE_SIZE};

const TEN_NONCE_SIZE: u64 = 10 * NONCE_SIZE;

#[test]
fn test_plot() {
    let plot = Plot::new("11253871103436815155_0_10_10", TEN_NONCE_SIZE, None).unwrap();

    assert_eq!(plot.id, 11253871103436815155);
    assert_eq!(plot.offset, 0);
    assert_eq!(plot.nonces, 10);
    assert_eq!(plot.size, 2621440);
    assert!(plot.inline);

    assert_eq!(plot.poc2_name(), "11253871103436815155_0_10");
}

#[test]
fn test_copy_mode_selected_by_output_directory() {
    let plot = Plot::new("11253871103436815155_0_10_10", TEN_NONCE_SIZE, Some(true)).unwrap();
    assert!(!plot.inline);
}

#[test]
fn test_invalid_output_directory() {
    let r = Plot::new("11253871103436815155_0_10_10", TEN_NONCE_SIZE, Some(false));
    assert_eq!(r.unwrap_err(), PlotError::InvalidOutputDirectory);
}

#[test]
fn test_too_few_segments() {
    let r = Plot::new("nodelimiters", 0, None);
    assert_eq!(
        r.unwrap_err(),
        PlotError::MalformedFilename(NameField::Format)
    );
    let r = Plot::new("1_2_3", 0, None);
    assert_eq!(
        r.unwrap_err(),
        PlotError::MalformedFilename(NameField::Format)
    );
}

#[test]
fn test_bad_id() {
    let r = Plot::new("x_0_10_10", TEN_NONCE_SIZE, None);
    assert_eq!(r.unwrap_err(), PlotError::MalformedFilename(NameField::Id));
    // an id beyond u64::MAX does not parse either
    let r = Plot::new("18446744073709551616_0_10_10", TEN_NONCE_SIZE, None);
    assert_eq!(r.unwrap_err(), PlotError::MalformedFilename(NameField::Id));
    // a negative id is rejected: ids are unsigned
    let r = Plot::new("-1_0_10_10", TEN_NONCE_SIZE, None);
    assert_eq!(r.unwrap_err(), PlotError::MalformedFilename(NameField::Id));
}

#[test]
fn test_bad_offset() {
    let r = Plot::new("1__10_10", TEN_NONCE_SIZE, None);
    assert_eq!(
        r.unwrap_err(),
        PlotError::MalformedFilename(NameField::Offset)
    );
}

#[test]
fn test_bad_nonces() {
    let r = Plot::new("1_0_z_10", TEN_NONCE_SIZE, None);
    assert_eq!(
        r.unwrap_err(),
        PlotError::MalformedFilename(NameField::Nonces)
    );
    // one past i64::MAX
    let r = Plot::new(
        "1_0_9223372036854775808_9223372036854775808",
        TEN_NONCE_SIZE,
        None,
    );
    assert_eq!(
        r.unwrap_err(),
        PlotError::MalformedFilename(NameField::Nonces)
    );
}

#[test]
fn test_bad_stagger() {
    let r = Plot::new("1_0_10_w", TEN_NONCE_SIZE, None);
    assert_eq!(
        r.unwrap_err(),
        PlotError::MalformedFilename(NameField::Stagger)
    );
}

#[test]
fn test_unsupported_layout() {
    let r = Plot::new("1_0_10_20", TEN_NONCE_SIZE, None);
    assert_eq!(r.unwrap_err(), PlotError::UnsupportedLayout);
}

#[test]
fn test_size_mismatch() {
    let r = Plot::new("1_0_10_10", 123, None);
    assert_eq!(
        r.unwrap_err(),
        PlotError::SizeMismatch {
            expected: 2621440,
            actual: 123
        }
    );
}

#[test]
fn test_negative_nonces_never_match_a_size() {
    let r = Plot::new("1_0_-10_-10", TEN_NONCE_SIZE, None);
    assert_eq!(
        r.unwrap_err(),
        PlotError::SizeMismatch {
            expected: -2621440,
            actual: TEN_NONCE_SIZE
        }
    );
}

#[test]
fn test_plus_signs_parse_as_rust_does() {
    let plot = Plot::new("+7_+5_+10_+10", TEN_NONCE_SIZE, None).unwrap();
    assert_eq!(plot.id, 7);
    assert_eq!(plot.offset, 5);
    assert_eq!(plot.nonces, 10);
}

#[test]
fn test_zero_nonces() {
    let plot = Plot::new("1_0_0_0", 0, None).unwrap();
    assert_eq!(plot.nonces, 0);
    assert_eq!(plot.size, 0);
    assert_eq!(plot.poc2_name(), "1_0_0");
}

#[test]
fn test_extra_segments_are_ignored() {
    let plot = Plot::new("1_2_3_3_backup_copy", 3 * NONCE_SIZE, None).unwrap();
    assert_eq!(plot.id, 1);
    assert_eq!(plot.offset, 2);
    assert_eq!(plot.nonces, 3);
    assert_eq!(plot.poc2_name(), "1_2_3");
}

#[test]
fn test_poc2_name_extremes() {
    let plot = Plot::new("18446744073709551615_18446744073709551615_1_1", NONCE_SIZE, None)
        .unwrap();
    assert_eq!(
        plot.poc2_name(),
        "18446744073709551615_18446744073709551615_1"
    );
}

#[test]
fn test_most_negative_nonces() {
    // i64::MIN parses, but a negative implied size can never match a file
    let r = Plot::new(
        "1_0_-9223372036854775808_-9223372036854775808",
        TEN_NONCE_SIZE,
        None,
    );
    assert_eq!(
        r.unwrap_err(),
        PlotError::SizeMismatch {
            expected: -2417851639229258349412352,
            actual: TEN_NONCE_SIZE
        }
    );
}
