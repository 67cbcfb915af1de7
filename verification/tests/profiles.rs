use windisplaymanager::ccd::CcdError;
use windisplaymanager::profiles::{civil_from_days, iso8601_from_secs, profile_file_name, sanitize_name, ProfileError};

#[test]
fn sanitize_rejects_traversal_and_empty() {
    assert!(sanitize_name("..").is_none());
    assert!(sanitize_name("   ").is_none());
    assert!(sanitize_name("../../etc").is_some()); // slashes stripped -> "etc"
    assert_eq!(sanitize_name("../../etc").unwrap(), "etc");
    assert_eq!(sanitize_name("Home Dual").unwrap(), "Home Dual");
    assert_eq!(sanitize_name("a<b>c:d").unwrap(), "abcd");
}

#[test]
fn sanitize_strips_controls_dots_and_surrounding_space() {
    assert_eq!(sanitize_name(" .. Work\t. ").unwrap(), "Work");
    assert_eq!(sanitize_name("a\u{7}b").unwrap(), "ab");
    assert!(sanitize_name("***").is_none());
    assert!(sanitize_name(". .").is_none());
}

#[test]
fn iso8601_epoch_is_correct() {
    assert_eq!(civil_from_days(0), (1970, 1, 1));
    // 2000-03-01 is 11017 days after the epoch.
    assert_eq!(civil_from_days(11_017), (2000, 3, 1));
}

#[test]
fn civil_dates_before_the_epoch_and_leap_days() {
    assert_eq!(civil_from_days(-1), (1969, 12, 31));
    assert_eq!(civil_from_days(11_016), (2000, 2, 29));
    assert_eq!(civil_from_days(-719_468), (0, 3, 1));
}

#[test]
fn timestamps_are_zero_padded_utc() {
    assert_eq!(iso8601_from_secs(0), "1970-01-01T00:00:00Z");
    assert_eq!(iso8601_from_secs(951_868_800 + 3_723), "2000-03-01T01:02:03Z");
}

#[test]
fn profile_files_use_the_safe_stem_and_reject_empty_names() {
    assert_eq!(profile_file_name("Home: Dual").unwrap(), "Home Dual.json");
    assert!(matches!(profile_file_name("/"), Err(ProfileError::InvalidName)));
    assert_eq!(ProfileError::InvalidName.message(), "Invalid profile name");
    assert_eq!(ProfileError::NotFound("x".into()).message(), "Profile not found: x");
    assert_eq!(ProfileError::Ccd(CcdError::Empty).message(), "Profile contains no display paths");
}
