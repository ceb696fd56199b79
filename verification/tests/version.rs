use py_launcher::version::{version_key, version_key_from_groups, VersionKey};

fn key(major: u32, minor: u32, patch: u32) -> VersionKey {
    VersionKey { major, minor, patch }
}

fn groups(items: &[Option<&str>]) -> Option<Vec<Option<String>>> {
    Some(items.iter().map(|item| item.map(|text| text.to_string())).collect())
}

#[test]
fn three_numbers_make_the_key() {
    assert_eq!(version_key("3.11.4"), key(3, 11, 4));
    assert_eq!(version_key("2.7.18"), key(2, 7, 18));
}

#[test]
fn missing_numbers_count_as_zero() {
    assert_eq!(version_key("3.9"), key(3, 9, 0));
    assert_eq!(version_key("3"), key(3, 0, 0));
    assert_eq!(version_key("3."), key(3, 0, 0));
    assert_eq!(version_key("3.x"), key(3, 0, 0));
}

#[test]
fn what_follows_the_version_is_left_out() {
    assert_eq!(version_key("3.9.1-win32"), key(3, 9, 1));
    assert_eq!(version_key("3.9.1-amd64"), key(3, 9, 1));
    assert_eq!(version_key("3.9.1.5"), key(3, 9, 1));
    assert_eq!(version_key("3.10.0rc1"), key(3, 10, 0));
}

#[test]
fn name_without_leading_digits_has_the_zero_key() {
    assert_eq!(version_key("shims"), key(0, 0, 0));
    assert_eq!(version_key("pypy3.9"), key(0, 0, 0));
    assert_eq!(version_key(""), key(0, 0, 0));
    assert_eq!(version_key(".3"), key(0, 0, 0));
}

#[test]
fn number_beyond_32_bits_gives_the_zero_key() {
    assert_eq!(version_key("4294967295.1"), key(4294967295, 1, 0));
    assert_eq!(version_key("4294967296.1"), key(0, 0, 0));
    assert_eq!(version_key("3.99999999999"), key(0, 0, 0));
}

#[test]
fn digits_outside_ascii_give_the_zero_key() {
    assert_eq!(version_key("٣.٩"), key(0, 0, 0));
}

#[test]
fn key_is_read_from_captured_groups() {
    let found = groups(&[Some("3.11"), Some("3"), Some("11"), None]);
    assert_eq!(version_key_from_groups(&found), key(3, 11, 0));
    let found = groups(&[Some("3.11.4"), Some("3"), Some("11"), Some("4")]);
    assert_eq!(version_key_from_groups(&found), key(3, 11, 4));
}

#[test]
fn groups_without_a_number_give_the_zero_key() {
    assert_eq!(version_key_from_groups(&None), key(0, 0, 0));
    assert_eq!(version_key_from_groups(&Some(Vec::new())), key(0, 0, 0));
    assert_eq!(version_key_from_groups(&groups(&[Some("3")])), key(0, 0, 0));
    assert_eq!(version_key_from_groups(&groups(&[Some("x"), None, None, None])), key(0, 0, 0));
    assert_eq!(version_key_from_groups(&groups(&[Some("x"), Some("3"), Some("y")])), key(0, 0, 0));
    let four = groups(&[Some("x"), Some("1"), Some("2"), Some("3"), Some("4")]);
    assert_eq!(version_key_from_groups(&four), key(0, 0, 0));
}

#[test]
fn whole_match_is_no_number_of_the_key() {
    assert_eq!(version_key_from_groups(&groups(&[Some("9"), Some("3")])), key(3, 0, 0));
}
