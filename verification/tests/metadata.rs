use spu::config::ValidationError;
use spu::metadata::{parse_version, version_text, PackageMetadata, Version};
use spu::repository::{name_address, priority_line, PushReport, Repository, DEFAULT_PRIORITY};
use spu::text::push_decimal;

fn version(major: u64, minor: u64, patch: u64, pre: Option<&str>) -> Version {
    Version { major, minor, patch, pre_release: pre.map(|s| s.to_string()) }
}

#[test]
fn a_plain_version_is_three_numbers() {
    assert_eq!(parse_version("1.2.3"), Some(version(1, 2, 3, None)));
    assert_eq!(parse_version("0.0.0"), Some(version(0, 0, 0, None)));
    assert_eq!(parse_version("10.20.305"), Some(version(10, 20, 305, None)));
}

#[test]
fn a_pre_release_tag_follows_the_first_hyphen() {
    assert_eq!(parse_version("1.2.3-beta"), Some(version(1, 2, 3, Some("beta"))));
    assert_eq!(parse_version("1.0.0-alpha.1"), Some(version(1, 0, 0, Some("alpha.1"))));
    assert_eq!(parse_version("1.0.0-rc-2"), Some(version(1, 0, 0, Some("rc-2"))));
}

#[test]
fn what_is_no_version_is_refused() {
    for text in [
        "", "1", "1.2", "1.2.", ".1.2", "1..2", "1.2.3.4", "1.2.3-", "a.b.c", "1.2.x", "01.2.3",
        "1.02.3", "1.2.03", "-1.2.3", "1.2.3 ", " 1.2.3", "1,2,3", "1.2-3", "+1.2.3",
    ] {
        assert_eq!(parse_version(text), None, "{:?}", text);
    }
}

#[test]
fn components_must_fit_sixty_four_bits() {
    assert_eq!(
        parse_version("18446744073709551615.0.1"),
        Some(version(u64::MAX, 0, 1, None))
    );
    assert_eq!(parse_version("18446744073709551616.0.1"), None);
    assert_eq!(parse_version("1.99999999999999999999999.1"), None);
}

#[test]
fn a_version_is_written_as_it_is_read() {
    assert_eq!(version_text(&version(1, 2, 3, None)), "1.2.3");
    assert_eq!(version_text(&version(0, 10, 0, Some("rc.1"))), "0.10.0-rc.1");
    for text in ["1.2.3", "0.0.0", "12.0.7-beta", "3.4.5-a-b.c"] {
        assert_eq!(version_text(&parse_version(text).unwrap()), text);
    }
}

#[test]
fn numbers_are_written_in_decimal() {
    for n in [0u64, 1, 9, 10, 11, 99, 100, 101, 1234567890, u64::MAX] {
        let mut text = "n=".to_string();
        push_decimal(&mut text, n);
        assert_eq!(text, format!("n={}", n));
    }
}

#[test]
fn a_package_without_description_is_described_by_its_name() {
    let plain = PackageMetadata::new("tool".to_string(), version(1, 0, 0, None), None);
    assert_eq!(plain.name, "tool");
    assert_eq!(plain.description, "tool");
    assert_eq!(plain.version, version(1, 0, 0, None));
    let described = PackageMetadata::new(
        "tool".to_string(),
        version(1, 0, 0, None),
        Some("A tool.".to_string()),
    );
    assert_eq!(described.description, "A tool.");
}

#[test]
fn a_push_reports_both_addresses() {
    let repository = Repository {
        name: "main".to_string(),
        key: "k51abc".to_string(),
        reference: "/ipns/k51abc".to_string(),
    };
    let same = repository.push_report("/ipns/k51abc".to_string());
    assert_eq!(
        same,
        PushReport { reference: "/ipns/k51abc".to_string(), resolved: "/ipns/k51abc".to_string() }
    );
    assert!(!same.moved());
    let other = repository.push_report("/ipns/k51xyz".to_string());
    assert_eq!(other.reference, "/ipns/k51abc");
    assert_eq!(other.resolved, "/ipns/k51xyz");
    assert!(other.moved());
}

#[test]
fn a_key_resolves_under_its_name() {
    assert_eq!(name_address("k51abc"), "/ipns/k51abc");
    assert_eq!(name_address(""), "/ipns/");
}

#[test]
fn a_repository_is_added_with_the_default_priority() {
    assert_eq!(DEFAULT_PRIORITY, 10);
    assert_eq!(priority_line("k51abc", DEFAULT_PRIORITY), "k51abc = 10\n");
    assert_eq!(priority_line("r", 0), "r = 0\n");
}

fn given(text: &str) -> Option<String> {
    Some(text.to_string())
}

fn missing(field: &str) -> ValidationError {
    ValidationError::MissingField(field.to_string())
}

#[test]
fn metadata_needs_a_name_and_a_version() {
    let metadata = PackageMetadata::from_document(given("tool"), given("1.2.3-rc1"), None).unwrap();
    assert_eq!(metadata.name, "tool");
    assert_eq!(metadata.version, version(1, 2, 3, Some("rc1")));
    assert_eq!(metadata.description, "tool");
    let described =
        PackageMetadata::from_document(given("tool"), given("1.2.3"), given("A tool.")).unwrap();
    assert_eq!(described.description, "A tool.");
    assert_eq!(PackageMetadata::from_document(None, given("1.2.3"), None), Err(missing("name")));
    assert_eq!(PackageMetadata::from_document(given(""), None, None), Err(missing("name")));
    assert_eq!(PackageMetadata::from_document(given("tool"), None, None), Err(missing("version")));
    assert_eq!(PackageMetadata::from_document(given("tool"), given(""), None), Err(missing("version")));
}

#[test]
fn metadata_with_a_bad_version_is_refused() {
    assert_eq!(
        PackageMetadata::from_document(given("tool"), given("1.2"), None),
        Err(ValidationError::BadVersion("1.2".to_string()))
    );
}

#[test]
fn a_repository_needs_name_key_and_reference() {
    let repository =
        Repository::from_document(given("main"), given("k51abc"), given("/ipns/k51abc")).unwrap();
    assert_eq!(
        repository,
        Repository {
            name: "main".to_string(),
            key: "k51abc".to_string(),
            reference: "/ipns/k51abc".to_string(),
        }
    );
    assert_eq!(Repository::from_document(None, None, None), Err(missing("name")));
    assert_eq!(Repository::from_document(given("main"), given(""), None), Err(missing("key")));
    assert_eq!(
        Repository::from_document(given("main"), given("k"), None),
        Err(missing("reference"))
    );
}
