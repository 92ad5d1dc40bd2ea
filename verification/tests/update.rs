use firemark::update::{is_newer, latest_version, update_notice, version_of_tag};

#[test]
fn test_is_newer() {
    assert!(is_newer("0.2.0", "0.1.1"));
    assert!(is_newer("0.1.2", "0.1.1"));
    assert!(is_newer("1.0.0", "0.9.9"));
    assert!(!is_newer("0.1.1", "0.1.1"));
    assert!(!is_newer("0.1.0", "0.1.1"));
}

#[test]
fn missing_and_malformed_parts_count_as_zero() {
    assert!(!is_newer("1", "1.0.0"));
    assert!(!is_newer("1.0.0", "1"));
    assert!(is_newer("1.x.2", "1.1.9"));
    assert!(is_newer("0.10.0", "0.9.9"));
    assert!(is_newer("+1.0.0", "0.9.0"));
    assert!(!is_newer("", "0.0.0"));
    assert!(!is_newer("99999999999.0.0", "0.0.0"));
}

#[test]
fn newer_is_a_strict_order_on_examples() {
    let versions = ["0.1.0", "0.1.1", "0.2.0", "1.0.0", "1", "v2.0.0", ""];
    for a in versions {
        assert!(!is_newer(a, a));
        for b in versions {
            assert!(!(is_newer(a, b) && is_newer(b, a)));
            for c in versions {
                if is_newer(a, b) && is_newer(b, c) {
                    assert!(is_newer(a, c));
                }
            }
        }
    }
}

#[test]
fn notice_only_for_newer_release() {
    assert_eq!(update_notice("0.1.4", "0.1.4"), None);
    assert_eq!(update_notice("0.1.3", "0.1.4"), None);
    assert_eq!(
        update_notice("0.2.0", "0.1.4").as_deref(),
        Some(
            "\n  firemark v0.2.0 is available (you have v0.1.4).\n  Update:  curl -fsSL https://raw.githubusercontent.com/Vitruves/firemark/main/install.sh | sh\n"
        )
    );
}

#[test]
fn release_tag_loses_leading_v() {
    assert_eq!(
        latest_version(r#"{"tag_name": "v0.1.4", "name": "Release"}"#).as_deref(),
        Some("0.1.4")
    );
    assert_eq!(latest_version(r#"{"tag_name": "vv1.2"}"#).as_deref(), Some("1.2"));
    assert_eq!(latest_version(r#"{"tag_name": "2.0.0"}"#).as_deref(), Some("2.0.0"));
    assert_eq!(latest_version(r#"{"tag_name": 3}"#), None);
    assert_eq!(latest_version(r#"{"name": "v1.0.0"}"#), None);
    assert_eq!(latest_version("not json"), None);
}

#[test]
fn tags_lose_their_leading_vs() {
    assert_eq!(version_of_tag("v0.1.4"), "0.1.4");
    assert_eq!(version_of_tag("vvv2"), "2");
    assert_eq!(version_of_tag("1.0.v"), "1.0.v");
    assert_eq!(version_of_tag("v"), "");
    assert_eq!(version_of_tag(""), "");
}
