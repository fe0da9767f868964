use gcloud_plugin::aggregate;
use gcloud_plugin::VersionSet;

#[test]
fn aggregation_deduplicates_repeated_filenames() {
    let filenames = vec![
        "google-cloud-cli-371.0.0-darwin-arm.tar.gz".to_string(),
        "google-cloud-cli-371.0.0-darwin-arm.tar.gz".to_string(),
    ];
    let set = aggregate(&filenames);
    assert_eq!(set.len(), 1);
    assert!(set.contains(&"371.0.0".to_string()));
}

#[test]
fn aggregation_gathers_distinct_versions_and_skips_rejects() {
    let filenames = vec![
        "google-cloud-cli-371.0.0-darwin-arm.tar.gz".to_string(),
        "google-cloud-cli-371.0.0-linux-x86.tar.gz".to_string(),
        "google-cloud-cli-383.0.1-linux-x86.tar.gz".to_string(),
        "google-cloud-cli-invalid-version-darwin-arm.tar.gz".to_string(),
        "not-gcloud-cli-400.0.0-linux-x86.tar.gz".to_string(),
        "".to_string(),
    ];
    let set = aggregate(&filenames);
    assert_eq!(set.len(), 2);
    assert!(set.contains(&"371.0.0".to_string()));
    assert!(set.contains(&"383.0.1".to_string()));
    assert!(!set.contains(&"400.0.0".to_string()));
}

#[test]
fn aggregation_order_does_not_change_contents() {
    let forwards = vec![
        "google-cloud-cli-371.0.0-darwin-arm.tar.gz".to_string(),
        "google-cloud-cli-383.0.1-linux-x86.tar.gz".to_string(),
    ];
    let backwards = vec![
        "google-cloud-cli-383.0.1-linux-x86.tar.gz".to_string(),
        "google-cloud-cli-371.0.0-darwin-arm.tar.gz".to_string(),
    ];
    let a = aggregate(&forwards);
    let b = aggregate(&backwards);
    assert_eq!(a.len(), b.len());
    assert!(a.contains(&"371.0.0".to_string()) && b.contains(&"371.0.0".to_string()));
    assert!(a.contains(&"383.0.1".to_string()) && b.contains(&"383.0.1".to_string()));
}

#[test]
fn version_set_insert_absorbs_duplicates() {
    let mut set = VersionSet::new();
    assert_eq!(set.len(), 0);
    set.insert("469.0.0".to_string());
    set.insert("469.0.0".to_string());
    set.insert("470.0.0".to_string());
    assert_eq!(set.len(), 2);
    let versions = set.into_versions();
    assert_eq!(versions.len(), 2);
    assert!(versions.contains(&"469.0.0".to_string()));
    assert!(versions.contains(&"470.0.0".to_string()));
}
