use gcloud_plugin::GcloudPluginConfig;
use gcloud_plugin::resolve::HostArch;
use gcloud_plugin::resolve::HostOs;
use gcloud_plugin::resolve::ResolveError;
use gcloud_plugin::resolve::check_version_for_os_and_arch;
use gcloud_plugin::resolve::replace_literal;
use gcloud_plugin::resolve::resolve_download_url;

#[test]
fn resolves_default_template_for_linux_x86() {
    let config = GcloudPluginConfig::default();
    let url = resolve_download_url(&config.dist_url, "383.0.1", HostOs::Linux, HostArch::X86)
        .unwrap();
    assert_eq!(
        url,
        "https://storage.googleapis.com/storage/v1/b/cloud-sdk-release/o/google-cloud-cli-383.0.1-linux-x86_64.tar.gz?alt=media"
    );
}

#[test]
fn resolves_default_template_for_macos_x64() {
    let config = GcloudPluginConfig::default();
    let url = resolve_download_url(&config.dist_url, "469.0.0", HostOs::MacOS, HostArch::X64)
        .unwrap();
    assert_eq!(
        url,
        "https://storage.googleapis.com/storage/v1/b/cloud-sdk-release/o/google-cloud-cli-469.0.0-darwin-x64.tar.gz?alt=media"
    );
}

#[test]
fn substitution_replaces_every_placeholder() {
    let config = GcloudPluginConfig::default();
    let url = resolve_download_url(&config.dist_url, "371.0.0", HostOs::Windows, HostArch::Arm)
        .unwrap();
    assert!(!url.contains("{version}"));
    assert!(!url.contains("{platform}"));
    assert!(!url.contains("{arch}"));
    assert!(!url.contains("{ext}"));
    assert!(!url.contains('{'));
    assert!(url.contains("371.0.0"));
    assert!(url.contains("windows"));
    assert!(url.contains("arm"));
}

#[test]
fn arm_flavours_resolve_identically() {
    let config = GcloudPluginConfig::default();
    let arm = resolve_download_url(&config.dist_url, "465.0.0", HostOs::Linux, HostArch::Arm)
        .unwrap();
    let arm64 = resolve_download_url(&config.dist_url, "465.0.0", HostOs::Linux, HostArch::Arm64)
        .unwrap();
    assert_eq!(arm, arm64);
    assert!(arm.contains("-arm."));
}

#[test]
fn windows_takes_zip_other_platforms_take_tar_gz() {
    let config = GcloudPluginConfig::default();
    let windows = resolve_download_url(&config.dist_url, "466.0.0", HostOs::Windows, HostArch::X86)
        .unwrap();
    assert!(windows.ends_with(".zip?alt=media"));
    let linux = resolve_download_url(&config.dist_url, "466.0.0", HostOs::Linux, HostArch::X86)
        .unwrap();
    assert!(linux.ends_with(".tar.gz?alt=media"));
    let macos = resolve_download_url(&config.dist_url, "466.0.0", HostOs::MacOS, HostArch::X86)
        .unwrap();
    assert!(macos.ends_with(".tar.gz?alt=media"));
}

#[test]
fn unsupported_os_is_rejected() {
    let config = GcloudPluginConfig::default();
    assert_eq!(
        resolve_download_url(&config.dist_url, "371.0.0", HostOs::Other, HostArch::X64),
        Err(ResolveError::UnsupportedOs)
    );
    assert_eq!(
        check_version_for_os_and_arch(HostOs::Other, HostArch::Other),
        Err(ResolveError::UnsupportedOs)
    );
}

#[test]
fn unsupported_arch_is_rejected() {
    let config = GcloudPluginConfig::default();
    assert_eq!(
        resolve_download_url(&config.dist_url, "371.0.0", HostOs::Linux, HostArch::Other),
        Err(ResolveError::UnsupportedArch)
    );
    assert_eq!(check_version_for_os_and_arch(HostOs::Linux, HostArch::Arm), Ok(()));
}

#[test]
fn replace_literal_substitutes_every_occurrence() {
    let replaced = replace_literal("a-{x}-b-{x}-c", "{x}", "1.2");
    assert_eq!(replaced, "a-1.2-b-1.2-c");
    let untouched = replace_literal("nothing here", "{x}", "1.2");
    assert_eq!(untouched, "nothing here");
}
