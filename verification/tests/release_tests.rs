use env_checker::release::{
    binary_path, binary_path_within_archive, binary_release_name, download_kind,
    is_other_installation, version_dir, Archive, Architecture, Os,
};

#[test]
fn release_names() {
    assert_eq!(
        binary_release_name("v1.2.3", Os::Linux, Architecture::X8664),
        "env-checker-lsp-v1.2.3-x86_64-unknown-linux-gnu.tar.gz"
    );
    assert_eq!(
        binary_release_name("v1.2.3", Os::Mac, Architecture::Aarch64),
        "env-checker-lsp-v1.2.3-aarch64-apple-darwin.tar.gz"
    );
    assert_eq!(
        binary_release_name("0.1.0", Os::Windows, Architecture::X86),
        "env-checker-lsp-0.1.0-x86_64-pc-windows-msvc.zip"
    );
    assert_eq!(
        binary_release_name("", Os::Windows, Architecture::Aarch64),
        "env-checker-lsp--aarch64-pc-windows-msvc.zip"
    );
}

#[test]
fn places_within_the_archive() {
    assert_eq!(binary_path_within_archive(Os::Linux, Architecture::X8664), "env-checker-lsp");
    assert_eq!(binary_path_within_archive(Os::Mac, Architecture::Aarch64), "env-checker-lsp");
    assert_eq!(
        binary_path_within_archive(Os::Windows, Architecture::X8664),
        "target/x86_64-pc-windows-msvc/release/env-checker-lsp.exe"
    );
    assert_eq!(
        binary_path_within_archive(Os::Windows, Architecture::Aarch64),
        "target/aarch64-pc-windows-msvc/release/env-checker-lsp.exe"
    );
}

#[test]
fn places_of_the_binary() {
    assert_eq!(version_dir("v2"), "env-checker-lsp-v2");
    assert_eq!(binary_path("v2", Os::Linux, Architecture::Aarch64), "env-checker-lsp-v2/env-checker-lsp");
    assert_eq!(
        binary_path("v2", Os::Windows, Architecture::X86),
        "env-checker-lsp-v2/target/x86_64-pc-windows-msvc/release/env-checker-lsp.exe"
    );
}

#[test]
fn archives_by_platform() {
    assert_eq!(download_kind(Os::Windows), Archive::Zip);
    assert_eq!(download_kind(Os::Linux), Archive::GzipTar);
    assert_eq!(download_kind(Os::Mac), Archive::GzipTar);
}

#[test]
fn other_installations() {
    assert!(is_other_installation("env-checker-lsp-v1", "env-checker-lsp-v2"));
    assert!(!is_other_installation("env-checker-lsp-v2", "env-checker-lsp-v2"));
    assert!(is_other_installation("", "env-checker-lsp-v2"));
}
