//! Where the server's binary is found for an editor that installs it: the
//! name of the release asset for a platform, and the place of the binary
//! within what was unpacked.

use vstd::prelude::*;

verus! {

/// An operating system that releases are built for.
#[derive(Debug, Clone, Copy, PartialEq, Eq, Structural)]
pub enum Os {
    Mac,
    Linux,
    Windows,
}

/// A processor architecture that releases are built for.
#[derive(Debug, Clone, Copy, PartialEq, Eq, Structural)]
pub enum Architecture {
    Aarch64,
    X86,
    X8664,
}

/// The form in which a release asset is packed.
#[derive(Debug, Clone, Copy, PartialEq, Eq, Structural)]
pub enum Archive {
    GzipTar,
    Zip,
}

/// The word for an architecture in the name of a release. There are no
/// releases for 32-bit x86; it is served the 64-bit one.
pub open spec fn arch_word(architecture: Architecture) -> Seq<char> {
    match architecture {
        Architecture::Aarch64 => "aarch64"@,
        Architecture::X86 => "x86_64"@,
        Architecture::X8664 => "x86_64"@,
    }
}

/// The word for an operating system in the name of a release.
pub open spec fn os_word(os: Os) -> Seq<char> {
    match os {
        Os::Mac => "apple-darwin"@,
        Os::Linux => "unknown-linux-gnu"@,
        Os::Windows => "pc-windows-msvc"@,
    }
}

/// The form in which releases for an operating system are packed.
pub open spec fn archive_of(os: Os) -> Archive {
    match os {
        Os::Windows => Archive::Zip,
        _ => Archive::GzipTar,
    }
}

/// The extension of a packed release.
pub open spec fn archive_extension(archive: Archive) -> Seq<char> {
    match archive {
        Archive::Zip => "zip"@,
        Archive::GzipTar => "tar.gz"@,
    }
}

/// The directory that a version is unpacked into.
pub open spec fn version_dir_name(version: Seq<char>) -> Seq<char> {
    "env-checker-lsp-"@ + version
}

/// The name of the release asset of a version for a platform.
pub open spec fn release_name(version: Seq<char>, os: Os, architecture: Architecture) -> Seq<char> {
    version_dir_name(version) + "-"@ + arch_word(architecture) + "-"@ + os_word(os) + "."@
        + archive_extension(archive_of(os))
}

/// The place of the binary within what a release unpacks to.
pub open spec fn archive_path(os: Os, architecture: Architecture) -> Seq<char> {
    match os {
        Os::Windows => "target/"@ + arch_word(architecture)
            + "-pc-windows-msvc/release/env-checker-lsp.exe"@,
        _ => "env-checker-lsp"@,
    }
}

/// The place of the binary of a version, from the directory that
/// versions are unpacked in.
pub open spec fn binary_path_of(version: Seq<char>, os: Os, architecture: Architecture) -> Seq<char> {
    version_dir_name(version) + "/"@ + archive_path(os, architecture)
}

fn arch_str(architecture: Architecture) -> (r: &'static str)
    ensures
        r@ == arch_word(architecture),
{
    match architecture {
        Architecture::Aarch64 => "aarch64",
        Architecture::X86 => "x86_64",
        Architecture::X8664 => "x86_64",
    }
}

/// The form in which releases for an operating system are packed: a zip
/// file for Windows, a gzipped tar file for the others.
pub fn download_kind(os: Os) -> (r: Archive)
    ensures
        r == archive_of(os),
{
    match os {
        Os::Windows => Archive::Zip,
        _ => Archive::GzipTar,
    }
}

/// The directory that a version is unpacked into: see `version_dir_name`.
pub fn version_dir(version: &str) -> (r: String)
    ensures
        r@ == version_dir_name(version@),
{
    let mut r = String::from_str("env-checker-lsp-");
    r.append(version);
    r
}

/// The name of the release asset of a version for a platform: see
/// `release_name`.
pub fn binary_release_name(version: &str, platform: Os, architecture: Architecture) -> (r: String)
    ensures
        r@ == release_name(version@, platform, architecture),
{
    let mut r = version_dir(version);
    r.append("-");
    r.append(arch_str(architecture));
    r.append("-");
    r.append(
        match platform {
            Os::Mac => "apple-darwin",
            Os::Linux => "unknown-linux-gnu",
            Os::Windows => "pc-windows-msvc",
        },
    );
    r.append(".");
    r.append(
        match platform {
            Os::Windows => "zip",
            _ => "tar.gz",
        },
    );
    assert(r@ =~= release_name(version@, platform, architecture));
    r
}

/// The place of the binary within what a release unpacks to: see
/// `archive_path`.
pub fn binary_path_within_archive(platform: Os, architecture: Architecture) -> (r: String)
    ensures
        r@ == archive_path(platform, architecture),
{
    match platform {
        Os::Windows => {
            let mut r = String::from_str("target/");
            r.append(arch_str(architecture));
            r.append("-pc-windows-msvc/release/env-checker-lsp.exe");
            r
        },
        _ => String::from_str("env-checker-lsp"),
    }
}

/// The place of the binary of a version: see `binary_path_of`.
pub fn binary_path(version: &str, platform: Os, architecture: Architecture) -> (r: String)
    ensures
        r@ == binary_path_of(version@, platform, architecture),
{
    let mut r = version_dir(version);
    r.append("/");
    r.append(binary_path_within_archive(platform, architecture).as_str());
    assert(r@ =~= binary_path_of(version@, platform, architecture));
    r
}

/// Whether an entry of the directory that versions are unpacked in is
/// to be removed when `version_to_keep` has been installed: every entry
/// but the directory of that version.
pub fn is_other_installation(entry_name: &str, version_to_keep: &str) -> (r: bool)
    ensures
        r == (entry_name@ != version_to_keep@),
{
    let a = String::from_str(entry_name);
    let b = String::from_str(version_to_keep);
    a != b
}

} // verus!
