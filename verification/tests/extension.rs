use pubspec_lsp::extension::{
    asset_name, binary_path, find_asset, is_stale_entry, release_target, version_dir,
    Architecture, Os,
};

#[test]
fn release_targets_per_platform() {
    assert_eq!(release_target(Os::Mac, Architecture::Aarch64), "aarch64-apple-darwin");
    assert_eq!(release_target(Os::Mac, Architecture::X8664), "x86_64-apple-darwin");
    assert_eq!(release_target(Os::Linux, Architecture::Aarch64), "aarch64-unknown-linux-musl");
    assert_eq!(release_target(Os::Linux, Architecture::X86), "x86_64-unknown-linux-musl");
    assert_eq!(release_target(Os::Windows, Architecture::Aarch64), "x86_64-pc-windows-msvc");
}

#[test]
fn asset_names_and_paths() {
    assert_eq!(
        asset_name(Os::Linux, Architecture::X8664),
        "pubspec-language-server-x86_64-unknown-linux-musl.tar.gz"
    );
    assert_eq!(
        asset_name(Os::Windows, Architecture::X8664),
        "pubspec-language-server-x86_64-pc-windows-msvc.zip"
    );
    assert_eq!(version_dir("v0.3.1"), "pubspec-language-server-v0.3.1");
    assert_eq!(
        binary_path(Os::Mac, "v0.3.1"),
        "pubspec-language-server-v0.3.1/pubspec-language-server"
    );
    assert_eq!(
        binary_path(Os::Windows, "v0.3.1"),
        "pubspec-language-server-v0.3.1/pubspec-language-server.exe"
    );
}

#[test]
fn finds_the_asset_by_name() {
    let names: Vec<String> = ["a.zip", "b.tar.gz", "a.zip"].into_iter().map(String::from).collect();
    assert_eq!(find_asset(&names, "a.zip"), Some(0));
    assert_eq!(find_asset(&names, "b.tar.gz"), Some(1));
    assert_eq!(find_asset(&names, "c"), None);
}

#[test]
fn only_the_current_release_directory_is_kept() {
    assert!(!is_stale_entry("pubspec-language-server-v1", "pubspec-language-server-v1"));
    assert!(is_stale_entry("pubspec-language-server-v0", "pubspec-language-server-v1"));
}

use pubspec_lsp::extension::{release_plan, resolve_binary, BinarySource};

#[test]
fn binary_resolution_order() {
    assert_eq!(
        resolve_binary(Some("/s/bin"), Some("/p/bin"), Some("/c/bin"), true),
        BinarySource::Settings("/s/bin".to_string())
    );
    assert_eq!(
        resolve_binary(None, Some("/p/bin"), Some("/c/bin"), true),
        BinarySource::OnPath("/p/bin".to_string())
    );
    assert_eq!(
        resolve_binary(None, None, Some("/c/bin"), true),
        BinarySource::Cached("/c/bin".to_string())
    );
    assert_eq!(resolve_binary(None, None, Some("/c/bin"), false), BinarySource::Release);
    assert_eq!(resolve_binary(None, None, None, false), BinarySource::Release);
}

#[test]
fn release_plan_picks_the_platform_archive() {
    let names = vec![
        "pubspec-language-server-x86_64-pc-windows-msvc.zip".to_string(),
        "pubspec-language-server-aarch64-apple-darwin.tar.gz".to_string(),
    ];
    assert_eq!(
        release_plan(Os::Mac, Architecture::Aarch64, "v1.2.0", &names, false),
        Ok((1, "pubspec-language-server-v1.2.0/pubspec-language-server".to_string(), true))
    );
    assert_eq!(
        release_plan(Os::Windows, Architecture::X8664, "v1.2.0", &names, true),
        Ok((0, "pubspec-language-server-v1.2.0/pubspec-language-server.exe".to_string(), false))
    );
    assert_eq!(
        release_plan(Os::Linux, Architecture::X8664, "v1.2.0", &names, false),
        Err("release v1.2.0 has no asset pubspec-language-server-x86_64-unknown-linux-musl.tar.gz"
            .to_string())
    );
}
