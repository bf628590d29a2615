use needs::binary::Binary;
use needs::discovery::{detect_package_manager, partition_binaries};

#[test]
fn test_detect_package_manager() {
    // rustup / cargo
    assert_eq!(
        detect_package_manager("/home/user/.cargo/bin/cargo"),
        Some("rustup".to_string())
    );
    assert_eq!(
        detect_package_manager("/home/user/.rustup/toolchains/stable/bin/rustc"),
        Some("rustup".to_string())
    );

    // system packages
    assert_eq!(detect_package_manager("/usr/bin/grep"), Some("system".to_string()));
    assert_eq!(detect_package_manager("/bin/ls"), Some("system".to_string()));

    // homebrew
    assert_eq!(detect_package_manager("/opt/homebrew/bin/brew"), Some("homebrew".to_string()));

    // npm
    assert_eq!(
        detect_package_manager("/usr/local/lib/node_modules/.bin/npm"),
        Some("npm".to_string())
    );

    // go
    assert_eq!(detect_package_manager("/home/user/go/bin/gofmt"), Some("go".to_string()));

    // pip
    assert_eq!(detect_package_manager("/home/user/.local/bin/pip"), Some("pip".to_string()));

    // unknown
    assert_eq!(detect_package_manager("/some/unknown/path/binary"), None);
}

#[test]
fn test_partition_binaries() {
    let cargo_exists = which::which("cargo").is_ok();

    let mut bins_to_check = vec![Binary::new("hopefully_non_existent_binary_dsfargeg".to_string())];
    if cargo_exists {
        bins_to_check.push(Binary::new("cargo".to_string()));
    }

    let result = partition_binaries(bins_to_check);
    assert!(result.is_ok(), "partition_binaries should not fail with valid input");

    let (available, not_available) = result.unwrap();

    if cargo_exists {
        assert_eq!(available.len(), 1);
        assert_eq!(available[0].name, "cargo");
        assert!(available[0].package_manager.is_some());
        assert_eq!(available[0].package_manager.as_ref().unwrap(), "rustup");
        assert_eq!(not_available.len(), 1);
        assert_eq!(not_available[0].name, "hopefully_non_existent_binary_dsfargeg");
    } else {
        assert_eq!(available.len(), 0);
        assert_eq!(not_available.len(), 1);
        assert_eq!(not_available[0].name, "hopefully_non_existent_binary_dsfargeg");
    }
}

#[test]
fn test_partition_binaries_empty() {
    let result = partition_binaries(vec![]);
    assert!(result.is_err(), "partition_binaries should fail with empty input");
    if let Err(err) = result {
        let err_string = err.code();
        println!("Error string: {}", err_string);
        assert!(err_string.contains("needs::discovery::no_binaries"));
    }
}

#[test]
fn test_detect_remaining_tags() {
    assert_eq!(detect_package_manager("/snap/bin/tool"), Some("snap".to_string()));
    assert_eq!(
        detect_package_manager("/var/lib/flatpak/exports/bin/tool"),
        Some("flatpak".to_string())
    );
    assert_eq!(detect_package_manager("/home/user/apps/Tool.AppImage"), Some("appimage".to_string()));
    assert_eq!(detect_package_manager("/usr/sbin/service"), Some("system".to_string()));
    assert_eq!(detect_package_manager("/usr/local/homebrew/bin/rg"), Some("homebrew".to_string()));
    assert_eq!(detect_package_manager("/opt/homebrew/bin/rg"), Some("homebrew".to_string()));
}

#[test]
fn test_detect_rule_order_specific_beats_system() {
    // a path under /usr/local that names homebrew is classified before the
    // generic system rule can claim it
    assert_eq!(detect_package_manager("/usr/local/Cellar/rg/bin/rg"), Some("homebrew".to_string()));
}
