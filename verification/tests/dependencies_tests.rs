use balamod::dependencies::{
    balamod_version_exists, balamod_version_url, check_version, get_balalib_name, get_balalib_url,
    get_balatro_path, get_tar_file_name, get_tar_url, multiple_balatros_found, PathChoice,
    PickError,
};
use balamod::platform::TargetOs;

#[test]
fn archive_and_library_names() {
    assert_eq!(get_tar_file_name(true, TargetOs::Linux), "balamod-linux-native.tar.gz");
    assert_eq!(get_tar_file_name(false, TargetOs::Linux), "balamod-linux-proton.tar.gz");
    assert_eq!(get_tar_file_name(false, TargetOs::Windows), "balamod-windows.tar.gz");
    assert_eq!(get_tar_file_name(true, TargetOs::MacOs), "balamod-macos.tar.gz");
    assert_eq!(get_balalib_name(true, TargetOs::Linux), "balalib.so");
    assert_eq!(get_balalib_name(false, TargetOs::Linux), "balalib.dll");
    assert_eq!(get_balalib_name(false, TargetOs::Windows), "balalib.dll");
    assert_eq!(get_balalib_name(false, TargetOs::MacOs), "balalib.dylib");
}

#[test]
fn download_urls() {
    assert_eq!(
        get_tar_url(Some("v1.2"), true, TargetOs::Linux),
        "https://github.com/balamod/balamod_lua/releases/download/v1.2/balamod-linux-native.tar.gz"
    );
    assert_eq!(
        get_tar_url(None, false, TargetOs::Windows),
        "https://github.com/balamod/balamod_lua/releases/latest/download/balamod-windows.tar.gz"
    );
    assert_eq!(
        get_balalib_url(Some("0.1"), false, TargetOs::MacOs),
        "https://github.com/balamod/balalib/releases/download/0.1/balamod-macos.tar.gz"
    );
    assert_eq!(
        get_balalib_url(None, false, TargetOs::Linux),
        "https://github.com/balamod/balalib/releases/latest/download/balamod-linux-proton.tar.gz"
    );
    assert_eq!(
        balamod_version_url("0.2", false, TargetOs::Windows),
        "https://github.com/balamod/balamod_lua/releases/download/0.2balamod-windows.tar.gz"
    );
}

#[test]
fn version_exists_unless_not_found() {
    assert!(balamod_version_exists(200));
    assert!(balamod_version_exists(302));
    assert!(balamod_version_exists(500));
    assert!(!balamod_version_exists(404));
}

#[test]
fn given_path_wins() {
    let found = vec!["/a".to_string(), "/b".to_string()];
    assert!(matches!(get_balatro_path(Some("/c"), &found), PathChoice::Given("/c")));
}

#[test]
fn single_installation_is_default() {
    let found = vec!["/steam/Balatro".to_string()];
    match get_balatro_path(None, &found) {
        PathChoice::Single(p) => assert_eq!(p, "/steam/Balatro"),
        _ => panic!("expected the single installation"),
    }
}

#[test]
fn none_found_and_several_found() {
    let none: Vec<String> = Vec::new();
    assert!(matches!(get_balatro_path(None, &none), PathChoice::NotFound));
    let two = vec!["/a".to_string(), "/b".to_string()];
    assert!(matches!(get_balatro_path(None, &two), PathChoice::Ask));
}

#[test]
fn picking_among_installations() {
    let found = vec!["/a".to_string(), "/b".to_string(), "/c".to_string()];
    assert_eq!(multiple_balatros_found("2\n", &found), Ok(&found[1]));
    assert_eq!(multiple_balatros_found(" +3 \r\n", &found), Ok(&found[2]));
    assert_eq!(multiple_balatros_found("1", &found), Ok(&found[0]));
    assert_eq!(multiple_balatros_found("0\n", &found), Err(PickError::OutOfRange));
    assert_eq!(multiple_balatros_found("4\n", &found), Err(PickError::OutOfRange));
    assert_eq!(multiple_balatros_found("two\n", &found), Err(PickError::NotANumber));
    assert_eq!(multiple_balatros_found("\n", &found), Err(PickError::NotANumber));
    assert_eq!(multiple_balatros_found("-1", &found), Err(PickError::NotANumber));
}

#[test]
fn version_check_before_install() {
    assert!(check_version(None, true, TargetOs::Linux).is_none());
    let p = check_version(Some("0.3"), true, TargetOs::Linux).unwrap();
    assert_eq!(p.label, "v0.3");
    assert_eq!(p.url, "https://github.com/balamod/balamod_lua/releases/download/0.3balamod-linux-native.tar.gz");
}
