use std::io::{Cursor, Read, Write};

use balamod::archive::{
    compress_file, extracted_dir_name, find_zip_start, get_all_files, get_file_data, get_version,
    read_version_line, replace_file, tar_rename_paths, ArchiveError,
};
use balamod::platform::TargetOs;

fn make_zip(entries: &[(&str, &[u8])]) -> Vec<u8> {
    let mut w = zip::ZipWriter::new(Cursor::new(Vec::new()));
    for (name, data) in entries {
        w.start_file(*name, zip::write::SimpleFileOptions::default()).unwrap();
        w.write_all(data).unwrap();
    }
    w.finish().unwrap().into_inner()
}

fn names_of(data: &[u8]) -> Vec<String> {
    let a = zip::ZipArchive::new(Cursor::new(data.to_vec())).unwrap();
    a.file_names().map(|s| s.to_string()).collect()
}

fn read_entry(data: &[u8], name: &str) -> Vec<u8> {
    let mut a = zip::ZipArchive::new(Cursor::new(data.to_vec())).unwrap();
    let mut buf = Vec::new();
    a.by_name(name).unwrap().read_to_end(&mut buf).unwrap();
    buf
}

#[test]
fn zip_start_is_first_signature() {
    assert_eq!(find_zip_start(b"MZ..PK\x03\x04..PK\x03\x04"), Some(4));
    assert_eq!(find_zip_start(b"PK\x03\x04"), Some(0));
    assert_eq!(find_zip_start(b"PK\x03"), None);
    assert_eq!(find_zip_start(b""), None);
    assert_eq!(find_zip_start(b"PK\x05\x06"), None);
}

#[test]
fn lists_and_reads_entries() {
    let z = make_zip(&[("main.lua", b"print(1)"), ("version.jkr", b"1\n1.0.1f\n")]);
    assert_eq!(get_all_files(&z).unwrap(), vec!["main.lua".to_string(), "version.jkr".to_string()]);
    assert_eq!(get_file_data(&z, "main.lua").unwrap(), b"print(1)".to_vec());
    assert!(matches!(get_file_data(&z, "missing"), Err(ArchiveError::Zip(_))));
    assert!(get_all_files(b"not a zip").is_err());
}

#[test]
fn version_is_second_line() {
    let z = make_zip(&[("version.jkr", b"1\r\n1.0.1f\r\n")]);
    assert_eq!(get_version(&z).unwrap(), "1.0.1f");
    assert_eq!(read_version_line(&z).unwrap().as_deref(), Some("1.0.1f"));
    let z = make_zip(&[("version.jkr", b"only one line")]);
    assert_eq!(get_version(&z).unwrap(), "0.0.0");
    assert_eq!(read_version_line(&z).unwrap(), None);
    let z = make_zip(&[("version.jkr", b"1\n\xff\xfe")]);
    assert!(matches!(get_version(&z), Err(ArchiveError::InvalidUtf8)));
    let z = make_zip(&[("other", b"x")]);
    assert!(get_version(&z).is_err());
}

#[test]
fn replace_keeps_prefix_and_other_entries() {
    let z = make_zip(&[("a.lua", b"A"), ("DAT1.jkr", b"old"), ("b/c.png", b"png")]);
    let mut exe = b"MZ stub bytes".to_vec();
    let start = exe.len();
    exe.extend_from_slice(&z);
    let out = replace_file(&exe, "DAT1.jkr", b"new contents").unwrap();
    assert_eq!(&out[..start], &exe[..start]);
    let tail = &out[start..];
    assert_eq!(names_of(tail), vec!["a.lua", "b/c.png", "DAT1.jkr"]);
    assert_eq!(read_entry(tail, "DAT1.jkr"), b"new contents".to_vec());
    assert_eq!(read_entry(tail, "a.lua"), b"A".to_vec());
    assert_eq!(read_entry(tail, "b/c.png"), b"png".to_vec());
    assert_eq!(get_file_data(&out, "DAT1.jkr").unwrap(), b"new contents".to_vec());
}

#[test]
fn replace_twice_is_replace_once() {
    let z = make_zip(&[("a.lua", b"A"), ("DAT1.jkr", b"old")]);
    let mut exe = b"stub".to_vec();
    exe.extend_from_slice(&z);
    let once = replace_file(&exe, "DAT1.jkr", b"new").unwrap();
    let twice = replace_file(&once, "DAT1.jkr", b"new").unwrap();
    assert_eq!(names_of(&twice[4..]), names_of(&once[4..]));
    assert_eq!(read_entry(&twice[4..], "DAT1.jkr"), b"new".to_vec());
    assert_eq!(read_entry(&twice[4..], "a.lua"), b"A".to_vec());
    assert_eq!(&twice[..4], b"stub");
}

#[test]
fn replace_refuses_overlong_name() {
    let z = make_zip(&[("a.lua", b"A")]);
    let long = "x".repeat(70000);
    assert!(matches!(replace_file(&z, &long, b"x"), Err(ArchiveError::NameTooLong)));
}

#[test]
fn replace_adds_missing_entry() {
    let z = make_zip(&[("a.lua", b"A")]);
    let out = replace_file(&z, "new.txt", b"hi").unwrap();
    assert_eq!(names_of(&out), vec!["a.lua", "new.txt"]);
}

#[test]
fn replace_needs_an_archive() {
    assert!(matches!(replace_file(b"no archive here", "x", b""), Err(ArchiveError::ZipStartNotFound)));
    assert!(matches!(replace_file(b"..PK\x03\x04 broken", "x", b""), Err(ArchiveError::Zip(_))));
}

#[test]
fn compression_is_deflate() {
    let code = b"local x = 1\nreturn x\n".repeat(20);
    let packed = compress_file(&code);
    let mut expected = Vec::new();
    flate2::read::DeflateEncoder::new(&code[..], flate2::Compression::default())
        .read_to_end(&mut expected)
        .unwrap();
    assert_eq!(packed, expected);
    assert_ne!(packed, code);
    let mut back = Vec::new();
    flate2::read::DeflateDecoder::new(&packed[..]).read_to_end(&mut back).unwrap();
    assert_eq!(back, code);
}

#[test]
fn unpacked_directory() {
    assert_eq!(extracted_dir_name(true, TargetOs::Linux), "balamod-linux-native");
    assert_eq!(extracted_dir_name(false, TargetOs::Windows), "balamod-windows");
    let (from, to) = tar_rename_paths("/save", false, TargetOs::MacOs);
    assert_eq!(from.parts, vec!["/save".to_string(), "balamod-macos".to_string()]);
    assert_eq!(to.parts, vec!["/save".to_string(), "balamod".to_string()]);
}

fn method_and_raw(data: &[u8], name: &str) -> (zip::CompressionMethod, Vec<u8>) {
    let mut a = zip::ZipArchive::new(Cursor::new(data.to_vec())).unwrap();
    let index = a.index_for_name(name).unwrap();
    let mut f = a.by_index_raw(index).unwrap();
    let method = f.compression();
    let mut buf = Vec::new();
    f.read_to_end(&mut buf).unwrap();
    (method, buf)
}

#[test]
fn replace_stores_new_entry_and_copies_others_raw() {
    let z = make_zip(&[("main.lua", &[b'x'; 300][..]), ("DAT1.jkr", b"old")]);
    let before = method_and_raw(&z, "main.lua");
    assert_eq!(before.0, zip::CompressionMethod::Deflated);
    let mut exe = b"stub".to_vec();
    exe.extend_from_slice(&z);
    let out = replace_file(&exe, "DAT1.jkr", b"new data").unwrap();
    let tail = &out[4..];
    assert_eq!(method_and_raw(tail, "main.lua"), before);
    assert_eq!(
        method_and_raw(tail, "DAT1.jkr"),
        (zip::CompressionMethod::Stored, b"new data".to_vec())
    );
}
