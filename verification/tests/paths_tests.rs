use balamod::paths::{get_exe_path, get_library_folders, get_save_dir, get_steam_dir, library_folders_file, GamePath};
use balamod::platform::TargetOs;

fn parts(p: &GamePath) -> Vec<&str> {
    p.parts.iter().map(|s| s.as_str()).collect()
}

#[test]
fn exe_path_per_system() {
    let p = get_exe_path(GamePath::new("/g"), TargetOs::Linux);
    assert_eq!(parts(&p), vec!["/g", "Balatro.exe"]);
    let p = get_exe_path(GamePath::new("C:\\g"), TargetOs::Windows);
    assert_eq!(parts(&p), vec!["C:\\g", "Balatro.exe"]);
    let p = get_exe_path(GamePath::new("/g"), TargetOs::MacOs);
    assert_eq!(parts(&p), vec!["/g", "Balatro.app", "Contents", "Resources", "Balatro.love"]);
}

#[test]
fn save_dir_per_system() {
    assert_eq!(parts(&get_save_dir(true, TargetOs::Linux, "/home/u")), vec!["/home/u", ".local", "share", "love", "Balatro"]);
    assert_eq!(
        parts(&get_save_dir(false, TargetOs::Linux, "/home/u")),
        vec!["/home/u", ".local", "share", "Steam", "steamapps", "compatdata", "2379780", "pfx", "drive_c", "users", "steamuser", "AppData", "Roaming", "Balatro"]
    );
    assert_eq!(parts(&get_save_dir(false, TargetOs::Windows, "C:\\AppData")), vec!["C:\\AppData", "Balatro"]);
    assert_eq!(parts(&get_save_dir(false, TargetOs::MacOs, "/Users/u")), vec!["/Users/u", "Library", "Application Support", "Balatro"]);
}

#[test]
fn steam_locations() {
    let s = get_steam_dir(TargetOs::Linux, "/home/u").unwrap();
    assert_eq!(parts(&s), vec!["/home/u", ".local", "share", "Steam"]);
    let f = library_folders_file(s);
    assert_eq!(parts(&f), vec!["/home/u", ".local", "share", "Steam", "steamapps", "libraryfolders.vdf"]);
    let s = get_steam_dir(TargetOs::MacOs, "/Users/u").unwrap();
    assert_eq!(parts(&s), vec!["/Users/u", "Library", "Application Support", "Steam"]);
    assert!(get_steam_dir(TargetOs::Windows, "C:\\").is_none());
}

#[test]
fn library_list_is_read() {
    let vdf = "\"libraryfolders\"\n{\n\t\"0\"\n\t{\n\t\t\"path\"\t\t\"/home/u/.local/share/Steam\"\r\n\t\t\"label\"\t\t\"\"\n\t}\n\t\"1\"\n\t{\n\t\t\"path\"\t\t\"/mnt/games\"\n\t\t\"path\"\t\t\n\t}\n}";
    let found = get_library_folders(vdf);
    let got: Vec<Vec<&str>> = found.iter().map(parts).collect();
    assert_eq!(
        got,
        vec![
            vec!["/home/u/.local/share/Steam", "steamapps", "common", "Balatro"],
            vec!["/mnt/games", "steamapps", "common", "Balatro"],
        ]
    );
    assert!(get_library_folders("").is_empty());
}
