use hadron::filesystem::{
    denormalize_path, denormalize_path_for, drive_label, drive_label_for, drives_from_letters,
    drives_from_mounts, drives_from_volumes, file_name, is_windows, normalize_path,
    normalize_path_for,
};

fn name(p: &str) -> Option<String> {
    let chars: Vec<char> = p.chars().collect();
    file_name(&chars).map(|v| v.into_iter().collect())
}

#[test]
fn normalizes_for_unix() {
    assert_eq!(normalize_path_for("a\\b\\c", false), "a/b/c");
    assert_eq!(normalize_path_for("/x//y", false), "/x/y");
    assert_eq!(normalize_path_for("a///b", false), "a//b");
}

#[test]
fn normalizes_for_windows() {
    assert_eq!(normalize_path_for("C:\\\\Games", true), "C::Games");
    assert_eq!(normalize_path_for("C:\\Games\\x", true), "C:/Games/x");
}

#[test]
fn denormalizes() {
    assert_eq!(denormalize_path_for("home:me:file", false), "home/me/file");
    assert_eq!(denormalize_path_for("C:/Games/x", true), "C:\\Games\\x");
}

#[test]
fn host_platform_functions_agree() {
    let w = is_windows();
    assert_eq!(w, std::path::MAIN_SEPARATOR == '\\');
    assert_eq!(normalize_path("a\\\\b"), normalize_path_for("a\\\\b", w));
    assert_eq!(denormalize_path("a:b/c"), denormalize_path_for("a:b/c", w));
    assert_eq!(drive_label("/mnt/usb", "/home/me"), drive_label_for("/mnt/usb", "/home/me", w));
}

#[test]
fn unix_file_names() {
    assert_eq!(name("/mnt/usb"), Some("usb".to_string()));
    assert_eq!(name("/mnt/usb/"), Some("usb".to_string()));
    assert_eq!(name("/mnt/usb/."), Some("usb".to_string()));
    assert_eq!(name("a//b"), Some("b".to_string()));
    assert_eq!(name("/mnt/.."), None);
    assert_eq!(name("/"), None);
    assert_eq!(name("."), None);
    assert_eq!(name(""), None);
    assert_eq!(name("file.txt"), Some("file.txt".to_string()));
}

#[test]
fn drive_labels() {
    assert_eq!(drive_label_for("/home/me", "/home/me", false), "Home directory");
    assert_eq!(drive_label_for("/", "/home/me", false), "Root directory");
    assert_eq!(drive_label_for("/Volumes/USB", "/home/me", false), "USB");
    assert_eq!(drive_label_for("/mnt/..", "/home/me", false), "Drive (/mnt/..)");
    assert_eq!(drive_label_for("C", "C:\\Users\\me", true), "Drive (C)");
    assert_eq!(drive_label_for("x", "x", true), "Home directory");
    assert_eq!(drive_label("/h", "/h"), "Home directory");
}

#[test]
fn linux_drives_from_mounts() {
    let mounts = "proc /proc proc rw 0 0\n/dev/sda1 / ext4 rw 0 0\ntmpfs /tmp tmpfs rw 0 0\n  /dev/sdb1\t/media/usb vfat rw 0 0\n/dev/lonely\n";
    assert_eq!(
        drives_from_mounts("/home/me", mounts),
        vec!["/home/me".to_string(), "/".to_string(), "/media/usb".to_string()]
    );
    assert_eq!(drives_from_mounts("/h", ""), vec!["/h".to_string()]);
}

#[test]
fn macos_drives_from_volumes() {
    let names = vec!["Macintosh HD".to_string(), ".Trashes".to_string(), "USB".to_string()];
    assert_eq!(
        drives_from_volumes("/Users/me", &names),
        vec![
            "/Users/me".to_string(),
            "/".to_string(),
            "/Volumes/Macintosh HD".to_string(),
            "/Volumes/USB".to_string(),
        ]
    );
}

#[test]
fn windows_drives_from_letters() {
    let mut present = [false; 26];
    present[2] = true;
    present[3] = true;
    present[25] = true;
    assert_eq!(
        drives_from_letters("C:\\Users\\me", &present),
        vec!["C:\\Users\\me".to_string(), "C".to_string(), "D".to_string(), "Z".to_string()]
    );
}

#[test]
fn denormalizing_twice_changes_nothing() {
    let once = denormalize_path_for("a:b::c/d", false);
    assert_eq!(once, "a/b//c/d");
    assert_eq!(denormalize_path_for(&once, false), once);
    let win = denormalize_path_for("x/y/z", true);
    assert_eq!(win, "x\\y\\z");
    assert_eq!(denormalize_path_for(&win, true), win);
}
