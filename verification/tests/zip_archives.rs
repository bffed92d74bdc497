use ls_web::archive::{archive_to_zip, WalkedEntry};
use std::io::Read;

fn walked(path: &str, is_dir: bool, contents: &[u8]) -> WalkedEntry {
    WalkedEntry { path: path.to_string(), is_dir, contents: contents.to_vec() }
}

#[test]
fn archive_holds_the_walked_entries() {
    let entries = vec![
        walked("/srv/d", true, b""),
        walked("/srv/d/sub", true, b""),
        walked("/srv/d/sub/a.txt", false, b"hello"),
        walked("/srv/d/b.bin", false, &[0, 1, 2, 255]),
    ];
    let bytes = archive_to_zip("/srv/d", &entries).expect("zip written");
    let mut z = zip::ZipArchive::new(std::io::Cursor::new(bytes)).unwrap();
    assert_eq!(z.len(), 3);
    let names: Vec<String> = (0..z.len()).map(|i| z.by_index(i).unwrap().name().to_string()).collect();
    assert_eq!(names, vec!["sub/", "sub/a.txt", "b.bin"]);
    let mut s = String::new();
    z.by_name("sub/a.txt").unwrap().read_to_string(&mut s).unwrap();
    assert_eq!(s, "hello");
    let mut v = Vec::new();
    z.by_name("b.bin").unwrap().read_to_end(&mut v).unwrap();
    assert_eq!(v, vec![0, 1, 2, 255]);
    assert!(z.by_name("sub/").unwrap().is_dir());
}

#[test]
fn archive_of_an_empty_directory() {
    let bytes = archive_to_zip("/srv/d", &vec![walked("/srv/d", true, b"")]).expect("zip written");
    let z = zip::ZipArchive::new(std::io::Cursor::new(bytes)).unwrap();
    assert_eq!(z.len(), 0);
}

#[test]
fn entries_outside_the_directory_fail_the_archive() {
    assert!(archive_to_zip("/srv/d", &vec![walked("/elsewhere/x", false, b"x")]).is_none());
}

#[test]
fn archive_of_a_directory_given_with_a_trailing_slash() {
    let bytes = archive_to_zip("/srv/d/", &vec![walked("/srv/d/", true, b""), walked("/srv/d/x", false, b"1")])
        .expect("zip written");
    let z = zip::ZipArchive::new(std::io::Cursor::new(bytes)).unwrap();
    assert_eq!(z.len(), 1);
}

#[test]
fn archive_of_long_but_fitting_names() {
    let name = "n".repeat(1000);
    let path = format!("/srv/d/{name}");
    let bytes = archive_to_zip("/srv/d", &vec![walked(&path, false, b"x")]).expect("zip written");
    let mut z = zip::ZipArchive::new(std::io::Cursor::new(bytes)).unwrap();
    assert_eq!(z.by_index(0).unwrap().name(), name);
}
