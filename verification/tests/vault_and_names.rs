use std::io::Write;

use darkcore::commands::steam_install::{fallback_ids, vault_manifests};
use darkcore::commands::system::steamless_names;

fn s(v: &str) -> String {
    v.to_string()
}

fn strings(v: &[&str]) -> Vec<String> {
    v.iter().map(|x| s(x)).collect()
}

fn zip_of(files: &[(&str, &[u8])]) -> Vec<u8> {
    let mut buf = std::io::Cursor::new(Vec::new());
    {
        let mut w = zip::ZipWriter::new(&mut buf);
        for (name, data) in files {
            w.start_file(*name, zip::write::SimpleFileOptions::default()).unwrap();
            w.write_all(data).unwrap();
        }
        w.finish().unwrap();
    }
    buf.into_inner()
}

#[test]
fn vault_takes_manifests_at_the_archive_root() {
    let z = zip_of(&[
        ("100.lua", b"addappid(100)"),
        ("101_555.manifest", b"AAA"),
        ("sub/102_777.manifest", b"BB"),
        ("notes.txt", b"x"),
    ]);
    let r = vault_manifests(&z);
    assert_eq!(r, vec![(101, 555, b"AAA".to_vec())]);
}

#[test]
fn vault_of_no_archive_is_empty() {
    assert!(vault_manifests(&b"not a zip".to_vec()).is_empty());
}

#[test]
fn fallback_adds_shared_depots_once() {
    let r = fallback_ids("100", &strings(&["105"]), &vec![228980, 105, 228980]);
    assert_eq!(r, strings(&["100", "101", "105", "228980"]));
}

#[test]
fn steamless_names_for_an_executable() {
    let (unpacked, orig) = steamless_names("game.exe");
    assert_eq!(unpacked, "game.unpacked.exe");
    assert_eq!(orig, "game.exe.bak");
}

#[test]
fn steamless_names_without_extension() {
    let (unpacked, orig) = steamless_names("launcher");
    assert_eq!(unpacked, "launcher.unpacked.");
    assert_eq!(orig, "launcher.bak");
}
