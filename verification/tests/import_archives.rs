use darkcore::commands::steam_install::{dlc_scan_vault_manifests, trim_manifest_payload};
use darkcore::commands::import::{count_manifests, scan_import_archive};
use std::io::Write;

fn s(v: &str) -> String {
    v.to_string()
}

fn zip_of(files: &[(&str, &[u8])]) -> Vec<u8> {
    let mut buf = std::io::Cursor::new(Vec::new());
    {
        let mut w = zip::ZipWriter::new(&mut buf);
        for (name, data) in files {
            w.start_file(*name, zip::write::SimpleFileOptions::default()).unwrap();
            w.write_all(data).unwrap();
        }
        w.finish().unwrap();
    }
    buf.into_inner()
}

#[test]
fn import_scan_reads_scripts_and_manifests() {
    let bytes = zip_of(&[
        ("readme.md", b"hello"),
        ("game/440.lua", b"addappid(440)"),
        ("bad.txt", &[0xFF, 0xFE]),
        ("notes.txt", b"second"),
        ("depots/441_100.manifest", &[1, 2, 3]),
        ("442_7.manifest", &[4]),
        ("441_200.manifest", &[5, 6]),
        ("extra.manifest", &[9]),
    ]);
    let scan = scan_import_archive(bytes).unwrap();
    assert_eq!(scan.scripts, vec![s("addappid(440)"), s("second")]);
    assert_eq!(scan.manifest_count, 4);
    assert_eq!(scan.manifests, vec![(441, vec![5, 6]), (442, vec![4])]);
    let names: Vec<&str> = scan.files.iter().map(|f| f.0.as_str()).collect();
    assert_eq!(names, vec!["441_100.manifest", "442_7.manifest", "441_200.manifest", "extra.manifest"]);
    assert_eq!(scan.files[0].1, Some(vec![1, 2, 3]));
    let all = vec![
        s("readme.md"), s("game/440.lua"), s("bad.txt"), s("notes.txt"),
        s("depots/441_100.manifest"), s("442_7.manifest"), s("441_200.manifest"), s("extra.manifest"),
    ];
    assert_eq!(count_manifests(&all), scan.manifest_count);
}

#[test]
fn import_scan_of_no_archive() {
    assert!(scan_import_archive(b"not a zip".to_vec()).is_none());
    let empty = scan_import_archive(zip_of(&[])).unwrap();
    assert!(empty.scripts.is_empty());
    assert_eq!(empty.manifest_count, 0);
    assert!(empty.manifests.is_empty() && empty.files.is_empty());
}

#[test]
fn dlc_scan_cuts_manifests_to_their_payload() {
    let long = vec![0xD0, 0x17, 0xF6, 0x71, 3, 0, 0, 0, 1, 2, 3, 4, 5];
    assert_eq!(trim_manifest_payload(long.clone()), vec![0xD0, 0x17, 0xF6, 0x71, 3, 0, 0, 0, 1, 2, 3]);
    let short = vec![0xD0, 0x17, 0xF6, 0x71, 9, 0, 0, 0, 1];
    assert_eq!(trim_manifest_payload(short.clone()), short);
    let other = vec![1, 2, 3, 4, 0, 0, 0, 0, 7];
    assert_eq!(trim_manifest_payload(other.clone()), other);
    assert_eq!(trim_manifest_payload(vec![0xD0, 0x17]), vec![0xD0, 0x17]);
    let z = zip_of(&[("101_555.manifest", &long), ("notes.txt", b"x")]);
    assert_eq!(dlc_scan_vault_manifests(&z), vec![(101, 555, vec![0xD0, 0x17, 0xF6, 0x71, 3, 0, 0, 0, 1, 2, 3])]);
}
