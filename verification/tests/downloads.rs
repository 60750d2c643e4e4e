use std::io::Write;

use aes::cipher::{BlockEncrypt, BlockEncryptMut, KeyInit, KeyIvInit};
use darkcore::api::{DepotNode, DlcNode, GameHierarchy};
use darkcore::commands::direct_download::{
    acf_depots, allowed_depot_ids, download_list_ids, install_dir_name, key_text, manifest_ids, plan_depots,
    record_download_types, recorded_build, unpack_repository,
};
use darkcore::downloader::{DownloadRejection, ExtractError, ManifestFormat, accept_download, gmrc_code, gmrc_url, manifest_cdn_url};
use darkcore::services::downloader::manifest_source::ManifestSource;

fn s(v: &str) -> String {
    v.to_string()
}

fn strings(v: &[&str]) -> Vec<String> {
    v.iter().map(|x| s(x)).collect()
}

fn pairs(v: &[(&str, &str)]) -> Vec<(String, String)> {
    v.iter().map(|(a, b)| (s(a), s(b))).collect()
}

fn varint(mut n: u64, out: &mut Vec<u8>) {
    loop {
        let b = (n & 0x7f) as u8;
        n >>= 7;
        if n == 0 {
            out.push(b);
            return;
        }
        out.push(b | 0x80);
    }
}

fn len_field(tag: u8, data: &[u8], out: &mut Vec<u8>) {
    out.push(tag);
    varint(data.len() as u64, out);
    out.extend_from_slice(data);
}

fn one_file_manifest() -> Vec<u8> {
    let mut c = Vec::new();
    len_field(0x0A, &[0xAB, 0x01], &mut c);
    c.push(0x15);
    c.extend_from_slice(&0x01020304u32.to_le_bytes());
    c.push(0x18);
    varint(300, &mut c);
    c.push(0x20);
    varint(64, &mut c);
    c.push(0x28);
    varint(32, &mut c);
    let mut f = Vec::new();
    len_field(0x0A, b"game/data.bin", &mut f);
    f.push(0x10);
    varint(1000, &mut f);
    len_field(0x32, &c, &mut f);
    let mut p = Vec::new();
    len_field(0x0A, &f, &mut p);
    let mut m = vec![0xD0, 0x17, 0xF6, 0x71];
    m.extend_from_slice(&(p.len() as u32).to_le_bytes());
    m.extend_from_slice(&p);
    m
}

fn zip_of(files: &[(&str, &[u8])]) -> Vec<u8> {
    let mut buf = std::io::Cursor::new(Vec::new());
    {
        let mut w = zip::ZipWriter::new(&mut buf);
        for (name, data) in files {
            w.start_file(*name, zip::write::SimpleFileOptions::default()).unwrap();
            w.write_all(data).unwrap();
        }
        w.finish().unwrap();
    }
    buf.into_inner()
}

fn depot(id: &str, dlc: bool) -> DepotNode {
    DepotNode { depot_id: s(id), gid: None, size: None, language: None, is_common: true, is_dlc_depot: dlc }
}

fn dlc(id: &str, depots: &[&str]) -> DlcNode {
    DlcNode { app_id: s(id), name: s("DLC"), depots: depots.iter().map(|d| depot(d, true)).collect(), selected: true }
}

fn hierarchy() -> GameHierarchy {
    GameHierarchy {
        root_id: s("100"),
        root_name: s("Game"),
        base_depots: vec![depot("101", false), depot("228980", false)],
        dlcs: vec![dlc("200", &["201"]), dlc("300", &["301"])],
    }
}

fn hex32(b: u8) -> String {
    (0..32).map(|_| format!("{:02x}", b)).collect()
}

#[test]
fn install_folder_keeps_safe_characters() {
    assert_eq!(install_dir_name("Half-Life 2: Episode One\u{2122} "), "Half-Life 2 Episode One");
    assert_eq!(install_dir_name("  \u{dc}n\u{ef}c\u{f6}d\u{e9}_Game!  "), "\u{dc}n\u{ef}c\u{f6}d\u{e9}_Game");
    assert_eq!(install_dir_name("v1.0 (Deluxe)"), "v1.0 Deluxe");
}

#[test]
fn manifest_file_names_give_depot_and_manifest() {
    assert_eq!(manifest_ids("731_123456789.manifest"), Some((731, 123456789)));
    assert_eq!(manifest_ids("12_34_56.manifest"), Some((12, 34)));
    assert_eq!(manifest_ids("0_5.manifest"), None);
    assert_eq!(manifest_ids("731_x.manifest"), None);
    assert_eq!(manifest_ids("abc.manifest"), None);
    assert_eq!(manifest_ids("5000000000_1.manifest"), None);
}

#[test]
fn repository_archive_yields_scripts_and_manifests() {
    let m = one_file_manifest();
    let z = zip_of(&[
        ("keys/app.lua", b"addappid(10)\n"),
        ("depotcache/731_99.manifest", &m),
        ("readme.txt", b"hello"),
        ("bad.lua", &[0xff, 0xfe]),
        ("other.lua", b"addappid(11)\n"),
    ]);
    let r = unpack_repository(z).unwrap();
    assert_eq!(r.lua, "addappid(10)\naddappid(11)\n");
    assert!(r.lua_found);
    assert_eq!(r.manifests.len(), 1);
    assert_eq!(r.manifests[0].file_name, "731_99.manifest");
    assert_eq!(r.manifests[0].data, m);
    assert_eq!(r.manifests[0].ids, Some((731, 99)));
    assert!(unpack_repository(b"not an archive".to_vec()).is_none());
}

#[test]
fn key_text_falls_back_to_the_download() {
    assert_eq!(key_text("", b"addappid(5)"), "addappid(5)");
    assert_eq!(key_text("lua", b"other"), "lua");
}

#[test]
fn download_list_holds_keys_and_manifests() {
    let h = hierarchy();
    let keys = pairs(&[("101", "aa"), ("555", "bb")]);
    let r = download_list_ids("100", Some(&h), &strings(&["300"]), &keys, &vec![777, 101]);
    assert_eq!(r, strings(&["100", "101", "300", "301", "555", "777"]));
    let all = download_list_ids("100", Some(&h), &vec![], &vec![], &vec![]);
    assert_eq!(all, strings(&["100", "101", "200", "201", "300", "301"]));
    let bare = download_list_ids("105", None, &vec![], &keys, &vec![]);
    assert_eq!(bare, strings(&["101", "105", "555"]));
}

#[test]
fn selection_limits_allowed_depots() {
    let h = hierarchy();
    assert_eq!(allowed_depot_ids(&h, &strings(&["300"])), strings(&["101", "301"]));
    assert_eq!(allowed_depot_ids(&h, &vec![]), strings(&["101", "201", "301"]));
}

#[test]
fn download_types_cover_dlcs_and_depots() {
    let mut t = pairs(&[("201", "old")]);
    record_download_types(&mut t, &hierarchy());
    assert_eq!(
        t,
        pairs(&[
            ("201", "depot_dlc"),
            ("200", "dlc"),
            ("300", "dlc"),
            ("101", "depot_base"),
            ("228980", "depot_base"),
            ("301", "depot_dlc"),
        ])
    );
}

#[test]
fn depots_are_planned_from_keys_and_manifests() {
    let keys = pairs(&[("731", &hex32(7)), ("732", "zz"), ("abc", &hex32(1)), ("733", &hex32(2))]);
    let found = vec![(731u32, 99u64, one_file_manifest())];
    let (plans, total) = plan_depots(&keys, &vec![], false, &found);
    assert_eq!(plans.len(), 1);
    assert_eq!(plans[0].depot_id, 731);
    assert_eq!(plans[0].gid, 99);
    assert_eq!(plans[0].key, [7u8; 32]);
    assert_eq!(plans[0].jobs.len(), 1);
    assert_eq!(plans[0].jobs[0].id, "ab01");
    assert_eq!(total, 64);
    let (none, zero) = plan_depots(&keys, &strings(&["732"]), true, &found);
    assert!(none.is_empty());
    assert_eq!(zero, 0);
    let (again, _) = plan_depots(&keys, &vec![], true, &found);
    assert_eq!(again.len(), 1);
    let acf = acf_depots(&plans);
    assert_eq!(acf.len(), 1);
    assert_eq!(acf[0].0, 731);
    assert_eq!(acf[0].1.gid, 99);
    assert_eq!(acf[0].1.size, 64);
}

#[test]
fn recorded_build_defaults() {
    assert_eq!(recorded_build(Some(Some(42))), 42);
    assert_eq!(recorded_build(Some(None)), 0);
    assert_eq!(recorded_build(None), 1);
}

#[test]
fn downloads_are_refused_when_small() {
    assert_eq!(accept_download(&[0u8; 99], "1", "2"), Err(DownloadRejection::ResponseTooSmall));
    let mut m = one_file_manifest();
    m.resize(120, 0);
    let (d, f) = accept_download(&m, "1", "2").ok().unwrap();
    assert_eq!(d, m);
    assert_eq!(f, ManifestFormat::RawProtobuf);
    let tiny = zip_of(&[("1_2.manifest", &[0xD0, 0x17, 0xF6, 0x71, 0, 0, 0, 0])]);
    assert!(tiny.len() >= 100);
    assert_eq!(accept_download(&tiny, "1", "2"), Err(DownloadRejection::ExtractedTooSmall));
    let empty = zip_of(&[("readme.txt", &[1u8; 80])]);
    assert_eq!(accept_download(&empty, "1", "2"), Err(DownloadRejection::Extract(ExtractError::NoManifestInZip)));
}

#[test]
fn request_codes_are_trimmed_and_bounded() {
    assert_eq!(gmrc_code("  12345 \n"), Some(s("12345")));
    assert_eq!(gmrc_code(" \t "), None);
    assert_eq!(gmrc_code(&"9".repeat(101)), None);
    assert_eq!(gmrc_code(&"9".repeat(100)), Some("9".repeat(100)));
    assert_eq!(gmrc_url("77"), "http://gmrc.wudrm.com/manifest/77");
    assert_eq!(manifest_cdn_url("cdn.example", "731", "99", "abc"), "https://cdn.example/depot/731/manifest/99/5/abc");
}

#[test]
fn source_prefers_files_with_the_magic() {
    let m = one_file_manifest();
    let z = zip_of(&[("notes.manifest", b"plain text here"), ("x.bin", &m)]);
    let (d, f) = ManifestSource::extract_manifest_bytes(&z).ok().unwrap();
    assert_eq!(d, m);
    assert_eq!(f, ManifestFormat::ZipArchive);
    let named = zip_of(&[("a.manifest", b"abc"), ("b.manifest", b"def")]);
    assert_eq!(ManifestSource::extract_manifest_bytes(&named).ok().unwrap().0, b"abc".to_vec());
    let none = zip_of(&[("a.txt", b"abc")]);
    assert_eq!(ManifestSource::extract_manifest_bytes(&none).err(), Some(ExtractError::NoManifestInZip));
    let (raw, f2) = ManifestSource::extract_manifest_bytes(b"hello world").ok().unwrap();
    assert_eq!(raw, b"hello world".to_vec());
    assert_eq!(f2, ManifestFormat::Unknown);
    assert_eq!(ManifestSource::detect_format(&z), ManifestFormat::ZipArchive);
    assert_eq!(ManifestSource::accept_download(&[1u8; 10]), Err(DownloadRejection::ResponseTooSmall));
}

#[test]
fn correction_manifest_is_decrypted_and_checked() {
    let key = [4u8; 32];
    let iv = [2u8; 16];
    let m = one_file_manifest();
    let mut e = flate2::write::DeflateEncoder::new(Vec::new(), flate2::Compression::default());
    e.write_all(&m).unwrap();
    let packed = e.finish().unwrap();
    let cipher = aes::Aes256::new((&key).into());
    let mut iv_block = aes::cipher::generic_array::GenericArray::clone_from_slice(&iv);
    cipher.encrypt_block(&mut iv_block);
    let mut buf = packed.clone();
    buf.resize(packed.len() + 16, 0);
    let enc = cbc::Encryptor::<aes::Aes256>::new((&key).into(), (&iv).into());
    let ct = enc.encrypt_padded_mut::<cbc::cipher::block_padding::Pkcs7>(&mut buf, packed.len()).unwrap().to_vec();
    let mut blob = iv_block.to_vec();
    blob.extend_from_slice(&ct);
    assert_eq!(darkcore::commands::watcher::corrected_manifest(&blob, &key), Some(m));
    assert_eq!(darkcore::commands::watcher::corrected_manifest(&blob[..8], &key), None);
}
