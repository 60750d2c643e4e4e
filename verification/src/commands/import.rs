//! What a ZIP offered for import holds.
use vstd::prelude::*;
use crate::text::{ends_with_str, has_suffix, strings_view};
use crate::downloader::{EntryModel, open_zip, zip_entries, zip_entry, zip_len, zip_open};

verus! {

/// The manifests and depots a ZIP offered for import holds, and where it is.
pub struct ImportMetadata {
    pub manifest_count: usize,
    pub depot_count: usize,
    pub file_path: String,
}

/// A file of the archive that is read as an install script.
pub open spec fn is_script_name(n: Seq<char>) -> bool {
    has_suffix(n, ".lua"@) || has_suffix(n, ".txt"@)
}

/// How many of the archive's files are manifests (scripts not counting).
pub open spec fn manifest_count_of(names: Seq<Seq<char>>) -> nat
    decreases names.len(),
{
    if names.len() == 0 {
        0
    } else {
        manifest_count_of(names.drop_last()) + if !is_script_name(names.last()) && has_suffix(names.last(), ".manifest"@) {
            1nat
        } else {
            0nat
        }
    }
}

pub fn count_manifests(names: &Vec<String>) -> (r: usize)
    ensures
        r == manifest_count_of(strings_view(names@)),
{
    let ghost s = strings_view(names@);
    let mut n: usize = 0;
    let mut i: usize = 0;
    while i < names.len()
        invariant
            i <= names.len(),
            s == strings_view(names@),
            n == manifest_count_of(s.take(i as int)),
            n <= i,
        decreases names.len() - i,
    {
        proof {
            assert(s.take(i as int + 1).drop_last() =~= s.take(i as int));
            assert(s[i as int] == names@[i as int]@);
        }
        let nm = &names[i];
        let script = ends_with_str(nm, ".lua") || ends_with_str(nm, ".txt");
        if !script && ends_with_str(nm, ".manifest") {
            n = n + 1;
        }
        i = i + 1;
    }
    assert(s.take(names.len() as int) =~= s);
    n
}

/// The depot an archived manifest belongs to: the first `_`-separated piece
/// of its file name, as a 32-bit number.
pub open spec fn import_depot_of(name: Seq<char>) -> Option<u32> {
    crate::text::parse_u32(crate::text::split_char(crate::commands::direct_download::base_name(name), '_')[0])
}

pub fn import_depot(name: &str) -> (r: Option<u32>)
    ensures
        r == import_depot_of(name@),
{
    let base = crate::commands::direct_download::base_name_of(name);
    let cs = crate::text::chars_of(&base);
    let parts = crate::text::split_chars(&cs, '_');
    let ghost ps = parts@.map_values(|v: Vec<char>| v@);
    assert(ps == crate::text::split_char(base@, '_'));
    proof { crate::text::lemma_split_char_nonempty(base@, '_'); }
    let first = crate::text::string_of(&parts[0]);
    assert(first@ == ps[0]);
    crate::text::parse_u32_text(&first)
}

/// The ids an import puts on the list: the script's app, then its DLCs.
pub fn import_list_ids(app_id: u32, dlc_ids: &Vec<u32>) -> (r: Vec<String>)
    ensures
        strings_view(r@) == seq![crate::text::decimal(app_id as nat)] + dlc_ids@.map_values(|d: u32| crate::text::decimal(d as nat)),
{
    let mut r: Vec<String> = Vec::new();
    r.push(crate::text::decimal_string(app_id as u64));
    let mut i: usize = 0;
    while i < dlc_ids.len()
        invariant
            i <= dlc_ids.len(),
            strings_view(r@) == seq![crate::text::decimal(app_id as nat)] + dlc_ids@.take(i as int).map_values(|d: u32| crate::text::decimal(d as nat)),
        decreases dlc_ids.len() - i,
    {
        let t = crate::text::decimal_string(dlc_ids[i] as u64);
        proof { crate::text::lemma_strings_view_push(r@, t); }
        r.push(t);
        assert(dlc_ids@.take(i as int + 1).map_values(|d: u32| crate::text::decimal(d as nat))
            =~= dlc_ids@.take(i as int).map_values(|d: u32| crate::text::decimal(d as nat)).push(crate::text::decimal(dlc_ids@[i as int] as nat)));
        i = i + 1;
    }
    assert(dlc_ids@.take(dlc_ids.len() as int) =~= dlc_ids@);
    r
}

/// The report of an import: through Steam, the ids added and the app whose
/// install was started; directly, the ids added and the manifests extracted.
pub fn import_message(through_steam: bool, ids_count: usize, app_id: u32, extracted: usize) -> (r: String)
    ensures
        r@ == if through_steam {
            "Added "@ + crate::text::decimal(ids_count as nat) + " games to AppList, Injected Keys, and triggered Steam install for "@
                + crate::text::decimal(app_id as nat)
        } else {
            "Imported successfully. Added "@ + crate::text::decimal(ids_count as nat) + " IDs to AppList. Injected Keys. Extracted "@
                + crate::text::decimal(extracted as nat) + " manifests."@
        },
{
    if through_steam {
        let a = crate::text::concat3("Added ", &crate::text::decimal_string(ids_count as u64),
            " games to AppList, Injected Keys, and triggered Steam install for ");
        crate::text::concat(&a, &crate::text::decimal_string(app_id as u64))
    } else {
        let a = crate::text::concat3("Imported successfully. Added ", &crate::text::decimal_string(ids_count as u64),
            " IDs to AppList. Injected Keys. Extracted ");
        crate::text::concat3(&a, &crate::text::decimal_string(extracted as u64), " manifests.")
    }
}


/// Manifests by depot, one per depot, in the order the depots first came.
pub open spec fn depot_index(ms: Seq<(u32, Seq<u8>)>, d: u32) -> int
    decreases ms.len(),
{
    if ms.len() == 0 {
        -1
    } else {
        let k = depot_index(ms.drop_last(), d);
        if k >= 0 {
            k
        } else if ms.last().0 == d {
            ms.len() - 1
        } else {
            -1
        }
    }
}

/// A manifest put under its depot: it takes the place of one already there.
pub open spec fn put_manifest(ms: Seq<(u32, Seq<u8>)>, d: u32, b: Seq<u8>) -> Seq<(u32, Seq<u8>)> {
    let k = depot_index(ms, d);
    if k >= 0 {
        ms.update(k, (d, b))
    } else {
        ms.push((d, b))
    }
}

/// What an archive offered for import holds: the texts of its scripts
/// (`.lua` or `.txt` files that read as UTF-8), in order; how many
/// manifests it has; the contents of each manifest by the depot its name
/// starts with (a later one for a depot replacing an earlier); and each
/// manifest's file name with its contents (`None` when they cannot be read),
/// as they are extracted.
pub struct ImportScanModel {
    pub scripts: Seq<Seq<char>>,
    pub manifest_count: nat,
    pub manifests: Seq<(u32, Seq<u8>)>,
    pub files: Seq<(Seq<char>, Option<Seq<u8>>)>,
}

/// One file of the archive taken into the scan. A file that cannot be got
/// at, or whose name cannot be read, adds nothing.
pub open spec fn import_step(m: ImportScanModel, e: EntryModel) -> ImportScanModel {
    match e {
        Some((Some(n), _, data)) => {
            if is_script_name(n) {
                match data {
                    Some(d) => if vstd::utf8::valid_utf8(d) {
                        ImportScanModel { scripts: m.scripts.push(vstd::utf8::decode_utf8(d)), ..m }
                    } else {
                        m
                    },
                    None => m,
                }
            } else if has_suffix(n, ".manifest"@) {
                ImportScanModel {
                    scripts: m.scripts,
                    manifest_count: m.manifest_count + 1,
                    manifests: match (import_depot_of(n), data) {
                        (Some(dep), Some(d)) => put_manifest(m.manifests, dep, d),
                        _ => m.manifests,
                    },
                    files: m.files.push((crate::commands::direct_download::base_name(n), data)),
                }
            } else {
                m
            }
        },
        _ => m,
    }
}

/// The scan of an archive's files, in index order.
pub open spec fn import_scan_of(es: Seq<EntryModel>) -> ImportScanModel
    decreases es.len(),
{
    if es.len() == 0 {
        ImportScanModel { scripts: Seq::empty(), manifest_count: 0, manifests: Seq::empty(), files: Seq::empty() }
    } else {
        import_step(import_scan_of(es.drop_last()), es.last())
    }
}

/// What an archive offered for import holds (see `ImportScanModel`).
pub struct ImportScan {
    pub scripts: Vec<String>,
    pub manifest_count: usize,
    pub manifests: Vec<(u32, Vec<u8>)>,
    pub files: Vec<(String, Option<Vec<u8>>)>,
}

pub open spec fn opt_bytes(b: Option<Vec<u8>>) -> Option<Seq<u8>> {
    match b {
        Some(v) => Some(v@),
        None => None,
    }
}

impl View for ImportScan {
    type V = ImportScanModel;

    open spec fn view(&self) -> ImportScanModel {
        ImportScanModel {
            scripts: strings_view(self.scripts@),
            manifest_count: self.manifest_count as nat,
            manifests: self.manifests@.map_values(|p: (u32, Vec<u8>)| (p.0, p.1@)),
            files: self.files@.map_values(|p: (String, Option<Vec<u8>>)| (p.0@, opt_bytes(p.1))),
        }
    }
}

proof fn lemma_no_depot(ms: Seq<(u32, Seq<u8>)>, d: u32)
    requires
        forall|k: int| 0 <= k < ms.len() ==> #[trigger] ms[k].0 != d,
    ensures
        depot_index(ms, d) == -1,
    decreases ms.len(),
{
    if ms.len() > 0 {
        lemma_no_depot(ms.drop_last(), d);
    }
}

proof fn lemma_first_depot(ms: Seq<(u32, Seq<u8>)>, d: u32, j: int)
    requires
        0 <= j < ms.len(),
        ms[j].0 == d,
        forall|k: int| 0 <= k < j ==> #[trigger] ms[k].0 != d,
    ensures
        depot_index(ms, d) == j,
    decreases ms.len(),
{
    if j == ms.len() - 1 {
        lemma_no_depot(ms.drop_last(), d);
    } else {
        lemma_first_depot(ms.drop_last(), d, j);
    }
}

/// Puts a manifest under its depot, in place of the one already there.
fn put_manifest_into(ms: &mut Vec<(u32, Vec<u8>)>, d: u32, b: Vec<u8>)
    ensures
        final(ms)@.map_values(|p: (u32, Vec<u8>)| (p.0, p.1@))
            == put_manifest(old(ms)@.map_values(|p: (u32, Vec<u8>)| (p.0, p.1@)), d, b@),
{
    let ghost mv = ms@.map_values(|p: (u32, Vec<u8>)| (p.0, p.1@));
    let mut j: usize = 0;
    while j < ms.len() && ms[j].0 != d
        invariant
            j <= ms.len(),
            mv == ms@.map_values(|p: (u32, Vec<u8>)| (p.0, p.1@)),
            ms@ == old(ms)@,
            forall|k: int| 0 <= k < j ==> #[trigger] mv[k].0 != d,
        decreases ms.len() - j,
    {
        j = j + 1;
    }
    let ghost bv = b@;
    if j < ms.len() {
        proof { lemma_first_depot(mv, d, j as int); }
        ms.set(j, (d, b));
        assert(ms@.map_values(|p: (u32, Vec<u8>)| (p.0, p.1@)) =~= mv.update(j as int, (d, bv)));
    } else {
        proof { lemma_no_depot(mv, d); }
        ms.push((d, b));
        assert(ms@.map_values(|p: (u32, Vec<u8>)| (p.0, p.1@)) =~= mv.push((d, bv)));
    }
}

/// Reads an archive offered for import: `None` when the bytes are no
/// archive; else its scripts, its manifest count, its manifests by depot and
/// the manifest files to extract.
pub fn scan_import_archive(bytes: Vec<u8>) -> (r: Option<ImportScan>)
    ensures
        match zip_open(bytes@) {
            None => r is None,
            Some(es) => r matches Some(s) && s@ == import_scan_of(es),
        },
{
    let ghost bv = bytes@;
    let mut a = match open_zip(bytes) {
        Some(a) => a,
        None => return None,
    };
    let ghost es = zip_entries(a);
    let n = zip_len(&a);
    let mut scan = ImportScan { scripts: Vec::new(), manifest_count: 0, manifests: Vec::new(), files: Vec::new() };
    proof {
        assert(es.take(0) =~= Seq::<EntryModel>::empty());
        assert(strings_view(scan.scripts@) =~= Seq::<Seq<char>>::empty());
        assert(scan.manifests@.map_values(|p: (u32, Vec<u8>)| (p.0, p.1@)) =~= Seq::<(u32, Seq<u8>)>::empty());
        assert(scan.files@.map_values(|p: (String, Option<Vec<u8>>)| (p.0@, opt_bytes(p.1)))
            =~= Seq::<(Seq<char>, Option<Seq<u8>>)>::empty());
        assert(scan@ =~= import_scan_of(es.take(0)));
    }
    let mut i: usize = 0;
    while i < n
        invariant
            i <= n,
            n == es.len(),
            zip_entries(a) == es,
            es == zip_open(bv)->0,
            scan@ == import_scan_of(es.take(i as int)),
            scan.manifest_count <= i,
        decreases n - i,
    {
        let ghost prev = scan@;
        proof {
            assert(es.take(i as int + 1).drop_last() =~= es.take(i as int));
            assert(es.take(i as int + 1).last() == es[i as int]);
        }
        let e = zip_entry(&mut a, i);
        match e {
            Some((Some(name), _d, data)) => {
                if ends_with_str(&name, ".lua") || ends_with_str(&name, ".txt") {
                    match data {
                        Some(d) => match crate::text::utf8_text(d) {
                            Some(t) => {
                                proof { crate::text::lemma_strings_view_push(scan.scripts@, t); }
                                scan.scripts.push(t);
                                assert(scan@ =~= import_step(prev, es[i as int]));
                            },
                            None => {
                                assert(scan@ =~= import_step(prev, es[i as int]));
                            },
                        },
                        None => {
                            assert(scan@ =~= import_step(prev, es[i as int]));
                        },
                    }
                } else if ends_with_str(&name, ".manifest") {
                    scan.manifest_count = scan.manifest_count + 1;
                    let base = crate::commands::direct_download::base_name_of(&name);
                    let ghost dv = opt_bytes(data);
                    match import_depot(&name) {
                        Some(dep) => match &data {
                            Some(d) => {
                                put_manifest_into(&mut scan.manifests, dep, crate::downloader::copy_slice(d.as_slice(), 0));
                                assert(d@.skip(0) =~= d@);
                            },
                            None => {},
                        },
                        None => {},
                    }
                    let ghost fv = scan.files@.map_values(|p: (String, Option<Vec<u8>>)| (p.0@, opt_bytes(p.1)));
                    scan.files.push((base, data));
                    assert(scan.files@.map_values(|p: (String, Option<Vec<u8>>)| (p.0@, opt_bytes(p.1)))
                        =~= fv.push((crate::commands::direct_download::base_name(name@), dv)));
                    assert(scan@ =~= import_step(prev, es[i as int]));
                } else {
                    assert(scan@ =~= import_step(prev, es[i as int]));
                }
            },
            _ => {
                assert(scan@ =~= import_step(prev, es[i as int]));
            },
        }
        i = i + 1;
    }
    assert(es.take(n as int) =~= es);
    Some(scan)
}


/// The names of the archive's files that can be got at and read, in order.
pub open spec fn readable_names(es: Seq<EntryModel>) -> Seq<Seq<char>>
    decreases es.len(),
{
    if es.len() == 0 {
        Seq::empty()
    } else {
        match es.last() {
            Some((Some(n), _, _)) => readable_names(es.drop_last()).push(n),
            _ => readable_names(es.drop_last()),
        }
    }
}

/// The scan counts the manifests among the readable names, as
/// `count_manifests` does, and lists one file to extract for each of them.
pub proof fn law_scan_counts_manifests(es: Seq<EntryModel>)
    ensures
        import_scan_of(es).manifest_count == manifest_count_of(readable_names(es)),
        import_scan_of(es).files.len() == import_scan_of(es).manifest_count,
    decreases es.len(),
{
    if es.len() > 0 {
        law_scan_counts_manifests(es.drop_last());
        match es.last() {
            Some((Some(n), _, _)) => {
                assert(readable_names(es).drop_last() =~= readable_names(es.drop_last()));
            },
            _ => {},
        }
    }
}

} // verus!
