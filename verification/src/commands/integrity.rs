//! The integrity check of a game's depot manifests against the current
//! manifest ids.
use vstd::prelude::*;
use crate::text::{concat, strings_view};
use crate::vault::manifest_name;
use crate::watcher::depots_view;

verus! {

/// The verdict on one game: `OK`, `CORRUPT` or `MISSING_MANIFESTS`, with the
/// depots concerned and the time of the check.
pub struct IntegrityReport {
    pub app_id: String,
    pub status: String,
    pub missing_depots: Vec<String>,
    pub corrupt_manifests: Vec<String>,
    pub timestamp: u64,
}

/// What the depot cache holds for one depot's current manifest: whether the
/// file exists, its length, and its first four bytes when they could be read.
pub struct ManifestFileState {
    pub exists: bool,
    pub len: u64,
    pub head: Option<Vec<u8>>,
}

/// A usable manifest file: more than 50 bytes, starting with the manifest
/// magic.
pub open spec fn valid_file(len: u64, head: Option<Seq<u8>>) -> bool {
    len > 50 && match head {
        Some(h) => crate::downloader::manifest_magic(h),
        None => false,
    }
}

pub open spec fn head_view(h: Option<Vec<u8>>) -> Option<Seq<u8>> {
    match h {
        Some(v) => Some(v@),
        None => None,
    }
}

/// The depots (with a current manifest id) whose file is missing, each as
/// `{depot} (latest)`, and those whose file is not usable.
pub open spec fn check_depots(
    depots: Seq<(Seq<char>, Option<Seq<char>>)>,
    files: Seq<(bool, u64, Option<Seq<u8>>)>,
) -> (Seq<Seq<char>>, Seq<Seq<char>>)
    decreases depots.len(),
{
    if depots.len() == 0 {
        (Seq::empty(), Seq::empty())
    } else {
        let r = check_depots(depots.drop_last(), files);
        let i = depots.len() - 1;
        let d = depots[i];
        let f = files[i];
        if d.1 is None {
            r
        } else if !f.0 {
            (r.0.push(d.0 + " (latest)"@), r.1)
        } else if !valid_file(f.1, f.2) {
            (r.0, r.1.push(d.0))
        } else {
            r
        }
    }
}

pub open spec fn status_of(missing: Seq<Seq<char>>, corrupt: Seq<Seq<char>>) -> Seq<char> {
    if missing.len() > 0 {
        "MISSING_MANIFESTS"@
    } else if corrupt.len() > 0 {
        "CORRUPT"@
    } else {
        "OK"@
    }
}

pub open spec fn files_view(fs: Seq<ManifestFileState>) -> Seq<(bool, u64, Option<Seq<u8>>)> {
    fs.map_values(|f: ManifestFileState| (f.exists, f.len, head_view(f.head)))
}

/// The file each depot's current manifest would be in, `{depot}_{gid}.manifest`
/// (`None` for a depot without a manifest id).
pub fn expected_files(depots: &Vec<(String, Option<String>)>) -> (r: Vec<Option<String>>)
    ensures
        r.len() == depots.len(),
        forall|i: int| 0 <= i < r.len() ==> match #[trigger] depots_view(depots@)[i].1 {
            Some(g) => r@[i] matches Some(n) && n@ == manifest_name(depots_view(depots@)[i].0, g),
            None => r@[i] is None,
        },
{
    let mut r: Vec<Option<String>> = Vec::new();
    let mut i: usize = 0;
    while i < depots.len()
        invariant
            i <= depots.len(),
            r.len() == i,
            forall|k: int| 0 <= k < i ==> match #[trigger] depots_view(depots@)[k].1 {
                Some(g) => r@[k] matches Some(n) && n@ == manifest_name(depots_view(depots@)[k].0, g),
                None => r@[k] is None,
            },
        decreases depots.len() - i,
    {
        assert(depots_view(depots@)[i as int] == (depots@[i as int].0@, crate::api::opt_text(depots@[i as int].1)));
        match &depots[i].1 {
            Some(g) => r.push(Some(crate::vault::manifest_file_name(&depots[i].0, g))),
            None => r.push(None),
        }
        i = i + 1;
    }
    r
}

/// The integrity report of a game, `files[i]` describing the file of
/// `expected_files(depots)[i]`.
pub fn integrity_report(
    app_id: String,
    depots: &Vec<(String, Option<String>)>,
    files: &Vec<ManifestFileState>,
    timestamp: u64,
) -> (r: IntegrityReport)
    requires
        files.len() == depots.len(),
    ensures
        r.app_id@ == app_id@,
        r.timestamp == timestamp,
        strings_view(r.missing_depots@) == check_depots(depots_view(depots@), files_view(files@)).0,
        strings_view(r.corrupt_manifests@) == check_depots(depots_view(depots@), files_view(files@)).1,
        r.status@ == status_of(check_depots(depots_view(depots@), files_view(files@)).0,
            check_depots(depots_view(depots@), files_view(files@)).1),
{
    let ghost dv = depots_view(depots@);
    let ghost fv = files_view(files@);
    let mut missing: Vec<String> = Vec::new();
    let mut corrupt: Vec<String> = Vec::new();
    let mut i: usize = 0;
    while i < depots.len()
        invariant
            i <= depots.len(),
            files.len() == depots.len(),
            dv == depots_view(depots@),
            fv == files_view(files@),
            (strings_view(missing@), strings_view(corrupt@)) == check_depots(dv.take(i as int), fv),
        decreases depots.len() - i,
    {
        proof {
            assert(dv.take(i as int + 1).drop_last() =~= dv.take(i as int));
            assert(dv[i as int] == (depots@[i as int].0@, crate::api::opt_text(depots@[i as int].1)));
            assert(fv[i as int] == (files@[i as int].exists, files@[i as int].len, head_view(files@[i as int].head)));
        }
        if depots[i].1.is_some() {
            let f = &files[i];
            if !f.exists {
                let m = concat(&depots[i].0, " (latest)");
                proof { crate::text::lemma_strings_view_push(missing@, m); }
                missing.push(m);
            } else {
                let valid = f.len > 50 && match &f.head {
                    Some(h) => h.len() >= 4 && h[0] == 0xD0u8 && h[1] == 0x17u8 && h[2] == 0xF6u8 && h[3] == 0x71u8,
                    None => false,
                };
                if !valid {
                    let c = depots[i].0.clone();
                    proof { crate::text::lemma_strings_view_push(corrupt@, c); }
                    corrupt.push(c);
                }
            }
        }
        i = i + 1;
    }
    assert(dv.take(depots.len() as int) =~= dv);
    let status = if missing.len() > 0 {
        "MISSING_MANIFESTS".to_string()
    } else if corrupt.len() > 0 {
        "CORRUPT".to_string()
    } else {
        "OK".to_string()
    };
    IntegrityReport { app_id, status, missing_depots: missing, corrupt_manifests: corrupt, timestamp }
}

} // verus!
