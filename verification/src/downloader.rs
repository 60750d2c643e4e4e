//! What a downloaded manifest file holds: a Steam protobuf manifest as it is,
//! one inside a ZIP archive, or one compressed with zlib; and how the manifest
//! bytes are got out of it.
use vstd::prelude::*;
use crate::paths::PathText;
use crate::text::{concat, concat3, contains_str, ends_with_str, has_suffix, contains_text};

verus! {

/// The container a downloaded manifest came in.
#[derive(Debug, Clone, Copy, PartialEq, Eq, Structural)]
pub enum ManifestFormat {
    /// A Steam protobuf manifest, as the depot cache keeps it.
    RawProtobuf,
    /// A ZIP archive holding manifest files.
    ZipArchive,
    /// zlib-compressed data.
    ZlibCompressed,
    /// Anything else, kept as it is.
    Unknown,
}

impl ManifestFormat {
    /// The name shown in logs.
    pub fn label(&self) -> (r: String)
        ensures
            r@ == format_label(*self),
    {
        match self {
            ManifestFormat::RawProtobuf => "Steam Protobuf".to_string(),
            ManifestFormat::ZipArchive => "ZIP Archive".to_string(),
            ManifestFormat::ZlibCompressed => "Zlib Compressed".to_string(),
            ManifestFormat::Unknown => "Unknown".to_string(),
        }
    }
}

pub open spec fn format_label(f: ManifestFormat) -> Seq<char> {
    match f {
        ManifestFormat::RawProtobuf => "Steam Protobuf"@,
        ManifestFormat::ZipArchive => "ZIP Archive"@,
        ManifestFormat::ZlibCompressed => "Zlib Compressed"@,
        ManifestFormat::Unknown => "Unknown"@,
    }
}

/// A stored manifest, with the format it came in and its sizes before and
/// after extraction.
pub struct ManifestResult {
    pub path: PathText,
    pub format_detected: String,
    pub original_size: usize,
    pub final_size: usize,
}

/// Why the manifest bytes could not be got out of a download.
#[derive(Debug, PartialEq, Eq, Structural)]
pub enum ExtractError {
    /// It looked like a ZIP archive but did not open as one.
    ZipUnreadable,
    /// The ZIP archive holds no file that starts like a manifest.
    NoManifestInZip,
    /// It looked zlib-compressed but did not inflate.
    ZlibFailed,
}

/// `PK\x03\x04`, the start of a ZIP archive.
pub open spec fn zip_magic_at(b: Seq<u8>, i: int) -> bool {
    0 <= i && i + 4 <= b.len() && b[i] == 0x50u8 && b[i + 1] == 0x4Bu8 && b[i + 2] == 0x03u8 && b[i + 3] == 0x04u8
}

/// The Steam manifest magic 0x71F617D0, stored little-endian at the start.
pub open spec fn manifest_magic(b: Seq<u8>) -> bool {
    b.len() >= 4 && b[0] == 0xD0u8 && b[1] == 0x17u8 && b[2] == 0xF6u8 && b[3] == 0x71u8
}

pub open spec fn format_of(b: Seq<u8>) -> ManifestFormat {
    if b.len() < 4 {
        ManifestFormat::Unknown
    } else if zip_magic_at(b, 0) {
        ManifestFormat::ZipArchive
    } else if manifest_magic(b) {
        ManifestFormat::RawProtobuf
    } else if b[0] == 0x78u8 {
        ManifestFormat::ZlibCompressed
    } else {
        ManifestFormat::Unknown
    }
}

pub fn detect_format(bytes: &[u8]) -> (r: ManifestFormat)
    ensures
        r == format_of(bytes@),
{
    if bytes.len() < 4 {
        return ManifestFormat::Unknown;
    }
    if bytes[0] == 0x50u8 && bytes[1] == 0x4Bu8 && bytes[2] == 0x03u8 && bytes[3] == 0x04u8 {
        return ManifestFormat::ZipArchive;
    }
    if bytes[0] == 0xD0u8 && bytes[1] == 0x17u8 && bytes[2] == 0xF6u8 && bytes[3] == 0x71u8 {
        return ManifestFormat::RawProtobuf;
    }
    if bytes[0] == 0x78u8 {
        return ManifestFormat::ZlibCompressed;
    }
    ManifestFormat::Unknown
}

// ---------------------------------------------------------------------------
// The ZIP and zlib readers
// ---------------------------------------------------------------------------

#[verifier::external_type_specification]
#[verifier::external_body]
#[verifier::reject_recursive_types(T)]
pub struct ExCursor<T>(std::io::Cursor<T>);

#[verifier::external_type_specification]
#[verifier::external_body]
#[verifier::reject_recursive_types(R)]
pub struct ExZipArchive<R>(zip::ZipArchive<R>);

/// One file of an archive as read by index: `None` when it cannot be got at;
/// else its name (`None` when the name cannot be decoded), whether it is a
/// directory, and its contents (`None` when they cannot be read).
pub type EntryModel = Option<(Option<Seq<char>>, bool, Option<Seq<u8>>)>;

/// The files of an open archive, in index order.
pub uninterp spec fn zip_entries(a: zip::ZipArchive<std::io::Cursor<Vec<u8>>>) -> Seq<Option<(Option<Seq<char>>, bool, Option<Seq<u8>>)>>;

/// What `zip::ZipArchive::new` reads from the bytes: the files, or `None`
/// when they do not form an archive.
pub uninterp spec fn zip_open(bytes: Seq<u8>) -> Option<Seq<Option<(Option<Seq<char>>, bool, Option<Seq<u8>>)>>>;

/// `zip::ZipArchive::new` over the bytes: an archive whose files are those
/// that `zip_open` names, or `None` exactly when it names none. The error
/// text is dropped.
#[verifier::external_body]
pub(crate) fn open_zip(bytes: Vec<u8>) -> (r: Option<zip::ZipArchive<std::io::Cursor<Vec<u8>>>>)
    ensures
        r is Some <==> zip_open(bytes@) is Some,
        r is Some ==> zip_entries(r->0) == zip_open(bytes@)->0,
{
    zip::ZipArchive::new(std::io::Cursor::new(bytes)).ok()
}

/// `zip::ZipArchive::len`: the number of files.
#[verifier::external_body]
pub(crate) fn zip_len(a: &zip::ZipArchive<std::io::Cursor<Vec<u8>>>) -> (n: usize)
    ensures
        n == zip_entries(*a).len(),
{
    a.len()
}

/// `by_index`, then `name`, `is_dir` and `read_to_end` on the file got: the
/// `i`-th file as `zip_entries` has it. The archive's files stay as they were.
#[verifier::external_body]
pub(crate) fn zip_entry(a: &mut zip::ZipArchive<std::io::Cursor<Vec<u8>>>, i: usize) -> (r: Option<(Option<String>, bool, Option<Vec<u8>>)>)
    requires
        i < zip_entries(*old(a)).len(),
    ensures
        zip_entries(*final(a)) == zip_entries(*old(a)),
        entry_view(r) == zip_entries(*old(a))[i as int],
{
    match a.by_index(i) {
        Ok(mut f) => {
            let name = f.name().ok().map(|n| n.to_string());
            let is_dir = f.is_dir();
            let mut buf = Vec::new();
            let data = std::io::Read::read_to_end(&mut f, &mut buf).ok().map(|_| buf);
            Some((name, is_dir, data))
        },
        Err(_) => None,
    }
}

pub open spec fn entry_view(e: Option<(Option<String>, bool, Option<Vec<u8>>)>) -> EntryModel {
    match e {
        Some((n, d, b)) => Some((
            match n {
                Some(s) => Some(s@),
                None => None,
            },
            d,
            match b {
                Some(v) => Some(v@),
                None => None,
            },
        )),
        None => None,
    }
}

/// What a zlib stream inflates to, `None` when it does not inflate.
pub uninterp spec fn zlib_inflate(bytes: Seq<u8>) -> Option<Seq<u8>>;

/// `flate2::read::ZlibDecoder` read to the end: the inflated bytes, or `None`
/// when reading fails.
#[verifier::external_body]
pub(crate) fn inflate_zlib(bytes: &[u8]) -> (r: Option<Vec<u8>>)
    ensures
        match r {
            Some(v) => zlib_inflate(bytes@) == Some(v@),
            None => zlib_inflate(bytes@) is None,
        },
{
    let mut out = Vec::new();
    std::io::Read::read_to_end(&mut flate2::read::ZlibDecoder::new(bytes), &mut out).ok().map(|_| out)
}

// ---------------------------------------------------------------------------
// Choosing the manifest inside an archive
// ---------------------------------------------------------------------------

/// How well an archive file fits the wanted manifest: 10 for the magic, 100
/// more when its name holds the manifest id, 50 when it holds the depot id, 5
/// when it ends in `.manifest`.
pub open spec fn entry_score(name: Seq<char>, depot_id: Seq<char>, gid: Seq<char>) -> int {
    10 + (if contains_text(name, gid) { 100int } else { 0 }) + (if contains_text(name, depot_id) { 50int } else { 0 })
        + (if has_suffix(name, ".manifest"@) { 5int } else { 0 })
}

/// A file that can hold the manifest: readable, not a directory, at least 8
/// bytes starting with the magic. An undecodable name counts as empty.
pub open spec fn candidate(e: EntryModel) -> bool {
    match e {
        Some((_, is_dir, Some(data))) => !is_dir && data.len() >= 8 && manifest_magic(data),
        _ => false,
    }
}

pub open spec fn entry_name(e: EntryModel) -> Seq<char> {
    match e {
        Some((Some(n), _, _)) => n,
        _ => Seq::empty(),
    }
}

pub open spec fn entry_data(e: EntryModel) -> Seq<u8> {
    match e {
        Some((_, _, Some(d))) => d,
        _ => Seq::empty(),
    }
}

/// The best candidate among the files: the highest score, the first one on a
/// tie; its contents and score.
pub open spec fn best_candidate(es: Seq<EntryModel>, depot_id: Seq<char>, gid: Seq<char>) -> Option<(Seq<u8>, int)>
    decreases es.len(),
{
    if es.len() == 0 {
        None
    } else {
        let prev = best_candidate(es.drop_last(), depot_id, gid);
        let e = es.last();
        if !candidate(e) {
            prev
        } else {
            let s = entry_score(entry_name(e), depot_id, gid);
            match prev {
                Some((b, bs)) => if s > bs { Some((entry_data(e), s)) } else { Some((b, bs)) },
                None => Some((entry_data(e), s)),
            }
        }
    }
}

proof fn lemma_best_candidate(es: Seq<EntryModel>, depot_id: Seq<char>, gid: Seq<char>)
    ensures
        match best_candidate(es, depot_id, gid) {
            None => forall|j: int| 0 <= j < es.len() ==> !candidate(#[trigger] es[j]),
            Some((d, s)) => exists|i: int| 0 <= i < es.len() && candidate(#[trigger] es[i]) && entry_data(es[i]) == d
                && s == entry_score(entry_name(es[i]), depot_id, gid)
                && forall|j: int| 0 <= j < es.len() && candidate(#[trigger] es[j]) ==>
                    entry_score(entry_name(es[j]), depot_id, gid) <= s
                    && (j < i ==> entry_score(entry_name(es[j]), depot_id, gid) < s),
        },
    decreases es.len(),
{
    if es.len() > 0 {
        let pre = es.drop_last();
        lemma_best_candidate(pre, depot_id, gid);
        let n = es.len() - 1;
        assert forall|j: int| 0 <= j < pre.len() implies pre[j] == es[j] by {}
        assert(es.last() == es[n]);
        match best_candidate(pre, depot_id, gid) {
            None => {},
            Some((b, bs)) => {
                let i = choose|i: int| 0 <= i < pre.len() && candidate(#[trigger] pre[i]) && entry_data(pre[i]) == b
                    && bs == entry_score(entry_name(pre[i]), depot_id, gid)
                    && forall|j: int| 0 <= j < pre.len() && candidate(#[trigger] pre[j]) ==>
                        entry_score(entry_name(pre[j]), depot_id, gid) <= bs
                        && (j < i ==> entry_score(entry_name(pre[j]), depot_id, gid) < bs);
                assert(es[i] == pre[i]);
            },
        }
    }
}

/// The manifest taken from an archive is the contents of a candidate file
/// (readable, no directory, at least 8 bytes opening with the magic), and
/// there is one exactly when some file is a candidate. Among the candidates
/// it prefers, in this order, a name holding the manifest id, then a name
/// holding the depot id, then a name ending in `.manifest`; between files
/// equal on all three, the first is kept.
pub proof fn law_best_candidate(es: Seq<EntryModel>, depot_id: Seq<char>, gid: Seq<char>)
    ensures
        best_candidate(es, depot_id, gid) is None <==> forall|j: int| 0 <= j < es.len() ==> !candidate(#[trigger] es[j]),
        best_candidate(es, depot_id, gid) matches Some((d, _)) ==> exists|i: int|
            0 <= i < es.len() && candidate(#[trigger] es[i]) && entry_data(es[i]) == d
            && forall|j: int| 0 <= j < es.len() && candidate(#[trigger] es[j]) ==> {
                let ni = entry_name(es[i]);
                let nj = entry_name(es[j]);
                let same_id = contains_text(nj, gid) == contains_text(ni, gid);
                let same_depot = contains_text(nj, depot_id) == contains_text(ni, depot_id);
                let same_end = has_suffix(nj, ".manifest"@) == has_suffix(ni, ".manifest"@);
                &&& (contains_text(nj, gid) ==> contains_text(ni, gid))
                &&& (same_id && contains_text(nj, depot_id) ==> contains_text(ni, depot_id))
                &&& (same_id && same_depot && has_suffix(nj, ".manifest"@) ==> has_suffix(ni, ".manifest"@))
                &&& (j < i ==> !(same_id && same_depot && same_end))
            },
{
    lemma_best_candidate(es, depot_id, gid);
    match best_candidate(es, depot_id, gid) {
        None => {},
        Some((d, s)) => {
            let i = choose|i: int| 0 <= i < es.len() && candidate(#[trigger] es[i]) && entry_data(es[i]) == d
                && s == entry_score(entry_name(es[i]), depot_id, gid)
                && forall|j: int| 0 <= j < es.len() && candidate(#[trigger] es[j]) ==>
                    entry_score(entry_name(es[j]), depot_id, gid) <= s
                    && (j < i ==> entry_score(entry_name(es[j]), depot_id, gid) < s);
            assert(candidate(es[i]));
        },
    }
}

/// The first file whose name ends in `.manifest` and whose contents read.
pub open spec fn first_named_manifest(es: Seq<EntryModel>) -> Option<Seq<u8>>
    decreases es.len(),
{
    if es.len() == 0 {
        None
    } else {
        match first_named_manifest(es.drop_last()) {
            Some(d) => Some(d),
            None => {
                let e = es.last();
                match e {
                    Some((Some(n), _, Some(d))) => if has_suffix(n, ".manifest"@) { Some(d) } else { None },
                    _ => None,
                }
            },
        }
    }
}

/// The first offset, below `min(len, 1024) - 4`, where `PK\x03\x04` starts.
pub open spec fn zip_scan(b: Seq<u8>, from: int) -> Option<int>
    decreases scan_limit(b) - from,
{
    if from < 0 || from >= scan_limit(b) {
        None
    } else if zip_magic_at(b, from) {
        Some(from)
    } else {
        zip_scan(b, from + 1)
    }
}

pub open spec fn scan_limit(b: Seq<u8>) -> int {
    let m = if b.len() < 1024 { b.len() as int } else { 1024 };
    if m >= 4 { m - 4 } else { 0 }
}

/// What the unknown-format recovery makes of the bytes: a `.manifest` file of
/// an archive starting within the first kilobyte; else the inflated bytes when
/// they inflate to more than half the input's length; else the bytes as they
/// are.
pub open spec fn recovered(b: Seq<u8>) -> (Seq<u8>, ManifestFormat) {
    let from_zip: Option<Seq<u8>> = if b.len() > 10 {
        match zip_scan(b, 0) {
            Some(off) => match zip_open(b.skip(off)) {
                Some(es) => first_named_manifest(es),
                None => None,
            },
            None => None,
        }
    } else {
        None
    };
    match from_zip {
        Some(d) => (d, ManifestFormat::ZipArchive),
        None => match zlib_inflate(b) {
            Some(d) => if d.len() > b.len() / 2 {
                (d, ManifestFormat::ZlibCompressed)
            } else {
                (b, ManifestFormat::Unknown)
            },
            None => (b, ManifestFormat::Unknown),
        },
    }
}

/// The manifest bytes of a download, by its format.
pub open spec fn extracted(b: Seq<u8>, depot_id: Seq<char>, gid: Seq<char>) -> Result<(Seq<u8>, ManifestFormat), ExtractError> {
    match format_of(b) {
        ManifestFormat::RawProtobuf => Ok((b, ManifestFormat::RawProtobuf)),
        ManifestFormat::ZipArchive => match zip_open(b) {
            None => Err(ExtractError::ZipUnreadable),
            Some(es) => match best_candidate(es, depot_id, gid) {
                Some((d, _)) => Ok((d, ManifestFormat::ZipArchive)),
                None => Err(ExtractError::NoManifestInZip),
            },
        },
        ManifestFormat::ZlibCompressed => match zlib_inflate(b) {
            Some(d) => Ok((d, ManifestFormat::ZlibCompressed)),
            None => Err(ExtractError::ZlibFailed),
        },
        ManifestFormat::Unknown => Ok(recovered(b)),
    }
}

pub(crate) fn copy_slice(b: &[u8], from: usize) -> (r: Vec<u8>)
    requires
        from <= b.len(),
    ensures
        r@ == b@.skip(from as int),
{
    let mut r: Vec<u8> = Vec::new();
    let mut i: usize = from;
    while i < b.len()
        invariant
            from <= i <= b.len(),
            r@ == b@.subrange(from as int, i as int),
        decreases b.len() - i,
    {
        r.push(b[i]);
        assert(b@.subrange(from as int, i + 1) =~= b@.subrange(from as int, i as int).push(b@[i as int]));
        i = i + 1;
    }
    assert(b@.subrange(from as int, b.len() as int) =~= b@.skip(from as int));
    r
}

pub(crate) fn name_text(n: &Option<String>) -> (r: String)
    ensures
        r@ == match n {
            Some(s) => s@,
            None => Seq::<char>::empty(),
        },
{
    match n {
        Some(s) => s.clone(),
        None => String::new(),
    }
}

/// Picks the best-scoring manifest file of an archive.
fn best_in_archive(
    a: &mut zip::ZipArchive<std::io::Cursor<Vec<u8>>>,
    depot_id: &str,
    manifest_gid: &str,
) -> (r: Option<Vec<u8>>)
    ensures
        zip_entries(*final(a)) == zip_entries(*old(a)),
        match best_candidate(zip_entries(*old(a)), depot_id@, manifest_gid@) {
            Some((d, _)) => r is Some && r->0@ == d,
            None => r is None,
        },
{
    let ghost es = zip_entries(*a);
    let n = zip_len(a);
    let mut best: Option<(Vec<u8>, u32)> = None;
    let mut i: usize = 0;
    while i < n
        invariant
            i <= n,
            n == es.len(),
            zip_entries(*a) == es,
            match best_candidate(es.take(i as int), depot_id@, manifest_gid@) {
                Some((d, s)) => match best {
                    Some(p) => p.0@ == d && p.1 == s,
                    None => false,
                },
                None => best is None,
            },
        decreases n - i,
    {
        let e = zip_entry(a, i);
        proof {
            assert(es.take(i as int + 1).drop_last() =~= es.take(i as int));
            assert(es.take(i as int + 1).last() == es[i as int]);
        }
        match e {
            Some((name, is_dir, Some(buf))) => {
                if !is_dir && buf.len() >= 8 && buf[0] == 0xD0u8 && buf[1] == 0x17u8 && buf[2] == 0xF6u8
                    && buf[3] == 0x71u8 {
                    let nm = name_text(&name);
                    let mut score: u32 = 10;
                    if contains_str(&nm, manifest_gid) {
                        score = score + 100;
                    }
                    if contains_str(&nm, depot_id) {
                        score = score + 50;
                    }
                    if ends_with_str(&nm, ".manifest") {
                        score = score + 5;
                    }
                    let better = match &best {
                        Some((_, bs)) => score > *bs,
                        None => true,
                    };
                    if better {
                        best = Some((buf, score));
                    }
                }
            },
            _ => {},
        }
        i = i + 1;
    }
    assert(es.take(n as int) =~= es);
    match best {
        Some((d, _)) => Some(d),
        None => None,
    }
}

/// The bytes of the first `.manifest` file of an archive that reads.
fn first_manifest_in_archive(a: &mut zip::ZipArchive<std::io::Cursor<Vec<u8>>>) -> (r: Option<Vec<u8>>)
    ensures
        match first_named_manifest(zip_entries(*old(a))) {
            Some(d) => r is Some && r->0@ == d,
            None => r is None,
        },
{
    let ghost es = zip_entries(*a);
    let n = zip_len(a);
    let mut i: usize = 0;
    while i < n
        invariant
            i <= n,
            n == es.len(),
            zip_entries(*a) == es,
            es == zip_entries(*old(a)),
            first_named_manifest(es.take(i as int)) is None,
        decreases n - i,
    {
        let e = zip_entry(a, i);
        proof {
            assert(es.take(i as int + 1).drop_last() =~= es.take(i as int));
            assert(es.take(i as int + 1).last() == es[i as int]);
        }
        match e {
            Some((Some(name), dir, Some(buf))) => {
                if ends_with_str(&name, ".manifest") {
                    proof {
                        assert(es[i as int] == Some((Some(name@), dir, Some(buf@))));
                        assert(first_named_manifest(es.take(i as int + 1)) == Some(buf@));
                        lemma_first_named_extend(es, i as int + 1);
                        assert(first_named_manifest(es) == Some(buf@));
                        assert(es == zip_entries(*old(a)));
                    }
                    return Some(buf);
                }
            },
            _ => {},
        }
        i = i + 1;
    }
    assert(es.take(n as int) =~= es);
    None
}

proof fn lemma_first_named_extend(es: Seq<EntryModel>, j: int)
    requires
        0 <= j <= es.len(),
        first_named_manifest(es.take(j)) is Some,
    ensures
        first_named_manifest(es) == first_named_manifest(es.take(j)),
    decreases es.len() - j,
{
    if j == es.len() {
        assert(es.take(j) =~= es);
    } else {
        assert(es.take(j + 1).drop_last() =~= es.take(j));
        lemma_first_named_extend(es, j + 1);
    }
}

/// Gets the manifest bytes out of a download, with the format it came in.
pub fn extract_manifest_bytes(raw_bytes: &[u8], depot_id: &str, manifest_gid: &str)
    -> (r: Result<(Vec<u8>, ManifestFormat), ExtractError>)
    ensures
        match extracted(raw_bytes@, depot_id@, manifest_gid@) {
            Ok((d, f)) => match r {
                Ok(p) => p.0@ == d && p.1 == f,
                Err(_) => false,
            },
            Err(e) => r == Err::<(Vec<u8>, ManifestFormat), ExtractError>(e),
        },
{
    let format = detect_format(raw_bytes);
    assert(raw_bytes@.skip(0) =~= raw_bytes@);
    match format {
        ManifestFormat::RawProtobuf => Ok((copy_slice(raw_bytes, 0), format)),
        ManifestFormat::ZipArchive => {
            match open_zip(copy_slice(raw_bytes, 0)) {
                None => Err(ExtractError::ZipUnreadable),
                Some(mut archive) => match best_in_archive(&mut archive, depot_id, manifest_gid) {
                    Some(d) => Ok((d, format)),
                    None => Err(ExtractError::NoManifestInZip),
                },
            }
        },
        ManifestFormat::ZlibCompressed => match inflate_zlib(raw_bytes) {
            Some(d) => Ok((d, format)),
            None => Err(ExtractError::ZlibFailed),
        },
        ManifestFormat::Unknown => {
            assert(raw_bytes@.skip(0) =~= raw_bytes@);
            Ok(recover_unknown(raw_bytes))
        },
    }
}

/// The inflated bytes when they inflate to more than half the input's
/// length, else the input as it is.
pub(crate) fn zlib_fallback(raw_bytes: &[u8]) -> (r: (Vec<u8>, ManifestFormat))
    ensures
        match zlib_inflate(raw_bytes@) {
            Some(d) => if d.len() > raw_bytes@.len() / 2 {
                r.0@ == d && r.1 == ManifestFormat::ZlibCompressed
            } else {
                r.0@ == raw_bytes@ && r.1 == ManifestFormat::Unknown
            },
            None => r.0@ == raw_bytes@ && r.1 == ManifestFormat::Unknown,
        },
{
    match inflate_zlib(raw_bytes) {
        Some(d) => {
            if d.len() > raw_bytes.len() / 2 {
                return (d, ManifestFormat::ZlibCompressed);
            }
        },
        None => {},
    }
    let r = copy_slice(raw_bytes, 0);
    assert(raw_bytes@.skip(0) =~= raw_bytes@);
    (r, ManifestFormat::Unknown)
}

fn recover_unknown(raw_bytes: &[u8]) -> (r: (Vec<u8>, ManifestFormat))
    ensures
        r.0@ == recovered(raw_bytes@).0,
        r.1 == recovered(raw_bytes@).1,
{
    let ghost b = raw_bytes@;
    if raw_bytes.len() > 10 {
        let m: usize = if raw_bytes.len() < 1024 { raw_bytes.len() } else { 1024 };
        let limit: usize = if m >= 4 { m - 4 } else { 0 };
        assert(limit == scan_limit(b));
        let mut off: usize = 0;
        while off < limit
            invariant
                off <= limit,
                limit == scan_limit(b),
                limit + 4 <= raw_bytes.len(),
                raw_bytes.len() > 10,
                b == raw_bytes@,
                zip_scan(b, 0) == zip_scan(b, off as int),
            decreases limit - off,
        {
            if raw_bytes[off] == 0x50u8 && raw_bytes[off + 1] == 0x4Bu8 && raw_bytes[off + 2] == 0x03u8
                && raw_bytes[off + 3] == 0x04u8 {
                assert(zip_scan(b, off as int) == Some(off as int));
                let tail = copy_slice(raw_bytes, off);
                match open_zip(tail) {
                    Some(mut archive) => {
                        let ghost es = zip_entries(archive);
                        assert(zip_open(b.skip(off as int)) == Some(es));
                        match first_manifest_in_archive(&mut archive) {
                            Some(d) => {
                                assert(first_named_manifest(es) == Some(d@));
                                return (d, ManifestFormat::ZipArchive);
                            },
                            None => {
                                assert(first_named_manifest(es) is None);
                            },
                        }
                    },
                    None => {},
                }
                return zlib_fallback(raw_bytes);
            }
            off = off + 1;
        }
        assert(zip_scan(b, off as int) is None);
    }
    zlib_fallback(raw_bytes)
}

// ---------------------------------------------------------------------------
// Accepting a download
// ---------------------------------------------------------------------------

/// Why a downloaded manifest was refused.
#[derive(Debug, PartialEq, Eq, Structural)]
pub enum DownloadRejection {
    /// The response was under 100 bytes.
    ResponseTooSmall,
    /// The manifest could not be got out of it.
    Extract(ExtractError),
    /// What came out was under 50 bytes.
    ExtractedTooSmall,
}

/// What is kept of a download of `raw` whose extraction gave `ex`.
pub open spec fn accepted_from(raw: Seq<u8>, ex: Result<(Seq<u8>, ManifestFormat), ExtractError>) -> Result<(Seq<u8>, ManifestFormat), DownloadRejection> {
    if raw.len() < 100 {
        Err(DownloadRejection::ResponseTooSmall)
    } else {
        match ex {
            Err(e) => Err(DownloadRejection::Extract(e)),
            Ok((d, f)) => if d.len() < 50 { Err(DownloadRejection::ExtractedTooSmall) } else { Ok((d, f)) },
        }
    }
}

/// The manifest kept of a download: refused when the response is under 100
/// bytes, when no manifest comes out of it, or when what comes out is under
/// 50 bytes.
pub fn accept_download(raw: &[u8], depot_id: &str, manifest_gid: &str) -> (r: Result<(Vec<u8>, ManifestFormat), DownloadRejection>)
    ensures
        match accepted_from(raw@, extracted(raw@, depot_id@, manifest_gid@)) {
            Ok((d, f)) => r matches Ok(p) && p.0@ == d && p.1 == f,
            Err(e) => r == Err::<(Vec<u8>, ManifestFormat), DownloadRejection>(e),
        },
{
    if raw.len() < 100 {
        return Err(DownloadRejection::ResponseTooSmall);
    }
    match extract_manifest_bytes(raw, depot_id, manifest_gid) {
        Ok((d, f)) => if d.len() < 50 { Err(DownloadRejection::ExtractedTooSmall) } else { Ok((d, f)) },
        Err(e) => Err(DownloadRejection::Extract(e)),
    }
}

/// The code the manifest request service answers: its reply trimmed, refused
/// when that is empty or over 100 bytes.
pub fn gmrc_code(reply: &str) -> (r: Option<String>)
    ensures
        match r {
            Some(t) => t@ == crate::text::trimmed(reply@) && 0 < vstd::utf8::encode_utf8(t@).len() <= 100,
            None => crate::text::trimmed(reply@).len() == 0 || vstd::utf8::encode_utf8(crate::text::trimmed(reply@)).len() > 100,
        },
{
    let t = crate::text::trim_text(reply);
    let n = t.as_str().as_bytes().len();
    proof {
        if t@.len() > 0 {
            assert(vstd::utf8::encode_utf8(t@).len() >= vstd::utf8::encode_scalar(t@[0] as u32).len());
        }
    }
    if n == 0 || n > 100 {
        None
    } else {
        Some(t)
    }
}

/// Where the manifest request code of a manifest is asked for.
pub fn gmrc_url(manifest_gid: &str) -> (r: String)
    ensures
        r@ == "http://gmrc.wudrm.com/manifest/"@ + manifest_gid@,
{
    concat("http://gmrc.wudrm.com/manifest/", manifest_gid)
}

/// Where a manifest is downloaded from a content server.
pub fn manifest_cdn_url(cdn_host: &str, depot_id: &str, manifest_gid: &str, gmrc: &str) -> (r: String)
    ensures
        r@ == "https://"@ + cdn_host@ + "/depot/"@ + depot_id@ + "/manifest/"@ + manifest_gid@ + "/5/"@ + gmrc@,
{
    let a = concat3("https://", cdn_host, "/depot/");
    let b = concat3(&a, depot_id, "/manifest/");
    let c = concat3(&b, manifest_gid, "/5/");
    concat(&c, gmrc)
}

} // verus!
