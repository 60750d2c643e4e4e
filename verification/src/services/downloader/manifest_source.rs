//! The second manifest source: the same download path as the manifest
//! downloader, with its own way of picking a manifest out of an archive and
//! no archive recovery for unknown data.
use vstd::prelude::*;
pub use crate::downloader::{ManifestFormat, ManifestResult};
use crate::downloader::{
    DownloadRejection, EntryModel, ExtractError, accepted_from, copy_slice, detect_format, format_of, inflate_zlib,
    manifest_magic, open_zip, zip_entries, zip_entry, zip_len, zip_open, zlib_fallback, zlib_inflate,
};
use crate::text::{ends_with_str, has_suffix};

verus! {

/// The manifest source; it keeps no state of its own.
pub struct ManifestSource;

/// A readable file that is no directory and starts with the manifest magic.
pub open spec fn magic_file(e: EntryModel) -> Option<Seq<u8>> {
    match e {
        Some((_, false, Some(d))) => if d.len() >= 4 && manifest_magic(d) { Some(d) } else { None },
        _ => None,
    }
}

/// A readable file that is no directory and whose name ends in `.manifest`.
pub open spec fn named_file(e: EntryModel) -> Option<Seq<u8>> {
    match e {
        Some((Some(n), false, Some(d))) => if has_suffix(n, ".manifest"@) { Some(d) } else { None },
        _ => None,
    }
}

/// The first file that starts with the manifest magic.
pub open spec fn first_magic_file(es: Seq<EntryModel>) -> Option<Seq<u8>>
    decreases es.len(),
{
    if es.len() == 0 {
        None
    } else {
        match first_magic_file(es.drop_last()) {
            Some(d) => Some(d),
            None => magic_file(es.last()),
        }
    }
}

/// The first file named like a manifest.
pub open spec fn first_named_file(es: Seq<EntryModel>) -> Option<Seq<u8>>
    decreases es.len(),
{
    if es.len() == 0 {
        None
    } else {
        match first_named_file(es.drop_last()) {
            Some(d) => Some(d),
            None => named_file(es.last()),
        }
    }
}

/// The manifest in an archive: the first file with the magic, else the first
/// file named like a manifest.
pub open spec fn archive_pick(es: Seq<EntryModel>) -> Option<Seq<u8>> {
    match first_magic_file(es) {
        Some(d) => Some(d),
        None => first_named_file(es),
    }
}

/// The manifest bytes of a download, by its format; unknown data is inflated
/// when it inflates to more than half its length, else kept as it is.
pub open spec fn source_extracted(b: Seq<u8>) -> Result<(Seq<u8>, ManifestFormat), ExtractError> {
    match format_of(b) {
        ManifestFormat::RawProtobuf => Ok((b, ManifestFormat::RawProtobuf)),
        ManifestFormat::ZipArchive => match zip_open(b) {
            None => Err(ExtractError::ZipUnreadable),
            Some(es) => match archive_pick(es) {
                Some(d) => Ok((d, ManifestFormat::ZipArchive)),
                None => Err(ExtractError::NoManifestInZip),
            },
        },
        ManifestFormat::ZlibCompressed => match zlib_inflate(b) {
            Some(d) => Ok((d, ManifestFormat::ZlibCompressed)),
            None => Err(ExtractError::ZlibFailed),
        },
        ManifestFormat::Unknown => match zlib_inflate(b) {
            Some(d) => if d.len() > b.len() / 2 {
                Ok((d, ManifestFormat::ZlibCompressed))
            } else {
                Ok((b, ManifestFormat::Unknown))
            },
            None => Ok((b, ManifestFormat::Unknown)),
        },
    }
}

proof fn lemma_first_found(es: Seq<EntryModel>, i: int, magic: bool)
    requires
        0 <= i < es.len(),
        magic ==> first_magic_file(es.take(i)) is None && magic_file(es[i]) is Some,
        !magic ==> first_named_file(es.take(i)) is None && named_file(es[i]) is Some,
    ensures
        magic ==> first_magic_file(es) == magic_file(es[i]),
        !magic ==> first_named_file(es) == named_file(es[i]),
    decreases es.len() - i,
{
    if i + 1 < es.len() {
        assert(es.drop_last().take(i) =~= es.take(i));
        assert(es.drop_last()[i] == es[i]);
        lemma_first_found(es.drop_last(), i, magic);
    } else {
        assert(es.drop_last() =~= es.take(i));
    }
}

impl ManifestSource {
    /// The format of a download, by its first bytes.
    pub fn detect_format(bytes: &[u8]) -> (r: ManifestFormat)
        ensures
            r == format_of(bytes@),
    {
        detect_format(bytes)
    }

    /// The manifest in an open archive.
    fn pick_in_archive(a: &mut zip::ZipArchive<std::io::Cursor<Vec<u8>>>) -> (r: Option<Vec<u8>>)
        ensures
            match archive_pick(zip_entries(*old(a))) {
                Some(d) => r is Some && r->0@ == d,
                None => r is None,
            },
    {
        let ghost es = zip_entries(*a);
        let n = zip_len(a);
        let mut named: Option<Vec<u8>> = None;
        let mut i: usize = 0;
        while i < n
            invariant
                i <= n,
                n == es.len(),
                zip_entries(*a) == es,
                es == zip_entries(*old(a)),
                first_magic_file(es.take(i as int)) is None,
                match first_named_file(es.take(i as int)) {
                    Some(d) => named is Some && named->0@ == d,
                    None => named is None,
                },
            decreases n - i,
        {
            proof {
                assert(es.take(i as int + 1).drop_last() =~= es.take(i as int));
                assert(es.take(i as int + 1).last() == es[i as int]);
            }
            let e = zip_entry(a, i);
            match e {
                Some((name, false, Some(d))) => {
                    if d.len() >= 4 && d[0] == 0xD0u8 && d[1] == 0x17u8 && d[2] == 0xF6u8 && d[3] == 0x71u8 {
                        proof {
                            assert(magic_file(es[i as int]) == Some(d@));
                            lemma_first_found(es, i as int, true);
                        }
                        return Some(d);
                    }
                    if named.is_none() {
                        let ends = match &name {
                            Some(t) => ends_with_str(t, ".manifest"),
                            None => false,
                        };
                        if ends {
                            named = Some(d);
                        }
                    }
                },
                _ => {},
            }
            i = i + 1;
        }
        assert(es.take(n as int) =~= es);
        named
    }

    /// Gets the manifest bytes out of a download, with the format it came in.
    pub fn extract_manifest_bytes(raw_bytes: &[u8]) -> (r: Result<(Vec<u8>, ManifestFormat), ExtractError>)
        ensures
            match source_extracted(raw_bytes@) {
                Ok((d, f)) => r matches Ok(p) && p.0@ == d && p.1 == f,
                Err(e) => r == Err::<(Vec<u8>, ManifestFormat), ExtractError>(e),
            },
    {
        let format = detect_format(raw_bytes);
        assert(raw_bytes@.skip(0) =~= raw_bytes@);
        match format {
            ManifestFormat::RawProtobuf => Ok((copy_slice(raw_bytes, 0), format)),
            ManifestFormat::ZipArchive => match open_zip(copy_slice(raw_bytes, 0)) {
                None => Err(ExtractError::ZipUnreadable),
                Some(mut archive) => match Self::pick_in_archive(&mut archive) {
                    Some(d) => Ok((d, format)),
                    None => Err(ExtractError::NoManifestInZip),
                },
            },
            ManifestFormat::ZlibCompressed => match inflate_zlib(raw_bytes) {
                Some(d) => Ok((d, format)),
                None => Err(ExtractError::ZlibFailed),
            },
            ManifestFormat::Unknown => Ok(zlib_fallback(raw_bytes)),
        }
    }

    /// The manifest kept of a download: refused when the response is under
    /// 100 bytes, when no manifest comes out of it, or when what comes out is
    /// under 50 bytes.
    pub fn accept_download(raw: &[u8]) -> (r: Result<(Vec<u8>, ManifestFormat), DownloadRejection>)
        ensures
            match accepted_from(raw@, source_extracted(raw@)) {
                Ok((d, f)) => r matches Ok(p) && p.0@ == d && p.1 == f,
                Err(e) => r == Err::<(Vec<u8>, ManifestFormat), DownloadRejection>(e),
            },
    {
        if raw.len() < 100 {
            return Err(DownloadRejection::ResponseTooSmall);
        }
        match Self::extract_manifest_bytes(raw) {
            Ok((d, f)) => if d.len() < 50 { Err(DownloadRejection::ExtractedTooSmall) } else { Ok((d, f)) },
            Err(e) => Err(DownloadRejection::Extract(e)),
        }
    }
}

} // verus!
