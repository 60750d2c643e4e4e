//! Steam CDN payloads: an encrypted IV, an AES-256-CBC body, and a compressed
//! content in one of several containers.
use vstd::prelude::*;
use crate::codecs::{aes256_block, aes256_cbc_decrypt, aes256_decrypt_block, cbc_pkcs7, deflate_decode,
    deflate_decoded, gzip_decode, gzip_decoded, zstd_decode_all, zstd_decoded};
use crate::downloader::{zip_entries, zip_open};

verus! {

/// Why a payload could not be decompressed.
#[derive(Debug, PartialEq, Eq, Structural)]
pub enum DecompressError {
    /// A VZstd frame shorter than its header and footer.
    VZstdTooShort,
    /// zstd could not decode the frame.
    Zstd,
    /// A VZip frame shorter than its header and footer.
    VZipTooShort,
    /// LZMA could not decode the frame.
    Lzma,
    /// It starts like a ZIP archive but does not open as one.
    ZipUnreadable,
    /// The archive's first file could not be read.
    ZipEntryUnreadable,
    /// No container fitted.
    AllFailed,
}

/// Why a payload could not be decrypted and decompressed.
#[derive(Debug, PartialEq, Eq, Structural)]
pub enum CryptoError {
    /// Fewer than 16 bytes: no IV.
    TooShort,
    /// The CBC padding did not check out.
    Padding,
    Decompress(DecompressError),
}

/// `VSZa`, the start of a VZstd frame.
pub open spec fn is_vzstd(b: Seq<u8>) -> bool {
    b.len() > 4 && b[0] == 0x56u8 && b[1] == 0x53u8 && b[2] == 0x5Au8 && b[3] == 0x61u8
}

/// `VZa`, the start of a VZip (LZMA) frame.
pub open spec fn is_vzip(b: Seq<u8>) -> bool {
    b.len() > 3 && b[0] == 0x56u8 && b[1] == 0x5Au8 && b[2] == 0x61u8
}

/// `PK\x03\x04` with more after it.
pub open spec fn is_zip(b: Seq<u8>) -> bool {
    b.len() > 4 && b[0] == 0x50u8 && b[1] == 0x4Bu8 && b[2] == 0x03u8 && b[3] == 0x04u8
}

/// The VZstd frame's zstd data: after the 8-byte header, before the 15-byte
/// footer.
pub open spec fn vzstd_decoded(b: Seq<u8>) -> Result<Seq<u8>, DecompressError> {
    if b.len() < 23 {
        Err(DecompressError::VZstdTooShort)
    } else {
        match zstd_decoded(b.subrange(8, b.len() - 15)) {
            Some(d) => Ok(d),
            None => Err(DecompressError::Zstd),
        }
    }
}

/// What the archive step gives: the first file's contents; `None` for an
/// empty archive (the next strategy is tried).
pub open spec fn zip_first(b: Seq<u8>) -> Option<Result<Seq<u8>, DecompressError>> {
    match zip_open(b) {
        None => Some(Err(DecompressError::ZipUnreadable)),
        Some(es) => if es.len() == 0 {
            None
        } else {
            match es[0] {
                Some((_, _, Some(d))) => Some(Ok(d)),
                _ => Some(Err(DecompressError::ZipEntryUnreadable)),
            }
        },
    }
}

/// Raw DEFLATE, then gzip, else failure.
pub open spec fn inflate_last(b: Seq<u8>) -> Result<Seq<u8>, DecompressError> {
    match deflate_decoded(b) {
        Some(d) => Ok(d),
        None => match gzip_decoded(b) {
            Some(d) => Ok(d),
            None => Err(DecompressError::AllFailed),
        },
    }
}

/// The decompression of a manifest payload: VZstd, ZIP, DEFLATE, gzip, tried
/// in that order.
pub open spec fn decompressed(b: Seq<u8>) -> Result<Seq<u8>, DecompressError> {
    if is_vzstd(b) {
        vzstd_decoded(b)
    } else if is_zip(b) && zip_first(b) is Some {
        zip_first(b)->0
    } else {
        inflate_last(b)
    }
}

/// The decrypted payload: the IV decrypted with AES-256, then the body with
/// AES-256-CBC under that IV.
pub open spec fn decrypted(data: Seq<u8>, key: Seq<u8>) -> Result<Seq<u8>, CryptoError> {
    if data.len() < 16 {
        Err(CryptoError::TooShort)
    } else {
        match cbc_pkcs7(key, aes256_block(key, data.take(16)), data.skip(16)) {
            Some(d) => Ok(d),
            None => Err(CryptoError::Padding),
        }
    }
}

pub open spec fn opened(data: Seq<u8>, key: Seq<u8>) -> Result<Seq<u8>, CryptoError> {
    match decrypted(data, key) {
        Err(e) => Err(e),
        Ok(d) => match decompressed(d) {
            Ok(c) => Ok(c),
            Err(e) => Err(CryptoError::Decompress(e)),
        },
    }
}

/// The bytes from `a` up to `b`.
pub fn slice_copy(d: &[u8], a: usize, b: usize) -> (r: Vec<u8>)
    requires
        a <= b <= d@.len(),
    ensures
        r@ == d@.subrange(a as int, b as int),
{
    let mut r: Vec<u8> = Vec::new();
    let mut i: usize = a;
    while i < b
        invariant
            a <= i <= b <= d@.len(),
            r@ == d@.subrange(a as int, i as int),
        decreases b - i,
    {
        r.push(d[i]);
        assert(d@.subrange(a as int, i + 1) =~= d@.subrange(a as int, i as int).push(d@[i as int]));
        i = i + 1;
    }
    r
}

/// The first file of a ZIP archive, when the bytes open as one with at least
/// one file.
pub(crate) fn zip_first_file(input: &[u8]) -> (r: Option<Result<Vec<u8>, DecompressError>>)
    ensures
        match zip_first(input@) {
            None => r is None,
            Some(Ok(d)) => r matches Some(Ok(v)) && v@ == d,
            Some(Err(e)) => r == Some(Err::<Vec<u8>, DecompressError>(e)),
        },
{
    let copy = slice_copy(input, 0, input.len());
    assert(input@.subrange(0, input@.len() as int) =~= input@);
    match crate::downloader::open_zip(copy) {
        None => Some(Err(DecompressError::ZipUnreadable)),
        Some(mut archive) => {
            if crate::downloader::zip_len(&archive) == 0 {
                return None;
            }
            match crate::downloader::zip_entry(&mut archive, 0) {
                Some((_, _, Some(d))) => Some(Ok(d)),
                _ => Some(Err(DecompressError::ZipEntryUnreadable)),
            }
        },
    }
}

/// DEFLATE, then gzip.
pub(crate) fn inflate_either(input: &[u8]) -> (r: Result<Vec<u8>, DecompressError>)
    ensures
        match inflate_last(input@) {
            Ok(d) => r matches Ok(v) && v@ == d,
            Err(e) => r == Err::<Vec<u8>, DecompressError>(e),
        },
{
    match deflate_decode(input) {
        Some(d) => Ok(d),
        None => match gzip_decode(input) {
            Some(d) => Ok(d),
            None => Err(DecompressError::AllFailed),
        },
    }
}

/// Decompresses a manifest payload.
pub fn perform_decompression(input: &[u8]) -> (r: Result<Vec<u8>, DecompressError>)
    ensures
        match decompressed(input@) {
            Ok(d) => r matches Ok(v) && v@ == d,
            Err(e) => r == Err::<Vec<u8>, DecompressError>(e),
        },
{
    let n = input.len();
    if n > 4 && input[0] == 0x56u8 && input[1] == 0x53u8 && input[2] == 0x5Au8 && input[3] == 0x61u8 {
        if n < 23 {
            return Err(DecompressError::VZstdTooShort);
        }
        let body = slice_copy(input, 8, n - 15);
        return match zstd_decode_all(body.as_slice()) {
            Some(d) => Ok(d),
            None => Err(DecompressError::Zstd),
        };
    }
    if n > 4 && input[0] == 0x50u8 && input[1] == 0x4Bu8 && input[2] == 0x03u8 && input[3] == 0x04u8 {
        match zip_first_file(input) {
            Some(r) => {
                return r;
            },
            None => {},
        }
    }
    inflate_either(input)
}

/// Decrypts a payload: the first 16 bytes are the encrypted IV.
pub fn decrypt_payload(data: &[u8], depot_key: &[u8; 32]) -> (r: Result<Vec<u8>, CryptoError>)
    ensures
        match decrypted(data@, depot_key@) {
            Ok(d) => r matches Ok(v) && v@ == d,
            Err(e) => r == Err::<Vec<u8>, CryptoError>(e),
        },
{
    if data.len() < 16 {
        return Err(CryptoError::TooShort);
    }
    let iv_enc = slice_copy(data, 0, 16);
    let body = slice_copy(data, 16, data.len());
    assert(data@.subrange(0, 16) =~= data@.take(16));
    assert(data@.subrange(16, data@.len() as int) =~= data@.skip(16));
    let iv = aes256_decrypt_block(depot_key, iv_enc.as_slice());
    match aes256_cbc_decrypt(depot_key, iv.as_slice(), body.as_slice()) {
        Some(d) => Ok(d),
        None => Err(CryptoError::Padding),
    }
}

/// Decrypts and decompresses a Steam CDN payload.
pub fn decrypt_and_decompress(encrypted_data: &[u8], depot_key: &[u8; 32]) -> (r: Result<Vec<u8>, CryptoError>)
    ensures
        match opened(encrypted_data@, depot_key@) {
            Ok(d) => r matches Ok(v) && v@ == d,
            Err(e) => r == Err::<Vec<u8>, CryptoError>(e),
        },
{
    match decrypt_payload(encrypted_data, depot_key) {
        Err(e) => Err(e),
        Ok(d) => match perform_decompression(d.as_slice()) {
            Ok(c) => Ok(c),
            Err(e) => Err(CryptoError::Decompress(e)),
        },
    }
}

} // verus!
