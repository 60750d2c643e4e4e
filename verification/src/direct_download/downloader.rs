//! Chunk jobs from a depot manifest, and what happens to a downloaded chunk:
//! decryption, decompression, and the checksum check.
use vstd::prelude::*;
use crate::codecs::{aes256_block, aes256_decrypt_block, lzma_decompress, lzma_decoded, zstd_decode_all};
use crate::downloader::zip_open;
use crate::services::downloader::manifest_parser::{ChunkModel, FileModel, ManifestError, ManifestParser,
    ProtoDepotManifest, parse_manifest};
use crate::text::{concat, decimal, decimal_string};
use crate::utils::crypto::{CryptoError, DecompressError, decrypted, decrypt_payload, inflate_either,
    inflate_last, is_vzip, is_vzstd, is_zip, slice_copy, vzstd_decoded, zip_first, zip_first_file};

verus! {

/// One chunk to fetch: its id in hex, Adler-32 checksum, place in its file,
/// sizes, and the file it belongs to.
pub struct ChunkData {
    pub id: String,
    pub checksum: u32,
    pub offset: u64,
    pub compressed_length: u32,
    pub uncompressed_length: u32,
    pub filename: String,
}

pub struct ChunkDataModel {
    pub id: Seq<char>,
    pub checksum: u32,
    pub offset: u64,
    pub compressed_length: u32,
    pub uncompressed_length: u32,
    pub filename: Seq<char>,
}

impl View for ChunkData {
    type V = ChunkDataModel;

    open spec fn view(&self) -> ChunkDataModel {
        ChunkDataModel {
            id: self.id@,
            checksum: self.checksum,
            offset: self.offset,
            compressed_length: self.compressed_length,
            uncompressed_length: self.uncompressed_length,
            filename: self.filename@,
        }
    }
}

pub open spec fn jobs_view(js: Seq<ChunkData>) -> Seq<ChunkDataModel> {
    js.map_values(|j: ChunkData| j@)
}

/// A lower-case hex digit.
pub open spec fn hex_digit(n: nat) -> char {
    if n < 10 {
        ((48 + n) as u32) as char
    } else {
        ((87 + n) as u32) as char
    }
}

/// Each byte as two lower-case hex digits, high half first.
pub open spec fn hex_text(b: Seq<u8>) -> Seq<char>
    decreases b.len(),
{
    if b.len() == 0 {
        Seq::empty()
    } else {
        hex_text(b.drop_last()) + seq![hex_digit((b.last() / 16) as nat), hex_digit((b.last() % 16) as nat)]
    }
}

/// `hex::encode`: each byte as two lower-case hex digits, high half first.
#[verifier::external_body]
pub(crate) fn hex_encode(bytes: &[u8]) -> (s: String)
    ensures
        s@ == hex_text(bytes@),
{
    hex::encode(bytes)
}

/// The value of a hex digit of either case.
pub open spec fn hex_value(c: char) -> Option<u8> {
    if '0' <= c && c <= '9' {
        Some(((c as u32) - 48) as u8)
    } else if 'a' <= c && c <= 'f' {
        Some(((c as u32) - 87) as u8)
    } else if 'A' <= c && c <= 'F' {
        Some(((c as u32) - 55) as u8)
    } else {
        None
    }
}

/// The bytes a hex text stands for, two digits a byte, high half first;
/// `None` when its length is odd or a character is no hex digit.
pub open spec fn hex_bytes(s: Seq<char>) -> Option<Seq<u8>>
    decreases s.len(),
{
    if s.len() == 0 {
        Some(Seq::empty())
    } else if s.len() == 1 {
        None
    } else {
        match (hex_bytes(s.take(s.len() - 2)), hex_value(s[s.len() - 2]), hex_value(s[s.len() - 1])) {
            (Some(b), Some(h), Some(l)) => Some(b.push((h * 16 + l) as u8)),
            _ => None,
        }
    }
}

/// `hex::decode`: the bytes of an even-length text of hex digits of either
/// case, two digits a byte; `None` (its error) otherwise.
#[verifier::external_body]
pub(crate) fn hex_decode(text: &str) -> (r: Option<Vec<u8>>)
    ensures
        match hex_bytes(text@) {
            Some(b) => r is Some && r->0@ == b,
            None => r is None,
        },
{
    hex::decode(text).ok()
}

pub open spec fn chunk_job(c: ChunkModel, filename: Seq<char>) -> ChunkDataModel {
    ChunkDataModel {
        id: hex_text(c.chunk_id),
        checksum: c.checksum,
        offset: c.offset,
        compressed_length: c.compressed_length,
        uncompressed_length: c.uncompressed_length,
        filename: filename,
    }
}

pub open spec fn file_jobs(cs: Seq<ChunkModel>, filename: Seq<char>) -> Seq<ChunkDataModel> {
    cs.map_values(|c: ChunkModel| chunk_job(c, filename))
}

/// One job per chunk, file by file, chunks in their order.
pub open spec fn jobs_of(fs: Seq<FileModel>) -> Seq<ChunkDataModel>
    decreases fs.len(),
{
    if fs.len() == 0 {
        Seq::empty()
    } else {
        jobs_of(fs.drop_last()) + file_jobs(fs.last().chunks, fs.last().filename)
    }
}

/// The chunk jobs of a manifest.
pub fn generate_jobs(manifest: &ProtoDepotManifest) -> (r: Vec<ChunkData>)
    ensures
        jobs_view(r@) == jobs_of(manifest@),
{
    let mut jobs: Vec<ChunkData> = Vec::new();
    let mut i: usize = 0;
    while i < manifest.filenames.len()
        invariant
            i <= manifest.filenames.len(),
            jobs_view(jobs@) == jobs_of(manifest@.take(i as int)),
        decreases manifest.filenames.len() - i,
    {
        let file = &manifest.filenames[i];
        let ghost before = jobs_view(jobs@);
        let mut k: usize = 0;
        while k < file.chunks.len()
            invariant
                k <= file.chunks.len(),
                *file == manifest.filenames@[i as int],
                jobs_view(jobs@) == before + file_jobs(file@.chunks.take(k as int), file@.filename),
            decreases file.chunks.len() - k,
        {
            let c = &file.chunks[k];
            let job = ChunkData {
                id: hex_encode(c.chunk_id.as_slice()),
                checksum: c.checksum,
                offset: c.offset,
                compressed_length: c.compressed_length,
                uncompressed_length: c.uncompressed_length,
                filename: file.filename.clone(),
            };
            proof {
                assert(file@.chunks[k as int] == c@);
                assert(file@.chunks.take(k as int + 1) =~= file@.chunks.take(k as int).push(c@));
                assert(jobs_view(jobs@.push(job)) =~= jobs_view(jobs@).push(job@));
                assert(file_jobs(file@.chunks.take(k as int + 1), file@.filename) =~=
                    file_jobs(file@.chunks.take(k as int), file@.filename).push(chunk_job(c@, file@.filename)));
            }
            jobs.push(job);
            k = k + 1;
        }
        proof {
            assert(file@.chunks.take(file.chunks.len() as int) =~= file@.chunks);
            assert(manifest@.take(i as int + 1).drop_last() =~= manifest@.take(i as int));
            assert(manifest@[i as int] == file@);
        }
        i = i + 1;
    }
    assert(manifest@.take(manifest.filenames.len() as int) =~= manifest@);
    jobs
}

// ---------------------------------------------------------------------------
// Checksum
// ---------------------------------------------------------------------------

/// The two running sums of the checksum, both kept below 65521; `a` starts at
/// zero.
pub open spec fn adler_sums(d: Seq<u8>) -> (nat, nat)
    decreases d.len(),
{
    if d.len() == 0 {
        (0, 0)
    } else {
        let p = adler_sums(d.drop_last());
        let a = ((p.0 + d.last()) % 65521) as nat;
        (a, ((p.1 + a) % 65521) as nat)
    }
}

/// The chunk checksum: the second sum in the high half, the first in the low.
pub open spec fn adler32_of(d: Seq<u8>) -> u32 {
    (adler_sums(d).1 * 65536 + adler_sums(d).0) as u32
}

/// The sum of the bytes.
pub open spec fn byte_total(d: Seq<u8>) -> nat
    decreases d.len(),
{
    if d.len() == 0 {
        0
    } else {
        byte_total(d.drop_last()) + d.last() as nat
    }
}

/// The sum, over every non-empty prefix, of its byte sum.
pub open spec fn prefix_total(d: Seq<u8>) -> nat
    decreases d.len(),
{
    if d.len() == 0 {
        0
    } else {
        prefix_total(d.drop_last()) + byte_total(d)
    }
}

proof fn lemma_adler_sums(d: Seq<u8>)
    ensures
        adler_sums(d) == (byte_total(d) % 65521, prefix_total(d) % 65521),
    decreases d.len(),
{
    if d.len() > 0 {
        let q = d.drop_last();
        lemma_adler_sums(q);
        vstd::arithmetic::div_mod::lemma_add_mod_noop_right(d.last() as int, byte_total(q) as int, 65521);
        vstd::arithmetic::div_mod::lemma_add_mod_noop_right(prefix_total(q) as int, byte_total(d) as int, 65521);
        vstd::arithmetic::div_mod::lemma_add_mod_noop_right(byte_total(d) as int, prefix_total(q) as int, 65521);
    }
}

/// The chunk checksum is Adler-32 with both sums reduced modulo 65521: its
/// low half is the sum of the bytes, and its high half the sum of the sums of
/// all non-empty prefixes, each modulo 65521.
pub proof fn law_adler32(d: Seq<u8>)
    ensures
        adler32_of(d) % 65536 == byte_total(d) % 65521,
        adler32_of(d) / 65536 == prefix_total(d) % 65521,
{
    lemma_adler_sums(d);
    let a = byte_total(d) % 65521;
    let b = prefix_total(d) % 65521;
    assert(b * 65536 + a < 0x1_0000_0000) by (nonlinear_arith)
        requires a < 65521, b < 65521;
    assert((b * 65536 + a) % 65536 == a && (b * 65536 + a) / 65536 == b) by (nonlinear_arith)
        requires a < 65521, b < 65521, a >= 0, b >= 0;
}

pub fn calc_adler32(data: &[u8]) -> (r: u32)
    ensures
        r == adler32_of(data@),
{
    let mut a: u32 = 0;
    let mut b: u32 = 0;
    let mut i: usize = 0;
    while i < data.len()
        invariant
            i <= data.len(),
            a < 65521,
            b < 65521,
            (a as nat, b as nat) == adler_sums(data@.take(i as int)),
        decreases data.len() - i,
    {
        proof {
            assert(data@.take(i as int + 1).drop_last() =~= data@.take(i as int));
            assert(data@.take(i as int + 1).last() == data@[i as int]);
        }
        a = (a + data[i] as u32) % 65521;
        b = (b + a) % 65521;
        i = i + 1;
    }
    assert(data@.take(data.len() as int) =~= data@);
    assert((b << 16u32) | a == b * 65536 + a) by (bit_vector)
        requires
            a < 65521u32,
            b < 65521u32,
    ;
    (b << 16u32) | a
}

// ---------------------------------------------------------------------------
// Decompression of a chunk
// ---------------------------------------------------------------------------

/// The little-endian bytes of a number, `k` of them.
pub open spec fn le_bytes(n: nat, k: nat) -> Seq<u8>
    decreases k,
{
    if k == 0 {
        Seq::empty()
    } else {
        seq![(n % 256) as u8] + le_bytes(n / 256, (k - 1) as nat)
    }
}

/// The `.lzma` stream of a VZip frame: its properties byte and dictionary
/// size, the expected size as eight little-endian bytes, then the data
/// between the 12-byte header and the 10-byte footer.
pub open spec fn lzma_stream(b: Seq<u8>, expected_size: u32) -> Seq<u8> {
    seq![b[7]] + b.subrange(8, 12) + le_bytes(expected_size as nat, 8) + b.subrange(12, b.len() - 10)
}

/// The decompression of a chunk: VZstd, VZip (LZMA), ZIP, DEFLATE, gzip,
/// tried in that order.
pub open spec fn chunk_decompressed(b: Seq<u8>, expected_size: u32) -> Result<Seq<u8>, DecompressError> {
    if is_vzstd(b) {
        vzstd_decoded(b)
    } else if is_vzip(b) {
        if b.len() < 22 {
            Err(DecompressError::VZipTooShort)
        } else {
            match lzma_decoded(lzma_stream(b, expected_size)) {
                Some(d) => Ok(d),
                None => Err(DecompressError::Lzma),
            }
        }
    } else if is_zip(b) && zip_first(b) is Some {
        zip_first(b)->0
    } else {
        inflate_last(b)
    }
}

fn push_le_bytes(v: &mut Vec<u8>, n: u64, k: usize)
    ensures
        final(v)@ == old(v)@ + le_bytes(n as nat, k as nat),
{
    let mut m: u64 = n;
    let mut j: usize = 0;
    while j < k
        invariant
            j <= k,
            v@ + le_bytes(m as nat, (k - j) as nat) == old(v)@ + le_bytes(n as nat, k as nat),
        decreases k - j,
    {
        let ghost before = v@;
        v.push((m % 256) as u8);
        proof {
            assert(le_bytes(m as nat, (k - j) as nat) == seq![(m % 256) as u8] + le_bytes((m / 256) as nat, (k - j - 1) as nat));
            assert(v@ + le_bytes((m / 256) as nat, (k - j - 1) as nat) =~= before + le_bytes(m as nat, (k - j) as nat));
        }
        m = m / 256;
        j = j + 1;
    }
    assert(le_bytes(m as nat, 0) =~= Seq::<u8>::empty());
    assert(v@ =~= v@ + le_bytes(m as nat, 0));
}

/// Decompresses a chunk whose size after decompression is `expected_size`.
pub fn perform_decompression(input: &[u8], expected_size: u32) -> (r: Result<Vec<u8>, DecompressError>)
    ensures
        match chunk_decompressed(input@, expected_size) {
            Ok(d) => r matches Ok(v) && v@ == d,
            Err(e) => r == Err::<Vec<u8>, DecompressError>(e),
        },
{
    let n = input.len();
    if n > 4 && input[0] == 0x56u8 && input[1] == 0x53u8 && input[2] == 0x5Au8 && input[3] == 0x61u8 {
        if n < 23 {
            return Err(DecompressError::VZstdTooShort);
        }
        let body = slice_copy(input, 8, n - 15);
        return match zstd_decode_all(body.as_slice()) {
            Some(d) => Ok(d),
            None => Err(DecompressError::Zstd),
        };
    }
    if n > 3 && input[0] == 0x56u8 && input[1] == 0x5Au8 && input[2] == 0x61u8 {
        if n < 22 {
            return Err(DecompressError::VZipTooShort);
        }
        let mut stream: Vec<u8> = Vec::new();
        stream.push(input[7]);
        let dict = slice_copy(input, 8, 12);
        let mut j: usize = 0;
        while j < 4
            invariant
                j <= 4,
                dict@.len() == 4,
                stream@ == seq![input@[7]] + dict@.take(j as int),
            decreases 4 - j,
        {
            stream.push(dict[j]);
            assert(dict@.take(j as int + 1) =~= dict@.take(j as int).push(dict@[j as int]));
            j = j + 1;
        }
        assert(dict@.take(4) =~= dict@);
        push_le_bytes(&mut stream, expected_size as u64, 8);
        let body = slice_copy(input, 12, n - 10);
        let ghost head = stream@;
        let mut q: usize = 0;
        while q < body.len()
            invariant
                q <= body.len(),
                stream@ == head + body@.take(q as int),
            decreases body.len() - q,
        {
            stream.push(body[q]);
            assert(body@.take(q as int + 1) =~= body@.take(q as int).push(body@[q as int]));
            q = q + 1;
        }
        proof {
            assert(body@.take(body.len() as int) =~= body@);
            assert(stream@ =~= lzma_stream(input@, expected_size));
        }
        return match lzma_decompress(stream.as_slice()) {
            Some(d) => Ok(d),
            None => Err(DecompressError::Lzma),
        };
    }
    if n > 4 && input[0] == 0x50u8 && input[1] == 0x4Bu8 && input[2] == 0x03u8 && input[3] == 0x04u8 {
        match zip_first_file(input) {
            Some(r) => {
                return r;
            },
            None => {},
        }
    }
    inflate_either(input)
}

// ---------------------------------------------------------------------------
// A downloaded chunk
// ---------------------------------------------------------------------------

/// Why a downloaded chunk was refused.
pub enum ChunkError {
    /// Fewer than 16 bytes: no IV.
    TooShort,
    /// The CBC padding did not check out.
    Padding,
    /// No container fitted; with the first four decrypted bytes (none when
    /// there are fewer).
    Decompress(DecompressError, Vec<u8>),
    /// The checksum of the decompressed data differs from the expected one.
    ChecksumMismatch { expected: u32, got: u32 },
}

/// The first four bytes, or none when there are fewer.
pub open spec fn header_of(d: Seq<u8>) -> Seq<u8> {
    if d.len() >= 4 { d.take(4) } else { Seq::empty() }
}

/// Decrypts, decompresses and checks a downloaded chunk.
pub fn process_chunk_data(encrypted_data: &[u8], depot_key: &[u8; 32], chunk: &ChunkData) -> (r: Result<Vec<u8>, ChunkError>)
    ensures
        match decrypted(encrypted_data@, depot_key@) {
            Err(CryptoError::TooShort) => r matches Err(ChunkError::TooShort),
            Err(_) => r matches Err(ChunkError::Padding),
            Ok(d) => match chunk_decompressed(d, chunk.uncompressed_length) {
                Err(e) => r matches Err(ChunkError::Decompress(e2, h)) && e2 == e && h@ == header_of(d),
                Ok(c) => if adler32_of(c) != chunk.checksum {
                    r matches Err(ChunkError::ChecksumMismatch { expected, got })
                        && expected == chunk.checksum && got == adler32_of(c)
                } else {
                    r matches Ok(v) && v@ == c
                },
            },
        },
{
    let d = match decrypt_payload(encrypted_data, depot_key) {
        Ok(d) => d,
        Err(CryptoError::TooShort) => {
            return Err(ChunkError::TooShort);
        },
        Err(_) => {
            return Err(ChunkError::Padding);
        },
    };
    match perform_decompression(d.as_slice(), chunk.uncompressed_length) {
        Ok(c) => {
            let sum = calc_adler32(c.as_slice());
            if sum != chunk.checksum {
                return Err(ChunkError::ChecksumMismatch { expected: chunk.checksum, got: sum });
            }
            Ok(c)
        },
        Err(e) => {
            let h = if d.len() >= 4 {
                let h = slice_copy(d.as_slice(), 0, 4);
                assert(d@.subrange(0, 4) =~= d@.take(4));
                h
            } else {
                Vec::new()
            };
            Err(ChunkError::Decompress(e, h))
        },
    }
}

/// The address of a chunk on a content server, with the access token when
/// there is one.
pub fn chunk_url(base_url: &str, depot_id: u32, chunk_id: &str, cdn_token: &str) -> (r: String)
    ensures
        r@ == base_url@ + "/depot/"@ + decimal(depot_id as nat) + "/chunk/"@ + chunk_id@
            + (if cdn_token@.len() == 0 { Seq::empty() } else { "?token="@ + cdn_token@ }),
{
    let mut r = base_url.to_string();
    r.push_str("/depot/");
    r.push_str(&decimal_string(depot_id as u64));
    r.push_str("/chunk/");
    r.push_str(chunk_id);
    let ghost before = r@;
    let tc = crate::text::chars_of(cdn_token);
    if tc.len() != 0 {
        r.push_str("?token=");
        r.push_str(cdn_token);
        assert(r@ =~= before + ("?token="@ + cdn_token@));
    } else {
        assert(r@ =~= before + Seq::<char>::empty());
    }
    r
}

/// The address of a depot manifest (request version 5) on a content server.
pub fn manifest_url(base_url: &str, depot_id: u32, manifest_id: u64, cdn_token: &str) -> (r: String)
    ensures
        r@ == base_url@ + "/depot/"@ + decimal(depot_id as nat) + "/manifest/"@ + decimal(manifest_id as nat)
            + "/5?token="@ + cdn_token@,
{
    let mut r = base_url.to_string();
    r.push_str("/depot/");
    r.push_str(&decimal_string(depot_id as u64));
    r.push_str("/manifest/");
    r.push_str(&decimal_string(manifest_id));
    r.push_str("/5?token=");
    r.push_str(cdn_token);
    r
}


// ---------------------------------------------------------------------------
// A downloaded manifest
// ---------------------------------------------------------------------------

/// The first `k` whole 16-byte blocks, each decrypted with AES-256.
pub open spec fn ecb_blocks(d: Seq<u8>, key: Seq<u8>, k: nat) -> Seq<u8>
    decreases k,
{
    if k == 0 {
        Seq::empty()
    } else {
        ecb_blocks(d, key, (k - 1) as nat) + aes256_block(key, d.subrange(16 * (k - 1), (16 * k) as int))
    }
}

/// Every whole block decrypted, a shorter tail kept as it is.
pub open spec fn ecb_decrypted(d: Seq<u8>, key: Seq<u8>) -> Seq<u8> {
    ecb_blocks(d, key, d.len() / 16) + d.skip((16 * (d.len() / 16)) as int)
}

/// Why a downloaded manifest could not be read.
pub enum ManifestFetchError {
    /// The decrypted bytes do not open as a ZIP archive.
    Undecodable,
    /// The archive holds no file.
    EmptyArchive,
    /// The archive's first file could not be read.
    EntryUnreadable,
    /// The manifest inside did not parse.
    Parse(ManifestError),
}

/// What a downloaded manifest holds: the files of the manifest in the first
/// file of the archive that the decrypted bytes form.
pub open spec fn fetched_manifest(d: Seq<u8>, key: Seq<u8>) -> Result<Seq<FileModel>, ManifestFetchError> {
    match zip_open(ecb_decrypted(d, key)) {
        None => Err(ManifestFetchError::Undecodable),
        Some(es) => if es.len() == 0 {
            Err(ManifestFetchError::EmptyArchive)
        } else {
            match es[0] {
                Some((_, _, Some(b))) => match parse_manifest(b) {
                    Ok(fs) => Ok(fs),
                    Err(e) => Err(ManifestFetchError::Parse(e)),
                },
                _ => Err(ManifestFetchError::EntryUnreadable),
            }
        },
    }
}

proof fn lemma_block_count(len: int, k: int)
    requires
        0 <= k,
        16 * k <= len,
        len < 16 * k + 16,
    ensures
        k == len / 16,
{
    assert(k == len / 16) by (nonlinear_arith)
        requires
            0 <= k,
            16 * k <= len,
            len < 16 * k + 16,
    ;
}

/// Decrypts every whole 16-byte block with AES-256; a shorter tail stays.
pub fn ecb_decrypt_blocks(data: &[u8], depot_key: &[u8; 32]) -> (r: Vec<u8>)
    ensures
        r@ == ecb_decrypted(data@, depot_key@),
{
    let mut out: Vec<u8> = Vec::new();
    let mut pos: usize = 0;
    let ghost mut k: nat = 0;
    while data.len() - pos >= 16
        invariant
            pos <= data.len(),
            pos == 16 * k,
            out@ == ecb_blocks(data@, depot_key@, k),
        decreases data.len() - pos,
    {
        let block = slice_copy(data, pos, pos + 16);
        let dec = aes256_decrypt_block(depot_key, block.as_slice());
        let ghost before = out@;
        let mut j: usize = 0;
        while j < dec.len()
            invariant
                j <= dec.len(),
                out@ == before + dec@.take(j as int),
            decreases dec.len() - j,
        {
            out.push(dec[j]);
            assert(dec@.take(j as int + 1) =~= dec@.take(j as int).push(dec@[j as int]));
            j = j + 1;
        }
        proof {
            assert(dec@.take(dec.len() as int) =~= dec@);
            assert(data@.subrange((16 * k) as int, (16 * (k + 1)) as int) =~= block@);
            k = k + 1;
        }
        pos = pos + 16;
    }
    proof { lemma_block_count(data@.len() as int, k as int); }
    let tail = slice_copy(data, pos, data.len());
    assert(data@.subrange(pos as int, data@.len() as int) =~= data@.skip(pos as int));
    let ghost head = out@;
    let mut q: usize = 0;
    while q < tail.len()
        invariant
            q <= tail.len(),
            out@ == head + tail@.take(q as int),
        decreases tail.len() - q,
    {
        out.push(tail[q]);
        assert(tail@.take(q as int + 1) =~= tail@.take(q as int).push(tail@[q as int]));
        q = q + 1;
    }
    assert(tail@.take(tail.len() as int) =~= tail@);
    out
}

/// Reads a downloaded depot manifest: decrypted block by block, unpacked from
/// its archive, and parsed.
pub fn decode_manifest(encrypted_data: &[u8], depot_key: &[u8; 32]) -> (r: Result<ProtoDepotManifest, ManifestFetchError>)
    ensures
        match fetched_manifest(encrypted_data@, depot_key@) {
            Ok(fs) => r matches Ok(m) && m@ == fs,
            Err(ManifestFetchError::Undecodable) => r matches Err(ManifestFetchError::Undecodable),
            Err(ManifestFetchError::EmptyArchive) => r matches Err(ManifestFetchError::EmptyArchive),
            Err(ManifestFetchError::EntryUnreadable) => r matches Err(ManifestFetchError::EntryUnreadable),
            Err(ManifestFetchError::Parse(e)) => r matches Err(ManifestFetchError::Parse(e2)) && e2 == e,
        },
{
    let plain = ecb_decrypt_blocks(encrypted_data, depot_key);
    match crate::downloader::open_zip(plain) {
        None => Err(ManifestFetchError::Undecodable),
        Some(mut archive) => {
            if crate::downloader::zip_len(&archive) == 0 {
                return Err(ManifestFetchError::EmptyArchive);
            }
            match crate::downloader::zip_entry(&mut archive, 0) {
                Some((_, _, Some(buf))) => match ManifestParser::parse(buf.as_slice()) {
                    Ok(m) => Ok(m),
                    Err(e) => Err(ManifestFetchError::Parse(e)),
                },
                _ => Err(ManifestFetchError::EntryUnreadable),
            }
        },
    }
}

} // verus!
