//! Reading Steam depot manifests: protobuf-encoded lists of files and the chunks
//! they are stored in, optionally framed by headers with a magic number.
use vstd::prelude::*;
use crate::text::{lossy_text, lossy_string};

verus! {

/// Why a manifest could not be read.
#[derive(Debug, Clone, Copy, PartialEq, Eq)]
pub enum ManifestError {
    /// The data ended inside a varint.
    VarintEof,
    /// A varint ran past ten bytes.
    VarintOverflow,
    /// A field used a wire type other than 0, 1, 2 or 5.
    UnknownWire(u8),
    /// A framed payload is longer than what follows its header.
    PayloadTruncated,
    /// A file mapping is longer than what follows its length.
    FileMappingOverflow,
    /// A chunk record is longer than what follows its length.
    ChunkDataOverflow,
    /// A fixed-size or length-prefixed field ran past the end.
    UnexpectedEof,
}

/// The magic number of a manifest payload header.
pub const MANIFEST_MAGIC: u32 = 0x71F6_17D0u32;

// ---------------------------------------------------------------------------
// The format
// ---------------------------------------------------------------------------

/// Decodes the varint at `pos`, having read `k` bytes of it into `acc`: each byte
/// gives its low seven bits, least significant group first; a byte without its
/// high bit ends it; at most ten bytes. Returns the value and the position after it.
pub open spec fn varint_from(d: Seq<u8>, pos: int, k: nat, acc: u64) -> Result<(u64, int), ManifestError>
    decreases 10 - k,
{
    if k > 9 {
        Err(ManifestError::VarintOverflow)
    } else if pos + k >= d.len() {
        Err(ManifestError::VarintEof)
    } else {
        let b = d[pos + k];
        let acc2 = acc | (((b & 0x7f) as u64) << ((7 * k) as u32));
        if b & 0x80 == 0 {
            Ok((acc2, pos + k + 1))
        } else if k == 9 {
            Err(ManifestError::VarintOverflow)
        } else {
            varint_from(d, pos, k + 1, acc2)
        }
    }
}

pub open spec fn read_varint(d: Seq<u8>, pos: int) -> Result<(u64, int), ManifestError> {
    varint_from(d, pos, 0, 0)
}

/// A position past the end reads as the end.
pub open spec fn clamp(p: int, n: int) -> int {
    if p > n {
        n
    } else {
        p
    }
}

/// Skips the value of a field of the given wire type; returns where the next field
/// starts.
pub open spec fn skip_field(d: Seq<u8>, pos: int, wire: u8) -> Result<int, ManifestError> {
    if wire == 0 {
        match read_varint(d, pos) {
            Ok((_, p)) => Ok(p),
            Err(e) => Err(e),
        }
    } else if wire == 1 {
        Ok(clamp(pos + 8, d.len() as int))
    } else if wire == 2 {
        match read_varint(d, pos) {
            Ok((n, p)) => Ok(clamp(p + n, d.len() as int)),
            Err(e) => Err(e),
        }
    } else if wire == 5 {
        Ok(clamp(pos + 4, d.len() as int))
    } else {
        Err(ManifestError::UnknownWire(wire))
    }
}

/// Reads `n` bytes at `pos`.
pub open spec fn read_bytes(d: Seq<u8>, pos: int, n: int) -> Result<(Seq<u8>, int), ManifestError> {
    if pos + n > d.len() {
        Err(ManifestError::UnexpectedEof)
    } else {
        Ok((d.subrange(pos, pos + n), pos + n))
    }
}

/// Reads a varint length and then that many bytes.
pub open spec fn read_len_bytes(d: Seq<u8>, pos: int) -> Result<(Seq<u8>, int), ManifestError> {
    match read_varint(d, pos) {
        Ok((n, p)) => read_bytes(d, p, (n as usize) as int),
        Err(e) => Err(e),
    }
}

/// Four bytes read as a little-endian number.
pub open spec fn le_u32(b: Seq<u8>) -> u32 {
    (b[0] as u32) | ((b[1] as u32) << 8u32) | ((b[2] as u32) << 16u32) | ((b[3] as u32) << 24u32)
}

/// A chunk of a file: its id (a hash), checksum, offset in the file, and lengths.
pub struct ChunkModel {
    pub chunk_id: Seq<u8>,
    pub checksum: u32,
    pub offset: u64,
    pub uncompressed_length: u32,
    pub compressed_length: u32,
}

pub open spec fn empty_chunk() -> ChunkModel {
    ChunkModel { chunk_id: Seq::empty(), checksum: 0, offset: 0, uncompressed_length: 0, compressed_length: 0 }
}

/// Reads one field of a chunk record: 1 id bytes, 2 checksum (fixed32 when its wire
/// type is 5, else skipped), 3 offset, 4 uncompressed and 5 compressed length; the
/// rest is skipped.
pub open spec fn chunk_field(d: Seq<u8>, p: int, field: u64, wire: u8, c: ChunkModel) -> Result<(ChunkModel, int), ManifestError> {
    if field == 1 {
        match read_len_bytes(d, p) {
            Ok((bs, q)) => Ok((ChunkModel { chunk_id: bs, ..c }, q)),
            Err(e) => Err(e),
        }
    } else if field == 2 {
        if wire == 5 {
            match read_bytes(d, p, 4) {
                Ok((bs, q)) => Ok((ChunkModel { checksum: le_u32(bs), ..c }, q)),
                Err(e) => Err(e),
            }
        } else {
            match skip_field(d, p, wire) {
                Ok(q) => Ok((c, q)),
                Err(e) => Err(e),
            }
        }
    } else if field == 3 {
        match read_varint(d, p) {
            Ok((v, q)) => Ok((ChunkModel { offset: v, ..c }, q)),
            Err(e) => Err(e),
        }
    } else if field == 4 {
        match read_varint(d, p) {
            Ok((v, q)) => Ok((ChunkModel { uncompressed_length: v as u32, ..c }, q)),
            Err(e) => Err(e),
        }
    } else if field == 5 {
        match read_varint(d, p) {
            Ok((v, q)) => Ok((ChunkModel { compressed_length: v as u32, ..c }, q)),
            Err(e) => Err(e),
        }
    } else {
        match skip_field(d, p, wire) {
            Ok(q) => Ok((c, q)),
            Err(e) => Err(e),
        }
    }
}

/// Reads chunk fields from `pos` to the end; a tag that cannot be read ends the
/// record.
pub open spec fn chunk_loop(d: Seq<u8>, pos: int, c: ChunkModel) -> Result<ChunkModel, ManifestError>
    decreases d.len() - pos,
{
    if pos < 0 || pos >= d.len() {
        Ok(c)
    } else {
        match read_varint(d, pos) {
            Err(_) => Ok(c),
            Ok((tag, p1)) => match chunk_field(d, p1, tag >> 3u64, (tag & 7) as u8, c) {
                Err(e) => Err(e),
                Ok((c2, p2)) => if pos < p2 && p2 <= d.len() {
                    chunk_loop(d, p2, c2)
                } else {
                    Ok(c2)
                },
            },
        }
    }
}

pub open spec fn parse_chunk(d: Seq<u8>) -> Result<ChunkModel, ManifestError> {
    chunk_loop(d, 0, empty_chunk())
}

/// A file of a depot: its name, size, flags, hashes, chunks and link target.
pub struct FileModel {
    pub filename: Seq<char>,
    pub size: u64,
    pub flags: u32,
    pub sha_filename: Seq<u8>,
    pub sha_content: Seq<u8>,
    pub chunks: Seq<ChunkModel>,
    pub linktarget: Seq<char>,
}

pub open spec fn empty_file() -> FileModel {
    FileModel {
        filename: Seq::empty(),
        size: 0,
        flags: 0,
        sha_filename: Seq::empty(),
        sha_content: Seq::empty(),
        chunks: Seq::empty(),
        linktarget: Seq::empty(),
    }
}

/// Reads one field of a file mapping: 1 name, 2 size, 3 flags, 4 and 5 hashes,
/// 6 a chunk record (length-delimited; kept when it reads), 7 link target; the
/// rest is skipped.
pub open spec fn file_field(d: Seq<u8>, p: int, field: u64, wire: u8, f: FileModel) -> Result<(FileModel, int), ManifestError> {
    if field == 1 {
        match read_len_bytes(d, p) {
            Ok((bs, q)) => Ok((FileModel { filename: lossy_text(bs), ..f }, q)),
            Err(e) => Err(e),
        }
    } else if field == 2 {
        match read_varint(d, p) {
            Ok((v, q)) => Ok((FileModel { size: v, ..f }, q)),
            Err(e) => Err(e),
        }
    } else if field == 3 {
        match read_varint(d, p) {
            Ok((v, q)) => Ok((FileModel { flags: v as u32, ..f }, q)),
            Err(e) => Err(e),
        }
    } else if field == 4 {
        match read_len_bytes(d, p) {
            Ok((bs, q)) => Ok((FileModel { sha_filename: bs, ..f }, q)),
            Err(e) => Err(e),
        }
    } else if field == 5 {
        match read_len_bytes(d, p) {
            Ok((bs, q)) => Ok((FileModel { sha_content: bs, ..f }, q)),
            Err(e) => Err(e),
        }
    } else if field == 6 {
        if wire != 2 {
            match skip_field(d, p, wire) {
                Ok(q) => Ok((f, q)),
                Err(e) => Err(e),
            }
        } else {
            match read_varint(d, p) {
                Err(e) => Err(e),
                Ok((n, start)) => {
                    let len = (n as usize) as int;
                    if start + len > d.len() {
                        Err(ManifestError::ChunkDataOverflow)
                    } else {
                        let f2 = match parse_chunk(d.subrange(start, start + len)) {
                            Ok(c) => FileModel { chunks: f.chunks.push(c), ..f },
                            Err(_) => f,
                        };
                        Ok((f2, start + len))
                    }
                },
            }
        }
    } else if field == 7 {
        match read_len_bytes(d, p) {
            Ok((bs, q)) => Ok((FileModel { linktarget: lossy_text(bs), ..f }, q)),
            Err(e) => Err(e),
        }
    } else {
        match skip_field(d, p, wire) {
            Ok(q) => Ok((f, q)),
            Err(e) => Err(e),
        }
    }
}

pub open spec fn file_loop(d: Seq<u8>, pos: int, f: FileModel) -> Result<FileModel, ManifestError>
    decreases d.len() - pos,
{
    if pos < 0 || pos >= d.len() {
        Ok(f)
    } else {
        match read_varint(d, pos) {
            Err(_) => Ok(f),
            Ok((tag, p1)) => match file_field(d, p1, tag >> 3u64, (tag & 7) as u8, f) {
                Err(e) => Err(e),
                Ok((f2, p2)) => if pos < p2 && p2 <= d.len() {
                    file_loop(d, p2, f2)
                } else {
                    Ok(f2)
                },
            },
        }
    }
}

pub open spec fn parse_file(d: Seq<u8>) -> Result<FileModel, ManifestError> {
    file_loop(d, 0, empty_file())
}

/// Reads the fields of a manifest payload: field 1 (length-delimited) is a file
/// mapping, kept when it reads; everything else is skipped.
pub open spec fn payload_loop(d: Seq<u8>, pos: int, files: Seq<FileModel>) -> Result<Seq<FileModel>, ManifestError>
    decreases d.len() - pos,
{
    if pos < 0 || pos >= d.len() {
        Ok(files)
    } else {
        match read_varint(d, pos) {
            Err(_) => Ok(files),
            Ok((tag, p1)) => {
                let field = tag >> 3u64;
                let wire = (tag & 7) as u8;
                let step: Result<(Seq<FileModel>, int), ManifestError> = if field == 1 && wire == 2 {
                    match read_varint(d, p1) {
                        Err(e) => Err(e),
                        Ok((n, start)) => {
                            let len = (n as usize) as int;
                            if start + len > d.len() {
                                Err(ManifestError::FileMappingOverflow)
                            } else {
                                match parse_file(d.subrange(start, start + len)) {
                                    Ok(fm) => Ok((files.push(fm), start + len)),
                                    Err(_) => Ok((files, start + len)),
                                }
                            }
                        },
                    }
                } else {
                    match skip_field(d, p1, wire) {
                        Ok(q) => Ok((files, q)),
                        Err(e) => Err(e),
                    }
                };
                match step {
                    Err(e) => Err(e),
                    Ok((files2, p2)) => if pos < p2 && p2 <= d.len() {
                        payload_loop(d, p2, files2)
                    } else {
                        Ok(files2)
                    },
                }
            },
        }
    }
}

pub open spec fn parse_payload(d: Seq<u8>) -> Result<Seq<FileModel>, ManifestError> {
    payload_loop(d, 0, Seq::empty())
}

/// Reads framed payloads from `pos`: each frame is the magic number and a length
/// (little-endian u32 each) and that many payload bytes. Fewer than eight bytes left
/// end the list; a wrong magic ends it, except on the very first frame, where the
/// whole data is read as one unframed payload.
pub open spec fn frames_loop(d: Seq<u8>, pos: int, files: Seq<FileModel>) -> Result<Seq<FileModel>, ManifestError>
    decreases d.len() - pos,
{
    if pos < 0 || pos >= d.len() || d.len() - pos < 8 {
        Ok(files)
    } else {
        let magic = le_u32(d.subrange(pos, pos + 4));
        let len = le_u32(d.subrange(pos + 4, pos + 8)) as int;
        if magic != MANIFEST_MAGIC {
            if pos == 0 {
                parse_payload(d)
            } else {
                Ok(files)
            }
        } else if d.len() - (pos + 8) < len {
            Err(ManifestError::PayloadTruncated)
        } else {
            match parse_payload(d.subrange(pos + 8, pos + 8 + len)) {
                Err(e) => Err(e),
                Ok(more) => frames_loop(d, pos + 8 + len, files + more),
            }
        }
    }
}

/// The files of a manifest: those of its framed payloads, or, when that yields
/// no file, those of the whole data read as one payload.
pub open spec fn parse_manifest(d: Seq<u8>) -> Result<Seq<FileModel>, ManifestError> {
    match frames_loop(d, 0, Seq::empty()) {
        Err(e) => Err(e),
        Ok(files) => if files.len() == 0 {
            parse_payload(d)
        } else {
            Ok(files)
        },
    }
}


/// A length as four little-endian bytes.
pub open spec fn le_bytes(n: u32) -> Seq<u8> {
    seq![(n & 0xff) as u8, ((n >> 8u32) & 0xff) as u8, ((n >> 16u32) & 0xff) as u8, ((n >> 24u32) & 0xff) as u8]
}

/// A payload framed: the manifest magic, its length, then the payload.
pub open spec fn frame(p: Seq<u8>) -> Seq<u8> {
    seq![0xD0u8, 0x17u8, 0xF6u8, 0x71u8] + le_bytes(p.len() as u32) + p
}

/// Payloads framed one after another.
pub open spec fn framed(ps: Seq<Seq<u8>>) -> Seq<u8>
    decreases ps.len(),
{
    if ps.len() == 0 { Seq::empty() } else { frame(ps[0]) + framed(ps.drop_first()) }
}

/// The files of the payloads, one payload after another.
pub open spec fn payloads_files(ps: Seq<Seq<u8>>) -> Seq<FileModel>
    decreases ps.len(),
{
    if ps.len() == 0 {
        Seq::empty()
    } else {
        match parse_payload(ps[0]) {
            Ok(fs) => fs + payloads_files(ps.drop_first()),
            Err(_) => Seq::empty(),
        }
    }
}

/// Each payload fits its length field and reads without error.
pub open spec fn payloads_ok(ps: Seq<Seq<u8>>) -> bool {
    forall|i: int| 0 <= i < ps.len() ==> (#[trigger] ps[i]).len() <= u32::MAX && parse_payload(ps[i]) is Ok
}

proof fn lemma_le_bytes(n: u32)
    ensures
        le_u32(le_bytes(n)) == n,
        le_u32(seq![0xD0u8, 0x17u8, 0xF6u8, 0x71u8]) == MANIFEST_MAGIC,
{
    let b = le_bytes(n);
    let (b0, b1, b2, b3) = (b[0], b[1], b[2], b[3]);
    assert(b0 == (n & 0xff) as u8 && b1 == ((n >> 8u32) & 0xff) as u8 && b2 == ((n >> 16u32) & 0xff) as u8 && b3 == ((n >> 24u32) & 0xff) as u8);
    assert(((b0 as u32) | ((b1 as u32) << 8u32) | ((b2 as u32) << 16u32) | ((b3 as u32) << 24u32)) == n) by (bit_vector)
        requires
            b0 == (n & 0xff) as u8,
            b1 == ((n >> 8u32) & 0xff) as u8,
            b2 == ((n >> 16u32) & 0xff) as u8,
            b3 == ((n >> 24u32) & 0xff) as u8;
    let m = seq![0xD0u8, 0x17u8, 0xF6u8, 0x71u8];
    assert(((0xD0u8 as u32) | ((0x17u8 as u32) << 8u32) | ((0xF6u8 as u32) << 16u32) | ((0x71u8 as u32) << 24u32)) == 0x71F6_17D0u32) by (bit_vector);
    assert(m[0] == 0xD0u8 && m[1] == 0x17u8 && m[2] == 0xF6u8 && m[3] == 0x71u8);
}

proof fn lemma_frames(pre: Seq<u8>, ps: Seq<Seq<u8>>, files: Seq<FileModel>)
    requires
        payloads_ok(ps),
    ensures
        frames_loop(pre + framed(ps), pre.len() as int, files) == Ok::<Seq<FileModel>, ManifestError>(files + payloads_files(ps)),
    decreases ps.len(),
{
    let d = pre + framed(ps);
    if ps.len() == 0 {
        assert(d =~= pre);
        assert(files + payloads_files(ps) =~= files);
    } else {
        let p = ps[0];
        let rest = ps.drop_first();
        assert(payloads_ok(rest)) by {
            assert forall|i: int| 0 <= i < rest.len() implies (#[trigger] rest[i]).len() <= u32::MAX && parse_payload(rest[i]) is Ok by {
                assert(rest[i] == ps[i + 1]);
            }
        }
        let pos = pre.len() as int;
        let n = p.len() as u32;
        lemma_le_bytes(n);
        let pre2 = pre + frame(p);
        assert(d =~= pre2 + framed(rest));
        assert(d.subrange(pos, pos + 4) =~= seq![0xD0u8, 0x17u8, 0xF6u8, 0x71u8]);
        assert(d.subrange(pos + 4, pos + 8) =~= le_bytes(n));
        assert(n as int == p.len());
        assert(d.subrange(pos + 8, pos + 8 + p.len()) =~= p);
        assert(pre2.len() == pos + 8 + p.len());
        let more = parse_payload(p)->Ok_0;
        lemma_frames(pre2, rest, files + more);
        assert(files + more + payloads_files(rest) =~= files + payloads_files(ps));
    }
}

/// Framed payloads read as the files of each payload, payload after payload,
/// when each payload reads and together they hold a file.
pub proof fn law_framed_payloads(ps: Seq<Seq<u8>>)
    requires
        payloads_ok(ps),
        payloads_files(ps).len() > 0,
    ensures
        parse_manifest(framed(ps)) == Ok::<Seq<FileModel>, ManifestError>(payloads_files(ps)),
{
    lemma_frames(Seq::empty(), ps, Seq::empty());
    assert(Seq::<u8>::empty() + framed(ps) =~= framed(ps));
    assert(Seq::<FileModel>::empty() + payloads_files(ps) =~= payloads_files(ps));
}

// ---------------------------------------------------------------------------
// Reading
// ---------------------------------------------------------------------------

/// A chunk of a file.
#[derive(Debug, Clone)]
pub struct ChunkInfo {
    pub chunk_id: Vec<u8>,
    pub checksum: u32,
    pub offset: u64,
    pub uncompressed_length: u32,
    pub compressed_length: u32,
}

impl View for ChunkInfo {
    type V = ChunkModel;

    open spec fn view(&self) -> ChunkModel {
        ChunkModel {
            chunk_id: self.chunk_id@,
            checksum: self.checksum,
            offset: self.offset,
            uncompressed_length: self.uncompressed_length,
            compressed_length: self.compressed_length,
        }
    }
}

/// A file of a depot.
#[derive(Debug, Clone)]
pub struct FileMapping {
    pub filename: String,
    pub size: u64,
    pub flags: u32,
    pub sha_filename: Vec<u8>,
    pub sha_content: Vec<u8>,
    pub chunks: Vec<ChunkInfo>,
    pub linktarget: String,
}

pub open spec fn chunks_view(cs: Seq<ChunkInfo>) -> Seq<ChunkModel> {
    cs.map_values(|c: ChunkInfo| c@)
}

impl View for FileMapping {
    type V = FileModel;

    open spec fn view(&self) -> FileModel {
        FileModel {
            filename: self.filename@,
            size: self.size,
            flags: self.flags,
            sha_filename: self.sha_filename@,
            sha_content: self.sha_content@,
            chunks: chunks_view(self.chunks@),
            linktarget: self.linktarget@,
        }
    }
}

/// The files that a depot manifest lists.
#[derive(Debug, Clone)]
pub struct ProtoDepotManifest {
    pub filenames: Vec<FileMapping>,
}

pub open spec fn files_view(fs: Seq<FileMapping>) -> Seq<FileModel> {
    fs.map_values(|f: FileMapping| f@)
}

impl View for ProtoDepotManifest {
    type V = Seq<FileModel>;

    open spec fn view(&self) -> Seq<FileModel> {
        files_view(self.filenames@)
    }
}

proof fn lemma_varint_from(d: Seq<u8>, pos: int, k: nat, acc: u64)
    requires
        0 <= pos,
    ensures
        varint_from(d, pos, k, acc) matches Ok((_, p)) ==> pos + k < p <= d.len(),
    decreases 10 - k,
{
    if k <= 9 && pos + k < d.len() {
        let b = d[pos + k];
        let acc2 = acc | (((b & 0x7f) as u64) << ((7 * k) as u32));
        if b & 0x80 != 0 && k < 9 {
            lemma_varint_from(d, pos, k + 1, acc2);
        }
    }
}

proof fn lemma_read_varint(d: Seq<u8>, pos: int)
    requires
        0 <= pos,
    ensures
        read_varint(d, pos) matches Ok((_, p)) ==> pos < p <= d.len(),
{
    lemma_varint_from(d, pos, 0, 0);
}

/// Reader of depot manifests.
pub struct ManifestParser;

impl ManifestParser {
    fn read_varint(d: &[u8], pos: usize) -> (r: Result<(u64, usize), ManifestError>)
        requires
            pos <= d@.len(),
        ensures
            match read_varint(d@, pos as int) {
                Ok((v, p)) => r == Ok::<(u64, usize), ManifestError>((v, p as usize)) && pos < p <= d@.len(),
                Err(e) => r == Err::<(u64, usize), ManifestError>(e),
            },
    {
        proof { lemma_read_varint(d@, pos as int); }
        let mut result: u64 = 0;
        let mut k: usize = 0;
        loop
            invariant
                k <= 9,
                pos <= d@.len(),
                read_varint(d@, pos as int) == varint_from(d@, pos as int, k as nat, result),
            decreases 9 - k,
        {
            if k >= d.len() - pos {
                return Err(ManifestError::VarintEof);
            }
            let b = d[pos + k];
            result = result | (((b & 0x7f) as u64) << ((7 * k) as u32));
            if b & 0x80 == 0 {
                return Ok((result, pos + k + 1));
            }
            if k == 9 {
                return Err(ManifestError::VarintOverflow);
            }
            k = k + 1;
        }
    }

    fn skip_field(d: &[u8], pos: usize, wire: u8) -> (r: Result<usize, ManifestError>)
        requires
            pos <= d@.len(),
        ensures
            match skip_field(d@, pos as int, wire) {
                Ok(p) => r == Ok::<usize, ManifestError>(p as usize) && pos <= p <= d@.len(),
                Err(e) => r == Err::<usize, ManifestError>(e),
            },
    {
        if wire == 0 {
            match Self::read_varint(d, pos) {
                Ok((_, p)) => Ok(p),
                Err(e) => Err(e),
            }
        } else if wire == 1 {
            if 8 > d.len() - pos { Ok(d.len()) } else { Ok(pos + 8) }
        } else if wire == 2 {
            match Self::read_varint(d, pos) {
                Ok((n, p)) => {
                    if n > (d.len() - p) as u64 {
                        Ok(d.len())
                    } else {
                        Ok(p + n as usize)
                    }
                },
                Err(e) => Err(e),
            }
        } else if wire == 5 {
            if 4 > d.len() - pos { Ok(d.len()) } else { Ok(pos + 4) }
        } else {
            Err(ManifestError::UnknownWire(wire))
        }
    }

    fn copy_bytes(d: &[u8], start: usize, end: usize) -> (r: Vec<u8>)
        requires
            start <= end <= d@.len(),
        ensures
            r@ == d@.subrange(start as int, end as int),
    {
        let mut out: Vec<u8> = Vec::new();
        let mut i = start;
        while i < end
            invariant
                start <= i <= end,
                end <= d@.len(),
                out@ == d@.subrange(start as int, i as int),
            decreases end - i,
        {
            assert(d@.subrange(start as int, i + 1) =~= d@.subrange(start as int, i as int).push(d@[i as int]));
            out.push(d[i]);
            i = i + 1;
        }
        out
    }

    fn read_len_bytes(d: &[u8], pos: usize) -> (r: Result<(Vec<u8>, usize), ManifestError>)
        requires
            pos <= d@.len(),
        ensures
            match read_len_bytes(d@, pos as int) {
                Ok((bs, p)) => r is Ok && r->Ok_0.0@ == bs && r->Ok_0.1 == p && pos < p <= d@.len(),
                Err(e) => r == Err::<(Vec<u8>, usize), ManifestError>(e),
            },
    {
        let (n, p) = match Self::read_varint(d, pos) {
            Ok(x) => x,
            Err(e) => return Err(e),
        };
        let len = n as usize;
        if len > d.len() - p {
            return Err(ManifestError::UnexpectedEof);
        }
        let bs = Self::copy_bytes(d, p, p + len);
        Ok((bs, p + len))
    }

    fn le_u32_at(d: &[u8], pos: usize) -> (r: u32)
        requires
            pos + 4 <= d@.len(),
        ensures
            r == le_u32(d@.subrange(pos as int, pos + 4)),
    {
        let ghost b = d@.subrange(pos as int, pos + 4);
        assert(b[0] == d@[pos as int] && b[1] == d@[pos + 1] && b[2] == d@[pos + 2] && b[3] == d@[pos + 3]);
        (d[pos] as u32) | ((d[pos + 1] as u32) << 8u32) | ((d[pos + 2] as u32) << 16u32) | ((d[pos + 3] as u32) << 24u32)
    }

    fn chunk_field(d: &[u8], p: usize, field: u64, wire: u8, c: &mut ChunkInfo) -> (r: Result<usize, ManifestError>)
        requires
            p <= d@.len(),
        ensures
            match chunk_field(d@, p as int, field, wire, old(c)@) {
                Ok((c2, q)) => r == Ok::<usize, ManifestError>(q as usize) && final(c)@ == c2 && p <= q <= d@.len(),
                Err(e) => r == Err::<usize, ManifestError>(e),
            },
    {
        if field == 1 {
            let (bs, q) = match Self::read_len_bytes(d, p) {
                Ok(x) => x,
                Err(e) => return Err(e),
            };
            c.chunk_id = bs;
            Ok(q)
        } else if field == 2 {
            if wire == 5 {
                if 4 > d.len() - p {
                    return Err(ManifestError::UnexpectedEof);
                }
                c.checksum = Self::le_u32_at(d, p);
                Ok(p + 4)
            } else {
                Self::skip_field(d, p, wire)
            }
        } else if field == 3 {
            let (v, q) = match Self::read_varint(d, p) {
                Ok(x) => x,
                Err(e) => return Err(e),
            };
            c.offset = v;
            Ok(q)
        } else if field == 4 {
            let (v, q) = match Self::read_varint(d, p) {
                Ok(x) => x,
                Err(e) => return Err(e),
            };
            c.uncompressed_length = v as u32;
            Ok(q)
        } else if field == 5 {
            let (v, q) = match Self::read_varint(d, p) {
                Ok(x) => x,
                Err(e) => return Err(e),
            };
            c.compressed_length = v as u32;
            Ok(q)
        } else {
            Self::skip_field(d, p, wire)
        }
    }

    /// Reads a chunk record.
    fn parse_chunk_info(d: &[u8]) -> (r: Result<ChunkInfo, ManifestError>)
        ensures
            match parse_chunk(d@) {
                Ok(c) => r is Ok && r->Ok_0@ == c,
                Err(e) => r is Err && r->Err_0 == e,
            },
    {
        let mut c = ChunkInfo {
            chunk_id: Vec::new(),
            checksum: 0,
            offset: 0,
            uncompressed_length: 0,
            compressed_length: 0,
        };
        assert(c@ == empty_chunk()) by {
            assert(c.chunk_id@ =~= Seq::<u8>::empty());
        }
        let mut pos: usize = 0;
        while pos < d.len()
            invariant
                pos <= d@.len(),
                parse_chunk(d@) == chunk_loop(d@, pos as int, c@),
            decreases d@.len() - pos,
        {
            let (tag, p1) = match Self::read_varint(d, pos) {
                Ok(x) => x,
                Err(_) => return Ok(c),
            };
            let q = match Self::chunk_field(d, p1, tag >> 3u64, (tag & 7) as u8, &mut c) {
                Ok(q) => q,
                Err(e) => return Err(e),
            };
            if q > pos && q <= d.len() {
                pos = q;
            } else {
                return Ok(c);
            }
        }
        Ok(c)
    }

    fn file_field(d: &[u8], p: usize, field: u64, wire: u8, f: &mut FileMapping) -> (r: Result<usize, ManifestError>)
        requires
            p <= d@.len(),
        ensures
            match file_field(d@, p as int, field, wire, old(f)@) {
                Ok((f2, q)) => r == Ok::<usize, ManifestError>(q as usize) && final(f)@ == f2 && p <= q <= d@.len(),
                Err(e) => r == Err::<usize, ManifestError>(e),
            },
    {
        if field == 1 {
            let (bs, q) = match Self::read_len_bytes(d, p) {
                Ok(x) => x,
                Err(e) => return Err(e),
            };
            f.filename = lossy_string(bs.as_slice());
            Ok(q)
        } else if field == 2 {
            let (v, q) = match Self::read_varint(d, p) {
                Ok(x) => x,
                Err(e) => return Err(e),
            };
            f.size = v;
            Ok(q)
        } else if field == 3 {
            let (v, q) = match Self::read_varint(d, p) {
                Ok(x) => x,
                Err(e) => return Err(e),
            };
            f.flags = v as u32;
            Ok(q)
        } else if field == 4 {
            let (bs, q) = match Self::read_len_bytes(d, p) {
                Ok(x) => x,
                Err(e) => return Err(e),
            };
            f.sha_filename = bs;
            Ok(q)
        } else if field == 5 {
            let (bs, q) = match Self::read_len_bytes(d, p) {
                Ok(x) => x,
                Err(e) => return Err(e),
            };
            f.sha_content = bs;
            Ok(q)
        } else if field == 6 {
            if wire != 2 {
                return Self::skip_field(d, p, wire);
            }
            let (n, start) = match Self::read_varint(d, p) {
                Ok(x) => x,
                Err(e) => return Err(e),
            };
            let len = n as usize;
            if len > d.len() - start {
                return Err(ManifestError::ChunkDataOverflow);
            }
            let slice = &d[start..start + len];
            match Self::parse_chunk_info(slice) {
                Ok(chunk) => {
                    let ghost cv = chunk@;
                    let ghost old_chunks = f.chunks@;
                    f.chunks.push(chunk);
                    assert(chunks_view(f.chunks@) =~= chunks_view(old_chunks).push(cv));
                },
                Err(_) => {},
            }
            Ok(start + len)
        } else if field == 7 {
            let (bs, q) = match Self::read_len_bytes(d, p) {
                Ok(x) => x,
                Err(e) => return Err(e),
            };
            f.linktarget = lossy_string(bs.as_slice());
            Ok(q)
        } else {
            Self::skip_field(d, p, wire)
        }
    }

    /// Reads a file mapping record.
    fn parse_file_mapping(d: &[u8]) -> (r: Result<FileMapping, ManifestError>)
        ensures
            match parse_file(d@) {
                Ok(f) => r is Ok && r->Ok_0@ == f,
                Err(e) => r is Err && r->Err_0 == e,
            },
    {
        let mut f = FileMapping {
            filename: String::new(),
            size: 0,
            flags: 0,
            sha_filename: Vec::new(),
            sha_content: Vec::new(),
            chunks: Vec::new(),
            linktarget: String::new(),
        };
        assert(f@ == empty_file()) by {
            assert(f.sha_filename@ =~= Seq::<u8>::empty());
            assert(f.sha_content@ =~= Seq::<u8>::empty());
            assert(chunks_view(f.chunks@) =~= Seq::<ChunkModel>::empty());
        }
        let mut pos: usize = 0;
        while pos < d.len()
            invariant
                pos <= d@.len(),
                parse_file(d@) == file_loop(d@, pos as int, f@),
            decreases d@.len() - pos,
        {
            let (tag, p1) = match Self::read_varint(d, pos) {
                Ok(x) => x,
                Err(_) => return Ok(f),
            };
            let q = match Self::file_field(d, p1, tag >> 3u64, (tag & 7) as u8, &mut f) {
                Ok(q) => q,
                Err(e) => return Err(e),
            };
            if q > pos && q <= d.len() {
                pos = q;
            } else {
                return Ok(f);
            }
        }
        Ok(f)
    }

    /// Reads a manifest payload: its file mappings.
    fn parse_manifest_payload(d: &[u8]) -> (r: Result<Vec<FileMapping>, ManifestError>)
        ensures
            match parse_payload(d@) {
                Ok(fs) => r is Ok && files_view(r->Ok_0@) == fs,
                Err(e) => r is Err && r->Err_0 == e,
            },
    {
        let mut files: Vec<FileMapping> = Vec::new();
        assert(files_view(files@) =~= Seq::<FileModel>::empty());
        let mut pos: usize = 0;
        while pos < d.len()
            invariant
                pos <= d@.len(),
                parse_payload(d@) == payload_loop(d@, pos as int, files_view(files@)),
            decreases d@.len() - pos,
        {
            let (tag, p1) = match Self::read_varint(d, pos) {
                Ok(x) => x,
                Err(_) => return Ok(files),
            };
            let field = tag >> 3u64;
            let wire = (tag & 7) as u8;
            let q: usize;
            if field == 1 && wire == 2 {
                let (n, start) = match Self::read_varint(d, p1) {
                    Ok(x) => x,
                    Err(e) => return Err(e),
                };
                let len = n as usize;
                if len > d.len() - start {
                    return Err(ManifestError::FileMappingOverflow);
                }
                let slice = &d[start..start + len];
                match Self::parse_file_mapping(slice) {
                    Ok(fm) => {
                        let ghost fv = fm@;
                        let ghost old_files = files@;
                        files.push(fm);
                        assert(files_view(files@) =~= files_view(old_files).push(fv));
                    },
                    Err(_) => {},
                }
                q = start + len;
            } else {
                q = match Self::skip_field(d, p1, wire) {
                    Ok(q) => q,
                    Err(e) => return Err(e),
                };
            }
            if q > pos && q <= d.len() {
                pos = q;
            } else {
                return Ok(files);
            }
        }
        Ok(files)
    }

    /// Reads a depot manifest: the file mappings of its framed payloads, or of the
    /// whole data as one payload when the frames give none.
    pub fn parse(data: &[u8]) -> (r: Result<ProtoDepotManifest, ManifestError>)
        ensures
            match parse_manifest(data@) {
                Ok(fs) => r is Ok && r->Ok_0@ == fs,
                Err(e) => r is Err && r->Err_0 == e,
            },
    {
        let mut all_files: Vec<FileMapping> = Vec::new();
        assert(files_view(all_files@) =~= Seq::<FileModel>::empty());
        let mut pos: usize = 0;
        let mut done = false;
        let ghost frames = frames_loop(data@, 0, Seq::empty());
        while pos < data.len() && !done
            invariant
                pos <= data@.len(),
                frames == frames_loop(data@, 0, Seq::empty()),
                !done ==> frames == frames_loop(data@, pos as int, files_view(all_files@)),
                done ==> frames == Ok::<Seq<FileModel>, ManifestError>(files_view(all_files@)),
            decreases data@.len() - pos, if done { 0int } else { 1int },
        {
            if data.len() - pos < 8 {
                done = true;
            } else {
                let magic = Self::le_u32_at(data, pos);
                let len = Self::le_u32_at(data, pos + 4) as usize;
                if magic != MANIFEST_MAGIC {
                    if pos == 0 {
                        let whole = Self::parse_manifest_payload(data);
                        return match whole {
                            Ok(fs) => {
                                proof {
                                    assert(frames == parse_payload(data@));
                                }
                                Ok(ProtoDepotManifest { filenames: fs })
                            },
                            Err(e) => Err(e),
                        };
                    }
                    done = true;
                } else {
                    if data.len() - (pos + 8) < len {
                        return Err(ManifestError::PayloadTruncated);
                    }
                    let payload = &data[pos + 8..pos + 8 + len];
                    let more = match Self::parse_manifest_payload(payload) {
                        Ok(m) => m,
                        Err(e) => return Err(e),
                    };
                    let ghost before = files_view(all_files@);
                    let ghost mv = files_view(more@);
                    let mut more = more;
                    all_files.append(&mut more);
                    assert(files_view(all_files@) =~= before + mv);
                    pos = pos + 8 + len;
                }
            }
        }
        if all_files.len() == 0 {
            let whole = Self::parse_manifest_payload(data);
            return match whole {
                Ok(fs) => Ok(ProtoDepotManifest { filenames: fs }),
                Err(e) => Err(e),
            };
        }
        Ok(ProtoDepotManifest { filenames: all_files })
    }
}

} // verus!
