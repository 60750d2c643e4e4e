use std::io::Write;

use aes::cipher::{BlockEncrypt, BlockEncryptMut, KeyInit, KeyIvInit};
use darkcore::direct_download::downloader::{ChunkData, ChunkError, ManifestFetchError, calc_adler32, chunk_url,
    decode_manifest, ecb_decrypt_blocks, generate_jobs, manifest_url, perform_decompression as chunk_decompression,
    process_chunk_data};
use darkcore::downloader::{ExtractError, ManifestFormat, detect_format, extract_manifest_bytes};
use darkcore::services::downloader::manifest_parser::{ChunkInfo, FileMapping, ManifestError, ManifestParser,
    ProtoDepotManifest};
use darkcore::utils::crypto::{CryptoError, DecompressError, decrypt_and_decompress, perform_decompression};

fn varint(mut n: u64, out: &mut Vec<u8>) {
    loop {
        let b = (n & 0x7f) as u8;
        n >>= 7;
        if n == 0 {
            out.push(b);
            return;
        }
        out.push(b | 0x80);
    }
}

fn len_field(tag: u8, data: &[u8], out: &mut Vec<u8>) {
    out.push(tag);
    varint(data.len() as u64, out);
    out.extend_from_slice(data);
}

fn sample_chunk() -> Vec<u8> {
    let mut c = Vec::new();
    len_field(0x0A, &[0xAB, 0x01], &mut c);
    c.push(0x15);
    c.extend_from_slice(&0x01020304u32.to_le_bytes());
    c.push(0x18);
    varint(300, &mut c);
    c.push(0x20);
    varint(64, &mut c);
    c.push(0x28);
    varint(32, &mut c);
    c
}

fn sample_payload() -> Vec<u8> {
    let mut f = Vec::new();
    len_field(0x0A, b"game/data.bin", &mut f);
    f.push(0x10);
    varint(1000, &mut f);
    len_field(0x32, &sample_chunk(), &mut f);
    let mut p = Vec::new();
    len_field(0x0A, &f, &mut p);
    p
}

fn framed(payload: &[u8]) -> Vec<u8> {
    let mut m = vec![0xD0, 0x17, 0xF6, 0x71];
    m.extend_from_slice(&(payload.len() as u32).to_le_bytes());
    m.extend_from_slice(payload);
    m
}

fn zip_of(files: &[(&str, &[u8])]) -> Vec<u8> {
    let mut buf = std::io::Cursor::new(Vec::new());
    {
        let mut w = zip::ZipWriter::new(&mut buf);
        for (name, data) in files {
            w.start_file(*name, zip::write::SimpleFileOptions::default()).unwrap();
            w.write_all(data).unwrap();
        }
        w.finish().unwrap();
    }
    buf.into_inner()
}

fn deflate(data: &[u8]) -> Vec<u8> {
    let mut e = flate2::write::DeflateEncoder::new(Vec::new(), flate2::Compression::default());
    e.write_all(data).unwrap();
    e.finish().unwrap()
}

fn zlib(data: &[u8]) -> Vec<u8> {
    let mut e = flate2::write::ZlibEncoder::new(Vec::new(), flate2::Compression::default());
    e.write_all(data).unwrap();
    e.finish().unwrap()
}

fn encrypt_payload(key: &[u8; 32], iv: &[u8; 16], plain: &[u8]) -> Vec<u8> {
    let cipher = aes::Aes256::new(key.into());
    let mut iv_block = aes::cipher::generic_array::GenericArray::clone_from_slice(iv);
    cipher.encrypt_block(&mut iv_block);
    let mut buf = plain.to_vec();
    buf.resize(plain.len() + 16, 0);
    let enc = cbc::Encryptor::<aes::Aes256>::new(key.into(), iv.into());
    let ct = enc.encrypt_padded_mut::<cbc::cipher::block_padding::Pkcs7>(&mut buf, plain.len()).unwrap().to_vec();
    let mut out = iv_block.to_vec();
    out.extend_from_slice(&ct);
    out
}

#[test]
fn manifest_parser_reads_files_and_chunks() {
    let m = ManifestParser::parse(&framed(&sample_payload())).unwrap();
    assert_eq!(m.filenames.len(), 1);
    let f = &m.filenames[0];
    assert_eq!(f.filename, "game/data.bin");
    assert_eq!(f.size, 1000);
    assert_eq!(f.chunks.len(), 1);
    assert_eq!(f.chunks[0].chunk_id, vec![0xAB, 0x01]);
    assert_eq!(f.chunks[0].checksum, 0x01020304);
    assert_eq!(f.chunks[0].offset, 300);
    assert_eq!(f.chunks[0].uncompressed_length, 64);
    assert_eq!(f.chunks[0].compressed_length, 32);
    let raw = ManifestParser::parse(&sample_payload()).unwrap();
    assert_eq!(raw.filenames.len(), 1);
}

#[test]
fn manifest_parser_reports_truncation() {
    let mut bytes = framed(&sample_payload());
    bytes.truncate(bytes.len() - 3);
    assert!(ManifestParser::parse(&bytes).is_err());
}

#[test]
fn jobs_list_every_chunk_with_hex_ids() {
    let m = ProtoDepotManifest {
        filenames: vec![
            FileMapping { filename: "a".to_string(), size: 0, flags: 0, sha_filename: vec![], sha_content: vec![],
                chunks: vec![
                    ChunkInfo { chunk_id: vec![0x00, 0xff, 0x1a], checksum: 1, offset: 2, uncompressed_length: 3, compressed_length: 4 },
                    ChunkInfo { chunk_id: vec![0x0b], checksum: 5, offset: 6, uncompressed_length: 7, compressed_length: 8 },
                ], linktarget: String::new() },
            FileMapping { filename: "b".to_string(), size: 0, flags: 0, sha_filename: vec![], sha_content: vec![],
                chunks: vec![], linktarget: String::new() },
        ],
    };
    let jobs: Vec<ChunkData> = generate_jobs(&m);
    assert_eq!(jobs.len(), 2);
    assert_eq!(jobs[0].id, "00ff1a");
    assert_eq!(jobs[0].filename, "a");
    assert_eq!(jobs[1].id, "0b");
    assert_eq!(jobs[1].compressed_length, 8);
}

#[test]
fn adler32_variant_starts_at_zero() {
    assert_eq!(calc_adler32(&[]), 0);
    assert_eq!(calc_adler32(b"a"), (97 << 16) | 97);
    assert_eq!(calc_adler32(b"ab"), ((97 + 195) << 16) | 195);
}

#[test]
fn urls() {
    assert_eq!(chunk_url("http://h", 5, "ab", ""), "http://h/depot/5/chunk/ab");
    assert_eq!(chunk_url("http://h", 5, "ab", "t"), "http://h/depot/5/chunk/ab?token=t");
    assert_eq!(manifest_url("http://h", 5, 77, "t"), "http://h/depot/5/manifest/77/5?token=t");
}

#[test]
fn format_detection() {
    assert_eq!(detect_format(&[0x50, 0x4B, 0x03, 0x04, 0]), ManifestFormat::ZipArchive);
    assert_eq!(detect_format(&[0xD0, 0x17, 0xF6, 0x71]), ManifestFormat::RawProtobuf);
    assert_eq!(detect_format(&[0x78, 0x9C, 0, 0]), ManifestFormat::ZlibCompressed);
    assert_eq!(detect_format(&[1, 2, 3]), ManifestFormat::Unknown);
    assert_eq!(ManifestFormat::ZipArchive.label(), "ZIP Archive");
}

#[test]
fn extraction_by_format() {
    let manifest = framed(&sample_payload());
    let (b, f) = extract_manifest_bytes(&manifest, "1", "2").unwrap();
    assert_eq!(b, manifest);
    assert_eq!(f, ManifestFormat::RawProtobuf);

    let other = framed(&[0x0A, 0x00]);
    let z = zip_of(&[("readme.txt", b"hello world"), ("7_1.manifest", &other), ("5_99.manifest", &manifest)]);
    let (b, f) = extract_manifest_bytes(&z, "5", "99").unwrap();
    assert_eq!(b, manifest);
    assert_eq!(f, ManifestFormat::ZipArchive);

    let empty_zip = zip_of(&[("a.txt", b"nothing here")]);
    assert_eq!(extract_manifest_bytes(&empty_zip, "5", "99").unwrap_err(), ExtractError::NoManifestInZip);
    assert_eq!(extract_manifest_bytes(&[0x50, 0x4B, 0x03, 0x04, 1, 2, 3], "5", "99").unwrap_err(), ExtractError::ZipUnreadable);

    let packed = zlib(&manifest);
    let (b, f) = extract_manifest_bytes(&packed, "1", "2").unwrap();
    assert_eq!(b, manifest);
    assert_eq!(f, ManifestFormat::ZlibCompressed);
    assert_eq!(extract_manifest_bytes(&[0x78, 0, 0, 0, 0], "1", "2").unwrap_err(), ExtractError::ZlibFailed);

    let mut prefixed = vec![1u8, 2, 3, 4, 5, 6];
    prefixed.extend(zip_of(&[("9_9.manifest", &manifest)]));
    let (b, f) = extract_manifest_bytes(&prefixed, "9", "9").unwrap();
    assert_eq!(b, manifest);
    assert_eq!(f, ManifestFormat::ZipArchive);

    let junk = vec![9u8; 20];
    let (b, f) = extract_manifest_bytes(&junk, "1", "2").unwrap();
    assert_eq!(b, junk);
    assert_eq!(f, ManifestFormat::Unknown);
}

#[test]
fn payload_decompression_strategies() {
    let data = b"some chunk data, some chunk data, some chunk data".to_vec();
    let mut vz = b"VSZa0000".to_vec();
    vz.extend(zstd::stream::encode_all(&data[..], 3).unwrap());
    vz.extend(vec![0u8; 15]);
    assert_eq!(perform_decompression(&vz).unwrap(), data);
    assert_eq!(perform_decompression(b"VSZa12345").unwrap_err(), DecompressError::VZstdTooShort);
    let z = zip_of(&[("x", &data)]);
    assert_eq!(perform_decompression(&z).unwrap(), data);
    assert_eq!(perform_decompression(&deflate(&data)).unwrap(), data);
    let mut g = flate2::write::GzEncoder::new(Vec::new(), flate2::Compression::default());
    g.write_all(&data).unwrap();
    let gz = g.finish().unwrap();
    assert_eq!(perform_decompression(&gz).unwrap(), data);
}

#[test]
fn chunk_decompression_with_lzma() {
    let data = b"lzma lzma lzma lzma lzma".to_vec();
    let mut stream = Vec::new();
    let opts = lzma_rs::compress::Options {
        unpacked_size: lzma_rs::compress::UnpackedSize::WriteToHeader(Some(data.len() as u64)),
    };
    lzma_rs::lzma_compress_with_options(&mut std::io::Cursor::new(&data), &mut stream, &opts).unwrap();
    let mut vzip = vec![b'V', b'Z', b'a', 0, 0, 0, 0];
    vzip.push(stream[0]);
    vzip.extend_from_slice(&stream[1..5]);
    vzip.extend_from_slice(&stream[13..]);
    vzip.extend(vec![0u8; 10]);
    assert_eq!(chunk_decompression(&vzip, data.len() as u32).unwrap(), data);
    assert_eq!(chunk_decompression(b"VZa1234", 5).unwrap_err(), DecompressError::VZipTooShort);
    assert_eq!(chunk_decompression(&deflate(&data), 5).unwrap(), data);
}

#[test]
fn decrypt_then_decompress() {
    let key = [7u8; 32];
    let iv = [3u8; 16];
    let data = b"manifest body manifest body".to_vec();
    let enc = encrypt_payload(&key, &iv, &deflate(&data));
    assert_eq!(decrypt_and_decompress(&enc, &key).unwrap(), data);
    assert_eq!(decrypt_and_decompress(&enc[..10], &key).unwrap_err(), CryptoError::TooShort);
    let mut bad = enc.clone();
    bad.truncate(enc.len() - 1);
    assert_eq!(decrypt_and_decompress(&bad, &key).unwrap_err(), CryptoError::Padding);
}

#[test]
fn chunk_processing_checks_the_checksum() {
    let key = [9u8; 32];
    let iv = [1u8; 16];
    let data = b"chunk payload".to_vec();
    let enc = encrypt_payload(&key, &iv, &deflate(&data));
    let mut chunk = ChunkData { id: "ab".to_string(), checksum: calc_adler32(&data), offset: 0,
        compressed_length: 0, uncompressed_length: data.len() as u32, filename: "f".to_string() };
    assert_eq!(process_chunk_data(&enc, &key, &chunk).ok().unwrap(), data);
    chunk.checksum ^= 1;
    match process_chunk_data(&enc, &key, &chunk) {
        Err(ChunkError::ChecksumMismatch { expected, got }) => {
            assert_eq!(expected, chunk.checksum);
            assert_eq!(got, calc_adler32(&data));
        },
        _ => panic!("expected a checksum mismatch"),
    }
    assert!(matches!(process_chunk_data(&enc[..4], &key, &chunk), Err(ChunkError::TooShort)));
}

#[test]
fn manifest_download_is_decrypted_by_block_and_unzipped() {
    let key = [5u8; 32];
    let manifest = framed(&sample_payload());
    let mut z = zip_of(&[("m", &manifest)]);
    let tail = z.len() % 16;
    let cipher = aes::Aes256::new((&key).into());
    let whole = z.len() - tail;
    for block in z[..whole].chunks_mut(16) {
        let mut b = aes::cipher::generic_array::GenericArray::clone_from_slice(block);
        cipher.encrypt_block(&mut b);
        block.copy_from_slice(&b);
    }
    let plain = ecb_decrypt_blocks(&z, &key);
    assert_eq!(plain, zip_of(&[("m", &manifest)]));
    let m = decode_manifest(&z, &key).ok().unwrap();
    assert_eq!(m.filenames[0].filename, "game/data.bin");
    assert!(matches!(decode_manifest(&[1, 2, 3], &key), Err(ManifestFetchError::Undecodable)));
    let _ = ManifestError::UnexpectedEof;
}

#[test]
fn framed_payloads_give_their_files_in_order() {
    let mut f = Vec::new();
    len_field(0x0A, b"second.bin", &mut f);
    let mut p2 = Vec::new();
    len_field(0x0A, &f, &mut p2);
    let mut data = framed(&sample_payload());
    data.extend(framed(&p2));
    let m = ManifestParser::parse(&data).unwrap();
    let names: Vec<String> = m.filenames.iter().map(|f| f.filename.clone()).collect();
    assert_eq!(names, vec!["game/data.bin".to_string(), "second.bin".to_string()]);
}
