//! The outside decompressors and ciphers that Steam payloads go through, each
//! behind a function whose result is named by what it is applied to.
use vstd::prelude::*;
use aes::cipher::{BlockDecrypt, BlockDecryptMut, KeyInit, KeyIvInit};

verus! {

/// What `zstd::stream::decode_all` makes of a frame, `None` when it fails.
pub uninterp spec fn zstd_decoded(body: Seq<u8>) -> Option<Seq<u8>>;

/// `zstd::stream::decode_all` over the bytes.
#[verifier::external_body]
pub(crate) fn zstd_decode_all(body: &[u8]) -> (r: Option<Vec<u8>>)
    ensures
        match r {
            Some(v) => zstd_decoded(body@) == Some(v@),
            None => zstd_decoded(body@) is None,
        },
{
    zstd::stream::decode_all(std::io::Cursor::new(body)).ok()
}

/// What `lzma_rs::lzma_decompress` writes for a `.lzma` stream (header then
/// data), `None` when it fails.
pub uninterp spec fn lzma_decoded(stream: Seq<u8>) -> Option<Seq<u8>>;

/// `lzma_rs::lzma_decompress` from the bytes into a fresh buffer; the output
/// of a failed run is dropped.
#[verifier::external_body]
pub(crate) fn lzma_decompress(stream: &[u8]) -> (r: Option<Vec<u8>>)
    ensures
        match r {
            Some(v) => lzma_decoded(stream@) == Some(v@),
            None => lzma_decoded(stream@) is None,
        },
{
    let mut out = Vec::new();
    lzma_rs::lzma_decompress(&mut std::io::Cursor::new(stream), &mut out).ok().map(|_| out)
}

/// What a raw DEFLATE stream inflates to, `None` when reading fails.
pub uninterp spec fn deflate_decoded(input: Seq<u8>) -> Option<Seq<u8>>;

/// `flate2::read::DeflateDecoder` read to the end.
#[verifier::external_body]
pub(crate) fn deflate_decode(input: &[u8]) -> (r: Option<Vec<u8>>)
    ensures
        match r {
            Some(v) => deflate_decoded(input@) == Some(v@),
            None => deflate_decoded(input@) is None,
        },
{
    let mut out = Vec::new();
    std::io::Read::read_to_end(&mut flate2::read::DeflateDecoder::new(input), &mut out).ok().map(|_| out)
}

/// What a gzip stream inflates to, `None` when reading fails.
pub uninterp spec fn gzip_decoded(input: Seq<u8>) -> Option<Seq<u8>>;

/// `flate2::read::GzDecoder` read to the end.
#[verifier::external_body]
pub(crate) fn gzip_decode(input: &[u8]) -> (r: Option<Vec<u8>>)
    ensures
        match r {
            Some(v) => gzip_decoded(input@) == Some(v@),
            None => gzip_decoded(input@) is None,
        },
{
    let mut out = Vec::new();
    std::io::Read::read_to_end(&mut flate2::read::GzDecoder::new(input), &mut out).ok().map(|_| out)
}

/// AES-256 decryption of one 16-byte block under a 32-byte key.
pub uninterp spec fn aes256_block(key: Seq<u8>, block: Seq<u8>) -> Seq<u8>;

/// `aes::Aes256::decrypt_block` on a copy of the block: sixteen bytes, as
/// `aes256_block` names them.
#[verifier::external_body]
pub(crate) fn aes256_decrypt_block(key: &[u8; 32], block: &[u8]) -> (r: Vec<u8>)
    requires
        block@.len() == 16,
    ensures
        r@ == aes256_block(key@, block@),
        r@.len() == 16,
{
    let cipher = aes::Aes256::new(aes::cipher::generic_array::GenericArray::from_slice(key));
    let mut b = aes::cipher::generic_array::GenericArray::clone_from_slice(block);
    cipher.decrypt_block(&mut b);
    b.to_vec()
}

/// AES-256-CBC decryption: each 16-byte block decrypted, then XORed with the
/// block before it (the IV for the first).
pub open spec fn cbc_plain(key: Seq<u8>, iv: Seq<u8>, body: Seq<u8>) -> Seq<u8> {
    Seq::new(body.len(), |i: int| {
        let j = i / 16;
        let prev = if j == 0 { iv } else { body.subrange(16 * (j - 1), 16 * j) };
        aes256_block(key, body.subrange(16 * j, 16 * j + 16))[i % 16] ^ prev[i % 16]
    })
}

/// AES-256-CBC decryption with PKCS#7 padding removed: `None` when the body
/// is empty or not whole blocks, or when the last byte `n` of the plain text
/// is 0 or above 16, or the `n` last bytes are not all `n`.
pub open spec fn cbc_pkcs7(key: Seq<u8>, iv: Seq<u8>, body: Seq<u8>) -> Option<Seq<u8>> {
    if body.len() == 0 || body.len() % 16 != 0 {
        None
    } else {
        let p = cbc_plain(key, iv, body);
        let n = p.last() as int;
        if n == 0 || n > 16 {
            None
        } else if exists|k: int| p.len() - n <= k < p.len() && #[trigger] p[k] != n as u8 {
            None
        } else {
            Some(p.take(p.len() - n))
        }
    }
}

/// `cbc::Decryptor::<Aes256>::decrypt_padded_mut::<Pkcs7>` on a copy of the
/// body.
#[verifier::external_body]
pub(crate) fn aes256_cbc_decrypt(key: &[u8; 32], iv: &[u8], body: &[u8]) -> (r: Option<Vec<u8>>)
    requires
        iv@.len() == 16,
    ensures
        match r {
            Some(v) => cbc_pkcs7(key@, iv@, body@) == Some(v@),
            None => cbc_pkcs7(key@, iv@, body@) is None,
        },
{
    let mut buf = body.to_vec();
    let k = aes::cipher::generic_array::GenericArray::from_slice(key);
    let v = aes::cipher::generic_array::GenericArray::from_slice(iv);
    let dec = cbc::Decryptor::<aes::Aes256>::new(k, v);
    dec.decrypt_padded_mut::<cbc::cipher::block_padding::Pkcs7>(&mut buf).ok().map(|s| s.to_vec())
}

} // verus!
