//! The compression capability: turning a block's pixel bytes into an
//! on-disk payload and back.
//!
//! The pipeline never inspects compressed bytes; it only knows that the
//! uncompressed codec is the identity and that the deflate codec restores
//! exactly what it compressed.

use vstd::prelude::*;

use crate::error::Error;
use crate::meta::Compression;

verus! {

/// What `miniz_oxide::deflate::compress_to_vec` returns for the given
/// input at this library's fixed compression level; a function of the
/// input bytes alone.
pub uninterp spec fn deflate_of(data: Seq<u8>) -> Seq<u8>;

/// What `miniz_oxide::inflate::decompress_to_vec` returns for the given
/// input: the decompressed bytes, or nothing when the input is not valid
/// deflate data; a function of the input bytes alone.
pub uninterp spec fn inflate_of(data: Seq<u8>) -> Option<Seq<u8>>;

/// Relies on miniz_oxide::deflate::compress_to_vec: it deflate-compresses
/// the input deterministically, and miniz_oxide::inflate::decompress_to_vec
/// recovers exactly the compressed input.
#[verifier::external_body]
fn deflate(data: &Vec<u8>) -> (r: Vec<u8>)
    ensures
        r@ == deflate_of(data@),
        inflate_of(r@) == Some(data@),
{
    miniz_oxide::deflate::compress_to_vec(data.as_slice(), 6)
}

/// Relies on miniz_oxide::inflate::decompress_to_vec: it recovers the
/// deflate-compressed bytes, failing exactly on input it cannot decode.
#[verifier::external_body]
fn inflate(data: &Vec<u8>) -> (r: Result<Vec<u8>, Error>)
    ensures
        r matches Ok(v) ==> inflate_of(data@) == Some(v@),
        r is Err ==> inflate_of(data@) is None,
        r matches Err(e) ==> e.is_invalid_with("compressed data"@),
{
    match miniz_oxide::inflate::decompress_to_vec(data.as_slice()) {
        Ok(v) => Ok(v),
        Err(_) => Err(Error::Invalid("compressed data")),
    }
}

/// The on-disk payload this codec produces for the pixel bytes `data`.
pub open spec fn spec_compress_section(c: Compression, data: Seq<u8>) -> Seq<u8> {
    match c {
        Compression::Uncompressed => data,
        Compression::Zip => deflate_of(data),
    }
}

/// Whether the payload `data` decompresses under `c` to exactly
/// `expected_len` pixel bytes.
pub open spec fn spec_decompress_section_ok(c: Compression, data: Seq<u8>, expected_len: int) -> bool {
    match c {
        Compression::Uncompressed => data.len() == expected_len,
        Compression::Zip => inflate_of(data) matches Some(v) && v.len() == expected_len,
    }
}

/// Whether the payload `data` is decodable at all under `c`, whatever its
/// decompressed length.
pub open spec fn spec_decompress_decodable(c: Compression, data: Seq<u8>) -> bool {
    match c {
        Compression::Uncompressed => true,
        Compression::Zip => inflate_of(data) is Some,
    }
}

/// The pixel bytes the payload `data` decompresses to under `c`.
pub open spec fn spec_decompressed_section(c: Compression, data: Seq<u8>) -> Seq<u8> {
    match c {
        Compression::Uncompressed => data,
        Compression::Zip => inflate_of(data)->Some_0,
    }
}

impl Compression {
    /// Compress one block's pixel bytes into an on-disk payload.
    ///
    /// Decompressing the result always restores `data` exactly: every codec
    /// offered here is lossless.
    pub fn compress_image_section(self, data: Vec<u8>) -> (r: Result<Vec<u8>, Error>)
        ensures
            r matches Ok(v) && v@ == spec_compress_section(self, data@),
            r matches Ok(v) ==> spec_decompress_section_ok(self, v@, data@.len() as int)
                && spec_decompressed_section(self, v@) == data@,
    {
        match self {
            Compression::Uncompressed => Ok(data),
            Compression::Zip => Ok(deflate(&data)),
        }
    }

    /// Decompress one chunk's payload into pixel bytes, checking that
    /// exactly `expected_byte_size` bytes come out.
    ///
    /// In pedantic mode a codec may run additional internal checks; the
    /// codecs offered here always verify their input structurally.
    pub fn decompress_image_section(
        self,
        data: Vec<u8>,
        expected_byte_size: usize,
        pedantic: bool,
    ) -> (r: Result<Vec<u8>, Error>)
        ensures
            spec_decompress_section_ok(self, data@, expected_byte_size as int) ==> (r matches Ok(v)
                && v@ == spec_decompressed_section(self, data@)),
            !spec_decompress_decodable(self, data@) ==> (r matches Err(e) && e.is_invalid_with(
                "compressed data"@,
            )),
            spec_decompress_decodable(self, data@) && !spec_decompress_section_ok(
                self,
                data@,
                expected_byte_size as int,
            ) ==> (r matches Err(e) && e.is_invalid_with("decompressed size"@)),
    {
        let _ = pedantic;
        match self {
            Compression::Uncompressed => {
                if data.len() == expected_byte_size {
                    Ok(data)
                } else {
                    Err(Error::Invalid("decompressed size"))
                }
            },
            Compression::Zip => {
                match inflate(&data) {
                    Ok(v) => {
                        if v.len() == expected_byte_size {
                            Ok(v)
                        } else {
                            Err(Error::Invalid("decompressed size"))
                        }
                    },
                    Err(e) => Err(e),
                }
            },
        }
    }
}

} // verus!
