use crate::error::ConvertError;
use vstd::prelude::*;

verus! {

/// The codec that a section blob was written with.
#[derive(Debug, Clone, Copy, PartialEq, Eq, Structural)]
pub enum CompressionMode {
    Uncompressed,
    Lz4,
    Lzma2,
}

/// The bytes that an xz stream decodes to, or none where the stream is
/// corrupt or cut short.
pub uninterp spec fn xz_decoded(data: Seq<u8>) -> Option<Seq<u8>>;

/// The codec named by a numeric tag: 0, 1 and 3 are known.
pub open spec fn mode_of_tag(n: int) -> Option<CompressionMode> {
    if n == 0 {
        Some(CompressionMode::Uncompressed)
    } else if n == 1 {
        Some(CompressionMode::Lz4)
    } else if n == 3 {
        Some(CompressionMode::Lzma2)
    } else {
        None
    }
}

/// Relies on xz2's `bufread::XzDecoder` read to its end: the decoded bytes of
/// one xz stream, or an error where the stream is corrupt or cut short.
#[verifier::external_body]
fn xz_decode(data: &[u8]) -> (r: Option<Vec<u8>>)
    ensures
        match r {
            Some(v) => xz_decoded(data@) == Some(v@),
            None => xz_decoded(data@) is None,
        },
{
    let mut out = Vec::new();
    match std::io::Read::read_to_end(&mut xz2::bufread::XzDecoder::new(data), &mut out) {
        Ok(_) => Some(out),
        Err(_) => None,
    }
}

/// What a blob written with `mode` decompresses to, or the error it gives.
pub open spec fn decompressed(mode: CompressionMode, data: Seq<u8>) -> Result<Seq<u8>, ConvertError> {
    match mode {
        CompressionMode::Uncompressed => Ok(data),
        CompressionMode::Lz4 => Err(ConvertError::UnsupportedCompression),
        CompressionMode::Lzma2 => match xz_decoded(data) {
            Some(d) => Ok(d),
            None => Err(ConvertError::Decompress),
        },
    }
}

pub open spec fn bytes_result(r: Result<Vec<u8>, ConvertError>) -> Result<Seq<u8>, ConvertError> {
    match r {
        Ok(v) => Ok(v@),
        Err(e) => Err(e),
    }
}

impl CompressionMode {
    pub fn from_num(n: usize) -> (r: Option<CompressionMode>)
        ensures
            r == mode_of_tag(n as int),
    {
        match n {
            0 => Some(CompressionMode::Uncompressed),
            1 => Some(CompressionMode::Lz4),
            3 => Some(CompressionMode::Lzma2),
            _ => None,
        }
    }

    /// Decodes a blob written with this codec. An uncompressed blob comes back
    /// as it is; LZ4 is refused; an xz blob is decoded to the end of its stream.
    pub fn decompress(&self, data: Vec<u8>) -> (r: Result<Vec<u8>, ConvertError>)
        ensures
            bytes_result(r) == decompressed(*self, data@),
    {
        match self {
            CompressionMode::Uncompressed => Ok(data),
            CompressionMode::Lz4 => Err(ConvertError::UnsupportedCompression),
            CompressionMode::Lzma2 => match xz_decode(data.as_slice()) {
                Some(v) => Ok(v),
                None => Err(ConvertError::Decompress),
            },
        }
    }
}

} // verus!
