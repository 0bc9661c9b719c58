//! How blocks are compressed.

use crate::error::IoError;
use vstd::prelude::*;
use vstd::slice::slice_to_vec;

verus! {

/// The compression of the blocks of a file.
#[derive(Debug, Clone, Copy, PartialEq, Eq, Structural)]
pub enum CompressionType {
    /// Blocks are stored as they are.
    Uncompressed,
    /// Blocks are compressed in the raw Snappy format.
    Snappy,
}

/// What `snap::raw::Encoder::compress_vec` makes of bytes.
pub uninterp spec fn snappy_compressed(data: Seq<u8>) -> Seq<u8>;

/// What `snap::raw::Decoder::decompress_vec` makes of bytes, and `None` where it
/// fails.
pub uninterp spec fn snappy_decompressed(data: Seq<u8>) -> Option<Seq<u8>>;

/// Whether so many bytes can be compressed: `snap::raw::max_compress_len` of them
/// must be a number of 32 bits.
pub open spec fn snappy_accepts(len: nat) -> bool {
    32 + len + len / 6 <= u32::MAX
}

/// Compresses bytes with `snap::raw::Encoder::compress_vec`, on a new encoder. It
/// fails where the bytes are too many, and only there. What it makes,
/// `snap::raw::Decoder::decompress_vec` turns back into the bytes. The memory for the
/// result is taken to be there.
#[verifier::external_body]
fn snappy_compress(data: &[u8]) -> (r: Option<Vec<u8>>)
    ensures
        r is Some <==> snappy_accepts(data@.len()),
        r matches Some(bytes) ==> bytes@ == snappy_compressed(data@) && snappy_decompressed(bytes@)
            == Some(data@),
{
    snap::raw::Encoder::new().compress_vec(data).ok()
}

/// Decompresses bytes with `snap::raw::Decoder::decompress_vec`, on a new decoder.
/// What that makes of bytes depends on them alone. The memory for the result is taken
/// to be there.
#[verifier::external_body]
fn snappy_decompress(data: &[u8]) -> (r: Option<Vec<u8>>)
    ensures
        match r {
            Some(bytes) => snappy_decompressed(data@) == Some(bytes@),
            None => snappy_decompressed(data@) is None,
        },
{
    snap::raw::Decoder::new().decompress_vec(data).ok()
}

impl CompressionType {
    /// The byte that stands for this compression in a file.
    pub open spec fn tag(self) -> u8 {
        match self {
            CompressionType::Uncompressed => 0,
            CompressionType::Snappy => 1,
        }
    }

    /// The byte that stands for this compression in a file.
    pub fn to_u8(self) -> (tag: u8)
        ensures
            tag == self.tag(),
    {
        match self {
            CompressionType::Uncompressed => 0,
            CompressionType::Snappy => 1,
        }
    }

    /// The compression that a byte stands for.
    pub fn from_u8(value: u8) -> (r: Option<CompressionType>)
        ensures
            r == compression_of(value),
    {
        match value {
            0 => Some(CompressionType::Uncompressed),
            1 => Some(CompressionType::Snappy),
            _ => None,
        }
    }
}

/// The compression that a byte stands for, if any.
pub open spec fn compression_of(value: u8) -> Option<CompressionType> {
    if value == 0 {
        Some(CompressionType::Uncompressed)
    } else if value == 1 {
        Some(CompressionType::Snappy)
    } else {
        None
    }
}

/// The byte of a compression stands for that compression.
pub proof fn tag_round_trip(compression: CompressionType)
    ensures
        compression_of(compression.tag()) == Some(compression),
{
}

/// Whether so many bytes can be made into a block.
pub open spec fn compressible(compression: CompressionType, len: nat) -> bool {
    match compression {
        CompressionType::Uncompressed => true,
        CompressionType::Snappy => snappy_accepts(len),
    }
}

/// The bytes that a block is stored as.
pub open spec fn compressed(compression: CompressionType, data: Seq<u8>) -> Seq<u8> {
    match compression {
        CompressionType::Uncompressed => data,
        CompressionType::Snappy => snappy_compressed(data),
    }
}

/// The block that is stored as the given bytes, if they can be decompressed.
pub open spec fn decompressed(compression: CompressionType, data: Seq<u8>) -> Option<Seq<u8>> {
    match compression {
        CompressionType::Uncompressed => Some(data),
        CompressionType::Snappy => snappy_decompressed(data),
    }
}

/// Compresses a block. The level is for compressions that know levels; none of
/// those at hand does.
pub fn compress(compression: CompressionType, level: u32, data: &[u8]) -> (r: Result<
    Vec<u8>,
    IoError,
>)
    ensures
        match r {
            Ok(bytes) => {
                &&& compressible(compression, data@.len())
                &&& bytes@ == compressed(compression, data@)
                &&& decompressed(compression, bytes@) == Some(data@)
            },
            Err(e) => !compressible(compression, data@.len()) && e is InvalidInput,
        },
{
    match compression {
        CompressionType::Uncompressed => Ok(slice_to_vec(data)),
        CompressionType::Snappy => match snappy_compress(data) {
            Some(bytes) => Ok(bytes),
            None => Err(IoError::InvalidInput),
        },
    }
}

/// Decompresses a block.
pub fn decompress(compression: CompressionType, data: Vec<u8>) -> (r: Result<Vec<u8>, Vec<u8>>)
    ensures
        match r {
            Ok(bytes) => decompressed(compression, data@) == Some(bytes@),
            Err(kept) => decompressed(compression, data@) is None && kept == data,
        },
{
    match compression {
        CompressionType::Uncompressed => Ok(data),
        CompressionType::Snappy => match snappy_decompress(data.as_slice()) {
            Some(bytes) => Ok(bytes),
            None => Err(data),
        },
    }
}

/// The bytes of the compressions are 0 and 1, and no other byte is one.
pub proof fn tags()
    ensures
        CompressionType::Uncompressed.tag() == 0,
        CompressionType::Snappy.tag() == 1,
        compression_of(0) == Some(CompressionType::Uncompressed),
        compression_of(1) == Some(CompressionType::Snappy),
        forall|value: u8| value > 1 ==> #[trigger] compression_of(value) is None,
{
}

/// Without compression every block is stored as it is, and all bytes are a block.
pub proof fn uncompressed_is_as_it_is(data: Seq<u8>)
    ensures
        compressible(CompressionType::Uncompressed, data.len()),
        compressed(CompressionType::Uncompressed, data) == data,
        decompressed(CompressionType::Uncompressed, data) == Some(data),
{
}

/// Snappy compresses every block of up to so many bytes that a sixth more than them and
/// 32 make a number of 32 bits, and what is stored is what Snappy makes of it.
pub proof fn snappy_is_snappy(data: Seq<u8>)
    ensures
        compressible(CompressionType::Snappy, data.len()) <==> 32 + data.len() + data.len() / 6
            < 0x1_0000_0000,
        compressed(CompressionType::Snappy, data) == snappy_compressed(data),
        decompressed(CompressionType::Snappy, data) == snappy_decompressed(data),
{
}

} // verus!
