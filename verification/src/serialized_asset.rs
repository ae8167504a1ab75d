//! Builds the serialized form of an imported asset: its bytes together
//! with the artifact metadata that addresses them.
use vstd::prelude::*;

use crate::ids::{AssetTypeId, AssetUuid};
use crate::metadata::{ArtifactId, ArtifactMetadata, AssetRef, CompressionType, ref_views};

verus! {

/// An artifact ready for the cache: its metadata and its bytes.
#[derive(Debug)]
pub struct SerializedAsset {
    pub metadata: ArtifactMetadata,
    pub data: Vec<u8>,
}

/// The LZ4 frame of a byte string, with the uncompressed size
/// prepended; a pure function of the bytes.
pub uninterp spec fn lz4_frame_of(b: Seq<u8>) -> Seq<u8>;

/// Relies on lz4_flex::compress_prepend_size: an LZ4 block with the
/// input length prepended as four little-endian bytes; the result
/// depends on the input bytes alone.  The four-byte size prefix limits
/// the input to what fits in it.
#[verifier::external_body]
fn lz4_compress(data: &Vec<u8>) -> (r: Vec<u8>)
    requires
        data@.len() < 0x100000000,
    ensures
        r@ == lz4_frame_of(data@),
{
    lz4_flex::compress_prepend_size(data.as_slice())
}

/// The stored form of an asset's bytes under a compression choice.
pub open spec fn stored_bytes(compression: CompressionType, data: Seq<u8>) -> Seq<u8> {
    match compression {
        CompressionType::Uncompressed => data,
        CompressionType::Lz4 => lz4_frame_of(data),
    }
}

/// Wraps an asset's serialized bytes with their artifact metadata.
/// The artifact id is the caller's content hash; the bytes are stored
/// raw or LZ4-framed per the compression choice, and the size fields
/// record the serialized length and the stored length.
pub fn create(
    hash: u64,
    id: AssetUuid,
    build_deps: Vec<AssetRef>,
    load_deps: Vec<AssetRef>,
    type_id: AssetTypeId,
    compression: CompressionType,
    data: Vec<u8>,
) -> (r: SerializedAsset)
    requires
        compression == CompressionType::Lz4 ==> data@.len() < 0x100000000,
    ensures
        r.metadata@.id == hash,
        r.metadata@.asset_id == id@,
        r.metadata@.build_deps == ref_views(build_deps@),
        r.metadata@.load_deps == ref_views(load_deps@),
        r.metadata@.compression == compression,
        r.metadata@.uncompressed_size == Some(data@.len() as u64),
        r.metadata@.compressed_size == Some(r.data@.len() as u64),
        r.data@ == stored_bytes(compression, data@),
{
    let size = data.len() as u64;
    let stored: Vec<u8> = match compression {
        CompressionType::Uncompressed => data,
        CompressionType::Lz4 => lz4_compress(&data),
    };
    let stored_size = stored.len() as u64;
    SerializedAsset {
        metadata: ArtifactMetadata {
            id: ArtifactId(hash),
            asset_id: id,
            build_deps,
            load_deps,
            compression,
            uncompressed_size: Some(size),
            compressed_size: Some(stored_size),
            type_id,
        },
        data: stored,
    }
}

} // verus!
