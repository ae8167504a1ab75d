//! The metadata that travels with artifacts: identities, references,
//! and the per-artifact record kept by the hub and the packfile.
use vstd::prelude::*;

use crate::ids::{AssetTypeId, AssetUuid};
use crate::utils::clone_bytes;

verus! {

/// The 64-bit identity of an artifact, derived from its inputs.
#[derive(Clone, Copy, Debug, PartialEq, Eq, Structural)]
pub struct ArtifactId(pub u64);

/// How an artifact's bytes are stored.
#[derive(Clone, Copy, Debug, PartialEq, Eq, Structural)]
pub enum CompressionType {
    Uncompressed,
    Lz4,
}

/// A reference to an asset: by identity, or by a path that the hub
/// resolves to identities.
#[derive(Debug)]
pub enum AssetRef {
    Uuid(AssetUuid),
    Path(Vec<u8>),
}

/// The mathematical value of an `AssetRef`.
pub enum AssetRefView {
    Uuid(Seq<u8>),
    Path(Seq<u8>),
}

impl View for AssetRef {
    type V = AssetRefView;

    open spec fn view(&self) -> AssetRefView {
        match self {
            AssetRef::Uuid(u) => AssetRefView::Uuid(u@),
            AssetRef::Path(p) => AssetRefView::Path(p@),
        }
    }
}

impl Clone for AssetRef {
    fn clone(&self) -> (r: Self)
        ensures
            r@ == self@,
    {
        match self {
            AssetRef::Uuid(u) => AssetRef::Uuid(*u),
            AssetRef::Path(p) => AssetRef::Path(clone_bytes(p)),
        }
    }
}

/// The views of a list of references.
pub open spec fn ref_views(s: Seq<AssetRef>) -> Seq<AssetRefView> {
    s.map_values(|r: AssetRef| r@)
}

/// A copy of a reference list.
pub fn clone_refs(v: &Vec<AssetRef>) -> (r: Vec<AssetRef>)
    ensures
        ref_views(r@) == ref_views(v@),
{
    let mut out: Vec<AssetRef> = Vec::new();
    let mut i: usize = 0;
    while i < v.len()
        invariant
            i <= v@.len(),
            out@.len() == i,
            forall|j: int| 0 <= j < i ==> #[trigger] out@[j]@ == v@[j]@,
        decreases v@.len() - i,
    {
        out.push(v[i].clone());
        i = i + 1;
    }
    assert(ref_views(out@) =~= ref_views(v@));
    out
}

/// Everything recorded about one artifact: its identity, the asset it
/// belongs to, its dependencies, and how its bytes are stored.
#[derive(Debug)]
pub struct ArtifactMetadata {
    pub id: ArtifactId,
    pub asset_id: AssetUuid,
    pub build_deps: Vec<AssetRef>,
    pub load_deps: Vec<AssetRef>,
    pub compression: CompressionType,
    pub uncompressed_size: Option<u64>,
    pub compressed_size: Option<u64>,
    pub type_id: AssetTypeId,
}

/// The mathematical value of an `ArtifactMetadata`.
pub struct ArtifactMetadataView {
    pub id: u64,
    pub asset_id: Seq<u8>,
    pub build_deps: Seq<AssetRefView>,
    pub load_deps: Seq<AssetRefView>,
    pub compression: CompressionType,
    pub uncompressed_size: Option<u64>,
    pub compressed_size: Option<u64>,
    pub type_id: Seq<u8>,
}

impl View for ArtifactMetadata {
    type V = ArtifactMetadataView;

    open spec fn view(&self) -> ArtifactMetadataView {
        ArtifactMetadataView {
            id: self.id.0,
            asset_id: self.asset_id@,
            build_deps: ref_views(self.build_deps@),
            load_deps: ref_views(self.load_deps@),
            compression: self.compression,
            uncompressed_size: self.uncompressed_size,
            compressed_size: self.compressed_size,
            type_id: self.type_id@,
        }
    }
}

impl Clone for ArtifactMetadata {
    fn clone(&self) -> (r: Self)
        ensures
            r@ == self@,
    {
        ArtifactMetadata {
            id: self.id,
            asset_id: self.asset_id,
            build_deps: clone_refs(&self.build_deps),
            load_deps: clone_refs(&self.load_deps),
            compression: self.compression,
            uncompressed_size: self.uncompressed_size,
            compressed_size: self.compressed_size,
            type_id: self.type_id,
        }
    }
}

/// What the hub records about one asset: its identity and its current
/// artifact, if one has been imported.
#[derive(Debug)]
pub struct AssetMetadata {
    pub id: AssetUuid,
    pub artifact: Option<ArtifactMetadata>,
}

/// The mathematical value of an `AssetMetadata`.
pub struct AssetMetadataView {
    pub id: Seq<u8>,
    pub artifact: Option<ArtifactMetadataView>,
}

impl View for AssetMetadata {
    type V = AssetMetadataView;

    open spec fn view(&self) -> AssetMetadataView {
        AssetMetadataView {
            id: self.id@,
            artifact: match self.artifact {
                Some(a) => Some(a@),
                None => None,
            },
        }
    }
}

impl Clone for AssetMetadata {
    fn clone(&self) -> (r: Self)
        ensures
            r@ == self@,
    {
        AssetMetadata {
            id: self.id,
            artifact: match &self.artifact {
                Some(a) => Some(a.clone()),
                None => None,
            },
        }
    }
}

} // verus!
