//! The RON importer: a single-asset importer that keeps one stable
//! asset identity per source file across imports.  Parsing the source
//! text into a value is a pluggable capability outside this library;
//! the importer's own duty — assigning the identity once and shaping
//! the imported asset — is specified and verified here.
use vstd::prelude::*;

use crate::ids::AssetUuid;
use crate::metadata::AssetRef;

verus! {

/// Options of the RON importer; it has none.
#[derive(Clone, Copy, Debug)]
pub struct RonImporterOptions {}

impl Default for RonImporterOptions {
    fn default() -> (r: Self)
        ensures
            r == (RonImporterOptions {  }),
    {
        RonImporterOptions {  }
    }
}

/// The importer's persisted state: the one asset identity it assigns
/// to its source file, kept so the identity survives re-imports.
#[derive(Clone, Copy, Debug)]
pub struct RonImporterState {
    pub id: Option<AssetUuid>,
}

impl Default for RonImporterState {
    fn default() -> (r: Self)
        ensures
            r == (RonImporterState { id: None }),
    {
        RonImporterState { id: None }
    }
}

/// An importer for RON source files, one asset per file.
#[derive(Clone, Copy, Debug)]
pub struct RonImporter {}

impl Default for RonImporter {
    fn default() -> (r: Self)
        ensures
            r == (RonImporter {  }),
    {
        RonImporter {  }
    }
}

/// One asset produced by an import: its identity, search tags,
/// dependencies, and serialized value.
#[derive(Debug)]
pub struct ImportedAsset {
    pub id: AssetUuid,
    pub search_tags: Vec<(Vec<u8>, Option<Vec<u8>>)>,
    pub build_deps: Vec<AssetRef>,
    pub load_deps: Vec<AssetRef>,
    pub asset_data: Vec<u8>,
}

/// Everything an import run produces.
#[derive(Debug)]
pub struct ImporterValue {
    pub assets: Vec<ImportedAsset>,
}

/// Relies on uuid::Uuid::new_v4: a fresh random identity whose version
/// nibble is 4 and whose variant bits are 10; nothing else is assumed
/// of the random bytes.
#[verifier::external_body]
fn new_v4_bytes() -> (r: [u8; 16])
    ensures
        r@[6] & 0xf0 == 0x40,
        r@[8] & 0xc0 == 0x80,
{
    uuid::Uuid::new_v4().into_bytes()
}

impl RonImporter {
    /// The importer's format version.
    pub fn version_static() -> (v: u32)
        ensures
            v == 1,
    {
        1
    }

    /// The format version of this importer value.
    pub fn version(&self) -> (v: u32)
        ensures
            v == 1,
    {
        RonImporter::version_static()
    }

    /// Imports one parsed source: assigns the state's identity on the
    /// first run and keeps it afterwards, and yields a single asset
    /// carrying the serialized value, with no tags and no dependencies.
    pub fn import(&self, state: &mut RonImporterState, asset_data: Vec<u8>) -> (r: ImporterValue)
        ensures
            final(state).id is Some,
            old(state).id is Some ==> final(state).id == old(state).id,
            old(state).id is None ==> (final(state).id matches Some(u) && u@[6] & 0xf0 == 0x40
                && u@[8] & 0xc0 == 0x80),
            r.assets@.len() == 1,
            r.assets@[0].id == final(state).id->0,
            r.assets@[0].search_tags@.len() == 0,
            r.assets@[0].build_deps@.len() == 0,
            r.assets@[0].load_deps@.len() == 0,
            r.assets@[0].asset_data@ == asset_data@,
    {
        if state.id.is_none() {
            state.id = Some(AssetUuid(new_v4_bytes()));
        }
        let id = match state.id {
            Some(u) => u,
            None => vstd::pervasive::unreached(),
        };
        let asset = ImportedAsset {
            id,
            search_tags: Vec::new(),
            build_deps: Vec::new(),
            load_deps: Vec::new(),
            asset_data,
        };
        let mut assets: Vec<ImportedAsset> = Vec::new();
        assets.push(asset);
        ImporterValue { assets }
    }
}

} // verus!
