//! The packfile: an immutable bundle of artifacts served read-only to
//! runtime clients.  It answers metadata requests with the transitive
//! load-dependency closure, resolves path identifiers to candidate
//! assets, and hands out artifact bytes by asset identity.
use vstd::prelude::*;

use crate::error::Error;
use crate::hashing::uuid_views;
use crate::ids::AssetUuid;
use crate::metadata::{ArtifactMetadata, AssetMetadata, AssetMetadataView, AssetRef, AssetRefView};
use crate::utils::{bytes_eq, clone_bytes, le_value};

verus! {

/// One bundled asset: its path, its asset record, its artifact record,
/// and the artifact's bytes.
#[derive(Debug)]
pub struct PackEntry {
    pub path: Vec<u8>,
    pub asset_metadata: AssetMetadata,
    pub artifact_metadata: ArtifactMetadata,
    pub data: Vec<u8>,
}

/// The mathematical value of a pack entry.
pub struct PackEntryView {
    pub path: Seq<u8>,
    pub asset_metadata: AssetMetadataView,
    pub artifact_metadata: crate::metadata::ArtifactMetadataView,
    pub data: Seq<u8>,
}

impl View for PackEntry {
    type V = PackEntryView;

    open spec fn view(&self) -> PackEntryView {
        PackEntryView {
            path: self.path@,
            asset_metadata: self.asset_metadata@,
            artifact_metadata: self.artifact_metadata@,
            data: self.data@,
        }
    }
}

/// The views of a list of entries.
pub open spec fn entry_views(s: Seq<PackEntry>) -> Seq<PackEntryView> {
    s.map_values(|e: PackEntry| e@)
}

/// The index that serves a given asset identity: the last entry whose
/// asset record carries it, or -1 when the pack has none.
pub open spec fn entry_index_of(entries: Seq<PackEntryView>, u: Seq<u8>) -> int
    decreases entries.len(),
{
    if entries.len() == 0 {
        -1
    } else if entries.last().asset_metadata.id == u {
        entries.len() - 1
    } else {
        entry_index_of(entries.drop_last(), u)
    }
}

/// Whether the pack holds an asset with the given identity.
pub open spec fn pack_has_uuid(entries: Seq<PackEntryView>, u: Seq<u8>) -> bool {
    entry_index_of(entries, u) >= 0
}

/// What `entry_index_of` finds: a valid index bearing the identity, or
/// the guarantee that no entry bears it.
pub proof fn lemma_entry_index_of(entries: Seq<PackEntryView>, u: Seq<u8>)
    ensures
        -1 <= entry_index_of(entries, u) < entries.len(),
        entry_index_of(entries, u) >= 0 ==> entries[entry_index_of(entries, u)].asset_metadata.id
            == u,
        entry_index_of(entries, u) < 0 ==> forall|i: int|
            0 <= i < entries.len() ==> #[trigger] entries[i].asset_metadata.id != u,
    decreases entries.len(),
{
    if entries.len() > 0 && entries.last().asset_metadata.id != u {
        lemma_entry_index_of(entries.drop_last(), u);
        if entry_index_of(entries, u) < 0 {
            assert forall|i: int|
                0 <= i < entries.len() implies #[trigger] entries[i].asset_metadata.id != u by {
                if i < entries.len() - 1 {
                    assert(entries.drop_last()[i] == entries[i]);
                }
            }
        }
    }
}

/// Every entry's asset record and artifact record agree on the asset
/// identity; a published pack satisfies this by construction.
pub open spec fn pack_entries_wf(entries: Seq<PackEntryView>) -> bool {
    forall|i: int|
        0 <= i < entries.len() ==> #[trigger] entries[i].asset_metadata.id
            == entries[i].artifact_metadata.asset_id
}

/// The identities carried by the `Uuid` references of a list.
pub open spec fn uuid_refs(refs: Seq<AssetRefView>) -> Seq<Seq<u8>>
    decreases refs.len(),
{
    if refs.len() == 0 {
        Seq::empty()
    } else {
        let rest = uuid_refs(refs.drop_last());
        match refs.last() {
            AssetRefView::Uuid(u) => rest.push(u),
            AssetRefView::Path(_p) => rest,
        }
    }
}

proof fn lemma_uuid_refs_mem(refs: Seq<AssetRefView>, d: int)
    requires
        0 <= d < refs.len(),
        refs[d] is Uuid,
    ensures
        uuid_refs(refs).contains(refs[d]->Uuid_0),
    decreases refs.len(),
{
    if d == refs.len() - 1 {
        let rest = uuid_refs(refs.drop_last());
        assert(uuid_refs(refs)[rest.len() as int] == refs[d]->Uuid_0);
    } else {
        assert(refs.drop_last()[d] == refs[d]);
        lemma_uuid_refs_mem(refs.drop_last(), d);
        let rest = uuid_refs(refs.drop_last());
        let w = choose|w: int| 0 <= w < rest.len() && rest[w] == refs[d]->Uuid_0;
        match refs.last() {
            AssetRefView::Uuid(_u) => {
                assert(uuid_refs(refs)[w] == rest[w]);
            },
            AssetRefView::Path(_p) => {},
        }
    }
}

/// Every identity that any entry's load dependencies mention.
pub open spec fn dep_uuid_seq(entries: Seq<PackEntryView>) -> Seq<Seq<u8>>
    decreases entries.len(),
{
    if entries.len() == 0 {
        Seq::empty()
    } else {
        dep_uuid_seq(entries.drop_last()) + uuid_refs(entries.last().artifact_metadata.load_deps)
    }
}

proof fn lemma_dep_uuid_mem(entries: Seq<PackEntryView>, i: int, d: int)
    requires
        0 <= i < entries.len(),
        0 <= d < entries[i].artifact_metadata.load_deps.len(),
        entries[i].artifact_metadata.load_deps[d] is Uuid,
    ensures
        dep_uuid_seq(entries).contains(entries[i].artifact_metadata.load_deps[d]->Uuid_0),
    decreases entries.len(),
{
    let u = entries[i].artifact_metadata.load_deps[d]->Uuid_0;
    if i == entries.len() - 1 {
        lemma_uuid_refs_mem(entries.last().artifact_metadata.load_deps, d);
        let refs = uuid_refs(entries.last().artifact_metadata.load_deps);
        let w = choose|w: int| 0 <= w < refs.len() && refs[w] == u;
        assert(dep_uuid_seq(entries)[dep_uuid_seq(entries.drop_last()).len() + w] == u);
    } else {
        assert(entries.drop_last()[i] == entries[i]);
        lemma_dep_uuid_mem(entries.drop_last(), i, d);
        let rest = dep_uuid_seq(entries.drop_last());
        let w = choose|w: int| 0 <= w < rest.len() && rest[w] == u;
        assert(dep_uuid_seq(entries)[w] == u);
    }
}

/// The asset identities of a result list, in order.
pub open spec fn result_ids(r: Seq<ArtifactMetadata>) -> Seq<Seq<u8>> {
    r.map_values(|m: ArtifactMetadata| m@.asset_id)
}

/// The asset records of the entries whose path equals the identifier
/// once both have their separators normalized, in pack order.
pub open spec fn candidates_for(entries: Seq<PackEntryView>, ident: Seq<u8>) -> Seq<
    AssetMetadataView,
>
    decreases entries.len(),
{
    if entries.len() == 0 {
        Seq::empty()
    } else {
        let rest = candidates_for(entries.drop_last(), ident);
        if normalize_path(entries.last().path) == normalize_path(ident) {
            rest.push(entries.last().asset_metadata)
        } else {
            rest
        }
    }
}

/// Replaces every backslash with a forward slash.
fn normalize_separators(p: &Vec<u8>) -> (r: Vec<u8>)
    ensures
        r@ == normalize_path(p@),
{
    let mut norm: Vec<u8> = Vec::new();
    let mut j: usize = 0;
    while j < p.len()
        invariant
            j <= p@.len(),
            norm@ == normalize_path(p@).subrange(0, j as int),
        decreases p@.len() - j,
    {
        let b = p[j];
        if b == 0x5c {
            norm.push(0x2f);
        } else {
            norm.push(b);
        }
        proof {
            assert(norm@ =~= normalize_path(p@).subrange(0, j + 1));
        }
        j = j + 1;
    }
    proof {
        assert(norm@ =~= normalize_path(p@));
    }
    norm
}

/// The identifier with separators normalized to `/`.
pub open spec fn normalize_path(p: Seq<u8>) -> Seq<u8> {
    p.map_values(|b: u8| if b == 0x5c { 0x2f } else { b })
}


/// The magic bytes that begin every packfile: `ATLR`.
pub open spec fn pack_magic() -> Seq<u8> {
    seq![0x41u8, 0x54u8, 0x4cu8, 0x52u8]
}

/// A packfile's fixed header: the format version and the absolute,
/// 8-byte-aligned offset of the entries table.
#[derive(Clone, Copy, Debug, PartialEq, Eq, Structural)]
pub struct PackHeader {
    pub version: u32,
    pub entries_offset: u64,
}

/// Whether the bytes begin with a well-formed header: the magic, a
/// version, and an entries offset that lies within the file.
pub open spec fn valid_pack_header(s: Seq<u8>) -> bool {
    &&& s.len() >= 16
    &&& s.subrange(0, 4) == pack_magic()
    &&& le_value(s.subrange(8, 16)) <= s.len()
}

/// Reads a packfile's fixed header; bytes that do not begin with the
/// magic, or whose entries offset lies beyond the file, are corruption.
pub fn parse_pack_header(bytes: &[u8]) -> (r: Result<PackHeader, Error>)
    ensures
        r is Ok <==> valid_pack_header(bytes@),
        r matches Ok(h) ==> h.version as int == le_value(bytes@.subrange(4, 8))
            && h.entries_offset as int == le_value(bytes@.subrange(8, 16)),
{
    let total = bytes.len();
    if total < 16 {
        return Err(Error::Encoding(String::new()));
    }
    if bytes[0] != 0x41 || bytes[1] != 0x54 || bytes[2] != 0x4c || bytes[3] != 0x52 {
        proof {
            if bytes@.subrange(0, 4) == pack_magic() {
                assert(bytes@.subrange(0, 4)[0] == 0x41);
                assert(bytes@.subrange(0, 4)[1] == 0x54);
                assert(bytes@.subrange(0, 4)[2] == 0x4c);
                assert(bytes@.subrange(0, 4)[3] == 0x52);
            }
        }
        return Err(Error::Encoding(String::new()));
    }
    proof {
        assert(bytes@.subrange(0, 4) =~= pack_magic());
    }
    let version64 = crate::utils::read_le(bytes, 4, 4);
    proof {
        crate::utils::lemma_le_value_bounds(bytes@.subrange(4, 8));
        reveal_with_fuel(crate::hashing::pow256, 5);
        assert(crate::hashing::pow256(4) == 0x100000000);
    }
    let version = version64 as u32;
    let entries_offset = crate::utils::read_le(bytes, 8, 8);
    if entries_offset > total as u64 {
        return Err(Error::Encoding(String::new()));
    }
    Ok(PackHeader { version, entries_offset })
}

/// Writes a packfile's fixed header: the magic, the version, and the
/// offset of the entries table.
pub fn write_pack_header(version: u32, entries_offset: u64) -> (r: Vec<u8>)
    ensures
        r@.len() == 16,
        r@.subrange(0, 4) == pack_magic(),
        le_value(r@.subrange(4, 8)) == version as int,
        le_value(r@.subrange(8, 16)) == entries_offset as int,
{
    let mut out: Vec<u8> = Vec::new();
    out.push(0x41);
    out.push(0x54);
    out.push(0x4c);
    out.push(0x52);
    proof {
        reveal_with_fuel(crate::hashing::pow256, 9);
        assert(crate::hashing::pow256(4) == 0x100000000);
        assert(crate::hashing::pow256(8) == 0x10000000000000000);
    }
    let ghost after_magic = out@;
    crate::utils::push_le(&mut out, version as u64, 4);
    let ghost after_version = out@;
    proof {
        assert(after_version.subrange(0, 4) == after_magic);
        assert(le_value(after_version.subrange(4, 8)) == version as int);
    }
    crate::utils::push_le(&mut out, entries_offset, 8);
    proof {
        assert(out@.subrange(0, 8) == after_version);
        assert(le_value(out@.subrange(8, 16)) == entries_offset as int);
        assert(out@.subrange(0, 4) =~= after_version.subrange(0, 4));
        assert(out@.subrange(4, 8) =~= after_version.subrange(4, 8));
        assert(out@.subrange(0, 4) =~= pack_magic());
    }
    out
}

/// The header written for an identity round-trips: parsing the
/// written bytes, padded to any file that holds the entries offset,
/// yields the header back.
pub proof fn lemma_pack_header_round_trip(header: Seq<u8>, rest: Seq<u8>, version: u32, off: u64)
    requires
        header.len() == 16,
        header.subrange(0, 4) == pack_magic(),
        le_value(header.subrange(4, 8)) == version as int,
        le_value(header.subrange(8, 16)) == off as int,
        off <= header.len() + rest.len(),
    ensures
        valid_pack_header(header + rest),
        le_value((header + rest).subrange(4, 8)) == version as int,
        le_value((header + rest).subrange(8, 16)) == off as int,
{
    let s = header + rest;
    assert(s.subrange(0, 4) =~= header.subrange(0, 4));
    assert(s.subrange(4, 8) =~= header.subrange(4, 8));
    assert(s.subrange(8, 16) =~= header.subrange(8, 16));
}

/// Tests whether the list carries the identity.
fn uuid_in(list: &Vec<AssetUuid>, u: &AssetUuid) -> (r: bool)
    ensures
        r == uuid_views(list@).contains(u@),
{
    let mut i: usize = 0;
    while i < list.len()
        invariant
            i <= list@.len(),
            forall|j: int| 0 <= j < i ==> uuid_views(list@)[j] != u@,
        decreases list@.len() - i,
    {
        if list[i] == *u {
            proof {
                assert(uuid_views(list@)[i as int] == u@);
            }
            return true;
        }
        i = i + 1;
    }
    proof {
        if uuid_views(list@).contains(u@) {
            let w = choose|w: int| 0 <= w < uuid_views(list@).len() && uuid_views(list@)[w] == u@;
        }
    }
    false
}


/// Whether the pack's artifact for `v` lists `u` among the `Uuid`
/// references of its load dependencies.
pub open spec fn dep_of(entries: Seq<PackEntryView>, v: Seq<u8>, u: Seq<u8>) -> bool
    recommends
        pack_has_uuid(entries, v),
{
    exists|d: int|
        0 <= d < entries[entry_index_of(entries, v)].artifact_metadata.load_deps.len()
            && entries[entry_index_of(entries, v)].artifact_metadata.load_deps[d]
            == AssetRefView::Uuid(u)
}

/// Whether `u` is requested, or a load dependency reached from a
/// requested identity through at most `n` pack-resident hops.
pub open spec fn reachable_in(
    entries: Seq<PackEntryView>,
    req: Seq<Seq<u8>>,
    u: Seq<u8>,
    n: nat,
) -> bool
    decreases n,
{
    if req.contains(u) {
        true
    } else if n == 0 {
        false
    } else {
        exists|v: Seq<u8>|
            reachable_in(entries, req, v, (n - 1) as nat) && pack_has_uuid(entries, v) && dep_of(
                entries,
                v,
                u,
            )
    }
}

/// Whether `u` is requested or reachable from the requested
/// identities over `Uuid` load dependencies within the pack.
pub open spec fn reachable(entries: Seq<PackEntryView>, req: Seq<Seq<u8>>, u: Seq<u8>) -> bool {
    exists|n: nat| reachable_in(entries, req, u, n)
}

proof fn lemma_reach_base(entries: Seq<PackEntryView>, req: Seq<Seq<u8>>, u: Seq<u8>)
    requires
        req.contains(u),
    ensures
        reachable(entries, req, u),
{
    assert(reachable_in(entries, req, u, 0));
}

proof fn lemma_reach_step(entries: Seq<PackEntryView>, req: Seq<Seq<u8>>, v: Seq<u8>, u: Seq<u8>)
    requires
        reachable(entries, req, v),
        pack_has_uuid(entries, v),
        dep_of(entries, v, u),
    ensures
        reachable(entries, req, u),
{
    let n = choose|n: nat| reachable_in(entries, req, v, n);
    assert(reachable_in(entries, req, u, n + 1)) by {
        if !req.contains(u) {
            assert(reachable_in(entries, req, v, n) && pack_has_uuid(entries, v) && dep_of(
                entries,
                v,
                u,
            ));
        }
    }
}

/// No element of the list repeats.
pub open spec fn no_dup(s: Seq<Seq<u8>>) -> bool {
    forall|a: int, b: int| 0 <= a < b < s.len() ==> s[a] != s[b]
}

/// Every element of `s` is a candidate.
spec fn within(s: Seq<Seq<u8>>, cand: Seq<Seq<u8>>) -> bool {
    forall|a: int| 0 <= a < s.len() ==> cand.contains(#[trigger] s[a])
}

/// The seen identities are exactly the popped and the queued ones,
/// with no identity in both.
spec fn covers(seen: Seq<Seq<u8>>, popped: Seq<Seq<u8>>, tv: Seq<Seq<u8>>) -> bool {
    &&& forall|u: Seq<u8>| #[trigger] popped.contains(u) ==> seen.contains(u)
    &&& forall|u: Seq<u8>| #[trigger] tv.contains(u) ==> seen.contains(u)
    &&& forall|u: Seq<u8>| #[trigger] seen.contains(u) ==> popped.contains(u) || tv.contains(u)
    &&& forall|u: Seq<u8>| !(#[trigger] popped.contains(u) && tv.contains(u))
}

proof fn lemma_contains_push(s: Seq<Seq<u8>>, x: Seq<u8>, y: Seq<u8>)
    ensures
        s.push(x).contains(y) <==> (s.contains(y) || y == x),
{
    if s.push(x).contains(y) {
        let i = choose|i: int| 0 <= i < s.push(x).len() && s.push(x)[i] == y;
        if i < s.len() {
            assert(s[i] == y);
        }
    }
    if s.contains(y) {
        let i = choose|i: int| 0 <= i < s.len() && s[i] == y;
        assert(s.push(x)[i] == y);
    }
    if y == x {
        assert(s.push(x)[s.len() as int] == y);
    }
}

proof fn lemma_contains_drop_last(s: Seq<Seq<u8>>, y: Seq<u8>)
    requires
        s.len() > 0,
    ensures
        s.contains(y) <==> (s.drop_last().contains(y) || y == s.last()),
{
    if s.contains(y) {
        let i = choose|i: int| 0 <= i < s.len() && s[i] == y;
        if i < s.len() - 1 {
            assert(s.drop_last()[i] == y);
        }
    }
    if s.drop_last().contains(y) {
        let i = choose|i: int| 0 <= i < s.drop_last().len() && s.drop_last()[i] == y;
        assert(s[i] == y);
    }
    if y == s.last() {
        assert(s[s.len() - 1] == y);
    }
}

proof fn lemma_no_dup_push(s: Seq<Seq<u8>>, x: Seq<u8>)
    requires
        no_dup(s),
        !s.contains(x),
    ensures
        no_dup(s.push(x)),
{
    assert forall|a: int, b: int| 0 <= a < b < s.push(x).len() implies s.push(x)[a] != s.push(
        x,
    )[b] by {
        if b < s.len() {
            assert(s.push(x)[a] == s[a] && s.push(x)[b] == s[b]);
        } else {
            assert(s.push(x)[a] == s[a]);
            if s[a] == x {
                assert(s.contains(x));
            }
        }
    }
}

proof fn lemma_within_push(s: Seq<Seq<u8>>, cand: Seq<Seq<u8>>, x: Seq<u8>)
    requires
        within(s, cand),
        cand.contains(x),
    ensures
        within(s.push(x), cand),
{
    assert forall|a: int| 0 <= a < s.push(x).len() implies cand.contains(
        #[trigger] s.push(x)[a],
    ) by {
        if a < s.len() {
            assert(s.push(x)[a] == s[a]);
        }
    }
}

proof fn lemma_enqueue_maintains(seen: Seq<Seq<u8>>, tv: Seq<Seq<u8>>, popped: Seq<Seq<u8>>, x: Seq<
    u8,
>)
    requires
        covers(seen, popped, tv),
        !seen.contains(x),
    ensures
        covers(seen.push(x), popped, tv.push(x)),
{
    assert forall|u: Seq<u8>| #[trigger] popped.contains(u) implies seen.push(x).contains(u) by {
        lemma_contains_push(seen, x, u);
    }
    assert forall|u: Seq<u8>| #[trigger] tv.push(x).contains(u) implies seen.push(x).contains(
        u,
    ) by {
        lemma_contains_push(tv, x, u);
        lemma_contains_push(seen, x, u);
    }
    assert forall|u: Seq<u8>| #[trigger] seen.push(x).contains(u) implies popped.contains(u)
        || tv.push(x).contains(u) by {
        lemma_contains_push(seen, x, u);
        lemma_contains_push(tv, x, u);
    }
    assert forall|u: Seq<u8>| !(#[trigger] popped.contains(u) && tv.push(x).contains(u)) by {
        lemma_contains_push(tv, x, u);
        if popped.contains(u) && u == x {
            assert(seen.contains(u));
        }
    }
}

proof fn lemma_pop_maintains(seen: Seq<Seq<u8>>, tv: Seq<Seq<u8>>, popped: Seq<Seq<u8>>)
    requires
        covers(seen, popped, tv),
        no_dup(tv),
        tv.len() > 0,
    ensures
        covers(seen, popped.push(tv.last()), tv.drop_last()),
        no_dup(tv.drop_last()),
{
    let u0 = tv.last();
    let popped2 = popped.push(u0);
    let tv2 = tv.drop_last();
    assert(tv.contains(u0)) by {
        assert(tv[tv.len() - 1] == u0);
    }
    assert forall|u: Seq<u8>| #[trigger] popped2.contains(u) implies seen.contains(u) by {
        lemma_contains_push(popped, u0, u);
    }
    assert forall|u: Seq<u8>| #[trigger] tv2.contains(u) implies seen.contains(u) by {
        lemma_contains_drop_last(tv, u);
    }
    assert forall|u: Seq<u8>| #[trigger] seen.contains(u) implies popped2.contains(u)
        || tv2.contains(u) by {
        lemma_contains_push(popped, u0, u);
        lemma_contains_drop_last(tv, u);
    }
    assert forall|u: Seq<u8>| !(#[trigger] popped2.contains(u) && tv2.contains(u)) by {
        lemma_contains_push(popped, u0, u);
        lemma_contains_drop_last(tv, u);
        if popped2.contains(u) && tv2.contains(u) {
            if u == u0 {
                let i = choose|i: int| 0 <= i < tv2.len() && tv2[i] == u;
                assert(tv[i] == u && tv[tv.len() - 1] == u);
            } else {
                assert(popped.contains(u) && tv.contains(u));
            }
        }
    }
    assert forall|a: int, b: int| 0 <= a < b < tv2.len() implies tv2[a] != tv2[b] by {
        assert(tv2[a] == tv[a] && tv2[b] == tv[b]);
    }
}

proof fn lemma_seen_bound(seen: Seq<Seq<u8>>, cand: Seq<Seq<u8>>)
    requires
        no_dup(seen),
        within(seen, cand),
    ensures
        seen.len() <= cand.len(),
{
    assert(seen.no_duplicates()) by {
        assert forall|i: int, j: int|
            0 <= i < seen.len() && 0 <= j < seen.len() && i != j implies seen[i] != seen[j] by {
            if i < j {
                assert(seen[i] != seen[j]);
            } else {
                assert(seen[j] != seen[i]);
            }
        }
    }
    seen.unique_seq_to_set();
    assert forall|e: Seq<u8>| seen.to_set().contains(e) implies cand.to_set().contains(e) by {
        let a = choose|a: int| 0 <= a < seen.len() && seen[a] == e;
        assert(cand.contains(e));
    }
    assert(seen.to_set().subset_of(cand.to_set()));
    vstd::set_lib::lemma_len_subset(seen.to_set(), cand.to_set());
    cand.lemma_cardinality_of_set();
}

proof fn lemma_concat_contains_right(a: Seq<Seq<u8>>, b: Seq<Seq<u8>>, x: Seq<u8>)
    requires
        b.contains(x),
    ensures
        (a + b).contains(x),
{
    let i = choose|i: int| 0 <= i < b.len() && b[i] == x;
    assert((a + b)[a.len() + i] == x);
}

proof fn lemma_lift_contains(seen0: Seq<Seq<u8>>, x: Seq<u8>, requested: Seq<AssetUuid>)
    requires
        forall|j: int| 0 <= j < requested.len() ==> seen0.contains(#[trigger] requested[j]@),
    ensures
        forall|j: int|
            0 <= j < requested.len() ==> seen0.push(x).contains(#[trigger] requested[j]@),
{
    assert forall|j: int| 0 <= j < requested.len() implies seen0.push(x).contains(
        #[trigger] requested[j]@,
    ) by {
        lemma_contains_push(seen0, x, requested[j]@);
    }
}

proof fn lemma_lift_result_deps(seen0: Seq<Seq<u8>>, x: Seq<u8>, result: Seq<ArtifactMetadata>)
    requires
        forall|i: int, dd: int|
            0 <= i < result.len() && 0 <= dd < result[i]@.load_deps.len() && result[i]@.load_deps[dd]
                is Uuid ==> seen0.contains((#[trigger] result[i]@.load_deps[dd])->Uuid_0),
    ensures
        forall|i: int, dd: int|
            0 <= i < result.len() && 0 <= dd < result[i]@.load_deps.len() && result[i]@.load_deps[dd]
                is Uuid ==> seen0.push(x).contains((#[trigger] result[i]@.load_deps[dd])->Uuid_0),
{
    assert forall|i: int, dd: int|
        0 <= i < result.len() && 0 <= dd < result[i]@.load_deps.len() && result[i]@.load_deps[dd]
            is Uuid implies seen0.push(x).contains(
        (#[trigger] result[i]@.load_deps[dd])->Uuid_0,
    ) by {
        lemma_contains_push(seen0, x, result[i]@.load_deps[dd]->Uuid_0);
    }
}

proof fn lemma_views_push(v: Seq<AssetUuid>, x: AssetUuid)
    ensures
        uuid_views(v.push(x)) == uuid_views(v).push(x@),
{
    assert(uuid_views(v.push(x)) =~= uuid_views(v).push(x@));
}

proof fn lemma_views_drop_last(v: Seq<AssetUuid>)
    requires
        v.len() > 0,
    ensures
        uuid_views(v.drop_last()) == uuid_views(v).drop_last(),
        uuid_views(v).last() == v.last()@,
{
    assert(uuid_views(v.drop_last()) =~= uuid_views(v).drop_last());
}

/// Enqueues an identity for the walk unless it was already seen.
fn enqueue(seen: &mut Vec<AssetUuid>, to_visit: &mut Vec<AssetUuid>, u: &AssetUuid) -> (pushed:
    bool)
    ensures
        pushed == !uuid_views(old(seen)@).contains(u@),
        pushed ==> uuid_views(final(seen)@) == uuid_views(old(seen)@).push(u@) && uuid_views(
            final(to_visit)@,
        ) == uuid_views(old(to_visit)@).push(u@),
        !pushed ==> final(seen)@ == old(seen)@ && final(to_visit)@ == old(to_visit)@,
{
    if !uuid_in(seen, u) {
        seen.push(*u);
        to_visit.push(*u);
        proof {
            lemma_views_push(old(seen)@, *u);
            lemma_views_push(old(to_visit)@, *u);
        }
        true
    } else {
        false
    }
}

/// A read-only view of a published pack: its entries in bundle order.
pub struct PackfileReader {
    entries: Vec<PackEntry>,
}

impl View for PackfileReader {
    type V = Seq<PackEntryView>;

    closed spec fn view(&self) -> Seq<PackEntryView> {
        entry_views(self.entries@)
    }
}

impl PackfileReader {
    /// Entries are internally consistent: each entry's asset record
    /// and artifact record agree on the asset identity.
    pub open spec fn wf(&self) -> bool {
        pack_entries_wf(self@)
    }

    /// Takes the entries of a bundle; an entry whose asset record and
    /// artifact record disagree on the asset identity is corruption.
    pub fn new(entries: Vec<PackEntry>) -> (r: Result<PackfileReader, Error>)
        ensures
            r is Ok <==> pack_entries_wf(entry_views(entries@)),
            r matches Ok(pf) ==> pf@ == entry_views(entries@) && pf.wf(),
    {
        let mut i: usize = 0;
        while i < entries.len()
            invariant
                i <= entries@.len(),
                forall|j: int|
                    0 <= j < i ==> #[trigger] entry_views(entries@)[j].asset_metadata.id
                        == entry_views(entries@)[j].artifact_metadata.asset_id,
            decreases entries@.len() - i,
        {
            if !(entries[i].asset_metadata.id == entries[i].artifact_metadata.asset_id) {
                proof {
                    assert(entry_views(entries@)[i as int].asset_metadata.id != entry_views(
                        entries@,
                    )[i as int].artifact_metadata.asset_id);
                }
                return Err(
                    Error::Encoding(String::new()),
                );
            }
            i = i + 1;
        }
        Ok(PackfileReader { entries })
    }

    /// The number of bundled entries.
    pub fn len(&self) -> (n: usize)
        ensures
            n == self@.len(),
    {
        self.entries.len()
    }

    fn find_entry(&self, u: &AssetUuid) -> (r: Option<usize>)
        ensures
            r is Some <==> pack_has_uuid(self@, u@),
            r matches Some(i) ==> i == entry_index_of(self@, u@) && i < self@.len(),
    {
        let ghost entries = self@;
        let mut best: Option<usize> = None;
        let mut i: usize = 0;
        proof {
            assert(entries.subrange(0, 0) =~= Seq::<PackEntryView>::empty());
        }
        while i < self.entries.len()
            invariant
                i <= self.entries@.len(),
                entries == self@,
                self@.len() == self.entries@.len(),
                best is Some ==> best->0 < i && entry_index_of(entries.subrange(0, i as int), u@)
                    == best->0,
                best is None ==> entry_index_of(entries.subrange(0, i as int), u@) == -1,
            decreases self.entries@.len() - i,
        {
            proof {
                assert(entries.subrange(0, i + 1).drop_last() =~= entries.subrange(0, i as int));
                assert(entries.subrange(0, i + 1).last() == entries[i as int]);
            }
            if self.entries[i].asset_metadata.id == *u {
                proof {
                    assert(entries[i as int].asset_metadata.id == u@);
                }
                best = Some(i);
            } else {
                proof {
                    assert(entries[i as int].asset_metadata.id != u@);
                }
            }
            i = i + 1;
        }
        proof {
            assert(entries.subrange(0, entries.len() as int) =~= entries);
            lemma_entry_index_of(entries, u@);
        }
        best
    }

    /// The artifact records reachable from the requested identities:
    /// a breadth-first walk over the `Uuid` load dependencies, visiting
    /// each identity once.  Identities the pack does not hold are
    /// silently omitted.  The result carries no duplicate asset, holds
    /// an artifact record for every requested identity the pack has,
    /// is closed under load dependencies within the pack, and holds
    /// nothing beyond what the requested identities reach.
    pub fn get_asset_metadata_with_dependencies(&self, requested: &Vec<AssetUuid>) -> (r: Vec<
        ArtifactMetadata,
    >)
        requires
            self.wf(),
        ensures
            no_dup(result_ids(r@)),
            forall|i: int|
                0 <= i < r@.len() ==> pack_has_uuid(self@, #[trigger] result_ids(r@)[i])
                    && r@[i]@ == self@[entry_index_of(self@, result_ids(r@)[i])].artifact_metadata,
            forall|m: int|
                0 <= m < requested@.len() && pack_has_uuid(self@, #[trigger] requested@[m]@)
                    ==> result_ids(r@).contains(requested@[m]@),
            forall|i: int, d: int|
                0 <= i < r@.len() && 0 <= d < r@[i]@.load_deps.len() && r@[i]@.load_deps[d] is Uuid
                    && pack_has_uuid(self@, #[trigger] r@[i]@.load_deps[d]->Uuid_0)
                    ==> result_ids(r@).contains(r@[i]@.load_deps[d]->Uuid_0),
            forall|i: int|
                0 <= i < r@.len() ==> reachable(
                    self@,
                    uuid_views(requested@),
                    #[trigger] result_ids(r@)[i],
                ),
    {
        let ghost entries = self@;
        let ghost cand = uuid_views(requested@) + dep_uuid_seq(entries);
        let mut seen: Vec<AssetUuid> = Vec::new();
        let mut to_visit: Vec<AssetUuid> = Vec::new();
        let mut m: usize = 0;
        while m < requested.len()
            invariant
                m <= requested@.len(),
                entries == self@,
                cand == uuid_views(requested@) + dep_uuid_seq(entries),
                uuid_views(seen@) == uuid_views(to_visit@),
                no_dup(uuid_views(seen@)),
                within(uuid_views(seen@), cand),
                forall|j: int|
                    0 <= j < m ==> uuid_views(seen@).contains(#[trigger] requested@[j]@),
                forall|a: int|
                    0 <= a < seen@.len() ==> reachable(
                        entries,
                        uuid_views(requested@),
                        #[trigger] uuid_views(seen@)[a],
                    ),
            decreases requested@.len() - m,
        {
            let ghost seen0 = uuid_views(seen@);
            let pushed = enqueue(&mut seen, &mut to_visit, &requested[m]);
            proof {
                let rv = requested@[m as int]@;
                if pushed {
                    assert(cand[m as int] == rv);
                    lemma_no_dup_push(seen0, rv);
                    lemma_within_push(seen0, cand, rv);
                    lemma_contains_push(seen0, rv, rv);
                    assert(uuid_views(requested@).contains(rv)) by {
                        assert(uuid_views(requested@)[m as int] == rv);
                    }
                    lemma_reach_base(entries, uuid_views(requested@), rv);
                    assert forall|a: int|
                        0 <= a < seen@.len() implies reachable(
                        entries,
                        uuid_views(requested@),
                        #[trigger] uuid_views(seen@)[a],
                    ) by {
                        if a < seen0.len() {
                            assert(uuid_views(seen@)[a] == seen0[a]);
                        } else {
                            assert(uuid_views(seen@)[a] == rv);
                        }
                    }
                }
                assert forall|j: int|
                    0 <= j < m + 1 implies uuid_views(seen@).contains(
                    #[trigger] requested@[j]@,
                ) by {
                    if pushed {
                        lemma_contains_push(seen0, rv, requested@[j]@);
                    }
                }
            }
            m = m + 1;
        }
        let mut result: Vec<ArtifactMetadata> = Vec::new();
        let ghost mut popped = Seq::<Seq<u8>>::empty();
        proof {
            lemma_seen_bound(uuid_views(seen@), cand);
            assert(covers(uuid_views(seen@), popped, uuid_views(to_visit@))) by {
                assert(forall|u: Seq<u8>| !(#[trigger] popped.contains(u)));
            }
        }
        while to_visit.len() > 0
            invariant
                pack_entries_wf(entries),
                entries == self@,
                self@.len() == self.entries@.len(),
                cand == uuid_views(requested@) + dep_uuid_seq(entries),
                no_dup(uuid_views(seen@)),
                no_dup(uuid_views(to_visit@)),
                within(uuid_views(seen@), cand),
                uuid_views(seen@).len() <= cand.len(),
                covers(uuid_views(seen@), popped, uuid_views(to_visit@)),
                forall|j: int|
                    0 <= j < requested@.len() ==> uuid_views(seen@).contains(
                        #[trigger] requested@[j]@,
                    ),
                forall|a: int|
                    0 <= a < seen@.len() ==> reachable(
                        entries,
                        uuid_views(requested@),
                        #[trigger] uuid_views(seen@)[a],
                    ),
                forall|i: int|
                    0 <= i < result@.len() ==> pack_has_uuid(
                        entries,
                        #[trigger] result_ids(result@)[i],
                    ) && result@[i]@ == entries[entry_index_of(
                        entries,
                        result_ids(result@)[i],
                    )].artifact_metadata,
                forall|i: int|
                    0 <= i < result@.len() ==> popped.contains(#[trigger] result_ids(result@)[i]),
                no_dup(result_ids(result@)),
                forall|u: Seq<u8>|
                    #[trigger] popped.contains(u) && pack_has_uuid(entries, u) ==> result_ids(
                        result@,
                    ).contains(u),
                forall|i: int, d: int|
                    0 <= i < result@.len() && 0 <= d < result@[i]@.load_deps.len()
                        && result@[i]@.load_deps[d] is Uuid ==> uuid_views(seen@).contains(
                        (#[trigger] result@[i]@.load_deps[d])->Uuid_0,
                    ),
            decreases cand.len() - uuid_views(seen@).len() + uuid_views(to_visit@).len(),
        {
            let ghost popped0 = popped;
            let ghost tv0 = uuid_views(to_visit@);
            let ghost tvv0 = to_visit@;
            let u = match to_visit.pop() {
                Some(x) => x,
                None => vstd::pervasive::unreached(),
            };
            proof {
                lemma_views_drop_last(tvv0);
                assert(uuid_views(to_visit@) == tv0.drop_last());
                assert(tv0.last() == u@);
                popped = popped.push(u@);
                lemma_pop_maintains(uuid_views(seen@), tv0, popped0);
                assert forall|i: int|
                    0 <= i < result@.len() implies popped.contains(
                    #[trigger] result_ids(result@)[i],
                ) by {
                    lemma_contains_push(popped0, u@, result_ids(result@)[i]);
                }
            }
            match self.find_entry(&u) {
                Some(idx) => {
                    proof {
                        lemma_entry_index_of(entries, u@);
                        assert(entries[idx as int].asset_metadata.id == u@);
                        assert(reachable(entries, uuid_views(requested@), u@)) by {
                            assert(popped.contains(u@)) by {
                                assert(popped[popped.len() - 1] == u@);
                            }
                            assert(uuid_views(seen@).contains(u@));
                            let a = choose|a: int|
                                0 <= a < uuid_views(seen@).len() && uuid_views(seen@)[a] == u@;
                        }
                    }
                    let meta = self.entries[idx].artifact_metadata.clone();
                    proof {
                        assert(entry_views(self.entries@)[idx as int]
                            == self.entries@[idx as int]@);
                        assert(meta@ == entries[idx as int].artifact_metadata);
                    }
                    let ghost ids0 = result_ids(result@);
                    let ghost base = uuid_views(seen@).len() - uuid_views(to_visit@).len();
                    proof {
                        assert(!popped0.contains(u@)) by {
                            assert(tv0.contains(u@)) by {
                                assert(tv0[tv0.len() - 1] == u@);
                            }
                        }
                    }
                    let mut d: usize = 0;
                    while d < meta.load_deps.len()
                        invariant
                            pack_entries_wf(entries),
                            entries == self@,
                            self@.len() == self.entries@.len(),
                            cand == uuid_views(requested@) + dep_uuid_seq(entries),
                            0 <= idx < entries.len(),
                            meta@ == entries[idx as int].artifact_metadata,
                            idx == entry_index_of(entries, u@),
                            pack_has_uuid(entries, u@),
                            reachable(entries, uuid_views(requested@), u@),
                            d <= meta.load_deps@.len(),
                            no_dup(uuid_views(seen@)),
                            no_dup(uuid_views(to_visit@)),
                            within(uuid_views(seen@), cand),
                            uuid_views(seen@).len() <= cand.len(),
                            covers(uuid_views(seen@), popped, uuid_views(to_visit@)),
                            forall|j: int|
                                0 <= j < requested@.len() ==> uuid_views(seen@).contains(
                                    #[trigger] requested@[j]@,
                                ),
                            forall|a: int|
                                0 <= a < seen@.len() ==> reachable(
                                    entries,
                                    uuid_views(requested@),
                                    #[trigger] uuid_views(seen@)[a],
                                ),
                            forall|i: int|
                                0 <= i < result@.len() ==> pack_has_uuid(
                                    entries,
                                    #[trigger] result_ids(result@)[i],
                                ) && result@[i]@ == entries[entry_index_of(
                                    entries,
                                    result_ids(result@)[i],
                                )].artifact_metadata,
                            result_ids(result@) == ids0,
                            popped == popped0.push(u@),
                            !popped0.contains(u@),
                            idx == entry_index_of(entries, u@),
                            entries[idx as int].asset_metadata.id == u@,
                            forall|i: int|
                                0 <= i < ids0.len() ==> popped0.contains(#[trigger] ids0[i]),
                            no_dup(ids0),
                            forall|u2: Seq<u8>|
                                #[trigger] popped0.contains(u2) && pack_has_uuid(entries, u2)
                                    ==> ids0.contains(u2),
                            uuid_views(seen@).len() - uuid_views(to_visit@).len() == base,
                            forall|i: int, dd: int|
                                0 <= i < result@.len() && 0 <= dd < result@[i]@.load_deps.len()
                                    && result@[i]@.load_deps[dd] is Uuid ==> uuid_views(
                                    seen@,
                                ).contains((#[trigger] result@[i]@.load_deps[dd])->Uuid_0),
                            forall|dp: int|
                                0 <= dp < d && meta@.load_deps[dp] is Uuid ==> uuid_views(
                                    seen@,
                                ).contains((#[trigger] meta@.load_deps[dp])->Uuid_0),
                        decreases meta.load_deps@.len() - d,
                    {
                        let ghost seen0 = uuid_views(seen@);
                        let ghost tvp = uuid_views(to_visit@);
                        match &meta.load_deps[d] {
                            AssetRef::Uuid(du) => {
                                let ghost dv = du@;
                                let pushed = enqueue(&mut seen, &mut to_visit, du);
                                proof {
                                    if pushed {
                                        assert(meta@.load_deps[d as int]->Uuid_0 == dv);
                                        lemma_dep_uuid_mem(entries, idx as int, d as int);
                                        lemma_concat_contains_right(
                                            uuid_views(requested@),
                                            dep_uuid_seq(entries),
                                            dv,
                                        );
                                        lemma_no_dup_push(seen0, dv);
                                        lemma_no_dup_push(tvp, dv);
                                        lemma_within_push(seen0, cand, dv);
                                        lemma_seen_bound(uuid_views(seen@), cand);
                                        lemma_enqueue_maintains(seen0, tvp, popped, dv);
                                        lemma_contains_push(seen0, dv, dv);
                                        lemma_lift_contains(seen0, dv, requested@);
                                        lemma_lift_result_deps(seen0, dv, result@);
                                        assert(dep_of(entries, u@, dv)) by {
                                            assert(entries[entry_index_of(
                                                entries,
                                                u@,
                                            )].artifact_metadata.load_deps[d as int]
                                                == AssetRefView::Uuid(dv));
                                        }
                                        lemma_reach_step(
                                            entries,
                                            uuid_views(requested@),
                                            u@,
                                            dv,
                                        );
                                        assert forall|a: int|
                                            0 <= a < seen@.len() implies reachable(
                                            entries,
                                            uuid_views(requested@),
                                            #[trigger] uuid_views(seen@)[a],
                                        ) by {
                                            if a < seen0.len() {
                                                assert(uuid_views(seen@)[a] == seen0[a]);
                                            } else {
                                                assert(uuid_views(seen@)[a] == dv);
                                            }
                                        }
                                        assert forall|dp: int|
                                            0 <= dp < d + 1 && meta@.load_deps[dp]
                                                is Uuid implies uuid_views(seen@).contains(
                                            (#[trigger] meta@.load_deps[dp])->Uuid_0,
                                        ) by {
                                            if dp < d {
                                                lemma_contains_push(
                                                    seen0,
                                                    dv,
                                                    meta@.load_deps[dp]->Uuid_0,
                                                );
                                            }
                                        }
                                    }
                                }
                            },
                            AssetRef::Path(_p) => {},
                        }
                        d = d + 1;
                    }
                    result.push(meta);
                    proof {
                        assert(result_ids(result@) =~= ids0.push(u@));
                        assert(!ids0.contains(u@)) by {
                            if ids0.contains(u@) {
                                let w = choose|w: int| 0 <= w < ids0.len() && ids0[w] == u@;
                                assert(popped0.contains(ids0[w]));
                            }
                        }
                        lemma_no_dup_push(ids0, u@);
                        assert forall|i: int|
                            0 <= i < result@.len() implies popped.contains(
                            #[trigger] result_ids(result@)[i],
                        ) by {
                            if i < result@.len() - 1 {
                                assert(result_ids(result@)[i] == ids0[i]);
                                lemma_contains_push(popped0, u@, ids0[i]);
                            } else {
                                lemma_contains_push(popped0, u@, u@);
                            }
                        }
                        assert forall|u2: Seq<u8>|
                            #[trigger] popped.contains(u2) && pack_has_uuid(
                            entries,
                            u2,
                        ) implies result_ids(result@).contains(u2) by {
                            lemma_contains_push(popped0, u@, u2);
                            if u2 == u@ {
                                assert(result_ids(result@)[result@.len() - 1] == u2);
                            } else {
                                assert(popped0.contains(u2));
                                lemma_contains_push(ids0, u@, u2);
                            }
                        }
                        assert forall|i: int, dd: int|
                            0 <= i < result@.len() && 0 <= dd < result@[i]@.load_deps.len()
                                && result@[i]@.load_deps[dd] is Uuid implies uuid_views(
                            seen@,
                        ).contains((#[trigger] result@[i]@.load_deps[dd])->Uuid_0) by {
                            if i == result@.len() - 1 {
                                assert(result@[i]@ == meta@);
                            }
                        }
                    }
                },
                None => {
                    proof {
                        lemma_entry_index_of(entries, u@);
                        assert forall|u2: Seq<u8>|
                            #[trigger] popped.contains(u2) && pack_has_uuid(
                            entries,
                            u2,
                        ) implies result_ids(result@).contains(u2) by {
                            lemma_contains_push(popped0, u@, u2);
                            if u2 != u@ {
                                assert(popped0.contains(u2));
                            }
                        }
                        assert forall|i: int|
                            0 <= i < result@.len() implies popped.contains(
                            #[trigger] result_ids(result@)[i],
                        ) by {
                            lemma_contains_push(popped0, u@, result_ids(result@)[i]);
                        }
                    }
                },
            }
        }
        proof {
            assert forall|m2: int|
                0 <= m2 < requested@.len() && pack_has_uuid(
                    self@,
                    #[trigger] requested@[m2]@,
                ) implies result_ids(result@).contains(requested@[m2]@) by {
                assert(uuid_views(seen@).contains(requested@[m2]@));
            }
            assert forall|i: int|
                0 <= i < result@.len() implies reachable(
                self@,
                uuid_views(requested@),
                #[trigger] result_ids(result@)[i],
            ) by {
                let u2 = result_ids(result@)[i];
                assert(popped.contains(u2));
                assert(uuid_views(seen@).contains(u2));
                let a = choose|a: int|
                    0 <= a < uuid_views(seen@).len() && uuid_views(seen@)[a] == u2;
            }
            assert forall|i: int, d: int|
                0 <= i < result@.len() && 0 <= d < result@[i]@.load_deps.len()
                    && result@[i]@.load_deps[d] is Uuid && pack_has_uuid(
                    self@,
                    (#[trigger] result@[i]@.load_deps[d])->Uuid_0,
                ) implies result_ids(result@).contains(result@[i]@.load_deps[d]->Uuid_0) by {
                let dv = result@[i]@.load_deps[d]->Uuid_0;
                assert(uuid_views(seen@).contains(dv));
            }
        }
        result
    }

    /// The stored artifact bytes of an asset; a missing identity is
    /// signalled, not defaulted.
    pub fn get_artifact(&self, asset_id: &AssetUuid) -> (r: Result<Vec<u8>, Error>)
        ensures
            r is Ok <==> pack_has_uuid(self@, asset_id@),
            r matches Ok(d) ==> d@ == self@[entry_index_of(self@, asset_id@)].data,
    {
        match self.find_entry(asset_id) {
            Some(i) => {
                proof {
                    assert(entry_views(self.entries@)[i as int] == self.entries@[i as int]@);
                }
                Ok(clone_bytes(&self.entries[i].data))
            },
            None => Err(Error::NotFound),
        }
    }

    /// The assets published under a path identifier.  The identifier
    /// and the stored paths have their separators normalized to `/`
    /// before the lookup; the normalized identifier and the asset
    /// records of every matching entry come back in pack order.  A
    /// path the pack does not hold is an error.
    pub fn get_asset_candidates(&self, identifier: &Vec<u8>) -> (r: Result<
        (Vec<u8>, Vec<AssetMetadata>),
        Error,
    >)
        ensures
            r is Ok <==> candidates_for(self@, identifier@).len() > 0,
            r matches Ok((p, ms)) ==> p@ == normalize_path(identifier@) && ms@.map_values(
                |a: AssetMetadata| a@,
            ) == candidates_for(self@, identifier@),
    {
        let ghost entries = self@;
        let norm_ident = normalize_separators(identifier);
        let mut out: Vec<AssetMetadata> = Vec::new();
        let mut i: usize = 0;
        proof {
            assert(entries.subrange(0, 0) =~= Seq::<PackEntryView>::empty());
        }
        while i < self.entries.len()
            invariant
                i <= self.entries@.len(),
                entries == self@,
                self@.len() == self.entries@.len(),
                norm_ident@ == normalize_path(identifier@),
                out@.map_values(|a: AssetMetadata| a@) == candidates_for(
                    entries.subrange(0, i as int),
                    identifier@,
                ),
            decreases self.entries@.len() - i,
        {
            let ghost pre = out@;
            proof {
                assert(entries.subrange(0, i + 1).drop_last() =~= entries.subrange(0, i as int));
                assert(entries.subrange(0, i + 1).last() == entries[i as int]);
                assert(entries[i as int] == self.entries@[i as int]@);
            }
            let norm_entry = normalize_separators(&self.entries[i].path);
            if bytes_eq(&norm_entry, &norm_ident) {
                out.push(self.entries[i].asset_metadata.clone());
                proof {
                    assert(out@.map_values(|a: AssetMetadata| a@) =~= pre.map_values(
                        |a: AssetMetadata| a@,
                    ).push(entries[i as int].asset_metadata));
                }
            }
            i = i + 1;
        }
        proof {
            assert(entries.subrange(0, entries.len() as int) =~= entries);
        }
        if out.len() == 0 {
            return Err(Error::NotFound);
        }
        Ok((norm_ident, out))
    }
}


/// A whole packfile: the magic, version 1, the entries offset (the
/// table follows the header directly), and the entry table.
pub open spec fn enc_packfile(l: Seq<PackEntryView>) -> Seq<u8> {
    pack_magic() + crate::pack_codec::le_bytes(1, 4) + crate::pack_codec::le_bytes(16, 8)
        + crate::pack_codec::enc_entry_table(l)
}

/// Parses a whole packfile: a valid version-1 header, then the entry
/// table at the recorded offset.
pub open spec fn parse_packfile(s: Seq<u8>) -> Option<Seq<PackEntryView>> {
    if !valid_pack_header(s) || le_value(s.subrange(4, 8)) != 1 {
        None
    } else {
        crate::pack_codec::parse_entry_table(
            s.subrange(le_value(s.subrange(8, 16)), s.len() as int),
        )
    }
}

/// Round trip: parsing an encoded packfile yields the entries.
pub proof fn lemma_packfile_round_trip(l: Seq<PackEntryView>)
    requires
        l.len() < 0x10000000000000000,
        forall|i: int| 0 <= i < l.len() ==> crate::pack_codec::entry_ok(#[trigger] l[i]),
    ensures
        parse_packfile(enc_packfile(l)) == Some(l),
{
    let s = enc_packfile(l);
    let table = crate::pack_codec::enc_entry_table(l);
    crate::pack_codec::lemma_le_bytes_len(1, 4);
    crate::pack_codec::lemma_le_bytes_len(16, 8);
    crate::pack_codec::lemma_le_bytes_len(l.len() as int, 8);
    assert(s.subrange(0, 4) =~= pack_magic());
    assert(s.subrange(4, 8) =~= crate::pack_codec::le_bytes(1, 4));
    assert(s.subrange(8, 16) =~= crate::pack_codec::le_bytes(16, 8));
    assert((1int) < crate::hashing::pow256(4) && (16int) < crate::hashing::pow256(8)) by {
        reveal_with_fuel(crate::hashing::pow256, 9);
    }
    crate::pack_codec::lemma_le_value_of_bytes(1, 4);
    crate::pack_codec::lemma_le_value_of_bytes(16, 8);
    assert(valid_pack_header(s));
    assert(s.subrange(16, s.len() as int) =~= table);
    crate::pack_codec::lemma_entry_table_round_trip(l);
}

/// Every entry taken from executable values has its exact shape: the
/// identities are sixteen bytes and every list fits its length prefix.
pub proof fn lemma_entry_views_ok(entries: Seq<PackEntry>)
    ensures
        forall|i: int|
            0 <= i < entries.len() ==> crate::pack_codec::entry_ok(
                #[trigger] entry_views(entries)[i],
            ),
{
    assert forall|i: int|
        0 <= i < entries.len() implies crate::pack_codec::entry_ok(
        #[trigger] entry_views(entries)[i],
    ) by {
        let e = entries[i];
        vstd::std_specs::vec::axiom_spec_len(&e.path);
        vstd::std_specs::vec::axiom_spec_len(&e.data);
        lemma_artifact_view_ok(e.artifact_metadata);
        match e.asset_metadata.artifact {
            Some(m) => {
                lemma_artifact_view_ok(m);
            },
            None => {},
        }
    }
}

proof fn lemma_artifact_view_ok(m: ArtifactMetadata)
    ensures
        crate::pack_codec::artifact_ok(m@),
{
    vstd::std_specs::vec::axiom_spec_len(&m.build_deps);
    vstd::std_specs::vec::axiom_spec_len(&m.load_deps);
    lemma_ref_views_ok(m.build_deps);
    lemma_ref_views_ok(m.load_deps);
}

proof fn lemma_ref_views_ok(rs: Vec<AssetRef>)
    ensures
        rs@.len() < 0x10000000000000000,
        forall|j: int|
            0 <= j < crate::metadata::ref_views(rs@).len() ==> crate::pack_codec::ref_ok(
                #[trigger] crate::metadata::ref_views(rs@)[j],
            ),
{
    vstd::std_specs::vec::axiom_spec_len(&rs);
    assert forall|j: int|
        0 <= j < crate::metadata::ref_views(rs@).len() implies crate::pack_codec::ref_ok(
        #[trigger] crate::metadata::ref_views(rs@)[j],
    ) by {
        match rs@[j] {
            AssetRef::Uuid(_u) => {},
            AssetRef::Path(pv) => {
                vstd::std_specs::vec::axiom_spec_len(&pv);
                assert(crate::metadata::ref_views(rs@)[j] == rs@[j]@);
            },
        }
    }
}

impl PackfileReader {
    /// Serializes a bundle: the fixed header, then the entry table.
    /// What it writes parses back to the same entries.
    pub fn write_packfile_bytes(entries: &Vec<PackEntry>) -> (r: Vec<u8>)
        ensures
            r@ == enc_packfile(entry_views(entries@)),
            parse_packfile(r@) == Some(entry_views(entries@)),
    {
        proof {
            reveal_with_fuel(crate::hashing::pow256, 9);
        }
        let mut out: Vec<u8> = Vec::new();
        out.push(0x41);
        out.push(0x54);
        out.push(0x4c);
        out.push(0x52);
        proof {
            assert(out@ =~= pack_magic());
        }
        let ghost m0 = out@;
        crate::utils::push_le(&mut out, 1, 4);
        proof {
            let piece = out@.subrange(4, 8);
            crate::pack_codec::lemma_le_bytes_of_value(piece);
            assert(out@ =~= m0 + crate::pack_codec::le_bytes(1, 4));
        }
        let ghost m1 = out@;
        crate::utils::push_le(&mut out, 16, 8);
        proof {
            let piece = out@.subrange(8, 16);
            crate::pack_codec::lemma_le_bytes_of_value(piece);
            assert(out@ =~= m1 + crate::pack_codec::le_bytes(16, 8));
        }
        let ghost m2 = out@;
        let table = crate::pack_codec::encode_entry_table(entries);
        let mut table = table;
        out.append(&mut table);
        proof {
            assert(out@ =~= enc_packfile(entry_views(entries@)));
            vstd::std_specs::vec::axiom_spec_len(&entries);
            lemma_entry_views_ok(entries@);
            lemma_packfile_round_trip(entry_views(entries@));
        }
        out
    }

    /// Opens a bundle from its bytes: checks the header and the entry
    /// table, and refuses entries whose asset and artifact records
    /// disagree.  Exactly the packfiles this library writes — a valid
    /// version-1 header over a well-formed entry table — are accepted.
    pub fn open(bytes: &[u8]) -> (r: Result<PackfileReader, Error>)
        ensures
            r is Ok <==> (parse_packfile(bytes@) matches Some(l) && pack_entries_wf(l)),
            r matches Ok(pf) ==> Some(pf@) == parse_packfile(bytes@) && pf.wf(),
    {
        let header = match parse_pack_header(bytes) {
            Ok(h) => h,
            Err(e) => {
                return Err(e);
            },
        };
        if header.version != 1 {
            return Err(Error::Encoding(String::new()));
        }
        let total = bytes.len();
        let off = header.entries_offset as usize;
        let mut body: Vec<u8> = Vec::new();
        let mut i: usize = off;
        while i < total
            invariant
                off <= i <= total,
                total == bytes@.len(),
                body@ == bytes@.subrange(off as int, i as int),
            decreases total - i,
        {
            body.push(bytes[i]);
            assert(body@ =~= bytes@.subrange(off as int, i + 1));
            i = i + 1;
        }
        let entries = match crate::pack_codec::decode_entry_table(body.as_slice()) {
            Ok(es) => es,
            Err(e) => {
                return Err(e);
            },
        };
        PackfileReader::new(entries)
    }
}

} // verus!
