//! The packfile's entry-table encoding: a count followed by the
//! entries, every variable-length part carrying an 8-byte
//! little-endian length prefix.  The encoder and the parser are both
//! specified against one mathematical grammar, and parsing an encoded
//! table yields the entries back.
use vstd::prelude::*;

use crate::error::Error;
use crate::hashing::{lemma_pow256_positive, pow256};
use crate::metadata::{
    ref_views, ArtifactMetadata, ArtifactMetadataView, AssetMetadata, AssetMetadataView, AssetRef,
    AssetRefView, CompressionType,
};
use crate::packfile::{entry_views, PackEntry, PackEntryView};
use crate::utils::{le_value, lemma_le_value_bounds, push_le, read_le};

verus! {

/// The `n`-byte little-endian encoding of a value.
pub open spec fn le_bytes(x: int, n: nat) -> Seq<u8>
    decreases n,
{
    if n == 0 {
        Seq::empty()
    } else {
        seq![(x % 256) as u8] + le_bytes(x / 256, (n - 1) as nat)
    }
}

/// The encoding has `n` bytes.
pub proof fn lemma_le_bytes_len(x: int, n: nat)
    ensures
        le_bytes(x, n).len() == n,
    decreases n,
{
    if n > 0 {
        lemma_le_bytes_len(x / 256, (n - 1) as nat);
    }
}

/// Reading the encoding of a value in range yields the value.
pub proof fn lemma_le_value_of_bytes(x: int, n: nat)
    requires
        0 <= x < pow256(n),
    ensures
        le_value(le_bytes(x, n)) == x,
    decreases n,
{
    if n > 0 {
        let s = le_bytes(x, n);
        assert(s.first() == (x % 256) as u8);
        assert(s.drop_first() =~= le_bytes(x / 256, (n - 1) as nat));
        assert(pow256(n) == 256 * pow256((n - 1) as nat));
        lemma_pow256_positive((n - 1) as nat);
        assert(0 <= x / 256 < pow256((n - 1) as nat)) by (nonlinear_arith)
            requires
                0 <= x < 256 * pow256((n - 1) as nat),
                pow256((n - 1) as nat) >= 1,
        ;
        lemma_le_value_of_bytes(x / 256, (n - 1) as nat);
    }
}

/// Encoding the value of a byte string of that length yields the
/// bytes back: values below 256^n have one encoding.
pub proof fn lemma_le_bytes_of_value(b: Seq<u8>)
    ensures
        le_bytes(le_value(b), b.len()) == b,
    decreases b.len(),
{
    if b.len() > 0 {
        let x = le_value(b);
        lemma_le_value_bounds(b.drop_first());
        assert(x == b.first() + 256 * le_value(b.drop_first()));
        assert(x % 256 == b.first() && x / 256 == le_value(b.drop_first())) by (nonlinear_arith)
            requires
                x == b.first() + 256 * le_value(b.drop_first()),
                0 <= b.first() < 256,
                le_value(b.drop_first()) >= 0,
        ;
        lemma_le_bytes_of_value(b.drop_first());
        assert(le_bytes(x, b.len()) =~= b) by {
            assert(le_bytes(x, b.len()) == seq![(x % 256) as u8] + le_bytes(
                x / 256,
                (b.len() - 1) as nat,
            ));
        }
    } else {
        assert(le_bytes(le_value(b), b.len()) =~= b);
    }
}

/// One record: its length, then its bytes.
pub open spec fn enc_record(b: Seq<u8>) -> Seq<u8> {
    le_bytes(b.len() as int, 8) + b
}

/// Parses one record at `pos`: `None` where the length prefix or the
/// record bytes run past the end.
pub open spec fn parse_record(s: Seq<u8>, pos: int) -> Option<(Seq<u8>, int)> {
    if pos < 0 || pos + 8 > s.len() {
        None
    } else {
        let n = le_value(s.subrange(pos, pos + 8));
        if pos + 8 + n > s.len() {
            None
        } else {
            Some((s.subrange(pos + 8, pos + 8 + n), pos + 8 + n))
        }
    }
}

/// A record encoded inside a larger string parses from its position.
proof fn lemma_parse_encoded_record(s: Seq<u8>, pos: int, b: Seq<u8>)
    requires
        b.len() < 0x10000000000000000,
        0 <= pos,
        pos + enc_record(b).len() <= s.len(),
        s.subrange(pos, pos + enc_record(b).len()) == enc_record(b),
    ensures
        parse_record(s, pos) == Some::<(Seq<u8>, int)>((b, pos + enc_record(b).len())),
{
    lemma_le_bytes_len(b.len() as int, 8);
    let e = enc_record(b);
    assert(e.len() == 8 + b.len());
    assert(s.subrange(pos, pos + 8) =~= le_bytes(b.len() as int, 8)) by {
        assert forall|i: int| 0 <= i < 8 implies s.subrange(pos, pos + 8)[i] == le_bytes(
            b.len() as int,
            8,
        )[i] by {
            assert(s.subrange(pos, pos + e.len() as int)[i] == e[i]);
        }
    }
    assert((b.len() as int) < pow256(8)) by {
        reveal_with_fuel(pow256, 9);
        assert(pow256(8) == 0x10000000000000000);
    }
    lemma_le_value_of_bytes(b.len() as int, 8);
    assert(le_value(s.subrange(pos, pos + 8)) == b.len() as int);
    assert(s.subrange(pos + 8, pos + 8 + b.len() as int) =~= b) by {
        assert forall|i: int| 0 <= i < b.len() implies s.subrange(
            pos + 8,
            pos + 8 + b.len() as int,
        )[i] == b[i] by {
            assert(s.subrange(pos, pos + e.len() as int)[8 + i] == e[8 + i]);
            assert(e[8 + i] == b[i]);
        }
    }
}

fn append_bytes(out: &mut Vec<u8>, b: &Vec<u8>)
    ensures
        final(out)@ == old(out)@ + b@,
{
    let mut i: usize = 0;
    while i < b.len()
        invariant
            i <= b@.len(),
            out@ == old(out)@ + b@.subrange(0, i as int),
        decreases b@.len() - i,
    {
        out.push(b[i]);
        assert(out@ =~= old(out)@ + b@.subrange(0, i + 1));
        i = i + 1;
    }
    assert(out@ =~= old(out)@ + b@);
}

/// A reference: a tag, then an identity or a length-prefixed path.
pub open spec fn enc_ref(r: AssetRefView) -> Seq<u8> {
    match r {
        AssetRefView::Uuid(u) => seq![0u8] + u,
        AssetRefView::Path(p) => seq![1u8] + le_bytes(p.len() as int, 8) + p,
    }
}

/// References in order.
pub open spec fn enc_ref_list(rs: Seq<AssetRefView>) -> Seq<u8>
    decreases rs.len(),
{
    if rs.len() == 0 {
        Seq::empty()
    } else {
        enc_ref(rs.first()) + enc_ref_list(rs.drop_first())
    }
}

/// A reference list: its count, then the references.
pub open spec fn enc_refs(rs: Seq<AssetRefView>) -> Seq<u8> {
    le_bytes(rs.len() as int, 8) + enc_ref_list(rs)
}

/// An optional size: a tag, then the value if present.
pub open spec fn enc_opt_u64(o: Option<u64>) -> Seq<u8> {
    match o {
        None => seq![0u8],
        Some(x) => seq![1u8] + le_bytes(x as int, 8),
    }
}

/// A compression kind, one byte.
pub open spec fn enc_compression(c: CompressionType) -> Seq<u8> {
    match c {
        CompressionType::Uncompressed => seq![0u8],
        CompressionType::Lz4 => seq![1u8],
    }
}

/// An artifact record: identity, owning asset, both dependency lists,
/// the storage form, both sizes, and the asset type.
pub open spec fn enc_artifact(m: ArtifactMetadataView) -> Seq<u8> {
    le_bytes(m.id as int, 8) + m.asset_id + enc_refs(m.build_deps) + enc_refs(m.load_deps)
        + enc_compression(m.compression) + enc_opt_u64(m.uncompressed_size) + enc_opt_u64(
        m.compressed_size,
    ) + m.type_id
}

/// An asset record: its identity and, when imported, its artifact.
pub open spec fn enc_asset_meta(a: AssetMetadataView) -> Seq<u8> {
    a.id + (match a.artifact {
        None => seq![0u8],
        Some(m) => seq![1u8] + enc_artifact(m),
    })
}

/// One bundle entry: its path, its asset record, its artifact record,
/// and the artifact bytes, the variable parts length-prefixed.
pub open spec fn enc_entry(e: PackEntryView) -> Seq<u8> {
    enc_record(e.path) + enc_asset_meta(e.asset_metadata) + enc_artifact(e.artifact_metadata)
        + enc_record(e.data)
}

/// Entries in order.
pub open spec fn enc_entry_list(l: Seq<PackEntryView>) -> Seq<u8>
    decreases l.len(),
{
    if l.len() == 0 {
        Seq::empty()
    } else {
        enc_entry(l.first()) + enc_entry_list(l.drop_first())
    }
}

/// A whole entry table: the count, then the entries.
pub open spec fn enc_entry_table(l: Seq<PackEntryView>) -> Seq<u8> {
    le_bytes(l.len() as int, 8) + enc_entry_list(l)
}

/// Parses sixteen identity bytes.
pub open spec fn parse_uuid(s: Seq<u8>, pos: int) -> Option<(Seq<u8>, int)> {
    if pos < 0 || pos + 16 > s.len() {
        None
    } else {
        Some((s.subrange(pos, pos + 16), pos + 16))
    }
}

/// Parses an 8-byte little-endian size.
pub open spec fn parse_u64(s: Seq<u8>, pos: int) -> Option<(u64, int)> {
    if pos < 0 || pos + 8 > s.len() {
        None
    } else {
        Some((le_value(s.subrange(pos, pos + 8)) as u64, pos + 8))
    }
}

/// Parses one reference.
pub open spec fn parse_ref(s: Seq<u8>, pos: int) -> Option<(AssetRefView, int)> {
    if pos < 0 || pos + 1 > s.len() {
        None
    } else if s[pos] == 0 {
        match parse_uuid(s, pos + 1) {
            None => None,
            Some((u, p)) => Some((AssetRefView::Uuid(u), p)),
        }
    } else if s[pos] == 1 {
        match parse_record(s, pos + 1) {
            None => None,
            Some((b, p)) => Some((AssetRefView::Path(b), p)),
        }
    } else {
        None
    }
}

/// Parses `count` references.
pub open spec fn parse_ref_list(s: Seq<u8>, pos: int, count: nat) -> Option<
    (Seq<AssetRefView>, int),
>
    decreases count,
{
    if count == 0 {
        Some((Seq::empty(), pos))
    } else {
        match parse_ref(s, pos) {
            None => None,
            Some((r, p1)) => match parse_ref_list(s, p1, (count - 1) as nat) {
                None => None,
                Some((rest, p2)) => Some((seq![r] + rest, p2)),
            },
        }
    }
}

/// Parses a counted reference list.
pub open spec fn parse_refs(s: Seq<u8>, pos: int) -> Option<(Seq<AssetRefView>, int)> {
    match parse_u64(s, pos) {
        None => None,
        Some((c, p1)) => parse_ref_list(s, p1, c as nat),
    }
}

/// Parses an optional size.
pub open spec fn parse_opt_u64(s: Seq<u8>, pos: int) -> Option<(Option<u64>, int)> {
    if pos < 0 || pos + 1 > s.len() {
        None
    } else if s[pos] == 0 {
        Some((None, pos + 1))
    } else if s[pos] == 1 {
        match parse_u64(s, pos + 1) {
            None => None,
            Some((x, p)) => Some((Some(x), p)),
        }
    } else {
        None
    }
}

/// Parses a compression kind.
pub open spec fn parse_compression(s: Seq<u8>, pos: int) -> Option<(CompressionType, int)> {
    if pos < 0 || pos + 1 > s.len() {
        None
    } else if s[pos] == 0 {
        Some((CompressionType::Uncompressed, pos + 1))
    } else if s[pos] == 1 {
        Some((CompressionType::Lz4, pos + 1))
    } else {
        None
    }
}

/// Parses an artifact record.
pub open spec fn parse_artifact(s: Seq<u8>, pos: int) -> Option<(ArtifactMetadataView, int)> {
    match parse_u64(s, pos) {
        None => None,
        Some((id, p1)) => match parse_uuid(s, p1) {
            None => None,
            Some((asset_id, p2)) => match parse_refs(s, p2) {
                None => None,
                Some((build_deps, p3)) => match parse_refs(s, p3) {
                    None => None,
                    Some((load_deps, p4)) => match parse_compression(s, p4) {
                        None => None,
                        Some((compression, p5)) => match parse_opt_u64(s, p5) {
                            None => None,
                            Some((unc, p6)) => match parse_opt_u64(s, p6) {
                                None => None,
                                Some((com, p7)) => match parse_uuid(s, p7) {
                                    None => None,
                                    Some((type_id, p8)) => Some(
                                        (
                                            ArtifactMetadataView {
                                                id: id as u64,
                                                asset_id,
                                                build_deps,
                                                load_deps,
                                                compression,
                                                uncompressed_size: unc,
                                                compressed_size: com,
                                                type_id,
                                            },
                                            p8,
                                        ),
                                    ),
                                },
                            },
                        },
                    },
                },
            },
        },
    }
}

/// Parses an asset record.
pub open spec fn parse_asset_meta(s: Seq<u8>, pos: int) -> Option<(AssetMetadataView, int)> {
    match parse_uuid(s, pos) {
        None => None,
        Some((id, p1)) => if p1 + 1 > s.len() {
            None
        } else if s[p1] == 0 {
            Some((AssetMetadataView { id, artifact: None }, p1 + 1))
        } else if s[p1] == 1 {
            match parse_artifact(s, p1 + 1) {
                None => None,
                Some((m, p2)) => Some((AssetMetadataView { id, artifact: Some(m) }, p2)),
            }
        } else {
            None
        },
    }
}

/// Parses one bundle entry.
pub open spec fn parse_entry(s: Seq<u8>, pos: int) -> Option<(PackEntryView, int)> {
    match parse_record(s, pos) {
        None => None,
        Some((path, p1)) => match parse_asset_meta(s, p1) {
            None => None,
            Some((asset_metadata, p2)) => match parse_artifact(s, p2) {
                None => None,
                Some((artifact_metadata, p3)) => match parse_record(s, p3) {
                    None => None,
                    Some((data, p4)) => Some(
                        (PackEntryView { path, asset_metadata, artifact_metadata, data }, p4),
                    ),
                },
            },
        },
    }
}

/// Parses `count` entries.
pub open spec fn parse_entry_list(s: Seq<u8>, pos: int, count: nat) -> Option<
    (Seq<PackEntryView>, int),
>
    decreases count,
{
    if count == 0 {
        Some((Seq::empty(), pos))
    } else {
        match parse_entry(s, pos) {
            None => None,
            Some((e, p1)) => match parse_entry_list(s, p1, (count - 1) as nat) {
                None => None,
                Some((rest, p2)) => Some((seq![e] + rest, p2)),
            },
        }
    }
}

/// Parses a whole entry table: the count, that many entries, and
/// nothing after them.
pub open spec fn parse_entry_table(s: Seq<u8>) -> Option<Seq<PackEntryView>> {
    if s.len() < 8 {
        None
    } else {
        let c = le_value(s.subrange(0, 8));
        match parse_entry_list(s, 8, c as nat) {
            None => None,
            Some((l, p)) => if p == s.len() {
                Some(l)
            } else {
                None
            },
        }
    }
}

/// Appending one reference extends the encoded run at its end.
proof fn lemma_enc_ref_list_snoc(l: Seq<AssetRefView>)
    requires
        l.len() > 0,
    ensures
        enc_ref_list(l) == enc_ref_list(l.drop_last()) + enc_ref(l.last()),
    decreases l.len(),
{
    if l.len() == 1 {
        assert(l.drop_first() =~= Seq::<AssetRefView>::empty());
        assert(l.drop_last() =~= Seq::<AssetRefView>::empty());
        assert(enc_ref_list(l) =~= enc_ref_list(l.drop_last()) + enc_ref(l.last()));
    } else {
        lemma_enc_ref_list_snoc(l.drop_first());
        assert(l.drop_first().drop_last() =~= l.drop_last().drop_first());
        assert(l.drop_first().last() == l.last());
        assert(l.drop_last().first() == l.first());
        assert(enc_ref(l.first()) + (enc_ref_list(l.drop_last().drop_first()) + enc_ref(
            l.last(),
        )) =~= (enc_ref(l.first()) + enc_ref_list(l.drop_last().drop_first())) + enc_ref(
            l.last(),
        ));
    }
}

/// Appending one entry extends the encoded run at its end.
proof fn lemma_enc_entry_list_snoc(l: Seq<PackEntryView>)
    requires
        l.len() > 0,
    ensures
        enc_entry_list(l) == enc_entry_list(l.drop_last()) + enc_entry(l.last()),
    decreases l.len(),
{
    if l.len() == 1 {
        assert(l.drop_first() =~= Seq::<PackEntryView>::empty());
        assert(l.drop_last() =~= Seq::<PackEntryView>::empty());
        assert(enc_entry_list(l) =~= enc_entry_list(l.drop_last()) + enc_entry(l.last()));
    } else {
        lemma_enc_entry_list_snoc(l.drop_first());
        assert(l.drop_first().drop_last() =~= l.drop_last().drop_first());
        assert(l.drop_first().last() == l.last());
        assert(l.drop_last().first() == l.first());
        assert(enc_entry(l.first()) + (enc_entry_list(l.drop_last().drop_first()) + enc_entry(
            l.last(),
        )) =~= (enc_entry(l.first()) + enc_entry_list(l.drop_last().drop_first())) + enc_entry(
            l.last(),
        ));
    }
}

fn write_u64_field(out: &mut Vec<u8>, x: u64)
    ensures
        final(out)@ == old(out)@ + le_bytes(x as int, 8),
{
    proof {
        reveal_with_fuel(pow256, 9);
        assert(pow256(8) == 0x10000000000000000);
    }
    let ghost base = out@.len() as int;
    push_le(out, x, 8);
    proof {
        let appended = out@.subrange(base, base + 8);
        lemma_le_bytes_of_value(appended);
        assert(appended == le_bytes(x as int, 8));
        assert(out@ =~= old(out)@ + le_bytes(x as int, 8));
    }
}

fn write_uuid_bytes(out: &mut Vec<u8>, b: &[u8; 16])
    ensures
        final(out)@ == old(out)@ + b@,
{
    let mut i: usize = 0;
    while i < 16
        invariant
            i <= 16,
            out@ == old(out)@ + b@.subrange(0, i as int),
        decreases 16 - i,
    {
        out.push(b[i]);
        assert(out@ =~= old(out)@ + b@.subrange(0, i + 1));
        i = i + 1;
    }
    assert(out@ =~= old(out)@ + b@);
}

fn write_ref(out: &mut Vec<u8>, r: &AssetRef)
    ensures
        final(out)@ == old(out)@ + enc_ref(r@),
{
    match r {
        AssetRef::Uuid(u) => {
            out.push(0);
            write_uuid_bytes(out, &u.0);
            assert(out@ =~= old(out)@ + enc_ref(r@));
        },
        AssetRef::Path(p) => {
            out.push(1);
            write_u64_field(out, p.len() as u64);
            append_bytes(out, p);
            assert(out@ =~= old(out)@ + enc_ref(r@));
        },
    }
}

fn write_refs(out: &mut Vec<u8>, rs: &Vec<AssetRef>)
    ensures
        final(out)@ == old(out)@ + enc_refs(ref_views(rs@)),
{
    write_u64_field(out, rs.len() as u64);
    let ghost head = out@;
    let mut i: usize = 0;
    while i < rs.len()
        invariant
            i <= rs@.len(),
            out@ == head + enc_ref_list(ref_views(rs@.subrange(0, i as int))),
        decreases rs@.len() - i,
    {
        let ghost pre = out@;
        write_ref(out, &rs[i]);
        proof {
            let l1 = ref_views(rs@.subrange(0, i + 1));
            assert(l1.drop_last() =~= ref_views(rs@.subrange(0, i as int)));
            assert(l1.last() == rs@[i as int]@);
            lemma_enc_ref_list_snoc(l1);
            assert(out@ =~= head + enc_ref_list(l1));
        }
        i = i + 1;
    }
    proof {
        assert(rs@.subrange(0, rs@.len() as int) =~= rs@);
        assert(out@ =~= old(out)@ + enc_refs(ref_views(rs@)));
    }
}

fn write_opt_u64(out: &mut Vec<u8>, o: &Option<u64>)
    ensures
        final(out)@ == old(out)@ + enc_opt_u64(*o),
{
    match o {
        None => {
            out.push(0);
            assert(out@ =~= old(out)@ + enc_opt_u64(*o));
        },
        Some(x) => {
            out.push(1);
            write_u64_field(out, *x);
            assert(out@ =~= old(out)@ + enc_opt_u64(*o));
        },
    }
}

fn write_compression(out: &mut Vec<u8>, c: CompressionType)
    ensures
        final(out)@ == old(out)@ + enc_compression(c),
{
    match c {
        CompressionType::Uncompressed => {
            out.push(0);
        },
        CompressionType::Lz4 => {
            out.push(1);
        },
    }
    assert(out@ =~= old(out)@ + enc_compression(c));
}

fn write_artifact(out: &mut Vec<u8>, m: &ArtifactMetadata)
    ensures
        final(out)@ == old(out)@ + enc_artifact(m@),
{
    write_u64_field(out, m.id.0);
    write_uuid_bytes(out, &m.asset_id.0);
    write_refs(out, &m.build_deps);
    write_refs(out, &m.load_deps);
    write_compression(out, m.compression);
    write_opt_u64(out, &m.uncompressed_size);
    write_opt_u64(out, &m.compressed_size);
    write_uuid_bytes(out, &m.type_id.0);
    assert(out@ =~= old(out)@ + enc_artifact(m@));
}

fn write_asset_meta(out: &mut Vec<u8>, a: &AssetMetadata)
    ensures
        final(out)@ == old(out)@ + enc_asset_meta(a@),
{
    write_uuid_bytes(out, &a.id.0);
    match &a.artifact {
        None => {
            out.push(0);
        },
        Some(m) => {
            out.push(1);
            write_artifact(out, m);
        },
    }
    assert(out@ =~= old(out)@ + enc_asset_meta(a@));
}

fn write_entry(out: &mut Vec<u8>, e: &PackEntry)
    ensures
        final(out)@ == old(out)@ + enc_entry(e@),
{
    write_u64_field(out, e.path.len() as u64);
    append_bytes(out, &e.path);
    write_asset_meta(out, &e.asset_metadata);
    write_artifact(out, &e.artifact_metadata);
    write_u64_field(out, e.data.len() as u64);
    append_bytes(out, &e.data);
    assert(out@ =~= old(out)@ + enc_entry(e@));
}

/// Encodes a whole entry table: the count, then every entry.
pub fn encode_entry_table(entries: &Vec<PackEntry>) -> (r: Vec<u8>)
    ensures
        r@ == enc_entry_table(entry_views(entries@)),
{
    let mut out: Vec<u8> = Vec::new();
    write_u64_field(&mut out, entries.len() as u64);
    let ghost head = out@;
    let mut i: usize = 0;
    while i < entries.len()
        invariant
            i <= entries@.len(),
            out@ == head + enc_entry_list(entry_views(entries@.subrange(0, i as int))),
            head == le_bytes(entries@.len() as int, 8),
        decreases entries@.len() - i,
    {
        write_entry(&mut out, &entries[i]);
        proof {
            let l1 = entry_views(entries@.subrange(0, i + 1));
            assert(l1.drop_last() =~= entry_views(entries@.subrange(0, i as int)));
            assert(l1.last() == entries@[i as int]@);
            lemma_enc_entry_list_snoc(l1);
            assert(out@ =~= head + enc_entry_list(l1));
        }
        i = i + 1;
    }
    proof {
        assert(entries@.subrange(0, entries@.len() as int) =~= entries@);
    }
    out
}

fn read_u64_field(bytes: &[u8], pos: usize) -> (r: Result<(u64, usize), Error>)
    requires
        pos <= bytes@.len(),
    ensures
        r is Ok <==> parse_u64(bytes@, pos as int) is Some,
        r matches Ok((x, p)) ==> parse_u64(bytes@, pos as int) == Some((x, p as int)) && pos <= p
            <= bytes@.len(),
{
    let total = bytes.len();
    if total - pos < 8 {
        return Err(Error::Encoding(String::new()));
    }
    let x = read_le(bytes, pos, 8);
    proof {
        lemma_le_value_bounds(bytes@.subrange(pos as int, pos + 8));
        reveal_with_fuel(pow256, 9);
        assert(pow256(8) == 0x10000000000000000);
    }
    Ok((x, pos + 8))
}

fn read_uuid_field(bytes: &[u8], pos: usize) -> (r: Result<([u8; 16], usize), Error>)
    requires
        pos <= bytes@.len(),
    ensures
        r is Ok <==> parse_uuid(bytes@, pos as int) is Some,
        r matches Ok((b, p)) ==> parse_uuid(bytes@, pos as int) == Some((b@, p as int)) && pos <= p
            <= bytes@.len(),
{
    let total = bytes.len();
    if total - pos < 16 {
        return Err(Error::Encoding(String::new()));
    }
    let mut b: [u8; 16] = [0; 16];
    let mut i: usize = 0;
    while i < 16
        invariant
            i <= 16,
            total == bytes@.len(),
            pos + 16 <= total,
            forall|j: int| 0 <= j < i ==> b@[j] == bytes@[pos + j],
        decreases 16 - i,
    {
        b[i] = bytes[pos + i];
        i = i + 1;
    }
    proof {
        assert(b@ =~= bytes@.subrange(pos as int, pos + 16));
    }
    Ok((b, pos + 16))
}

fn read_bytes_field(bytes: &[u8], pos: usize) -> (r: Result<(Vec<u8>, usize), Error>)
    requires
        pos <= bytes@.len(),
    ensures
        r is Ok <==> parse_record(bytes@, pos as int) is Some,
        r matches Ok((b, p)) ==> parse_record(bytes@, pos as int) == Some((b@, p as int)) && pos
            <= p <= bytes@.len(),
{
    let total = bytes.len();
    let (n64, p1) = match read_u64_field(bytes, pos) {
        Ok(v) => v,
        Err(e) => {
            return Err(e);
        },
    };
    proof {
        lemma_le_value_bounds(bytes@.subrange(pos as int, pos + 8));
    }
    if n64 > (total - p1) as u64 {
        proof {
            assert(parse_record(bytes@, pos as int) is None);
        }
        return Err(Error::Encoding(String::new()));
    }
    let n = n64 as usize;
    let mut b: Vec<u8> = Vec::new();
    let mut j: usize = 0;
    while j < n
        invariant
            j <= n,
            total == bytes@.len(),
            p1 + n <= total,
            b@ == bytes@.subrange(p1 as int, p1 + j),
        decreases n - j,
    {
        b.push(bytes[p1 + j]);
        assert(b@ =~= bytes@.subrange(p1 as int, p1 + j + 1));
        j = j + 1;
    }
    proof {
        let lv = le_value(bytes@.subrange(pos as int, pos + 8));
        lemma_le_value_bounds(bytes@.subrange(pos as int, pos + 8));
        reveal_with_fuel(pow256, 9);
        assert(pow256(8) == 0x10000000000000000);
        assert(0 <= lv < 0x10000000000000000);
        assert(lv == n64 as int);
        assert(parse_record(bytes@, pos as int) == Some::<(Seq<u8>, int)>(
            (bytes@.subrange(p1 as int, p1 + n), p1 + n),
        ));
    }
    Ok((b, p1 + n))
}

fn read_ref(bytes: &[u8], pos: usize) -> (r: Result<(AssetRef, usize), Error>)
    requires
        pos <= bytes@.len(),
    ensures
        r is Ok <==> parse_ref(bytes@, pos as int) is Some,
        r matches Ok((v, p)) ==> parse_ref(bytes@, pos as int) == Some((v@, p as int)) && pos <= p
            <= bytes@.len(),
{
    let total = bytes.len();
    if total - pos < 1 {
        return Err(Error::Encoding(String::new()));
    }
    let tag = bytes[pos];
    if tag == 0 {
        match read_uuid_field(bytes, pos + 1) {
            Ok((b, p)) => Ok((AssetRef::Uuid(crate::ids::AssetUuid(b)), p)),
            Err(e) => Err(e),
        }
    } else if tag == 1 {
        match read_bytes_field(bytes, pos + 1) {
            Ok((b, p)) => Ok((AssetRef::Path(b), p)),
            Err(e) => Err(e),
        }
    } else {
        Err(Error::Encoding(String::new()))
    }
}

/// Parsing a run of references splits at any count boundary.
proof fn lemma_parse_ref_list_split(s: Seq<u8>, pos: int, k1: nat, k2: nat)
    ensures
        parse_ref_list(s, pos, k1 + k2) == (match parse_ref_list(s, pos, k1) {
            None => None,
            Some((l1, p1)) => match parse_ref_list(s, p1, k2) {
                None => None,
                Some((l2, p2)) => Some((l1 + l2, p2)),
            },
        }),
    decreases k1,
{
    if k1 == 0 {
        match parse_ref_list(s, pos, k2) {
            None => {},
            Some((l2, p2)) => {
                assert(Seq::<AssetRefView>::empty() + l2 =~= l2);
            },
        }
    } else {
        match parse_ref(s, pos) {
            None => {},
            Some((b, p1)) => {
                lemma_parse_ref_list_split(s, p1, (k1 - 1) as nat, k2);
                match parse_ref_list(s, p1, (k1 - 1) as nat) {
                    None => {},
                    Some((r1, q1)) => {
                        match parse_ref_list(s, q1, k2) {
                            None => {},
                            Some((r2, q2)) => {
                                assert(seq![b] + (r1 + r2) =~= (seq![b] + r1) + r2);
                            },
                        }
                    },
                }
            },
        }
    }
}

/// A parsed run of references consumes at least one byte per
/// reference and ends within the string.
proof fn lemma_parse_ref_list_lower_bound(s: Seq<u8>, pos: int, count: nat)
    ensures
        parse_ref_list(s, pos, count) matches Some((l, p)) ==> p >= pos + count && (count > 0
            ==> p <= s.len()),
    decreases count,
{
    if count > 0 {
        match parse_ref(s, pos) {
            None => {},
            Some((b, p1)) => {
                match b {
                    AssetRefView::Uuid(_u) => {
                        assert(p1 >= pos + 1 && p1 <= s.len());
                    },
                    AssetRefView::Path(_p) => {
                        lemma_le_value_bounds(s.subrange(pos + 1, pos + 9));
                        assert(p1 >= pos + 1 && p1 <= s.len());
                    },
                }
                lemma_parse_ref_list_lower_bound(s, p1, (count - 1) as nat);
            },
        }
    }
}

fn read_refs(bytes: &[u8], pos: usize) -> (r: Result<(Vec<AssetRef>, usize), Error>)
    requires
        pos <= bytes@.len(),
    ensures
        r is Ok <==> parse_refs(bytes@, pos as int) is Some,
        r matches Ok((v, p)) ==> parse_refs(bytes@, pos as int) == Some((ref_views(v@), p as int))
            && pos <= p <= bytes@.len(),
{
    let total = bytes.len();
    let (count64, start) = match read_u64_field(bytes, pos) {
        Ok(v) => v,
        Err(e) => {
            return Err(e);
        },
    };
    let ghost count = count64 as nat;
    if count64 > (total - start) as u64 {
        proof {
            lemma_parse_ref_list_lower_bound(bytes@, start as int, count);
        }
        return Err(Error::Encoding(String::new()));
    }
    let count_us = count64 as usize;
    let mut out: Vec<AssetRef> = Vec::new();
    let mut p: usize = start;
    let mut i: usize = 0;
    while i < count_us
        invariant
            i <= count_us,
            count_us == count,
            count == count64 as nat,
            start <= p <= total,
            total == bytes@.len(),
            parse_u64(bytes@, pos as int) == Some::<(u64, int)>((count64, start as int)),
            parse_ref_list(bytes@, start as int, i as nat) == Some::<(Seq<AssetRefView>, int)>(
                (ref_views(out@), p as int),
            ),
        decreases count_us - i,
    {
        proof {
            lemma_parse_ref_list_split(bytes@, start as int, i as nat, (count - i) as nat);
            assert(i as nat + (count - i) as nat == count);
        }
        let (item, p2) = match read_ref(bytes, p) {
            Ok(v) => v,
            Err(e) => {
                proof {
                    assert(parse_ref_list(bytes@, p as int, (count - i) as nat) is None);
                    assert(parse_ref_list(bytes@, start as int, count) is None);
                }
                return Err(e);
            },
        };
        proof {
            let ghost pre = ref_views(out@);
            assert(parse_ref_list(bytes@, start as int, (i + 1) as nat) == Some::<
                (Seq<AssetRefView>, int),
            >((pre + seq![item@], p2 as int))) by {
                lemma_parse_ref_list_split(bytes@, start as int, i as nat, 1);
                assert(parse_ref_list(bytes@, p2 as int, 0) == Some::<(Seq<AssetRefView>, int)>(
                    (Seq::empty(), p2 as int),
                ));
                assert(seq![item@] + Seq::<AssetRefView>::empty() =~= seq![item@]);
            }
        }
        let ghost pre = ref_views(out@);
        out.push(item);
        proof {
            assert(ref_views(out@) =~= pre + seq![out@.last()@]);
        }
        p = p2;
        i = i + 1;
    }
    Ok((out, p))
}

fn read_opt_u64(bytes: &[u8], pos: usize) -> (r: Result<(Option<u64>, usize), Error>)
    requires
        pos <= bytes@.len(),
    ensures
        r is Ok <==> parse_opt_u64(bytes@, pos as int) is Some,
        r matches Ok((v, p)) ==> parse_opt_u64(bytes@, pos as int) == Some((v, p as int)) && pos
            <= p <= bytes@.len(),
{
    let total = bytes.len();
    if total - pos < 1 {
        return Err(Error::Encoding(String::new()));
    }
    let tag = bytes[pos];
    if tag == 0 {
        Ok((None, pos + 1))
    } else if tag == 1 {
        match read_u64_field(bytes, pos + 1) {
            Ok((x, p)) => Ok((Some(x), p)),
            Err(e) => Err(e),
        }
    } else {
        Err(Error::Encoding(String::new()))
    }
}

fn read_compression(bytes: &[u8], pos: usize) -> (r: Result<(CompressionType, usize), Error>)
    requires
        pos <= bytes@.len(),
    ensures
        r is Ok <==> parse_compression(bytes@, pos as int) is Some,
        r matches Ok((v, p)) ==> parse_compression(bytes@, pos as int) == Some((v, p as int))
            && pos <= p <= bytes@.len(),
{
    let total = bytes.len();
    if total - pos < 1 {
        return Err(Error::Encoding(String::new()));
    }
    let tag = bytes[pos];
    if tag == 0 {
        Ok((CompressionType::Uncompressed, pos + 1))
    } else if tag == 1 {
        Ok((CompressionType::Lz4, pos + 1))
    } else {
        Err(Error::Encoding(String::new()))
    }
}

fn read_artifact(bytes: &[u8], pos: usize) -> (r: Result<(ArtifactMetadata, usize), Error>)
    requires
        pos <= bytes@.len(),
    ensures
        r is Ok <==> parse_artifact(bytes@, pos as int) is Some,
        r matches Ok((v, p)) ==> parse_artifact(bytes@, pos as int) == Some((v@, p as int)) && pos
            <= p <= bytes@.len(),
{
    let (id, p1) = match read_u64_field(bytes, pos) {
        Ok(v) => v,
        Err(e) => {
            return Err(e);
        },
    };
    let (asset_id, p2) = match read_uuid_field(bytes, p1) {
        Ok(v) => v,
        Err(e) => {
            return Err(e);
        },
    };
    let (build_deps, p3) = match read_refs(bytes, p2) {
        Ok(v) => v,
        Err(e) => {
            return Err(e);
        },
    };
    let (load_deps, p4) = match read_refs(bytes, p3) {
        Ok(v) => v,
        Err(e) => {
            return Err(e);
        },
    };
    let (compression, p5) = match read_compression(bytes, p4) {
        Ok(v) => v,
        Err(e) => {
            return Err(e);
        },
    };
    let (uncompressed_size, p6) = match read_opt_u64(bytes, p5) {
        Ok(v) => v,
        Err(e) => {
            return Err(e);
        },
    };
    let (compressed_size, p7) = match read_opt_u64(bytes, p6) {
        Ok(v) => v,
        Err(e) => {
            return Err(e);
        },
    };
    let (type_id, p8) = match read_uuid_field(bytes, p7) {
        Ok(v) => v,
        Err(e) => {
            return Err(e);
        },
    };
    let m = ArtifactMetadata {
        id: crate::metadata::ArtifactId(id),
        asset_id: crate::ids::AssetUuid(asset_id),
        build_deps,
        load_deps,
        compression,
        uncompressed_size,
        compressed_size,
        type_id: crate::ids::AssetTypeId(type_id),
    };
    Ok((m, p8))
}

fn read_asset_meta(bytes: &[u8], pos: usize) -> (r: Result<(AssetMetadata, usize), Error>)
    requires
        pos <= bytes@.len(),
    ensures
        r is Ok <==> parse_asset_meta(bytes@, pos as int) is Some,
        r matches Ok((v, p)) ==> parse_asset_meta(bytes@, pos as int) == Some((v@, p as int))
            && pos <= p <= bytes@.len(),
{
    let total = bytes.len();
    let (id, p1) = match read_uuid_field(bytes, pos) {
        Ok(v) => v,
        Err(e) => {
            return Err(e);
        },
    };
    if total - p1 < 1 {
        return Err(Error::Encoding(String::new()));
    }
    let tag = bytes[p1];
    if tag == 0 {
        Ok((
            AssetMetadata { id: crate::ids::AssetUuid(id), artifact: None },
            p1 + 1,
        ))
    } else if tag == 1 {
        match read_artifact(bytes, p1 + 1) {
            Ok((m, p2)) => Ok((
                AssetMetadata { id: crate::ids::AssetUuid(id), artifact: Some(m) },
                p2,
            )),
            Err(e) => Err(e),
        }
    } else {
        Err(Error::Encoding(String::new()))
    }
}

fn read_entry(bytes: &[u8], pos: usize) -> (r: Result<(PackEntry, usize), Error>)
    requires
        pos <= bytes@.len(),
    ensures
        r is Ok <==> parse_entry(bytes@, pos as int) is Some,
        r matches Ok((v, p)) ==> parse_entry(bytes@, pos as int) == Some((v@, p as int)) && pos
            <= p <= bytes@.len(),
{
    let (path, p1) = match read_bytes_field(bytes, pos) {
        Ok(v) => v,
        Err(e) => {
            return Err(e);
        },
    };
    let (asset_metadata, p2) = match read_asset_meta(bytes, p1) {
        Ok(v) => v,
        Err(e) => {
            return Err(e);
        },
    };
    let (artifact_metadata, p3) = match read_artifact(bytes, p2) {
        Ok(v) => v,
        Err(e) => {
            return Err(e);
        },
    };
    let (data, p4) = match read_bytes_field(bytes, p3) {
        Ok(v) => v,
        Err(e) => {
            return Err(e);
        },
    };
    Ok((PackEntry { path, asset_metadata, artifact_metadata, data }, p4))
}

/// Parsing a run of entries splits at any count boundary.
#[verifier::rlimit(100)]
proof fn lemma_parse_entry_list_split(s: Seq<u8>, pos: int, k1: nat, k2: nat)
    ensures
        parse_entry_list(s, pos, k1 + k2) == (match parse_entry_list(s, pos, k1) {
            None => None,
            Some((l1, p1)) => match parse_entry_list(s, p1, k2) {
                None => None,
                Some((l2, p2)) => Some((l1 + l2, p2)),
            },
        }),
    decreases k1,
{
    if k1 == 0 {
        match parse_entry_list(s, pos, k2) {
            None => {},
            Some((l2, p2)) => {
                assert(Seq::<PackEntryView>::empty() + l2 =~= l2);
            },
        }
    } else {
        match parse_entry(s, pos) {
            None => {},
            Some((b, p1)) => {
                lemma_parse_entry_list_split(s, p1, (k1 - 1) as nat, k2);
                match parse_entry_list(s, p1, (k1 - 1) as nat) {
                    None => {},
                    Some((r1, q1)) => {
                        match parse_entry_list(s, q1, k2) {
                            None => {},
                            Some((r2, q2)) => {
                                assert(seq![b] + (r1 + r2) =~= (seq![b] + r1) + r2);
                            },
                        }
                    },
                }
            },
        }
    }
}

/// A parsed counted reference list starts no earlier than its count
/// and ends within the string.
proof fn lemma_parse_refs_bounds(s: Seq<u8>, pos: int)
    ensures
        parse_refs(s, pos) matches Some((l, p)) ==> pos <= p <= s.len(),
{
    match parse_u64(s, pos) {
        None => {},
        Some((c, p1)) => {
            lemma_parse_ref_list_lower_bound(s, p1, c as nat);
        },
    }
}

/// A parsed artifact record moves forward and ends within the string.
#[verifier::rlimit(100)]
proof fn lemma_parse_artifact_bounds(s: Seq<u8>, pos: int)
    ensures
        parse_artifact(s, pos) matches Some((m, p)) ==> pos <= p <= s.len(),
{
    match parse_u64(s, pos) {
        None => {},
        Some((_id, p1)) => {
            match parse_uuid(s, p1) {
                None => {},
                Some((_a, p2)) => {
                    lemma_parse_refs_bounds(s, p2);
                    match parse_refs(s, p2) {
                        None => {},
                        Some((_b, p3)) => {
                            lemma_parse_refs_bounds(s, p3);
                        },
                    }
                },
            }
        },
    }
}

/// A parsed asset record moves forward and ends within the string.
#[verifier::rlimit(100)]
proof fn lemma_parse_asset_meta_bounds(s: Seq<u8>, pos: int)
    ensures
        parse_asset_meta(s, pos) matches Some((m, p)) ==> pos <= p <= s.len(),
{
    match parse_uuid(s, pos) {
        None => {},
        Some((_id, p1)) => {
            if 0 <= p1 && p1 + 1 <= s.len() && s[p1] == 1 {
                lemma_parse_artifact_bounds(s, p1 + 1);
            }
        },
    }
}

/// A parsed run of entries consumes at least one byte per entry and
/// ends within the string.
#[verifier::rlimit(100)]
proof fn lemma_parse_entry_list_lower_bound(s: Seq<u8>, pos: int, count: nat)
    ensures
        parse_entry_list(s, pos, count) matches Some((l, p)) ==> p >= pos + count && (count > 0
            ==> p <= s.len()),
    decreases count,
{
    if count > 0 {
        match parse_entry(s, pos) {
            None => {},
            Some((e, p1)) => {
                assert(p1 >= pos + 1 && p1 <= s.len()) by {
                    lemma_le_value_bounds(s.subrange(pos, pos + 8));
                    match parse_record(s, pos) {
                        None => {},
                        Some((_path, q1)) => {
                            lemma_parse_asset_meta_bounds(s, q1);
                            match parse_asset_meta(s, q1) {
                                None => {},
                                Some((_am, q2)) => {
                                    lemma_parse_artifact_bounds(s, q2);
                                    match parse_artifact(s, q2) {
                                        None => {},
                                        Some((_m, q3)) => {
                                            lemma_le_value_bounds(s.subrange(q3, q3 + 8));
                                        },
                                    }
                                },
                            }
                        },
                    }
                }
                lemma_parse_entry_list_lower_bound(s, p1, (count - 1) as nat);
            },
        }
    }
}

/// Decodes a whole entry table; any table the encoder can produce is
/// accepted, and everything else is corruption.
pub fn decode_entry_table(bytes: &[u8]) -> (r: Result<Vec<PackEntry>, Error>)
    ensures
        r is Ok <==> parse_entry_table(bytes@) is Some,
        r matches Ok(l) ==> Some(entry_views(l@)) == parse_entry_table(bytes@),
{
    let total = bytes.len();
    if total < 8 {
        return Err(Error::Encoding(String::new()));
    }
    let count64 = read_le(bytes, 0, 8);
    let ghost count = le_value(bytes@.subrange(0, 8)) as nat;
    proof {
        lemma_le_value_bounds(bytes@.subrange(0, 8));
    }
    if count64 > total as u64 {
        proof {
            lemma_parse_entry_list_lower_bound(bytes@, 8, count);
        }
        return Err(Error::Encoding(String::new()));
    }
    let count_us = count64 as usize;
    let mut out: Vec<PackEntry> = Vec::new();
    let mut pos: usize = 8;
    let mut i: usize = 0;
    while i < count_us
        invariant
            i <= count_us,
            count_us == count,
            count == le_value(bytes@.subrange(0, 8)) as nat,
            0 <= le_value(bytes@.subrange(0, 8)),
            8 <= pos <= total,
            total == bytes@.len(),
            parse_entry_list(bytes@, 8, i as nat) == Some::<(Seq<PackEntryView>, int)>(
                (entry_views(out@), pos as int),
            ),
        decreases count_us - i,
    {
        proof {
            lemma_parse_entry_list_split(bytes@, 8, i as nat, (count - i) as nat);
            assert(i as nat + (count - i) as nat == count);
        }
        let (entry, p2) = match read_entry(bytes, pos) {
            Ok(v) => v,
            Err(e) => {
                proof {
                    assert(parse_entry_list(bytes@, pos as int, (count - i) as nat) is None);
                    assert(parse_entry_list(bytes@, 8, count) is None);
                    assert(parse_entry_table(bytes@) is None);
                }
                return Err(e);
            },
        };
        proof {
            let ghost pre = entry_views(out@);
            assert(parse_entry_list(bytes@, 8, (i + 1) as nat) == Some::<
                (Seq<PackEntryView>, int),
            >((pre + seq![entry@], p2 as int))) by {
                lemma_parse_entry_list_split(bytes@, 8, i as nat, 1);
                assert(parse_entry_list(bytes@, p2 as int, 0) == Some::<
                    (Seq<PackEntryView>, int),
                >((Seq::empty(), p2 as int)));
                assert(seq![entry@] + Seq::<PackEntryView>::empty() =~= seq![entry@]);
            }
        }
        let ghost pre = entry_views(out@);
        out.push(entry);
        proof {
            assert(entry_views(out@) =~= pre + seq![out@.last()@]);
        }
        pos = p2;
        i = i + 1;
    }
    if pos != total {
        return Err(Error::Encoding(String::new()));
    }
    Ok(out)
}

/// A reference's variable part fits its length prefix.
pub open spec fn ref_ok(r: AssetRefView) -> bool {
    match r {
        AssetRefView::Uuid(u) => u.len() == 16,
        AssetRefView::Path(p) => p.len() < 0x10000000000000000,
    }
}

/// A reference list and each of its references fit their prefixes.
pub open spec fn refs_ok(rs: Seq<AssetRefView>) -> bool {
    rs.len() < 0x10000000000000000 && (forall|i: int| 0 <= i < rs.len() ==> ref_ok(#[trigger] rs[i]))
}

/// An artifact record's identities and lists have their exact shapes.
pub open spec fn artifact_ok(m: ArtifactMetadataView) -> bool {
    m.asset_id.len() == 16 && m.type_id.len() == 16 && refs_ok(m.build_deps) && refs_ok(
        m.load_deps,
    )
}

/// An asset record's identity and artifact have their exact shapes.
pub open spec fn asset_meta_ok(a: AssetMetadataView) -> bool {
    a.id.len() == 16 && (a.artifact matches Some(m) ==> artifact_ok(m))
}

/// An entry's parts have their exact shapes and fit their prefixes.
pub open spec fn entry_ok(e: PackEntryView) -> bool {
    e.path.len() < 0x10000000000000000 && e.data.len() < 0x10000000000000000 && asset_meta_ok(
        e.asset_metadata,
    ) && artifact_ok(e.artifact_metadata)
}

/// Splits knowledge of an embedded concatenation into its two parts.
proof fn lemma_split_concat(s: Seq<u8>, pos: int, a: Seq<u8>, b: Seq<u8>)
    requires
        0 <= pos,
        pos + a.len() + b.len() <= s.len(),
        s.subrange(pos, pos + a.len() + b.len()) == a + b,
    ensures
        s.subrange(pos, pos + a.len()) == a,
        s.subrange(pos + a.len(), pos + a.len() + b.len()) == b,
{
    assert(s.subrange(pos, pos + a.len() as int) =~= a) by {
        assert forall|i: int| 0 <= i < a.len() implies s.subrange(pos, pos + a.len() as int)[i]
            == a[i] by {
            assert(s.subrange(pos, pos + a.len() + b.len())[i] == (a + b)[i]);
        }
    }
    assert(s.subrange(pos + a.len(), pos + a.len() + b.len()) =~= b) by {
        assert forall|i: int| 0 <= i < b.len() implies s.subrange(
            pos + a.len(),
            pos + a.len() + b.len(),
        )[i] == b[i] by {
            assert(s.subrange(pos + a.len() as int, pos + a.len() + b.len())[i] == s[pos + a.len()
                + i]);
            assert(s.subrange(pos, pos + a.len() + b.len())[a.len() + i] == s[pos + a.len() + i]);
            assert(s.subrange(pos, pos + a.len() + b.len())[a.len() + i] == (a + b)[a.len() + i]);
        }
    }
}

proof fn lemma_parse_encoded_u64(s: Seq<u8>, pos: int, x: u64)
    requires
        0 <= pos,
        pos + 8 <= s.len(),
        s.subrange(pos, pos + 8) == le_bytes(x as int, 8),
    ensures
        parse_u64(s, pos) == Some::<(u64, int)>((x, pos + 8)),
{
    assert((x as int) < pow256(8)) by {
        reveal_with_fuel(pow256, 9);
        assert(pow256(8) == 0x10000000000000000);
    }
    lemma_le_value_of_bytes(x as int, 8);
}

proof fn lemma_parse_encoded_ref(s: Seq<u8>, pos: int, r: AssetRefView)
    requires
        ref_ok(r),
        0 <= pos,
        pos + enc_ref(r).len() <= s.len(),
        s.subrange(pos, pos + enc_ref(r).len()) == enc_ref(r),
    ensures
        parse_ref(s, pos) == Some::<(AssetRefView, int)>((r, pos + enc_ref(r).len())),
{
    let e = enc_ref(r);
    assert(s[pos] == e[0]) by {
        assert(s.subrange(pos, pos + e.len() as int)[0] == e[0]);
    }
    match r {
        AssetRefView::Uuid(u) => {
            assert(e == seq![0u8] + u);
            assert(e[0] == 0);
            assert(s.subrange(pos, pos + 1) =~= seq![0u8]) by {
                assert(s.subrange(pos, pos + e.len() as int)[0] == e[0]);
            }
            lemma_split_concat(s, pos, seq![0u8], u);
            assert(parse_uuid(s, pos + 1) == Some::<(Seq<u8>, int)>((u, pos + 1 + 16)));
        },
        AssetRefView::Path(pth) => {
            assert(e =~= seq![1u8] + (le_bytes(pth.len() as int, 8) + pth)) by {
                lemma_le_bytes_len(pth.len() as int, 8);
            }
            assert(e[0] == 1);
            lemma_le_bytes_len(pth.len() as int, 8);
            lemma_split_concat(s, pos, seq![1u8], le_bytes(pth.len() as int, 8) + pth);
            lemma_parse_encoded_record(s, pos + 1, pth);
        },
    }
}

proof fn lemma_parse_encoded_ref_list(s: Seq<u8>, pos: int, rs: Seq<AssetRefView>)
    requires
        forall|i: int| 0 <= i < rs.len() ==> ref_ok(#[trigger] rs[i]),
        0 <= pos,
        pos + enc_ref_list(rs).len() <= s.len(),
        s.subrange(pos, pos + enc_ref_list(rs).len()) == enc_ref_list(rs),
    ensures
        parse_ref_list(s, pos, rs.len()) == Some::<(Seq<AssetRefView>, int)>(
            (rs, pos + enc_ref_list(rs).len()),
        ),
    decreases rs.len(),
{
    if rs.len() == 0 {
        assert(rs =~= Seq::<AssetRefView>::empty());
    } else {
        let r0 = rs.first();
        let e1 = enc_ref(r0);
        let rest = enc_ref_list(rs.drop_first());
        assert(enc_ref_list(rs) == e1 + rest);
        lemma_split_concat(s, pos, e1, rest);
        assert(ref_ok(r0)) by {
            assert(rs[0] == r0);
        }
        lemma_parse_encoded_ref(s, pos, r0);
        assert forall|i: int| 0 <= i < rs.drop_first().len() implies ref_ok(
            #[trigger] rs.drop_first()[i],
        ) by {
            assert(rs.drop_first()[i] == rs[i + 1]);
        }
        lemma_parse_encoded_ref_list(s, pos + e1.len(), rs.drop_first());
        assert(seq![r0] + rs.drop_first() =~= rs);
    }
}

proof fn lemma_parse_encoded_refs(s: Seq<u8>, pos: int, rs: Seq<AssetRefView>)
    requires
        refs_ok(rs),
        0 <= pos,
        pos + enc_refs(rs).len() <= s.len(),
        s.subrange(pos, pos + enc_refs(rs).len()) == enc_refs(rs),
    ensures
        parse_refs(s, pos) == Some::<(Seq<AssetRefView>, int)>((rs, pos + enc_refs(rs).len())),
{
    lemma_le_bytes_len(rs.len() as int, 8);
    lemma_split_concat(s, pos, le_bytes(rs.len() as int, 8), enc_ref_list(rs));
    lemma_parse_encoded_u64(s, pos, rs.len() as u64);
    lemma_parse_encoded_ref_list(s, pos + 8, rs);
}

proof fn lemma_parse_encoded_opt_u64(s: Seq<u8>, pos: int, o: Option<u64>)
    requires
        0 <= pos,
        pos + enc_opt_u64(o).len() <= s.len(),
        s.subrange(pos, pos + enc_opt_u64(o).len()) == enc_opt_u64(o),
    ensures
        parse_opt_u64(s, pos) == Some::<(Option<u64>, int)>((o, pos + enc_opt_u64(o).len())),
{
    let e = enc_opt_u64(o);
    assert(s[pos] == e[0]) by {
        assert(s.subrange(pos, pos + e.len() as int)[0] == e[0]);
    }
    match o {
        None => {},
        Some(x) => {
            lemma_le_bytes_len(x as int, 8);
            lemma_split_concat(s, pos, seq![1u8], le_bytes(x as int, 8));
            lemma_parse_encoded_u64(s, pos + 1, x);
        },
    }
}

proof fn lemma_parse_encoded_compression(s: Seq<u8>, pos: int, c: CompressionType)
    requires
        0 <= pos,
        pos + 1 <= s.len(),
        s.subrange(pos, pos + 1) == enc_compression(c),
    ensures
        parse_compression(s, pos) == Some::<(CompressionType, int)>((c, pos + 1)),
{
    assert(s[pos] == enc_compression(c)[0]) by {
        assert(s.subrange(pos, pos + 1)[0] == enc_compression(c)[0]);
    }
}

#[verifier::rlimit(100)]
proof fn lemma_parse_encoded_artifact(s: Seq<u8>, pos: int, m: ArtifactMetadataView)
    requires
        artifact_ok(m),
        0 <= pos,
        pos + enc_artifact(m).len() <= s.len(),
        s.subrange(pos, pos + enc_artifact(m).len()) == enc_artifact(m),
    ensures
        parse_artifact(s, pos) == Some::<(ArtifactMetadataView, int)>(
            (m, pos + enc_artifact(m).len()),
        ),
{
    let f1 = le_bytes(m.id as int, 8);
    let f2 = m.asset_id;
    let f3 = enc_refs(m.build_deps);
    let f4 = enc_refs(m.load_deps);
    let f5 = enc_compression(m.compression);
    let f6 = enc_opt_u64(m.uncompressed_size);
    let f7 = enc_opt_u64(m.compressed_size);
    let f8 = m.type_id;
    lemma_le_bytes_len(m.id as int, 8);
    assert(enc_artifact(m) =~= f1 + (f2 + (f3 + (f4 + (f5 + (f6 + (f7 + f8)))))));
    let p0 = pos;
    lemma_split_concat(s, p0, f1, f2 + (f3 + (f4 + (f5 + (f6 + (f7 + f8))))));
    lemma_parse_encoded_u64(s, p0, m.id);
    let p1 = p0 + f1.len();
    lemma_split_concat(s, p1, f2, f3 + (f4 + (f5 + (f6 + (f7 + f8)))));
    let p2 = p1 + f2.len();
    assert(parse_uuid(s, p1) == Some::<(Seq<u8>, int)>((f2, p2)));
    lemma_split_concat(s, p2, f3, f4 + (f5 + (f6 + (f7 + f8))));
    lemma_parse_encoded_refs(s, p2, m.build_deps);
    let p3 = p2 + f3.len();
    lemma_split_concat(s, p3, f4, f5 + (f6 + (f7 + f8)));
    lemma_parse_encoded_refs(s, p3, m.load_deps);
    let p4 = p3 + f4.len();
    lemma_split_concat(s, p4, f5, f6 + (f7 + f8));
    lemma_parse_encoded_compression(s, p4, m.compression);
    let p5 = p4 + f5.len();
    lemma_split_concat(s, p5, f6, f7 + f8);
    lemma_parse_encoded_opt_u64(s, p5, m.uncompressed_size);
    let p6 = p5 + f6.len();
    lemma_split_concat(s, p6, f7, f8);
    lemma_parse_encoded_opt_u64(s, p6, m.compressed_size);
    let p7 = p6 + f7.len();
    let p8 = p7 + f8.len();
    assert(parse_uuid(s, p7) == Some::<(Seq<u8>, int)>((f8, p8)));
}

#[verifier::rlimit(100)]
proof fn lemma_parse_encoded_asset_meta(s: Seq<u8>, pos: int, a: AssetMetadataView)
    requires
        asset_meta_ok(a),
        0 <= pos,
        pos + enc_asset_meta(a).len() <= s.len(),
        s.subrange(pos, pos + enc_asset_meta(a).len()) == enc_asset_meta(a),
    ensures
        parse_asset_meta(s, pos) == Some::<(AssetMetadataView, int)>(
            (a, pos + enc_asset_meta(a).len()),
        ),
{
    match a.artifact {
        None => {
            lemma_split_concat(s, pos, a.id, seq![0u8]);
            assert(parse_uuid(s, pos) == Some::<(Seq<u8>, int)>((a.id, pos + 16)));
            assert(s[pos + 16] == 0) by {
                assert(s.subrange(pos + 16, pos + 17)[0] == seq![0u8][0]);
            }
        },
        Some(m) => {
            lemma_split_concat(s, pos, a.id, seq![1u8] + enc_artifact(m));
            assert(parse_uuid(s, pos) == Some::<(Seq<u8>, int)>((a.id, pos + 16)));
            lemma_split_concat(s, pos + 16, seq![1u8], enc_artifact(m));
            assert(s[pos + 16] == 1) by {
                assert(s.subrange(pos + 16, pos + 17)[0] == seq![1u8][0]);
            }
            lemma_parse_encoded_artifact(s, pos + 17, m);
        },
    }
}

#[verifier::rlimit(100)]
proof fn lemma_parse_encoded_entry(s: Seq<u8>, pos: int, e: PackEntryView)
    requires
        entry_ok(e),
        0 <= pos,
        pos + enc_entry(e).len() <= s.len(),
        s.subrange(pos, pos + enc_entry(e).len()) == enc_entry(e),
    ensures
        parse_entry(s, pos) == Some::<(PackEntryView, int)>((e, pos + enc_entry(e).len())),
{
    let f1 = enc_record(e.path);
    let f2 = enc_asset_meta(e.asset_metadata);
    let f3 = enc_artifact(e.artifact_metadata);
    let f4 = enc_record(e.data);
    assert(enc_entry(e) =~= f1 + (f2 + (f3 + f4)));
    lemma_split_concat(s, pos, f1, f2 + (f3 + f4));
    lemma_parse_encoded_record(s, pos, e.path);
    let p1 = pos + f1.len();
    lemma_split_concat(s, p1, f2, f3 + f4);
    lemma_parse_encoded_asset_meta(s, p1, e.asset_metadata);
    let p2 = p1 + f2.len();
    lemma_split_concat(s, p2, f3, f4);
    lemma_parse_encoded_artifact(s, p2, e.artifact_metadata);
    let p3 = p2 + f3.len();
    lemma_parse_encoded_record(s, p3, e.data);
}

#[verifier::rlimit(100)]
#[verifier::spinoff_prover]
proof fn lemma_parse_encoded_entry_list(s: Seq<u8>, pos: int, l: Seq<PackEntryView>)
    requires
        forall|i: int| 0 <= i < l.len() ==> entry_ok(#[trigger] l[i]),
        0 <= pos,
        pos + enc_entry_list(l).len() <= s.len(),
        s.subrange(pos, pos + enc_entry_list(l).len()) == enc_entry_list(l),
    ensures
        parse_entry_list(s, pos, l.len()) == Some::<(Seq<PackEntryView>, int)>(
            (l, pos + enc_entry_list(l).len()),
        ),
    decreases l.len(),
{
    if l.len() == 0 {
        assert(l =~= Seq::<PackEntryView>::empty());
    } else {
        let e0 = l.first();
        let e1 = enc_entry(e0);
        let rest = enc_entry_list(l.drop_first());
        assert(enc_entry_list(l) == e1 + rest);
        lemma_split_concat(s, pos, e1, rest);
        assert(entry_ok(e0)) by {
            assert(l[0] == e0);
        }
        lemma_parse_encoded_entry(s, pos, e0);
        assert forall|i: int| 0 <= i < l.drop_first().len() implies entry_ok(
            #[trigger] l.drop_first()[i],
        ) by {
            assert(l.drop_first()[i] == l[i + 1]);
        }
        lemma_parse_encoded_entry_list(s, pos + e1.len(), l.drop_first());
        assert(seq![e0] + l.drop_first() =~= l);
    }
}

/// Round trip: parsing an encoded entry table yields the entries.
pub proof fn lemma_entry_table_round_trip(l: Seq<PackEntryView>)
    requires
        l.len() < 0x10000000000000000,
        forall|i: int| 0 <= i < l.len() ==> entry_ok(#[trigger] l[i]),
    ensures
        parse_entry_table(enc_entry_table(l)) == Some(l),
{
    let s = enc_entry_table(l);
    lemma_le_bytes_len(l.len() as int, 8);
    assert(s.subrange(0, 8) =~= le_bytes(l.len() as int, 8));
    assert((l.len() as int) < pow256(8)) by {
        reveal_with_fuel(pow256, 9);
        assert(pow256(8) == 0x10000000000000000);
    }
    lemma_le_value_of_bytes(l.len() as int, 8);
    assert(s.subrange(8, 8 + enc_entry_list(l).len() as int) =~= enc_entry_list(l));
    lemma_parse_encoded_entry_list(s, 8, l);
}

} // verus!
