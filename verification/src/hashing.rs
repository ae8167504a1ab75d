//! The stable 64-bit artifact-id hash: a Fowler-Noll-Vo (FNV-1a) hash
//! over the importer's hash, the asset identity, and the sorted,
//! de-duplicated build-dependency identities.  The hash function is
//! frozen so that equal inputs yield equal artifact ids across runs.
use vstd::prelude::*;

use crate::ids::AssetUuid;

verus! {

/// FNV-1a 64-bit offset basis.
pub const FNV_OFFSET_BASIS: u64 = 0xcbf29ce484222325;

/// FNV-1a 64-bit prime.
pub const FNV_PRIME: u64 = 0x100000001b3;

/// One FNV-1a round: xor the byte in, then multiply modulo 2^64.
pub open spec fn fnv1a_step(h: u64, b: u8) -> u64 {
    ((((h ^ (b as u64)) as int) * (FNV_PRIME as int)) % 0x10000000000000000) as u64
}

/// The FNV-1a 64-bit hash of a byte string.
pub open spec fn fnv1a(s: Seq<u8>) -> u64
    decreases s.len(),
{
    if s.len() == 0 {
        FNV_OFFSET_BASIS
    } else {
        fnv1a_step(fnv1a(s.drop_last()), s.last())
    }
}

fn fnv_step(h: u64, b: u8) -> (r: u64)
    ensures
        r == fnv1a_step(h, b),
{
    let x: u128 = (h ^ (b as u64)) as u128;
    let p: u128 = FNV_PRIME as u128;
    assert(x * p <= 0xffffffffffffffffu128 * 0x100000001b3u128) by (nonlinear_arith)
        requires
            x <= 0xffffffffffffffffu128,
            p == 0x100000001b3u128,
    ;
    let prod: u128 = x * p;
    let r: u128 = prod % 0x10000000000000000u128;
    r as u64
}

/// The FNV-1a 64-bit hash of a byte string.
pub fn fnv1a_hash(bytes: &Vec<u8>) -> (h: u64)
    ensures
        h == fnv1a(bytes@),
{
    let mut h: u64 = FNV_OFFSET_BASIS;
    let mut i: usize = 0;
    while i < bytes.len()
        invariant
            i <= bytes@.len(),
            h == fnv1a(bytes@.subrange(0, i as int)),
        decreases bytes@.len() - i,
    {
        assert(bytes@.subrange(0, i + 1).drop_last() =~= bytes@.subrange(0, i as int));
        h = fnv_step(h, bytes[i]);
        i = i + 1;
    }
    assert(bytes@.subrange(0, bytes@.len() as int) =~= bytes@);
    h
}

/// Byte `i` of the little-endian encoding of a 64-bit integer.
pub open spec fn u64_le_byte(x: u64, i: int) -> u8
    recommends
        0 <= i < 8,
{
    ((x >> ((8 * i) as u64)) & 0xff) as u8
}

/// The 8-byte little-endian encoding of a 64-bit integer.
pub open spec fn u64_le_bytes(x: u64) -> Seq<u8> {
    Seq::new(8, |i: int| u64_le_byte(x, i))
}

/// Appends the little-endian encoding of `x`.
pub fn push_u64_le(out: &mut Vec<u8>, x: u64)
    ensures
        final(out)@ == old(out)@ + u64_le_bytes(x),
{
    let mut i: usize = 0;
    while i < 8
        invariant
            i <= 8,
            out@.len() == old(out)@.len() + i,
            out@ == old(out)@ + u64_le_bytes(x).subrange(0, i as int),
        decreases 8 - i,
    {
        let shift: u64 = 8 * (i as u64);
        out.push(((x >> shift) & 0xff) as u8);
        assert(out@ =~= old(out)@ + u64_le_bytes(x).subrange(0, i + 1));
        i = i + 1;
    }
    assert(out@ =~= old(out)@ + u64_le_bytes(x));
}

/// The value of a byte string read as a big-endian unsigned integer.
pub open spec fn be_value(s: Seq<u8>) -> int
    decreases s.len(),
{
    if s.len() == 0 {
        0
    } else {
        be_value(s.drop_last()) * 256 + s.last()
    }
}

/// 256 raised to the power `n`.
pub open spec fn pow256(n: nat) -> int
    decreases n,
{
    if n == 0 {
        1
    } else {
        256 * pow256((n - 1) as nat)
    }
}

/// A byte string of length `n` denotes a value in `[0, 256^n)`.
pub proof fn lemma_be_value_bounds(s: Seq<u8>)
    ensures
        0 <= be_value(s) < pow256(s.len()),
    decreases s.len(),
{
    if s.len() > 0 {
        lemma_be_value_bounds(s.drop_last());
        assert(be_value(s.drop_last()) * 256 <= (pow256((s.len() - 1) as nat) - 1) * 256)
            by (nonlinear_arith)
            requires
                be_value(s.drop_last()) <= pow256((s.len() - 1) as nat) - 1,
        ;
    }
}

/// Byte strings of one length are distinguished by their values.
pub proof fn lemma_be_value_injective(a: Seq<u8>, b: Seq<u8>)
    requires
        a.len() == b.len(),
        be_value(a) == be_value(b),
    ensures
        a == b,
    decreases a.len(),
{
    if a.len() == 0 {
        assert(a =~= b);
    } else {
        lemma_be_value_bounds(a.drop_last());
        lemma_be_value_bounds(b.drop_last());
        let qa = be_value(a.drop_last());
        let qb = be_value(b.drop_last());
        assert(qa * 256 + a.last() == qb * 256 + b.last());
        assert(qa == qb && a.last() == b.last()) by (nonlinear_arith)
            requires
                qa * 256 + a.last() == qb * 256 + b.last(),
                0 <= a.last() < 256,
                0 <= b.last() < 256,
                qa >= 0,
                qb >= 0,
        ;
        lemma_be_value_injective(a.drop_last(), b.drop_last());
        assert(a =~= a.drop_last().push(a.last()));
        assert(b =~= b.drop_last().push(b.last()));
    }
}

pub proof fn lemma_pow256_increases(i: nat, j: nat)
    requires
        i <= j,
    ensures
        pow256(i) <= pow256(j),
    decreases j,
{
    if i < j {
        lemma_pow256_increases(i, (j - 1) as nat);
        lemma_pow256_positive((j - 1) as nat);
        assert(pow256((j - 1) as nat) <= 256 * pow256((j - 1) as nat)) by (nonlinear_arith)
            requires
                pow256((j - 1) as nat) >= 1,
        ;
    }
}

pub proof fn lemma_pow256_positive(n: nat)
    ensures
        pow256(n) >= 1,
    decreases n,
{
    if n > 0 {
        lemma_pow256_positive((n - 1) as nat);
    }
}

/// The big-endian value of a 16-byte identity, as a machine integer.
fn uuid_be_value(u: &AssetUuid) -> (v: u128)
    ensures
        v as int == be_value(u@),
{
    let mut v: u128 = 0;
    let mut i: usize = 0;
    while i < 16
        invariant
            i <= 16,
            v as int == be_value(u@.subrange(0, i as int)),
        decreases 16 - i,
    {
        proof {
            lemma_be_value_bounds(u@.subrange(0, i as int));
            lemma_pow256_increases(i as nat, 15);
            reveal_with_fuel(pow256, 17);
            assert(pow256(15) == 0x1000000000000000000000000000000);
            assert(v * 256 <= (0x1000000000000000000000000000000 - 1) * 256) by (nonlinear_arith)
                requires
                    v <= 0x1000000000000000000000000000000 - 1,
            ;
        }
        v = v * 256 + (u.0[i] as u128);
        assert(u@.subrange(0, i + 1).drop_last() =~= u@.subrange(0, i as int));
        assert(u@.subrange(0, i + 1).last() == u@[i as int]);
        i = i + 1;
    }
    assert(u@.subrange(0, 16) =~= u@);
    v
}

/// Inserts an identity into a list sorted strictly by value, keeping
/// the list sorted and dropping the identity if its value is present.
pub open spec fn insert_dep(s: Seq<Seq<u8>>, x: Seq<u8>) -> Seq<Seq<u8>>
    decreases s.len(),
{
    if s.len() == 0 {
        seq![x]
    } else if be_value(x) < be_value(s.first()) {
        seq![x] + s
    } else if be_value(x) == be_value(s.first()) {
        s
    } else {
        seq![s.first()] + insert_dep(s.drop_first(), x)
    }
}

/// The canonical form of a dependency list: sorted by value,
/// duplicates dropped.
pub open spec fn canonical_deps(s: Seq<Seq<u8>>) -> Seq<Seq<u8>>
    decreases s.len(),
{
    if s.len() == 0 {
        Seq::empty()
    } else {
        insert_dep(canonical_deps(s.drop_last()), s.last())
    }
}

/// Whether a list of identities is sorted in strictly increasing value order.
pub open spec fn strictly_sorted(s: Seq<Seq<u8>>) -> bool {
    forall|i: int, j: int| 0 <= i < j < s.len() ==> be_value(s[i]) < be_value(s[j])
}

/// Whether every element is a 16-byte identity.
pub open spec fn all_len_16(s: Seq<Seq<u8>>) -> bool {
    forall|i: int| 0 <= i < s.len() ==> s[i].len() == 16
}

proof fn lemma_insert_dep_props(s: Seq<Seq<u8>>, x: Seq<u8>)
    requires
        strictly_sorted(s),
        all_len_16(s),
        x.len() == 16,
    ensures
        strictly_sorted(insert_dep(s, x)),
        all_len_16(insert_dep(s, x)),
        insert_dep(s, x).to_set() == s.to_set().insert(x),
        insert_dep(s, x).len() <= s.len() + 1,
    decreases s.len(),
{
    let r = insert_dep(s, x);
    if s.len() == 0 {
        assert(r =~= seq![x]);
        assert(r[0] == x);
        assert(r.to_set().contains(x));
        assert forall|e: Seq<u8>| r.to_set().contains(e) implies s.to_set().insert(x).contains(
            e,
        ) by {
            let i = choose|i: int| 0 <= i < r.len() && r[i] == e;
            assert(i == 0 && e == x);
        }
        assert(r.to_set() =~= s.to_set().insert(x));
    } else if be_value(x) < be_value(s.first()) {
        assert(r =~= seq![x] + s);
        assert forall|i: int, j: int| 0 <= i < j < r.len() implies be_value(r[i]) < be_value(
            r[j],
        ) by {
            if i > 0 {
                assert(r[i] == s[i - 1] && r[j] == s[j - 1]);
            } else {
                assert(r[j] == s[j - 1]);
                assert(be_value(s.first()) <= be_value(s[j - 1]));
            }
        }
        assert forall|e: Seq<u8>| r.to_set().contains(e) implies s.to_set().insert(x).contains(
            e,
        ) by {
            let i = choose|i: int| 0 <= i < r.len() && r[i] == e;
            if i > 0 {
                assert(s[i - 1] == e);
            }
        }
        assert forall|e: Seq<u8>| s.to_set().insert(x).contains(e) implies r.to_set().contains(
            e,
        ) by {
            if e == x {
                assert(r[0] == e);
            } else {
                let i = choose|i: int| 0 <= i < s.len() && s[i] == e;
                assert(r[i + 1] == e);
            }
        }
        assert(r.to_set() =~= s.to_set().insert(x));
    } else if be_value(x) == be_value(s.first()) {
        assert(s[0].len() == 16);
        lemma_be_value_injective(x, s.first());
        assert(x == s.first());
        assert(s.to_set().contains(s.first()));
        assert(r.to_set() =~= s.to_set().insert(x));
    } else {
        let tail = s.drop_first();
        assert forall|i: int, j: int| 0 <= i < j < tail.len() implies be_value(tail[i]) < be_value(
            tail[j],
        ) by {
            assert(tail[i] == s[i + 1] && tail[j] == s[j + 1]);
        }
        assert(all_len_16(tail)) by {
            assert(forall|i: int| 0 <= i < tail.len() ==> tail[i] == s[i + 1]);
        }
        lemma_insert_dep_props(tail, x);
        let rt = insert_dep(tail, x);
        assert(r =~= seq![s.first()] + rt);
        // every element of the inserted tail is above the head
        assert forall|j: int| 0 <= j < rt.len() implies be_value(s.first()) < be_value(rt[j]) by {
            assert(rt.to_set().contains(rt[j]));
            if rt[j] == x {
            } else {
                assert(tail.to_set().contains(rt[j]));
                let i = choose|i: int| 0 <= i < tail.len() && tail[i] == rt[j];
                assert(tail[i] == s[i + 1]);
                assert(be_value(s.first()) < be_value(s[i + 1]));
            }
        }
        assert forall|i: int, j: int| 0 <= i < j < r.len() implies be_value(r[i]) < be_value(
            r[j],
        ) by {
            if i > 0 {
                assert(r[i] == rt[i - 1] && r[j] == rt[j - 1]);
            } else {
                assert(r[j] == rt[j - 1]);
            }
        }
        assert forall|i: int| 0 <= i < r.len() implies r[i].len() == 16 by {
            if i > 0 {
                assert(r[i] == rt[i - 1]);
            }
        }
        assert(r.to_set() =~= s.to_set().insert(x)) by {
            assert(rt.to_set() == tail.to_set().insert(x));
            assert forall|e: Seq<u8>| r.to_set().contains(e) implies s.to_set().insert(x).contains(
                e,
            ) by {
                let i = choose|i: int| 0 <= i < r.len() && r[i] == e;
                if i == 0 {
                    assert(s[0] == e);
                } else {
                    assert(rt[i - 1] == e);
                    assert(rt.to_set().contains(e));
                    if e != x {
                        assert(tail.to_set().contains(e));
                        let k = choose|k: int| 0 <= k < tail.len() && tail[k] == e;
                        assert(s[k + 1] == e);
                    }
                }
            }
            assert forall|e: Seq<u8>| s.to_set().insert(x).contains(e) implies r.to_set().contains(
                e,
            ) by {
                if e == x {
                    assert(rt.to_set().contains(e));
                    let k = choose|k: int| 0 <= k < rt.len() && rt[k] == e;
                    assert(r[k + 1] == e);
                } else {
                    let i = choose|i: int| 0 <= i < s.len() && s[i] == e;
                    if i == 0 {
                        assert(r[0] == e);
                    } else {
                        assert(tail[i - 1] == e);
                        assert(rt.to_set().contains(e));
                        let k = choose|k: int| 0 <= k < rt.len() && rt[k] == e;
                        assert(r[k + 1] == e);
                    }
                }
            }
        }
    }
}

proof fn lemma_canonical_deps_props(s: Seq<Seq<u8>>)
    requires
        all_len_16(s),
    ensures
        strictly_sorted(canonical_deps(s)),
        all_len_16(canonical_deps(s)),
        canonical_deps(s).to_set() == s.to_set(),
        canonical_deps(s).len() <= s.len(),
    decreases s.len(),
{
    if s.len() == 0 {
        assert(canonical_deps(s).to_set() =~= s.to_set());
    } else {
        let front = s.drop_last();
        assert(all_len_16(front)) by {
            assert(forall|i: int| 0 <= i < front.len() ==> front[i] == s[i]);
        }
        lemma_canonical_deps_props(front);
        lemma_insert_dep_props(canonical_deps(front), s.last());
        assert(s =~= front.push(s.last()));
        assert(front.push(s.last()).to_set() =~= front.to_set().insert(s.last()));
        assert(canonical_deps(s).to_set() =~= s.to_set());
    }
}

/// Two lists sorted in strictly increasing value order with the same
/// elements are the same list.
proof fn lemma_sorted_unique_equal(s1: Seq<Seq<u8>>, s2: Seq<Seq<u8>>)
    requires
        strictly_sorted(s1),
        strictly_sorted(s2),
        s1.to_set() == s2.to_set(),
    ensures
        s1 == s2,
    decreases s1.len(),
{
    if s1.len() == 0 {
        if s2.len() > 0 {
            assert(s2.to_set().contains(s2[0]));
        }
        assert(s1 =~= s2);
    } else {
        assert(s1.to_set().contains(s1.last()));
        if s2.len() == 0 {
            assert(s2.to_set() =~= Set::<Seq<u8>>::empty());
        }
        // the last element of each list carries the greatest value, so they agree
        assert(s2.to_set().contains(s1.last()));
        let i = choose|i: int| 0 <= i < s2.len() && s2[i] == s1.last();
        assert(s1.to_set().contains(s2.last()));
        let j = choose|j: int| 0 <= j < s1.len() && s1[j] == s2.last();
        assert(be_value(s2[i]) <= be_value(s2.last())) by {
            if i < s2.len() - 1 {
                assert(be_value(s2[i]) < be_value(s2[s2.len() - 1]));
            }
        }
        assert(be_value(s1[j]) <= be_value(s1.last())) by {
            if j < s1.len() - 1 {
                assert(be_value(s1[j]) < be_value(s1[s1.len() - 1]));
            }
        }
        assert(be_value(s1.last()) == be_value(s2.last()));
        assert(i == s2.len() - 1) by {
            if i < s2.len() - 1 {
                assert(be_value(s2[i]) < be_value(s2[s2.len() - 1]));
            }
        }
        assert(s1.last() == s2.last());
        let t1 = s1.drop_last();
        let t2 = s2.drop_last();
        assert forall|i0: int, j0: int| 0 <= i0 < j0 < t1.len() implies be_value(t1[i0]) < be_value(
            t1[j0],
        ) by {
            assert(t1[i0] == s1[i0] && t1[j0] == s1[j0]);
        }
        assert forall|i0: int, j0: int| 0 <= i0 < j0 < t2.len() implies be_value(t2[i0]) < be_value(
            t2[j0],
        ) by {
            assert(t2[i0] == s2[i0] && t2[j0] == s2[j0]);
        }
        assert(t1.to_set() =~= t2.to_set()) by {
            assert forall|e: Seq<u8>| t1.to_set().contains(e) implies t2.to_set().contains(e) by {
                let k = choose|k: int| 0 <= k < t1.len() && t1[k] == e;
                assert(s1[k] == e);
                assert(be_value(e) < be_value(s1.last()));
                assert(s2.to_set().contains(e));
                let m = choose|m: int| 0 <= m < s2.len() && s2[m] == e;
                assert(m < s2.len() - 1);
                assert(t2[m] == e);
            }
            assert forall|e: Seq<u8>| t2.to_set().contains(e) implies t1.to_set().contains(e) by {
                let k = choose|k: int| 0 <= k < t2.len() && t2[k] == e;
                assert(s2[k] == e);
                assert(be_value(e) < be_value(s2.last()));
                assert(s1.to_set().contains(e));
                let m = choose|m: int| 0 <= m < s1.len() && s1[m] == e;
                assert(m < s1.len() - 1);
                assert(t1[m] == e);
            }
        }
        lemma_sorted_unique_equal(t1, t2);
        assert(s1.len() == s2.len());
        assert forall|m: int| 0 <= m < s1.len() implies s1[m] == s2[m] by {
            if m < s1.len() - 1 {
                assert(s1[m] == t1[m] && s2[m] == t2[m]);
            }
        }
        assert(s1 =~= s2);
    }
}

/// The views of a list of identities.
pub open spec fn uuid_views(s: Seq<AssetUuid>) -> Seq<Seq<u8>> {
    s.map_values(|u: AssetUuid| u@)
}

/// The concatenation of the identities of a dependency list.
pub open spec fn dep_bytes(deps: Seq<Seq<u8>>) -> Seq<u8>
    decreases deps.len(),
{
    if deps.len() == 0 {
        Seq::empty()
    } else {
        dep_bytes(deps.drop_last()) + deps.last()
    }
}

/// The byte string hashed to derive an artifact id: the importer hash,
/// the asset identity, and the canonical dependency list.
pub open spec fn artifact_hash_input(id: Seq<u8>, import_hash: u64, deps: Seq<Seq<u8>>) -> Seq<
    u8,
> {
    u64_le_bytes(import_hash) + id + dep_bytes(canonical_deps(deps))
}

/// The artifact id derived from an asset identity, its importer hash,
/// and its build-dependency identities.
pub open spec fn artifact_hash(id: Seq<u8>, import_hash: u64, deps: Seq<Seq<u8>>) -> u64 {
    fnv1a(artifact_hash_input(id, import_hash, deps))
}

/// The artifact id does not depend on the order or multiplicity of the
/// dependency list: lists with the same set of identities hash alike.
pub proof fn lemma_artifact_hash_deterministic(
    id: Seq<u8>,
    import_hash: u64,
    deps1: Seq<Seq<u8>>,
    deps2: Seq<Seq<u8>>,
)
    requires
        all_len_16(deps1),
        all_len_16(deps2),
        deps1.to_set() == deps2.to_set(),
    ensures
        artifact_hash(id, import_hash, deps1) == artifact_hash(id, import_hash, deps2),
{
    lemma_canonical_deps_props(deps1);
    lemma_canonical_deps_props(deps2);
    lemma_sorted_unique_equal(canonical_deps(deps1), canonical_deps(deps2));
}

/// The canonical form of a dependency list: sorted by identity value
/// with duplicates dropped.
fn canonical_dep_list(dep_list: &Vec<AssetUuid>) -> (r: Vec<AssetUuid>)
    ensures
        uuid_views(r@) == canonical_deps(uuid_views(dep_list@)),
{
    let mut acc: Vec<AssetUuid> = Vec::new();
    let mut i: usize = 0;
    while i < dep_list.len()
        invariant
            i <= dep_list@.len(),
            uuid_views(acc@) == canonical_deps(uuid_views(dep_list@.subrange(0, i as int))),
        decreases dep_list@.len() - i,
    {
        let x = dep_list[i];
        let ghost pre = uuid_views(acc@);
        let (j, dup) = find_insert_pos(&acc, &x);
        proof {
            lemma_insert_at_position(uuid_views(acc@), x@, j as int, dup);
        }
        if !dup {
            acc.insert(j, x);
            assert(uuid_views(acc@) =~= pre.insert(j as int, x@));
        }
        assert(uuid_views(acc@) =~= insert_dep(pre, x@));
        assert(uuid_views(dep_list@.subrange(0, i + 1)).drop_last() =~= uuid_views(
            dep_list@.subrange(0, i as int),
        ));
        assert(uuid_views(dep_list@.subrange(0, i + 1)).last() == x@);
        i = i + 1;
    }
    assert(dep_list@.subrange(0, dep_list@.len() as int) =~= dep_list@);
    acc
}

/// Finds where an identity belongs in a list sorted strictly by value:
/// the first position whose element is not below it, and whether that
/// element carries the same value.
fn find_insert_pos(acc: &Vec<AssetUuid>, x: &AssetUuid) -> (r: (usize, bool))
    ensures
        r.0 <= acc@.len(),
        forall|k: int| 0 <= k < r.0 ==> be_value(uuid_views(acc@)[k]) < be_value(x@),
        r.1 ==> r.0 < acc@.len() && be_value(uuid_views(acc@)[r.0 as int]) == be_value(x@),
        !r.1 ==> (r.0 < acc@.len() ==> be_value(uuid_views(acc@)[r.0 as int]) > be_value(x@)),
{
    let xv = uuid_be_value(x);
    let mut j: usize = 0;
    while j < acc.len()
        invariant
            j <= acc@.len(),
            xv as int == be_value(x@),
            forall|k: int| 0 <= k < j ==> be_value(uuid_views(acc@)[k]) < be_value(x@),
        decreases acc@.len() - j,
    {
        let cv = uuid_be_value(&acc[j]);
        if cv < xv {
            j = j + 1;
        } else if cv == xv {
            return (j, true);
        } else {
            return (j, false);
        }
    }
    (j, false)
}

/// Relates a scanned insertion position to the recursive insertion.
proof fn lemma_insert_at_position(s: Seq<Seq<u8>>, x: Seq<u8>, j: int, dup: bool)
    requires
        0 <= j <= s.len(),
        forall|k: int| 0 <= k < j ==> be_value(s[k]) < be_value(x),
        dup ==> j < s.len() && be_value(s[j]) == be_value(x),
        !dup ==> j < s.len() ==> be_value(s[j]) > be_value(x),
    ensures
        dup ==> insert_dep(s, x) == s,
        !dup ==> insert_dep(s, x) == s.insert(j, x),
    decreases s.len(),
{
    if s.len() == 0 {
        assert(insert_dep(s, x) =~= s.insert(0, x));
    } else if be_value(x) < be_value(s.first()) {
        assert(j == 0 && !dup);
        assert(insert_dep(s, x) =~= s.insert(0, x));
    } else if be_value(x) == be_value(s.first()) {
        assert(j == 0 || j == 1);
        assert(dup) by {
            if !dup {
                if j == 0 {
                    assert(be_value(s[0]) > be_value(x));
                } else {
                    assert(be_value(s[0]) < be_value(x));
                }
            }
        }
    } else {
        assert(j >= 1) by {
            if j == 0 {
                if dup {
                    assert(be_value(s[0]) == be_value(x));
                } else {
                    assert(be_value(s[0]) > be_value(x));
                }
            }
        }
        let tail = s.drop_first();
        assert(forall|k: int| 0 <= k < tail.len() ==> tail[k] == s[k + 1]);
        lemma_insert_at_position(tail, x, j - 1, dup);
        if dup {
            assert(insert_dep(s, x) =~= s);
        } else {
            assert(insert_dep(s, x) =~= seq![s.first()] + tail.insert(j - 1, x));
            assert(seq![s.first()] + tail.insert(j - 1, x) =~= s.insert(j, x));
        }
    }
}

/// Derives the artifact id of an asset from the importer's hash for its
/// source and the asset's build dependencies.  The dependency list is
/// sorted and de-duplicated first, so the id is a pure function of the
/// inputs, insensitive to dependency order and multiplicity.
pub fn calc_import_artifact_hash(id: &AssetUuid, import_hash: u64, dep_list: &Vec<AssetUuid>) -> (h:
    u64)
    ensures
        h == artifact_hash(id@, import_hash, uuid_views(dep_list@)),
{
    let canon = canonical_dep_list(dep_list);
    let mut buf: Vec<u8> = Vec::new();
    push_u64_le(&mut buf, import_hash);
    let mut i: usize = 0;
    while i < 16
        invariant
            i <= 16,
            buf@ == u64_le_bytes(import_hash) + id@.subrange(0, i as int),
        decreases 16 - i,
    {
        buf.push(id.0[i]);
        assert(buf@ =~= u64_le_bytes(import_hash) + id@.subrange(0, i + 1));
        i = i + 1;
    }
    assert(id@.subrange(0, 16) =~= id@);
    let ghost cviews = uuid_views(canon@);
    let mut k: usize = 0;
    while k < canon.len()
        invariant
            k <= canon@.len(),
            cviews == uuid_views(canon@),
            buf@ == u64_le_bytes(import_hash) + id@ + dep_bytes(cviews.subrange(0, k as int)),
        decreases canon@.len() - k,
    {
        let ghost pre = buf@;
        let mut m: usize = 0;
        while m < 16
            invariant
                m <= 16,
                k < canon@.len(),
                cviews == uuid_views(canon@),
                buf@ == pre + canon@[k as int]@.subrange(0, m as int),
            decreases 16 - m,
        {
            buf.push(canon[k].0[m]);
            assert(buf@ =~= pre + canon@[k as int]@.subrange(0, m + 1));
            m = m + 1;
        }
        proof {
            assert(canon@[k as int]@.subrange(0, 16) =~= cviews[k as int]);
            assert(cviews.subrange(0, k + 1).drop_last() =~= cviews.subrange(0, k as int));
            assert(cviews.subrange(0, k + 1).last() == cviews[k as int]);
            assert(buf@ =~= u64_le_bytes(import_hash) + id@ + dep_bytes(
                cviews.subrange(0, k + 1),
            ));
        }
        k = k + 1;
    }
    assert(cviews.subrange(0, canon@.len() as int) =~= cviews);
    assert(buf@ == artifact_hash_input(id@, import_hash, uuid_views(dep_list@)));
    fnv1a_hash(&buf)
}


/// The byte string hashed to fingerprint one import: the source hash,
/// the importer's version, and the serialized importer options and
/// state.
pub open spec fn import_hash_input(
    source_hash: u64,
    importer_version: u32,
    options: Seq<u8>,
    state: Seq<u8>,
) -> Seq<u8> {
    u64_le_bytes(source_hash) + u64_le_bytes(importer_version as u64) + options + state
}

/// The import fingerprint: equal sources, importer versions, options
/// and state give equal fingerprints, so unchanged imports are skipped.
pub open spec fn import_hash(
    source_hash: u64,
    importer_version: u32,
    options: Seq<u8>,
    state: Seq<u8>,
) -> u64 {
    fnv1a(import_hash_input(source_hash, importer_version, options, state))
}

/// Derives the import fingerprint of a source from its content hash,
/// the importer's version, and the serialized options and state.
pub fn calc_import_hash(
    source_hash: u64,
    importer_version: u32,
    options: &Vec<u8>,
    state: &Vec<u8>,
) -> (h: u64)
    ensures
        h == import_hash(source_hash, importer_version, options@, state@),
{
    let mut buf: Vec<u8> = Vec::new();
    push_u64_le(&mut buf, source_hash);
    push_u64_le(&mut buf, importer_version as u64);
    let ghost head = buf@;
    let mut i: usize = 0;
    while i < options.len()
        invariant
            i <= options@.len(),
            buf@ == head + options@.subrange(0, i as int),
        decreases options@.len() - i,
    {
        buf.push(options[i]);
        assert(buf@ =~= head + options@.subrange(0, i + 1));
        i = i + 1;
    }
    proof {
        assert(options@.subrange(0, options@.len() as int) =~= options@);
    }
    let ghost head2 = buf@;
    let mut j: usize = 0;
    while j < state.len()
        invariant
            j <= state@.len(),
            head2 == head + options@,
            buf@ == head2 + state@.subrange(0, j as int),
        decreases state@.len() - j,
    {
        buf.push(state[j]);
        assert(buf@ =~= head2 + state@.subrange(0, j + 1));
        j = j + 1;
    }
    proof {
        assert(state@.subrange(0, state@.len() as int) =~= state@);
        assert(buf@ =~= import_hash_input(source_hash, importer_version, options@, state@));
    }
    fnv1a_hash(&buf)
}

} // verus!
