//! Small helpers on byte strings: fixed-size copies, path byte
//! manipulation, and prefix tests used by the tracker.
use vstd::prelude::*;

verus! {

/// Copies a 16-byte slice into a fixed-size array.
pub fn make_array(slice: &[u8]) -> (r: [u8; 16])
    requires
        slice@.len() == 16,
    ensures
        r@ == slice@,
{
    let mut a: [u8; 16] = [0; 16];
    let mut i: usize = 0;
    while i < 16
        invariant
            i <= 16,
            slice@.len() == 16,
            forall|j: int| 0 <= j < i ==> a@[j] == slice@[j],
        decreases 16 - i,
    {
        a[i] = slice[i];
        i = i + 1;
    }
    assert(a@ =~= slice@);
    a
}

/// The suffix that turns a source path into its metadata sidecar path.
pub open spec fn meta_suffix() -> Seq<u8> {
    seq![0x2eu8, 0x6du8, 0x65u8, 0x74u8, 0x61u8]
}

/// The sidecar path of a source path: the path with `.meta` appended.
pub fn to_meta_path(p: &Vec<u8>) -> (r: Vec<u8>)
    ensures
        r@ == p@ + meta_suffix(),
{
    let mut out = clone_bytes(p);
    out.push(0x2e);
    out.push(0x6d);
    out.push(0x65);
    out.push(0x74);
    out.push(0x61);
    assert(out@ =~= p@ + meta_suffix());
    out
}

/// A copy of a byte string.
pub fn clone_bytes(v: &Vec<u8>) -> (r: Vec<u8>)
    ensures
        r@ == v@,
{
    let mut out: Vec<u8> = Vec::new();
    let mut i: usize = 0;
    while i < v.len()
        invariant
            i <= v@.len(),
            out@ == v@.subrange(0, i as int),
        decreases v@.len() - i,
    {
        out.push(v[i]);
        assert(out@ =~= v@.subrange(0, i + 1));
        i = i + 1;
    }
    assert(out@ =~= v@);
    out
}

/// Whether `p` begins with `prefix`.
pub open spec fn is_prefix_of(prefix: Seq<u8>, p: Seq<u8>) -> bool {
    prefix.len() <= p.len() && p.subrange(0, prefix.len() as int) == prefix
}

/// Tests whether `p` begins with `prefix`.
pub fn starts_with(p: &Vec<u8>, prefix: &Vec<u8>) -> (r: bool)
    ensures
        r == is_prefix_of(prefix@, p@),
{
    if prefix.len() > p.len() {
        assert(!is_prefix_of(prefix@, p@));
        return false;
    }
    let mut i: usize = 0;
    while i < prefix.len()
        invariant
            i <= prefix@.len() <= p@.len(),
            forall|j: int| 0 <= j < i ==> p@[j] == prefix@[j],
        decreases prefix@.len() - i,
    {
        if p[i] != prefix[i] {
            assert(p@.subrange(0, prefix@.len() as int)[i as int] != prefix@[i as int]);
            return false;
        }
        i = i + 1;
    }
    assert(p@.subrange(0, prefix@.len() as int) =~= prefix@);
    true
}

/// Tests whether two byte strings are equal.
pub fn bytes_eq(a: &Vec<u8>, b: &Vec<u8>) -> (r: bool)
    ensures
        r == (a@ == b@),
{
    if a.len() != b.len() {
        return false;
    }
    let mut i: usize = 0;
    while i < a.len()
        invariant
            i <= a@.len(),
            a@.len() == b@.len(),
            forall|j: int| 0 <= j < i ==> a@[j] == b@[j],
        decreases a@.len() - i,
    {
        if a[i] != b[i] {
            return false;
        }
        i = i + 1;
    }
    assert(a@ =~= b@);
    true
}


/// The value of a byte string read as a little-endian unsigned integer.
pub open spec fn le_value(s: Seq<u8>) -> int
    decreases s.len(),
{
    if s.len() == 0 {
        0
    } else {
        s.first() + 256 * le_value(s.drop_first())
    }
}

/// A little-endian byte string of length `n` denotes a value below 256^n.
pub proof fn lemma_le_value_bounds(s: Seq<u8>)
    ensures
        0 <= le_value(s) < crate::hashing::pow256(s.len()),
    decreases s.len(),
{
    crate::hashing::lemma_pow256_positive(s.len());
    if s.len() > 0 {
        lemma_le_value_bounds(s.drop_first());
        assert(256 * le_value(s.drop_first()) <= 256 * (crate::hashing::pow256(
            (s.len() - 1) as nat,
        ) - 1)) by (nonlinear_arith)
            requires
                le_value(s.drop_first()) <= crate::hashing::pow256((s.len() - 1) as nat) - 1,
        ;
    }
}

/// Reads `n` bytes at `pos` as a little-endian unsigned integer.
pub fn read_le(bytes: &[u8], pos: usize, n: usize) -> (x: u64)
    requires
        pos + n <= bytes@.len(),
        n <= 8,
    ensures
        x as int == le_value(bytes@.subrange(pos as int, pos + n)),
{
    let total = bytes.len();
    let mut acc: u64 = 0;
    let mut j: usize = n;
    while j > 0
        invariant
            j <= n,
            n <= 8,
            pos + n <= total,
            total == bytes@.len(),
            acc as int == le_value(bytes@.subrange(pos + j, pos + n)),
            (acc as int) < crate::hashing::pow256((n - j) as nat),
        decreases j,
    {
        proof {
            crate::hashing::lemma_pow256_increases((n - j) as nat, 7);
            reveal_with_fuel(crate::hashing::pow256, 9);
            assert(crate::hashing::pow256(7) == 0x100000000000000);
            assert(acc * 256 <= (0x100000000000000 - 1) * 256) by (nonlinear_arith)
                requires
                    acc <= 0x100000000000000 - 1,
            ;
        }
        j = j - 1;
        let b = bytes[pos + j];
        let ghost acc0 = acc;
        acc = acc * 256 + (b as u64);
        proof {
            let sub = bytes@.subrange(pos + j, pos + n);
            assert(sub.first() == bytes@[pos + j]);
            assert(sub.drop_first() =~= bytes@.subrange(pos + j + 1, pos + n));
            let p1 = crate::hashing::pow256((n - j - 1) as nat);
            let p2 = crate::hashing::pow256((n - j) as nat);
            assert(p2 == 256 * p1) by {
                reveal_with_fuel(crate::hashing::pow256, 9);
            }
            assert(acc0 as int * 256 + b < p2) by (nonlinear_arith)
                requires
                    acc0 as int <= p1 - 1,
                    b < 256,
                    p2 == 256 * p1,
            ;
        }
    }
    proof {
        assert(bytes@.subrange(pos as int, pos + n) == bytes@.subrange(pos + 0, pos + n));
    }
    acc
}

/// Appends `n` little-endian bytes of `x`.
pub fn push_le(out: &mut Vec<u8>, x: u64, n: usize)
    requires
        n <= 8,
        (x as int) < crate::hashing::pow256(n as nat),
    ensures
        final(out)@.len() == old(out)@.len() + n,
        final(out)@.subrange(0, old(out)@.len() as int) == old(out)@,
        le_value(final(out)@.subrange(old(out)@.len() as int, final(out)@.len() as int)) == x as int,
{
    let ghost base = out@.len() as int;
    let mut v: u64 = x;
    let mut j: usize = 0;
    while j < n
        invariant
            j <= n,
            n <= 8,
            out@.len() == base + j,
            base >= 0,
            out@.subrange(0, base) == old(out)@,
            x as int == le_value(out@.subrange(base, base + j)) + v as int
                * crate::hashing::pow256(j as nat),
            (v as int) < crate::hashing::pow256((n - j) as nat),
        decreases n - j,
    {
        let ghost pre = out@;
        let ghost v0 = v;
        let b = (v % 256) as u8;
        out.push(b);
        v = v / 256;
        proof {
            assert(out@.subrange(0, base) =~= pre.subrange(0, base));
            let s1 = out@.subrange(base, base + j + 1);
            assert(s1.drop_last() =~= pre.subrange(base, base + j));
            assert(s1.last() == b);
            lemma_le_value_snoc(s1);
            // value accounting: peeling one byte off the remainder
            let pj = crate::hashing::pow256(j as nat);
            let pj1 = crate::hashing::pow256((j + 1) as nat);
            assert(pj1 == 256 * pj) by {
                lemma_pow256_unfold((j + 1) as nat);
            }
            crate::hashing::lemma_pow256_positive(j as nat);
            assert((v0 as int / 256) * pj1 + (v0 as int % 256) * pj == v0 as int * pj)
                by (nonlinear_arith)
                requires
                    pj1 == 256 * pj,
                    v0 as int == 256 * (v0 as int / 256) + v0 as int % 256,
            ;
            assert(le_value(s1) == le_value(pre.subrange(base, base + j)) + (b as int) * pj);
            let pnj = crate::hashing::pow256((n - j) as nat);
            let pnj1 = crate::hashing::pow256((n - j - 1) as nat);
            assert(pnj == 256 * pnj1) by {
                lemma_pow256_unfold((n - j) as nat);
            }
            assert(v0 as int / 256 < pnj1) by (nonlinear_arith)
                requires
                    (v0 as int) < pnj,
                    pnj == 256 * pnj1,
                    pnj1 >= 1,
            ;
        }
        j = j + 1;
    }
    proof {
        assert(crate::hashing::pow256(0) == 1) by {
            reveal_with_fuel(crate::hashing::pow256, 1);
        }
        assert(v == 0) by (nonlinear_arith)
            requires
                (v as int) < crate::hashing::pow256(0),
                crate::hashing::pow256(0) == 1,
        ;
    }
}

/// One byte appended at the end raises the value at its position.
proof fn lemma_le_value_snoc(s: Seq<u8>)
    requires
        s.len() > 0,
    ensures
        le_value(s) == le_value(s.drop_last()) + s.last() * crate::hashing::pow256(
            (s.len() - 1) as nat,
        ),
    decreases s.len(),
{
    lemma_pow256_unfold(s.len());
    if s.len() == 1 {
        assert(le_value(s.drop_first()) == 0) by {
            assert(s.drop_first().len() == 0);
        }
        assert(le_value(s.drop_last()) == 0) by {
            assert(s.drop_last().len() == 0);
        }
        assert(crate::hashing::pow256(0) == 1) by {
            reveal_with_fuel(crate::hashing::pow256, 1);
        }
    } else {
        lemma_le_value_snoc(s.drop_first());
        assert(s.drop_first().drop_last() =~= s.drop_last().drop_first());
        assert(s.drop_first().last() == s.last());
        assert(s.drop_last().first() == s.first());
        let p = crate::hashing::pow256((s.len() - 2) as nat);
        assert(crate::hashing::pow256((s.len() - 1) as nat) == 256 * p) by {
            lemma_pow256_unfold((s.len() - 1) as nat);
        }
        assert(256 * (le_value(s.drop_last().drop_first()) + s.last() * p) == 256 * le_value(
            s.drop_last().drop_first(),
        ) + s.last() * (256 * p)) by (nonlinear_arith);
    }
}

/// Unfolds one factor of the power.
proof fn lemma_pow256_unfold(n: nat)
    requires
        n >= 1,
    ensures
        crate::hashing::pow256(n) == 256 * crate::hashing::pow256((n - 1) as nat),
{
}


/// Strict byte-wise lexicographic order, the order of an on-disk
/// byte-keyed table: the first differing byte decides, and a proper
/// prefix comes first.
pub open spec fn lex_lt(a: Seq<u8>, b: Seq<u8>) -> bool
    decreases a.len(),
{
    if b.len() == 0 {
        false
    } else if a.len() == 0 {
        true
    } else if a.first() < b.first() {
        true
    } else if a.first() > b.first() {
        false
    } else {
        lex_lt(a.drop_first(), b.drop_first())
    }
}

/// The order is irreflexive, so ordered strings differ.
pub proof fn lemma_lex_lt_ne(a: Seq<u8>, b: Seq<u8>)
    requires
        lex_lt(a, b),
    ensures
        a != b,
    decreases a.len(),
{
    if a.len() > 0 && b.len() > 0 && a.first() == b.first() {
        lemma_lex_lt_ne(a.drop_first(), b.drop_first());
        if a == b {
            assert(a.drop_first() == b.drop_first());
        }
    }
}

/// Any two byte strings are ordered or equal.
pub proof fn lemma_lex_trichotomy(a: Seq<u8>, b: Seq<u8>)
    ensures
        lex_lt(a, b) || lex_lt(b, a) || a == b,
    decreases a.len(),
{
    if a.len() == 0 && b.len() == 0 {
        assert(a =~= b);
    } else if a.len() > 0 && b.len() > 0 && a.first() == b.first() {
        lemma_lex_trichotomy(a.drop_first(), b.drop_first());
        if a.drop_first() == b.drop_first() {
            assert(a =~= b) by {
                assert(a == seq![a.first()] + a.drop_first());
                assert(b == seq![b.first()] + b.drop_first());
            }
        }
    }
}

/// The order is transitive.
pub proof fn lemma_lex_trans(a: Seq<u8>, b: Seq<u8>, c: Seq<u8>)
    requires
        lex_lt(a, b),
        lex_lt(b, c),
    ensures
        lex_lt(a, c),
    decreases a.len(),
{
    if a.len() > 0 {
        // b reaches past its first byte, else nothing is below it
        assert(b.len() > 0);
        assert(c.len() > 0);
        if a.first() == b.first() && b.first() == c.first() {
            lemma_lex_trans(a.drop_first(), b.drop_first(), c.drop_first());
        }
    }
}

/// Equal prefixes do not decide the order.
proof fn lemma_lex_skip(a: Seq<u8>, b: Seq<u8>, i: int)
    requires
        0 <= i <= a.len(),
        i <= b.len(),
        forall|j: int| 0 <= j < i ==> a[j] == b[j],
    ensures
        lex_lt(a, b) == lex_lt(a.subrange(i, a.len() as int), b.subrange(i, b.len() as int)),
    decreases i,
{
    if i == 0 {
        assert(a.subrange(0, a.len() as int) =~= a);
        assert(b.subrange(0, b.len() as int) =~= b);
    } else {
        assert(a.first() == b.first());
        assert(a.len() > 0 && b.len() > 0);
        let a1 = a.drop_first();
        let b1 = b.drop_first();
        assert(forall|j: int| 0 <= j < i - 1 ==> a1[j] == b1[j]) by {
            assert(forall|j: int| 0 <= j < i - 1 ==> a1[j] == a[j + 1] && b1[j] == b[j + 1]);
        }
        lemma_lex_skip(a1, b1, i - 1);
        assert(a1.subrange(i - 1, a1.len() as int) =~= a.subrange(i, a.len() as int));
        assert(b1.subrange(i - 1, b1.len() as int) =~= b.subrange(i, b.len() as int));
    }
}

/// Tests whether `a` comes strictly before `b` in byte order.
pub fn bytes_lt(a: &Vec<u8>, b: &Vec<u8>) -> (r: bool)
    ensures
        r == lex_lt(a@, b@),
{
    let n = if a.len() < b.len() {
        a.len()
    } else {
        b.len()
    };
    let mut i: usize = 0;
    while i < n
        invariant
            i <= n,
            n == (if a@.len() < b@.len() {
                a@.len()
            } else {
                b@.len()
            }),
            forall|j: int| 0 <= j < i ==> a@[j] == b@[j],
        decreases n - i,
    {
        if a[i] != b[i] {
            proof {
                lemma_lex_skip(a@, b@, i as int);
                let ar = a@.subrange(i as int, a@.len() as int);
                let br = b@.subrange(i as int, b@.len() as int);
                assert(ar.first() == a@[i as int] && br.first() == b@[i as int]);
            }
            return a[i] < b[i];
        }
        i = i + 1;
    }
    proof {
        lemma_lex_skip(a@, b@, n as int);
        let ar = a@.subrange(n as int, a@.len() as int);
        let br = b@.subrange(n as int, b@.len() as int);
        if a@.len() < b@.len() {
            assert(ar.len() == 0 && br.len() > 0);
        } else {
            assert(br.len() == 0);
        }
    }
    a.len() < b.len()
}

} // verus!
