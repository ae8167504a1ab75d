//! Stable 16-byte identities for assets and asset types, together with
//! their canonical textual (hyphenated hex) and binary encodings.
use vstd::prelude::*;

verus! {

/// 16-byte stable identity of a logical asset, assigned once by an importer.
#[derive(Clone, Copy, Debug, Eq, Hash)]
pub struct AssetUuid(pub [u8; 16]);

/// 16-byte identity of a concrete asset type (schema).
#[derive(Clone, Copy, Debug, Eq, Hash)]
pub struct AssetTypeId(pub [u8; 16]);

fn array16_eq(a: &[u8; 16], b: &[u8; 16]) -> (r: bool)
    ensures
        r == (a@ == b@),
{
    let mut i: usize = 0;
    while i < 16
        invariant
            i <= 16,
            forall|j: int| 0 <= j < i ==> a@[j] == b@[j],
        decreases 16 - i,
    {
        if a[i] != b[i] {
            return false;
        }
        i = i + 1;
    }
    assert(a@ =~= b@);
    true
}

impl PartialEq for AssetUuid {
    fn eq(&self, other: &AssetUuid) -> (r: bool) {
        array16_eq(&self.0, &other.0)
    }
}

impl vstd::std_specs::cmp::PartialEqSpecImpl for AssetUuid {
    open spec fn obeys_eq_spec() -> bool {
        true
    }

    open spec fn eq_spec(&self, other: &AssetUuid) -> bool {
        self.0@ == other.0@
    }
}

impl PartialEq for AssetTypeId {
    fn eq(&self, other: &AssetTypeId) -> (r: bool) {
        array16_eq(&self.0, &other.0)
    }
}

impl vstd::std_specs::cmp::PartialEqSpecImpl for AssetTypeId {
    open spec fn obeys_eq_spec() -> bool {
        true
    }

    open spec fn eq_spec(&self, other: &AssetTypeId) -> bool {
        self.0@ == other.0@
    }
}

impl View for AssetUuid {
    type V = Seq<u8>;

    open spec fn view(&self) -> Seq<u8> {
        self.0@
    }
}

impl View for AssetTypeId {
    type V = Seq<u8>;

    open spec fn view(&self) -> Seq<u8> {
        self.0@
    }
}

/// ASCII hyphen, the separator of the canonical text form.
pub const DASH: u8 = 0x2d;

/// ASCII double quote, used by the JSON form of an identity.
pub const QUOTE: u8 = 0x22;

/// The ASCII character for a single hex digit value (lower case).
pub open spec fn hex_digit_char(v: u8) -> u8
    recommends
        v < 16,
{
    if v < 10 {
        (0x30 + v) as u8
    } else {
        (0x57 + v) as u8
    }
}

/// Whether an ASCII character is a lower-case hex digit.
pub open spec fn is_hex_digit(c: u8) -> bool {
    (0x30 <= c <= 0x39) || (0x61 <= c <= 0x66)
}

/// The value of a lower-case ASCII hex digit.
pub open spec fn hex_value(c: u8) -> u8
    recommends
        is_hex_digit(c),
{
    if c <= 0x39 {
        (c - 0x30) as u8
    } else {
        (c - 0x57) as u8
    }
}

/// Positions of the separators in the canonical 8-4-4-4-12 text form.
pub open spec fn is_dash_pos(i: int) -> bool {
    i == 8 || i == 13 || i == 18 || i == 23
}

/// How many separators precede position `i` of the text form.
pub open spec fn dashes_before(i: int) -> int {
    if i < 8 {
        0
    } else if i < 13 {
        1
    } else if i < 18 {
        2
    } else if i < 23 {
        3
    } else {
        4
    }
}

/// The character at position `i` of the canonical text form of `b`.
pub open spec fn text_char_at(b: Seq<u8>, i: int) -> u8
    recommends
        b.len() == 16,
        0 <= i < 36,
{
    if is_dash_pos(i) {
        DASH
    } else {
        let k = i - dashes_before(i);
        let v = if k % 2 == 0 {
            b[k / 2] / 16
        } else {
            b[k / 2] % 16
        };
        hex_digit_char(v as u8)
    }
}

/// The canonical 8-4-4-4-12 lower-case hex text form of 16 bytes.
pub open spec fn uuid_text_bytes(b: Seq<u8>) -> Seq<u8>
    recommends
        b.len() == 16,
{
    Seq::new(36, |i: int| text_char_at(b, i))
}

/// Whether `s` is a canonical text form: 36 characters, lower-case hex
/// digits everywhere except separators at positions 8, 13, 18 and 23.
pub open spec fn is_canonical_text(s: Seq<u8>) -> bool {
    &&& s.len() == 36
    &&& forall|i: int|
        0 <= i < 36 ==> (if is_dash_pos(i) {
            s[i] == DASH
        } else {
            is_hex_digit(s[i])
        })
}

/// The first text position of byte `j` in the canonical form.
pub open spec fn text_pos(j: int) -> int {
    2 * j + (if j < 4 {
        0int
    } else if j < 6 {
        1int
    } else if j < 8 {
        2int
    } else if j < 10 {
        3int
    } else {
        4int
    })
}

/// The 16 bytes denoted by a canonical text form.
pub open spec fn decoded_bytes(s: Seq<u8>) -> Seq<u8>
    recommends
        is_canonical_text(s),
{
    Seq::new(16, |j: int| (hex_value(s[text_pos(j)]) * 16 + hex_value(s[text_pos(j) + 1])) as u8)
}

fn hex_char(v: u8) -> (c: u8)
    requires
        v < 16,
    ensures
        c == hex_digit_char(v),
{
    if v < 10 {
        0x30 + v
    } else {
        0x57 + v
    }
}

fn hex_val(c: u8) -> (r: Option<u8>)
    ensures
        r is Some <==> is_hex_digit(c),
        r is Some ==> r->0 == hex_value(c),
{
    if 0x30 <= c && c <= 0x39 {
        Some(c - 0x30)
    } else if 0x61 <= c && c <= 0x66 {
        Some(c - 0x57)
    } else {
        None
    }
}

impl AssetUuid {
    /// The canonical text form of this identity, as ASCII bytes.
    pub fn encode_text(&self) -> (r: Vec<u8>)
        ensures
            r@ == uuid_text_bytes(self@),
    {
        let mut out: Vec<u8> = Vec::new();
        let mut i: usize = 0;
        while i < 36
            invariant
                i <= 36,
                out@.len() == i,
                forall|m: int| 0 <= m < i ==> out@[m] == text_char_at(self@, m),
            decreases 36 - i,
        {
            if i == 8 || i == 13 || i == 18 || i == 23 {
                out.push(DASH);
            } else {
                let off: usize = if i < 8 {
                    0
                } else if i < 13 {
                    1
                } else if i < 18 {
                    2
                } else if i < 23 {
                    3
                } else {
                    4
                };
                let k = i - off;
                let b = self.0[k / 2];
                let v = if k % 2 == 0 {
                    b / 16
                } else {
                    b % 16
                };
                out.push(hex_char(v));
            }
            i = i + 1;
        }
        assert(out@ =~= uuid_text_bytes(self@));
        out
    }

    /// Parses a canonical text form; any other input is rejected.
    pub fn decode_text(s: &[u8]) -> (r: Option<AssetUuid>)
        ensures
            r is Some <==> is_canonical_text(s@),
            r is Some ==> r->0@ == decoded_bytes(s@),
    {
        if s.len() != 36 {
            return None;
        }
        let mut i: usize = 0;
        while i < 36
            invariant
                i <= 36,
                s@.len() == 36,
                forall|m: int|
                    0 <= m < i ==> (if is_dash_pos(m) {
                        s@[m] == DASH
                    } else {
                        is_hex_digit(s@[m])
                    }),
            decreases 36 - i,
        {
            let c = s[i];
            if i == 8 || i == 13 || i == 18 || i == 23 {
                if c != DASH {
                    return None;
                }
            } else {
                if hex_val(c).is_none() {
                    return None;
                }
            }
            i = i + 1;
        }
        let mut bytes: [u8; 16] = [0; 16];
        let mut j: usize = 0;
        while j < 16
            invariant
                j <= 16,
                s@.len() == 36,
                is_canonical_text(s@),
                forall|m: int| 0 <= m < j ==> bytes@[m] == decoded_bytes(s@)[m],
            decreases 16 - j,
        {
            let off: usize = if j < 4 {
                0
            } else if j < 6 {
                1
            } else if j < 8 {
                2
            } else if j < 10 {
                3
            } else {
                4
            };
            let pos = 2 * j + off;
            assert(pos == text_pos(j as int));
            assert(!is_dash_pos(pos as int) && !is_dash_pos(pos as int + 1));
            let hi = match hex_val(s[pos]) {
                Some(v) => v,
                None => {
                    return None;
                },
            };
            let lo = match hex_val(s[pos + 1]) {
                Some(v) => v,
                None => {
                    return None;
                },
            };
            bytes[j] = hi * 16 + lo;
            j = j + 1;
        }
        assert(bytes@ =~= decoded_bytes(s@));
        Some(AssetUuid(bytes))
    }

    /// The raw 16 bytes, the canonical binary form.
    pub fn encode_binary(&self) -> (r: Vec<u8>)
        ensures
            r@ == self@,
    {
        let mut out: Vec<u8> = Vec::new();
        let mut i: usize = 0;
        while i < 16
            invariant
                i <= 16,
                out@.len() == i,
                forall|m: int| 0 <= m < i ==> out@[m] == self@[m],
            decreases 16 - i,
        {
            out.push(self.0[i]);
            i = i + 1;
        }
        assert(out@ =~= self@);
        out
    }

    /// Parses the binary form: exactly 16 raw bytes.
    pub fn decode_binary(s: &[u8]) -> (r: Option<AssetUuid>)
        ensures
            r is Some <==> s@.len() == 16,
            r is Some ==> r->0@ == s@,
    {
        uuid_from_slice(s)
    }
}

/// Reads an asset identity from a slice; rejects any length other than 16.
pub fn uuid_from_slice(slice: &[u8]) -> (r: Option<AssetUuid>)
    ensures
        r is Some <==> slice@.len() == 16,
        r is Some ==> r->0@ == slice@,
{
    if slice.len() != 16 {
        return None;
    }
    let bytes = crate::utils::make_array(slice);
    Some(AssetUuid(bytes))
}

/// Reads an asset type identity from a slice; rejects any length other than 16.
pub fn type_from_slice(slice: &[u8]) -> (r: Option<AssetTypeId>)
    ensures
        r is Some <==> slice@.len() == 16,
        r is Some ==> r->0@ == slice@,
{
    match uuid_from_slice(slice) {
        Some(u) => Some(AssetTypeId(u.0)),
        None => None,
    }
}

/// Round trip of the text form: encoding any identity yields a canonical
/// text, and decoding that text yields the identity back.
pub proof fn lemma_text_round_trip(b: Seq<u8>)
    requires
        b.len() == 16,
    ensures
        is_canonical_text(uuid_text_bytes(b)),
        decoded_bytes(uuid_text_bytes(b)) == b,
{
    let t = uuid_text_bytes(b);
    assert forall|i: int| 0 <= i < 36 implies (if is_dash_pos(i) {
        t[i] == DASH
    } else {
        is_hex_digit(t[i])
    }) by {
        if !is_dash_pos(i) {
            let k = i - dashes_before(i);
            assert(0 <= k < 32);
        }
    }
    assert forall|j: int| 0 <= j < 16 implies decoded_bytes(t)[j] == b[j] by {
        let pos = text_pos(j);
        assert(!is_dash_pos(pos) && !is_dash_pos(pos + 1));
        assert(pos - dashes_before(pos) == 2 * j);
        assert(pos + 1 - dashes_before(pos + 1) == 2 * j + 1);
        assert(hex_value(hex_digit_char((b[j] / 16) as u8)) == b[j] / 16);
        assert(hex_value(hex_digit_char((b[j] % 16) as u8)) == b[j] % 16);
    }
    assert(decoded_bytes(t) =~= b);
}


/// ASCII bytes read as characters, one per byte.
pub open spec fn ascii_chars(s: Seq<u8>) -> Seq<char> {
    s.map_values(|b: u8| b as char)
}

/// Relies on String::from_utf8: bytes below 0x80 are valid UTF-8 and
/// decode to one character per byte.
#[verifier::external_body]
fn ascii_to_string(bytes: Vec<u8>) -> (r: String)
    requires
        forall|i: int| 0 <= i < bytes@.len() ==> bytes@[i] < 0x80,
    ensures
        r@ == ascii_chars(bytes@),
{
    String::from_utf8(bytes).expect("ascii bytes are valid utf8")
}

/// The canonical text form wrapped in double quotes, as used in JSON.
pub open spec fn uuid_json_bytes(b: Seq<u8>) -> Seq<u8>
    recommends
        b.len() == 16,
{
    seq![QUOTE] + uuid_text_bytes(b) + seq![QUOTE]
}

/// The text form of 16 identity bytes, as a string.
fn text_string_of(bytes: &[u8; 16]) -> (r: String)
    ensures
        r@ == ascii_chars(uuid_text_bytes(bytes@)),
{
    let u = AssetUuid(*bytes);
    let t = u.encode_text();
    proof {
        assert forall|i: int| 0 <= i < t@.len() implies t@[i] < 0x80 by {
            assert(t@[i] == text_char_at(bytes@, i));
            if !is_dash_pos(i) {
                let k = i - dashes_before(i);
                assert(0 <= k < 32);
            }
        }
    }
    ascii_to_string(t)
}

/// The quoted JSON form of 16 identity bytes, as a string.
fn json_string_of(bytes: &[u8; 16]) -> (r: String)
    ensures
        r@ == ascii_chars(uuid_json_bytes(bytes@)),
{
    let u = AssetUuid(*bytes);
    let t = u.encode_text();
    let mut buf: Vec<u8> = Vec::new();
    buf.push(QUOTE);
    let mut i: usize = 0;
    while i < t.len()
        invariant
            i <= t@.len(),
            buf@ == seq![QUOTE] + t@.subrange(0, i as int),
        decreases t@.len() - i,
    {
        buf.push(t[i]);
        assert(buf@ =~= seq![QUOTE] + t@.subrange(0, i + 1));
        i = i + 1;
    }
    buf.push(QUOTE);
    proof {
        assert(t@.subrange(0, t@.len() as int) =~= t@);
        assert(buf@ =~= uuid_json_bytes(bytes@));
        assert forall|j: int| 0 <= j < buf@.len() implies buf@[j] < 0x80 by {
            if 1 <= j < buf@.len() - 1 {
                assert(buf@[j] == uuid_text_bytes(bytes@)[j - 1]);
                assert(uuid_text_bytes(bytes@)[j - 1] == text_char_at(bytes@, j - 1));
                if !is_dash_pos(j - 1) {
                    let k = j - 1 - dashes_before(j - 1);
                    assert(0 <= k < 32);
                }
            }
        }
    }
    ascii_to_string(buf)
}

/// Strips the double quotes of a JSON string form and parses the
/// canonical text inside; any other shape is rejected.
fn parse_json_slice(s: &[u8]) -> (r: Option<[u8; 16]>)
    ensures
        r is Some <==> (s@.len() == 38 && s@[0] == QUOTE && s@[37] == QUOTE && is_canonical_text(
            s@.subrange(1, 37),
        )),
        r is Some ==> r->0@ == decoded_bytes(s@.subrange(1, 37)),
{
    if s.len() != 38 {
        return None;
    }
    if s[0] != QUOTE || s[37] != QUOTE {
        return None;
    }
    let mut inner: Vec<u8> = Vec::new();
    let mut i: usize = 1;
    while i < 37
        invariant
            1 <= i <= 37,
            s@.len() == 38,
            inner@ == s@.subrange(1, i as int),
        decreases 37 - i,
    {
        inner.push(s[i]);
        assert(inner@ =~= s@.subrange(1, i + 1));
        i = i + 1;
    }
    match AssetUuid::decode_text(inner.as_slice()) {
        Some(u) => Some(u.0),
        None => None,
    }
}

impl AssetUuid {
    /// The canonical hyphenated text form, as a string.
    pub fn to_text_string(&self) -> (r: String)
        ensures
            r@ == ascii_chars(uuid_text_bytes(self@)),
    {
        text_string_of(&self.0)
    }

    /// The quoted text form used in JSON documents.
    pub fn to_json_string(&self) -> (r: String)
        ensures
            r@ == ascii_chars(uuid_json_bytes(self@)),
    {
        json_string_of(&self.0)
    }

    /// Parses the quoted JSON string form.
    pub fn from_json_slice(s: &[u8]) -> (r: Option<AssetUuid>)
        ensures
            r is Some <==> (s@.len() == 38 && s@[0] == QUOTE && s@[37] == QUOTE
                && is_canonical_text(s@.subrange(1, 37))),
            r is Some ==> r->0@ == decoded_bytes(s@.subrange(1, 37)),
    {
        match parse_json_slice(s) {
            Some(b) => Some(AssetUuid(b)),
            None => None,
        }
    }
}

impl AssetTypeId {
    /// The canonical hyphenated text form, as a string.
    pub fn to_text_string(&self) -> (r: String)
        ensures
            r@ == ascii_chars(uuid_text_bytes(self@)),
    {
        text_string_of(&self.0)
    }

    /// The quoted text form used in JSON documents.
    pub fn to_json_string(&self) -> (r: String)
        ensures
            r@ == ascii_chars(uuid_json_bytes(self@)),
    {
        json_string_of(&self.0)
    }

    /// Parses the quoted JSON string form.
    pub fn from_json_slice(s: &[u8]) -> (r: Option<AssetTypeId>)
        ensures
            r is Some <==> (s@.len() == 38 && s@[0] == QUOTE && s@[37] == QUOTE
                && is_canonical_text(s@.subrange(1, 37))),
            r is Some ==> r->0@ == decoded_bytes(s@.subrange(1, 37)),
    {
        match parse_json_slice(s) {
            Some(b) => Some(AssetTypeId(b)),
            None => None,
        }
    }

    /// The raw 16 bytes, the canonical binary form.
    pub fn encode_binary(&self) -> (r: Vec<u8>)
        ensures
            r@ == self@,
    {
        AssetUuid(self.0).encode_binary()
    }

    /// Parses the binary form: exactly 16 raw bytes.
    pub fn decode_binary(s: &[u8]) -> (r: Option<AssetTypeId>)
        ensures
            r is Some <==> s@.len() == 16,
            r is Some ==> r->0@ == s@,
    {
        type_from_slice(s)
    }
}

/// Round trip of the JSON string form: the quoted text of any identity
/// parses back to the identity.
pub proof fn lemma_json_round_trip(b: Seq<u8>)
    requires
        b.len() == 16,
    ensures
        uuid_json_bytes(b).len() == 38,
        uuid_json_bytes(b)[0] == QUOTE && uuid_json_bytes(b)[37] == QUOTE,
        is_canonical_text(uuid_json_bytes(b).subrange(1, 37)),
        decoded_bytes(uuid_json_bytes(b).subrange(1, 37)) == b,
{
    lemma_text_round_trip(b);
    assert(uuid_json_bytes(b).subrange(1, 37) =~= uuid_text_bytes(b));
}

} // verus!
