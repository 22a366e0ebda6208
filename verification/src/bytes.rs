//! Byte-level primitives shared by the catalog and the serializer: ASCII case
//! folding, the fixed-width upper-cased name field, little-endian 32-bit
//! encoding, and lexicographic order on byte strings.

use vstd::prelude::*;

verus! {

/// Width in bytes of the name field of one catalog record.
pub const NAME_WIDTH: usize = 64;

/// Upper-case image of one ASCII byte; other bytes are unchanged.
pub open spec fn spec_upper_byte(b: u8) -> u8 {
    if 0x61 <= b && b <= 0x7a {
        (b - 0x20) as u8
    } else {
        b
    }
}

/// Lower-case image of one ASCII byte; other bytes are unchanged.
pub open spec fn spec_lower_byte(b: u8) -> u8 {
    if 0x41 <= b && b <= 0x5a {
        (b + 0x20) as u8
    } else {
        b
    }
}

/// ASCII upper-case image of a byte string.
pub open spec fn spec_upper(s: Seq<u8>) -> Seq<u8> {
    s.map_values(|b: u8| spec_upper_byte(b))
}

/// The fixed-width name field: the upper-cased name, space-padded to
/// `NAME_WIDTH` bytes.
pub open spec fn spec_pad_name(s: Seq<u8>) -> Seq<u8> {
    spec_upper(s) + Seq::new((NAME_WIDTH - s.len()) as nat, |i: int| 0x20u8)
}

pub fn upper_byte(b: u8) -> (r: u8)
    ensures
        r == spec_upper_byte(b),
{
    if 0x61 <= b && b <= 0x7a {
        b - 0x20
    } else {
        b
    }
}

pub fn lower_byte(b: u8) -> (r: u8)
    ensures
        r == spec_lower_byte(b),
{
    if 0x41 <= b && b <= 0x5a {
        b + 0x20
    } else {
        b
    }
}

pub fn is_ascii_letter(b: u8) -> (r: bool)
    ensures
        r == (0x41 <= b && b <= 0x5a || 0x61 <= b && b <= 0x7a),
{
    0x41 <= b && b <= 0x5a || 0x61 <= b && b <= 0x7a
}

/// Builds the fixed-width name field for a catalog record.
pub fn pad_name(name: &Vec<u8>) -> (r: Vec<u8>)
    requires
        name@.len() <= NAME_WIDTH,
    ensures
        r@ == spec_pad_name(name@),
        r@.len() == NAME_WIDTH,
{
    let mut out: Vec<u8> = Vec::new();
    let mut i: usize = 0;
    while i < name.len()
        invariant
            i <= name@.len() <= NAME_WIDTH,
            out@ =~= spec_upper(name@).take(i as int),
        decreases name@.len() - i,
    {
        out.push(upper_byte(name[i]));
        i += 1;
        proof {
            assert(out@ =~= spec_upper(name@).take(i as int));
        }
    }
    assert(out@ =~= spec_upper(name@));
    while out.len() < NAME_WIDTH
        invariant
            spec_upper(name@).len() <= out@.len() <= NAME_WIDTH,
            out@ =~= spec_upper(name@) + Seq::new((out@.len() - name@.len()) as nat, |j: int| 0x20u8),
        decreases NAME_WIDTH - out@.len(),
    {
        out.push(0x20);
        proof {
            assert(out@ =~= spec_upper(name@) + Seq::new(
                (out@.len() - name@.len()) as nat,
                |j: int| 0x20u8,
            ));
        }
    }
    proof {
        assert(out@ =~= spec_pad_name(name@));
    }
    out
}

/// Case-insensitive equality of two byte strings, folding ASCII letters.
pub open spec fn spec_eq_ignore_case(a: Seq<u8>, b: Seq<u8>) -> bool {
    spec_upper(a) == spec_upper(b)
}

pub fn eq_ignore_case(a: &Vec<u8>, b: &Vec<u8>) -> (r: bool)
    ensures
        r == spec_eq_ignore_case(a@, b@),
{
    if a.len() != b.len() {
        assert(spec_upper(a@).len() != spec_upper(b@).len());
        return false;
    }
    let mut i: usize = 0;
    while i < a.len()
        invariant
            a@.len() == b@.len(),
            i <= a@.len(),
            forall|j: int| 0 <= j < i ==> spec_upper_byte(a@[j]) == spec_upper_byte(b@[j]),
        decreases a@.len() - i,
    {
        if upper_byte(a[i]) != upper_byte(b[i]) {
            assert(spec_upper(a@)[i as int] != spec_upper(b@)[i as int]);
            return false;
        }
        i += 1;
    }
    assert(spec_upper(a@) =~= spec_upper(b@));
    true
}

/// The four little-endian bytes of a 32-bit value.
pub open spec fn spec_le32(x: u32) -> Seq<u8> {
    seq![
        (x & 0xff) as u8,
        ((x >> 8) & 0xff) as u8,
        ((x >> 16) & 0xff) as u8,
        ((x >> 24) & 0xff) as u8,
    ]
}

/// The 32-bit value read little-endian from four bytes of a byte string.
pub open spec fn spec_read_le32(b: Seq<u8>, off: int) -> u32 {
    (b[off] as u32) | ((b[off + 1] as u32) << 8) | ((b[off + 2] as u32) << 16) | ((b[off + 3]
        as u32) << 24)
}

pub fn push_le32(out: &mut Vec<u8>, x: u32)
    ensures
        final(out)@ == old(out)@ + spec_le32(x),
{
    proof {
        assert(x & 0xff < 256 && (x >> 8) & 0xff < 256 && (x >> 16) & 0xff < 256 && (x >> 24)
            & 0xff < 256) by (bit_vector);
    }
    out.push((x & 0xff) as u8);
    out.push(((x >> 8) & 0xff) as u8);
    out.push(((x >> 16) & 0xff) as u8);
    out.push(((x >> 24) & 0xff) as u8);
    assert(out@ =~= old(out)@ + spec_le32(x));
}

pub fn read_le32(b: &Vec<u8>, off: usize) -> (r: u32)
    requires
        off + 4 <= b@.len(),
    ensures
        r == spec_read_le32(b@, off as int),
{
    // the vector's length fits usize, so off + 3 cannot overflow
    let _n = b.len();
    (b[off] as u32) | ((b[off + 1] as u32) << 8) | ((b[off + 2] as u32) << 16) | ((b[off + 3]
        as u32) << 24)
}

/// Encoding then decoding a 32-bit value is the identity.
pub proof fn lemma_le32_roundtrip(x: u32)
    ensures
        spec_read_le32(spec_le32(x), 0) == x,
{
    let b0 = (x & 0xff) as u8;
    let b1 = ((x >> 8) & 0xff) as u8;
    let b2 = ((x >> 16) & 0xff) as u8;
    let b3 = ((x >> 24) & 0xff) as u8;
    assert((b0 as u32) | ((b1 as u32) << 8) | ((b2 as u32) << 16) | ((b3 as u32) << 24) == x)
        by (bit_vector)
        requires
            b0 == (x & 0xff) as u8,
            b1 == ((x >> 8) & 0xff) as u8,
            b2 == ((x >> 16) & 0xff) as u8,
            b3 == ((x >> 24) & 0xff) as u8,
    ;
}

/// Appends a whole byte string.
pub fn push_bytes(out: &mut Vec<u8>, src: &Vec<u8>)
    ensures
        final(out)@ == old(out)@ + src@,
{
    let mut i: usize = 0;
    while i < src.len()
        invariant
            i <= src@.len(),
            out@ == old(out)@ + src@.take(i as int),
        decreases src@.len() - i,
    {
        out.push(src[i]);
        proof {
            assert(old(out)@ + src@.take(i as int) + seq![src@[i as int]] =~= old(out)@
                + src@.take(i as int + 1));
        }
        i += 1;
    }
    proof {
        assert(src@.take(src@.len() as int) =~= src@);
    }
}

/// Lexicographic order on byte strings, the empty string first.
pub open spec fn lex_le(a: Seq<u8>, b: Seq<u8>) -> bool
    decreases a.len(),
{
    if a.len() == 0 {
        true
    } else if b.len() == 0 {
        false
    } else if a[0] < b[0] {
        true
    } else if a[0] > b[0] {
        false
    } else {
        lex_le(a.skip(1), b.skip(1))
    }
}

pub proof fn lemma_lex_le_total(a: Seq<u8>, b: Seq<u8>)
    ensures
        lex_le(a, b) || lex_le(b, a),
    decreases a.len(),
{
    if a.len() != 0 && b.len() != 0 && a[0] == b[0] {
        lemma_lex_le_total(a.skip(1), b.skip(1));
    }
}

pub proof fn lemma_lex_le_trans(a: Seq<u8>, b: Seq<u8>, c: Seq<u8>)
    requires
        lex_le(a, b),
        lex_le(b, c),
    ensures
        lex_le(a, c),
    decreases a.len(),
{
    if a.len() != 0 && b.len() != 0 && c.len() != 0 && a[0] == b[0] && b[0] == c[0] {
        lemma_lex_le_trans(a.skip(1), b.skip(1), c.skip(1));
    }
}

/// Case-insensitive lexicographic comparison of two byte strings: decides
/// `lex_le` on their upper-cased images.
pub fn le_ignore_case(a: &Vec<u8>, b: &Vec<u8>) -> (r: bool)
    ensures
        r == lex_le(spec_upper(a@), spec_upper(b@)),
{
    let mut i: usize = 0;
    proof {
        assert(spec_upper(a@).skip(0) =~= spec_upper(a@));
        assert(spec_upper(b@).skip(0) =~= spec_upper(b@));
    }
    while i < a.len() && i < b.len()
        invariant
            i <= a@.len(),
            i <= b@.len(),
            forall|j: int| 0 <= j < i ==> spec_upper_byte(a@[j]) == spec_upper_byte(b@[j]),
            lex_le(spec_upper(a@), spec_upper(b@)) == lex_le(
                spec_upper(a@).skip(i as int),
                spec_upper(b@).skip(i as int),
            ),
        decreases a@.len() - i,
    {
        let ua = upper_byte(a[i]);
        let ub = upper_byte(b[i]);
        if ua < ub {
            return true;
        }
        if ua > ub {
            return false;
        }
        proof {
            lemma_lex_le_skip(spec_upper(a@), spec_upper(b@), i as int);
        }
        i += 1;
    }
    proof {
        if i == a.len() {
            assert(spec_upper(a@).skip(i as int).len() == 0);
        } else {
            assert(spec_upper(b@).skip(i as int).len() == 0);
            assert(spec_upper(a@).skip(i as int).len() != 0);
        }
    }
    i == a.len()
}

/// One unfolding step of `lex_le` under equal heads, phrased over a split
/// point `i` of the original strings.
proof fn lemma_lex_le_skip(a: Seq<u8>, b: Seq<u8>, i: int)
    requires
        0 <= i < a.len(),
        i < b.len(),
        a[i] == b[i],
    ensures
        lex_le(a.skip(i), b.skip(i)) == lex_le(a.skip(i + 1), b.skip(i + 1)),
{
    assert(a.skip(i).skip(1) =~= a.skip(i + 1));
    assert(b.skip(i).skip(1) =~= b.skip(i + 1));
    assert(a.skip(i)[0] == a[i]);
    assert(b.skip(i)[0] == b[i]);
}

} // verus!
