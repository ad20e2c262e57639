//! The pieces of big-endian (Java edition) NBT that a schematic is made of:
//! tags, names, numbers, arrays, and Java's modified UTF-8 for strings.
use vstd::prelude::*;

verus! {

/// NBT tag ids.
pub const TAG_END: u8 = 0;
pub const TAG_SHORT: u8 = 2;
pub const TAG_INT: u8 = 3;
pub const TAG_BYTE_ARRAY: u8 = 7;
pub const TAG_STRING: u8 = 8;
pub const TAG_LIST: u8 = 9;
pub const TAG_COMPOUND: u8 = 10;
pub const TAG_INT_ARRAY: u8 = 11;

/// Big-endian two bytes of `v` taken modulo 2^16.
pub open spec fn be16(v: int) -> Seq<u8> {
    let u = v % 0x1_0000;
    seq![(u / 0x100) as u8, (u % 0x100) as u8]
}

/// Big-endian four bytes of `v` taken modulo 2^32 (two's complement for a
/// negative `i32`).
pub open spec fn be32(v: int) -> Seq<u8> {
    let u = v % 0x1_0000_0000;
    seq![
        (u / 0x100_0000) as u8,
        (u / 0x1_0000 % 0x100) as u8,
        (u / 0x100 % 0x100) as u8,
        (u % 0x100) as u8,
    ]
}

/// Three-byte UTF-8 form of a 16-bit unit.
pub open spec fn utf8_three(u: int) -> Seq<u8> {
    seq![(0xE0 + u / 4096) as u8, (0x80 + u / 64 % 64) as u8, (0x80 + u % 64) as u8]
}

/// Java's modified UTF-8 of one character: NUL takes two bytes, characters
/// outside the Basic Multilingual Plane become a surrogate pair of three-byte
/// units, everything else is ordinary UTF-8.
pub open spec fn java_char(c: char) -> Seq<u8> {
    let cp = c as u32 as int;
    if cp == 0 {
        seq![0xC0u8, 0x80u8]
    } else if cp < 0x80 {
        seq![cp as u8]
    } else if cp < 0x800 {
        seq![(0xC0 + cp / 64) as u8, (0x80 + cp % 64) as u8]
    } else if cp < 0x1_0000 {
        utf8_three(cp)
    } else {
        let v = cp - 0x1_0000;
        utf8_three(0xD800 + v / 1024) + utf8_three(0xDC00 + v % 1024)
    }
}

/// Java's modified UTF-8 of a string.
pub open spec fn java_utf8(s: Seq<char>) -> Seq<u8>
    decreases s.len(),
{
    if s.len() == 0 {
        Seq::<u8>::empty()
    } else {
        java_utf8(s.drop_last()) + java_char(s.last())
    }
}

/// Law: on a character of the Basic Multilingual Plane other than NUL,
/// Java's modified UTF-8 is standard UTF-8: the shortest form, one byte
/// below U+0080, two below U+0800, three otherwise.
pub proof fn lemma_java_char_is_utf8_in_bmp(c: char)
    requires
        0 < c as u32 <= 0xFFFF,
    ensures
        java_char(c) == vstd::utf8::encode_scalar(c as u32),
{
    vstd::utf8::char_is_scalar(c);
    let u = c as u32;
    if u < 0x80 {
        assert((u & 0x7F) as u8 == u as u8) by (bit_vector)
            requires
                u < 0x80,
        ;
        assert(java_char(c) =~= vstd::utf8::encode_scalar(u));
    } else if u < 0x800 {
        assert((0xC0 + u / 64) as u8 == (0xC0 | ((u >> 6) & 0x1F) as u8) && (0x80 + u % 64) as u8
            == (0x80 | (u & 0x3F) as u8)) by (bit_vector)
            requires
                0x80 <= u < 0x800,
        ;
        assert(java_char(c) =~= vstd::utf8::encode_scalar(u));
    } else {
        assert((0xE0 + u / 4096) as u8 == (0xE0 | ((u >> 12) & 0x0F) as u8) && (0x80 + u / 64 % 64)
            as u8 == (0x80 | ((u >> 6) & 0x3F) as u8) && (0x80 + u % 64) as u8 == (0x80 | (u
            & 0x3F) as u8)) by (bit_vector)
            requires
                0x800 <= u <= 0xFFFF,
        ;
        assert(java_char(c) =~= vstd::utf8::encode_scalar(u));
    }
}

/// Standard UTF-8 of a string, built from its end.
proof fn lemma_encode_utf8_last(s: Seq<char>)
    requires
        s.len() > 0,
    ensures
        vstd::utf8::encode_utf8(s) == vstd::utf8::encode_utf8(s.drop_last())
            + vstd::utf8::encode_scalar(s.last() as u32),
    decreases s.len(),
{
    if s.len() == 1 {
        assert(s.drop_first() =~= Seq::<char>::empty());
        assert(s.drop_last() =~= Seq::<char>::empty());
        assert(vstd::utf8::encode_utf8(Seq::<char>::empty()) =~= Seq::<u8>::empty());
        assert(vstd::utf8::encode_utf8(s) =~= vstd::utf8::encode_scalar(s[0] as u32));
    } else {
        lemma_encode_utf8_last(s.drop_first());
        assert(s.drop_first().drop_last() =~= s.drop_last().drop_first());
        assert(s.drop_last()[0] == s[0]);
        assert(s.drop_first().last() == s.last());
        assert(vstd::utf8::encode_utf8(s) =~= vstd::utf8::encode_utf8(s.drop_last())
            + vstd::utf8::encode_scalar(s.last() as u32));
    }
}

/// Law: a string of Basic Multilingual Plane characters without NUL is
/// written in Java's modified UTF-8 exactly as in standard UTF-8.
pub proof fn lemma_java_utf8_is_utf8_in_bmp(s: Seq<char>)
    requires
        forall|i: int| 0 <= i < s.len() ==> 0 < #[trigger] s[i] as u32 <= 0xFFFF,
    ensures
        java_utf8(s) == vstd::utf8::encode_utf8(s),
    decreases s.len(),
{
    if s.len() == 0 {
        assert(vstd::utf8::encode_utf8(s) =~= Seq::<u8>::empty());
    } else {
        assert(forall|i: int| 0 <= i < s.drop_last().len() ==> s.drop_last()[i] == s[i]);
        lemma_java_utf8_is_utf8_in_bmp(s.drop_last());
        assert(0 < s[s.len() - 1] as u32 <= 0xFFFF);
        lemma_java_char_is_utf8_in_bmp(s.last());
        lemma_encode_utf8_last(s);
    }
}

/// An NBT string: its encoded length (as an unsigned short, modulo 2^16)
/// followed by its modified UTF-8 bytes.
pub open spec fn nbt_string(s: Seq<char>) -> Seq<u8> {
    be16(java_utf8(s).len() as int) + java_utf8(s)
}

/// The header of a named tag: its id and its name.
pub open spec fn named_tag(tag: u8, name: Seq<char>) -> Seq<u8> {
    seq![tag] + nbt_string(name)
}

/// A named `TAG_Int`.
pub open spec fn int_tag(name: Seq<char>, v: int) -> Seq<u8> {
    named_tag(TAG_INT, name) + be32(v)
}

/// A named `TAG_Short`.
pub open spec fn short_tag(name: Seq<char>, v: int) -> Seq<u8> {
    named_tag(TAG_SHORT, name) + be16(v)
}

/// A named `TAG_String`.
pub open spec fn string_tag(name: Seq<char>, s: Seq<char>) -> Seq<u8> {
    named_tag(TAG_STRING, name) + nbt_string(s)
}

/// A named `TAG_Byte_Array` (its length must fit an `i32`).
pub open spec fn byte_array_tag(name: Seq<char>, bytes: Seq<u8>) -> Seq<u8> {
    named_tag(TAG_BYTE_ARRAY, name) + be32(bytes.len() as int) + bytes
}

/// A named `TAG_Int_Array` of three values.
pub open spec fn int_array3_tag(name: Seq<char>, v: [i32; 3]) -> Seq<u8> {
    named_tag(TAG_INT_ARRAY, name) + be32(3) + be32(v[0] as int) + be32(v[1] as int) + be32(
        v[2] as int,
    )
}

/// A named, empty `TAG_List` (element type `TAG_End`, length 0).
pub open spec fn empty_list_tag(name: Seq<char>) -> Seq<u8> {
    named_tag(TAG_LIST, name) + seq![TAG_END] + be32(0)
}

/// Appends the big-endian bytes of `v`.
pub fn push_be16(out: &mut Vec<u8>, v: u16)
    ensures
        final(out)@ == old(out)@ + be16(v as int),
{
    out.push((v / 0x100) as u8);
    out.push((v % 0x100) as u8);
    assert(final(out)@ =~= old(out)@ + be16(v as int));
}

/// Appends the big-endian bytes of `v`.
pub fn push_be32(out: &mut Vec<u8>, v: u32)
    ensures
        final(out)@ == old(out)@ + be32(v as int),
{
    out.push((v / 0x100_0000) as u8);
    out.push((v / 0x1_0000 % 0x100) as u8);
    out.push((v / 0x100 % 0x100) as u8);
    out.push((v % 0x100) as u8);
    assert(final(out)@ =~= old(out)@ + be32(v as int));
}

/// `be32` only looks at its argument modulo 2^32.
proof fn lemma_be32_mod(v: int, u: int)
    requires
        u == v % 0x1_0000_0000,
    ensures
        be32(u) == be32(v),
{
    assert(u % 0x1_0000_0000 == u);
}

/// The two's-complement bits of `v`.
pub fn i32_bits(v: i32) -> (u: u32)
    ensures
        u as int == v as int % 0x1_0000_0000,
{
    if v < 0 {
        (v as i64 + 0x1_0000_0000i64) as u32
    } else {
        v as u32
    }
}

/// Appends the three-byte UTF-8 form of a 16-bit unit.
fn push_utf8_three(out: &mut Vec<u8>, u: u32)
    requires
        u < 0x1_0000,
    ensures
        final(out)@ == old(out)@ + utf8_three(u as int),
{
    out.push((0xE0 + u / 4096) as u8);
    out.push((0x80 + u / 64 % 64) as u8);
    out.push((0x80 + u % 64) as u8);
    assert(final(out)@ =~= old(out)@ + utf8_three(u as int));
}

/// Appends the modified UTF-8 of one character.
fn push_java_char(out: &mut Vec<u8>, c: char)
    ensures
        final(out)@ == old(out)@ + java_char(c),
{
    let cp = c as u32;
    proof {
        vstd::utf8::char_is_scalar(c);
    }
    if cp == 0 {
        out.push(0xC0);
        out.push(0x80);
        assert(final(out)@ =~= old(out)@ + java_char(c));
    } else if cp < 0x80 {
        out.push(cp as u8);
        assert(final(out)@ =~= old(out)@ + java_char(c));
    } else if cp < 0x800 {
        out.push((0xC0 + cp / 64) as u8);
        out.push((0x80 + cp % 64) as u8);
        assert(final(out)@ =~= old(out)@ + java_char(c));
    } else if cp < 0x1_0000 {
        push_utf8_three(out, cp);
    } else {
        let v = cp - 0x1_0000;
        assert(v < 0x10_0000);
        push_utf8_three(out, 0xD800 + v / 1024);
        push_utf8_three(out, 0xDC00 + v % 1024);
        assert(final(out)@ =~= old(out)@ + java_char(c));
    }
}

/// The modified UTF-8 bytes of `s`.
pub fn java_utf8_bytes(s: &str) -> (r: Vec<u8>)
    ensures
        r@ == java_utf8(s@),
{
    let mut out: Vec<u8> = Vec::new();
    for c in it: s.chars()
        invariant
            it.seq() == s@,
            out@ == java_utf8(s@.take(it.index() as int)),
    {
        let ghost before = s@.take(it.index() as int);
        push_java_char(&mut out, c);
        proof {
            let after = s@.take(it.index() + 1int);
            assert(after.drop_last() =~= before);
            assert(after.last() == c);
        }
    }
    assert(s@.take(s@.len() as int) =~= s@);
    out
}

/// Appends `s` as an NBT string.
pub fn push_string(out: &mut Vec<u8>, s: &str)
    ensures
        final(out)@ == old(out)@ + nbt_string(s@),
{
    let mut bytes = java_utf8_bytes(s);
    let n = bytes.len();
    push_be16(out, (n % 0x1_0000) as u16);
    out.append(&mut bytes);
    assert(final(out)@ =~= old(out)@ + nbt_string(s@));
}

/// Appends the header of a named tag.
pub fn push_named_tag(out: &mut Vec<u8>, tag: u8, name: &str)
    ensures
        final(out)@ == old(out)@ + named_tag(tag, name@),
{
    out.push(tag);
    push_string(out, name);
    assert(final(out)@ =~= old(out)@ + named_tag(tag, name@));
}

/// Appends a named `TAG_Int`.
pub fn push_int_tag(out: &mut Vec<u8>, name: &str, v: i32)
    ensures
        final(out)@ == old(out)@ + int_tag(name@, v as int),
{
    push_named_tag(out, TAG_INT, name);
    let bits = i32_bits(v);
    push_be32(out, bits);
    proof {
        lemma_be32_mod(v as int, bits as int);
    }
    assert(final(out)@ =~= old(out)@ + int_tag(name@, v as int));
}

/// Appends a named `TAG_Short`.
pub fn push_short_tag(out: &mut Vec<u8>, name: &str, v: u16)
    ensures
        final(out)@ == old(out)@ + short_tag(name@, v as int),
{
    push_named_tag(out, TAG_SHORT, name);
    push_be16(out, v);
    assert(final(out)@ =~= old(out)@ + short_tag(name@, v as int));
}

/// Appends a named `TAG_String`.
pub fn push_string_tag(out: &mut Vec<u8>, name: &str, s: &str)
    ensures
        final(out)@ == old(out)@ + string_tag(name@, s@),
{
    push_named_tag(out, TAG_STRING, name);
    push_string(out, s);
    assert(final(out)@ =~= old(out)@ + string_tag(name@, s@));
}

/// Appends a named `TAG_Byte_Array`.
pub fn push_byte_array_tag(out: &mut Vec<u8>, name: &str, bytes: &[u8])
    requires
        bytes@.len() <= i32::MAX,
    ensures
        final(out)@ == old(out)@ + byte_array_tag(name@, bytes@),
{
    push_named_tag(out, TAG_BYTE_ARRAY, name);
    push_be32(out, bytes.len() as u32);
    let mut i: usize = 0;
    let ghost start = out@;
    while i < bytes.len()
        invariant
            i <= bytes@.len(),
            out@ == start + bytes@.take(i as int),
        decreases bytes@.len() - i,
    {
        out.push(bytes[i]);
        i = i + 1;
        assert(out@ =~= start + bytes@.take(i as int));
    }
    assert(bytes@.take(i as int) =~= bytes@);
    assert(final(out)@ =~= old(out)@ + byte_array_tag(name@, bytes@));
}

/// Appends a named `TAG_Int_Array` of three values.
pub fn push_int_array3_tag(out: &mut Vec<u8>, name: &str, v: [i32; 3])
    ensures
        final(out)@ == old(out)@ + int_array3_tag(name@, v),
{
    push_named_tag(out, TAG_INT_ARRAY, name);
    push_be32(out, 3);
    let b0 = i32_bits(v[0]);
    let b1 = i32_bits(v[1]);
    let b2 = i32_bits(v[2]);
    proof {
        lemma_be32_mod(v[0] as int, b0 as int);
        lemma_be32_mod(v[1] as int, b1 as int);
        lemma_be32_mod(v[2] as int, b2 as int);
    }
    let ghost mid = out@;
    push_be32(out, b0);
    push_be32(out, b1);
    push_be32(out, b2);
    assert(out@ =~= mid + be32(v[0] as int) + be32(v[1] as int) + be32(v[2] as int));
}

/// Appends a named, empty `TAG_List`.
pub fn push_empty_list_tag(out: &mut Vec<u8>, name: &str)
    ensures
        final(out)@ == old(out)@ + empty_list_tag(name@),
{
    push_named_tag(out, TAG_LIST, name);
    out.push(TAG_END);
    push_be32(out, 0);
    assert(final(out)@ =~= old(out)@ + empty_list_tag(name@));
}

} // verus!
