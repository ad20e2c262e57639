//! Unsigned LEB128 ("varint") encoding.
//!
//! Used by the Sponge schematic `BlockData` array (and the Minecraft protocol):
//! a non-negative integer split into 7-bit little-endian groups, each byte's
//! high bit signalling "more bytes follow". A `u32` needs at most 5 bytes.
use vstd::prelude::*;

verus! {

/// Error decoding a varint.
#[derive(Debug, Clone, Copy, PartialEq, Eq, Structural)]
pub enum VarintError {
    /// The input ended in the middle of a value (continuation bit set on the
    /// final available byte).
    Truncated,
    /// The value did not terminate within the 5 bytes a `u32` allows.
    Overflow,
}

impl VarintError {
    /// A one-line description of the error.
    pub fn message(&self) -> (r: String)
        ensures
            r@ == match self {
                VarintError::Truncated => "varint truncated"@,
                VarintError::Overflow => "varint overflows u32"@,
            },
    {
        match self {
            VarintError::Truncated => "varint truncated".to_owned(),
            VarintError::Overflow => "varint overflows u32".to_owned(),
        }
    }
}

/// `128^n`.
pub open spec fn pow128(n: nat) -> nat
    decreases n,
{
    if n == 0 {
        1
    } else {
        128 * pow128((n - 1) as nat)
    }
}

/// The unsigned LEB128 encoding of `v`: 7-bit groups, least significant
/// first; every byte but the last carries the continuation bit `0x80`.
pub open spec fn encode_unsigned(v: nat) -> Seq<u8>
    decreases v,
{
    if v < 128 {
        seq![v as u8]
    } else {
        seq![(v % 128 + 128) as u8] + encode_unsigned(v / 128)
    }
}

/// The number that a run of bytes carries in its low 7 bits, read as
/// little-endian base-128 digits.
pub open spec fn groups_value(s: Seq<u8>) -> nat
    decreases s.len(),
{
    if s.len() == 0 {
        0
    } else {
        groups_value(s.drop_last()) + (s.last() % 128) as nat * pow128((s.len() - 1) as nat)
    }
}

/// Decoding of the varint at the front of `s`, having already passed `i`
/// continuation bytes: the value and the number of bytes it takes, or why
/// there is none.
pub open spec fn decode_from(s: Seq<u8>, i: nat) -> Result<(nat, nat), VarintError>
    decreases 5 - i,
{
    if i >= 5 {
        Err(VarintError::Overflow)
    } else if i >= s.len() {
        Err(VarintError::Truncated)
    } else if i == 4 && s[4] % 128 > 15 {
        // The fifth byte may only contribute the top 4 bits of a u32.
        Err(VarintError::Overflow)
    } else if s[i as int] < 128 {
        Ok((groups_value(s.take(i + 1int)), i + 1))
    } else {
        decode_from(s, i + 1)
    }
}

/// The varint at the front of `s`: its value and length in bytes, or the
/// error that reading it meets.
pub open spec fn decode_unsigned(s: Seq<u8>) -> Result<(nat, nat), VarintError> {
    decode_from(s, 0)
}

/// Every varint of `s`, in order, or the first error met.
pub open spec fn decode_all(s: Seq<u8>) -> Result<Seq<nat>, VarintError>
    decreases s.len(),
{
    if s.len() == 0 {
        Ok(Seq::<nat>::empty())
    } else {
        match decode_unsigned(s) {
            Err(e) => Err(e),
            Ok((v, n)) => {
                proof {
                    lemma_decode_length(s, 0);
                }
                match decode_all(s.skip(n as int)) {
                    Err(e) => Err(e),
                    Ok(rest) => Ok(seq![v] + rest),
                }
            },
        }
    }
}

/// The concatenated encodings of `vs`, in order.
pub open spec fn encode_all(vs: Seq<u32>) -> Seq<u8>
    decreases vs.len(),
{
    if vs.len() == 0 {
        Seq::<u8>::empty()
    } else {
        encode_unsigned(vs[0] as nat) + encode_all(vs.drop_first())
    }
}

/// The result of a read, taken as plain numbers.
pub open spec fn read_view(r: Result<(u32, usize), VarintError>) -> Result<(nat, nat), VarintError> {
    match r {
        Ok((v, n)) => Ok((v as nat, n as nat)),
        Err(e) => Err(e),
    }
}

/// The result of a read of every value, taken as plain numbers.
pub open spec fn read_all_view(r: Result<Vec<u32>, VarintError>) -> Result<Seq<nat>, VarintError> {
    match r {
        Ok(vs) => Ok(vs@.map_values(|x: u32| x as nat)),
        Err(e) => Err(e),
    }
}

/// A successful read takes between 1 and 5 bytes, all of them present, and
/// yields a value that fits in a `u32`.
pub proof fn lemma_decode_length(s: Seq<u8>, i: nat)
    requires
        i <= 5,
        decode_from(s, i) is Ok,
    ensures
        i < decode_from(s, i)->Ok_0.1 <= 5,
        decode_from(s, i)->Ok_0.1 <= s.len(),
        decode_from(s, i)->Ok_0.0 < 0x1_0000_0000,
    decreases 5 - i,
{
    if i < 5 && i < s.len() && !(i == 4 && s[4] % 128 > 15) {
        if s[i as int] < 128 {
            lemma_groups_value_bound(s.take(i + 1int));
            lemma_pow128_values();
            if i == 4 {
                let t = s.take(5);
                assert(t.drop_last() == s.take(4));
                lemma_groups_value_bound(s.take(4));
                assert(t.last() == s[4]);
            }
        } else {
            lemma_decode_length(s, i + 1);
        }
    }
}

proof fn lemma_pow128_values()
    ensures
        pow128(0) == 1,
        pow128(1) == 128,
        pow128(2) == 16384,
        pow128(3) == 2097152,
        pow128(4) == 268435456,
        pow128(5) == 34359738368,
{
    reveal_with_fuel(pow128, 6);
}

proof fn lemma_groups_value_bound(s: Seq<u8>)
    ensures
        groups_value(s) < pow128(s.len()),
    decreases s.len(),
{
    if s.len() > 0 {
        let n = (s.len() - 1) as nat;
        lemma_groups_value_bound(s.drop_last());
        let d = (s.last() % 128) as nat;
        let p = pow128(n);
        assert(groups_value(s.drop_last()) + d * p < 128 * p) by (nonlinear_arith)
            requires
                groups_value(s.drop_last()) < p,
                d <= 127,
        ;
    }
}

/// Prepending a byte adds its group as the least significant digit.
proof fn lemma_groups_value_prepend(b: u8, t: Seq<u8>)
    ensures
        groups_value(seq![b] + t) == (b % 128) as nat + 128 * groups_value(t),
    decreases t.len(),
{
    let s = seq![b] + t;
    assert(pow128(0) == 1);
    if t.len() == 0 {
        assert(s.drop_last() =~= Seq::<u8>::empty());
        assert(s.last() == b);
        assert(groups_value(s) == groups_value(s.drop_last()) + (b % 128) as nat * pow128(0));
    } else {
        assert(s.drop_last() =~= seq![b] + t.drop_last());
        lemma_groups_value_prepend(b, t.drop_last());
        let n = (t.len() - 1) as nat;
        let d = (t.last() % 128) as nat;
        assert(s.last() == t.last());
        assert(pow128(n + 1) == 128 * pow128(n));
        let g = groups_value(t.drop_last());
        let p = pow128(n);
        assert(groups_value(t) == g + d * p);
        assert(groups_value(s) == groups_value(seq![b] + t.drop_last()) + d * pow128(n + 1));
        assert((b % 128) as nat + 128 * g + d * (128 * p) == (b % 128) as nat + 128 * (g + d * p))
            by (nonlinear_arith);
    }
}

/// Shape of an encoding: the value it carries, its length, and where the
/// continuation bits stand.
pub proof fn lemma_encode_shape(v: nat)
    ensures
        groups_value(encode_unsigned(v)) == v,
        encode_unsigned(v).len() >= 1,
        forall|j: int|
            0 <= j < encode_unsigned(v).len() - 1 ==> #[trigger] encode_unsigned(v)[j] >= 128,
        encode_unsigned(v).last() < 128,
    decreases v,
{
    let e = encode_unsigned(v);
    if v < 128 {
        assert(e =~= seq![v as u8]);
        assert(seq![v as u8].drop_last() =~= Seq::<u8>::empty());
        assert(pow128(0) == 1);
        assert(e.last() == v as u8);
        assert(groups_value(e) == groups_value(e.drop_last()) + (e.last() % 128) as nat * pow128(0));
    } else {
        let b = (v % 128 + 128) as u8;
        let t = encode_unsigned(v / 128);
        lemma_encode_shape(v / 128);
        lemma_groups_value_prepend(b, t);
        assert(e == seq![b] + t);
        assert(b % 128 == v % 128);
        assert(v == v % 128 + 128 * (v / 128));
        assert forall|j: int| 0 <= j < e.len() - 1 implies #[trigger] e[j] >= 128 by {
            if j > 0 {
                assert(e[j] == t[j - 1]);
            }
        }
        assert(e.last() == t.last());
    }
}

/// An encoding is no longer than the number of base-128 digits of its value.
proof fn lemma_encode_len_bound(v: nat, k: nat)
    requires
        k >= 1,
        v < pow128(k),
    ensures
        encode_unsigned(v).len() <= k,
    decreases k,
{
    if v >= 128 {
        let k1 = (k - 1) as nat;
        assert(pow128(k) == 128 * pow128(k1));
        if k1 == 0 {
            assert(pow128(0) == 1);
        }
        assert(v / 128 < pow128(k1)) by (nonlinear_arith)
            requires
                v < 128 * pow128(k1),
        ;
        if k1 >= 1 {
            lemma_encode_len_bound(v / 128, k1);
        } else {
            assert(pow128(0) == 1);
        }
    }
}

/// Reading an encoding gives back its value and length, whatever follows it.
proof fn lemma_decode_from_encoded(v: nat, rest: Seq<u8>, i: nat)
    requires
        v < 0x1_0000_0000,
        i < encode_unsigned(v).len(),
    ensures
        decode_from(encode_unsigned(v) + rest, i) == Ok::<(nat, nat), VarintError>(
            (v, encode_unsigned(v).len()),
        ),
    decreases encode_unsigned(v).len() - i,
{
    let e = encode_unsigned(v);
    let s = e + rest;
    lemma_encode_shape(v);
    lemma_pow128_values();
    lemma_encode_len_bound(v, 5);
    assert(s[i as int] == e[i as int]);
    if i == e.len() - 1 {
        assert(s.take(i + 1int) =~= e);
        if i == 4 {
            // The fifth group is the top of the value, below 16 for a u32.
            let t = e;
            assert(t.drop_last() =~= e.take(4));
            lemma_groups_value_bound(e.take(4));
            lemma_pow128_values();
            assert(e[4] % 128 <= 15) by (nonlinear_arith)
                requires
                    v == groups_value(e.take(4)) + (e[4] % 128) as nat * 268435456,
                    v < 0x1_0000_0000,
            ;
        }
    } else {
        lemma_decode_from_encoded(v, rest, i + 1);
    }
}

/// Law: a varint reads back as the value it encodes, with its own length,
/// whatever bytes follow it.
pub proof fn lemma_decode_encoded(v: u32, rest: Seq<u8>)
    ensures
        decode_unsigned(encode_unsigned(v as nat) + rest) == Ok::<(nat, nat), VarintError>(
            (v as nat, encode_unsigned(v as nat).len()),
        ),
        1 <= encode_unsigned(v as nat).len() <= 5,
{
    lemma_encode_shape(v as nat);
    lemma_pow128_values();
    lemma_encode_len_bound(v as nat, 5);
    lemma_decode_from_encoded(v as nat, rest, 0);
}

/// Law: the concatenated encodings of a list of values read back, as a whole,
/// as that list.
pub proof fn lemma_decode_all_encoded(vs: Seq<u32>)
    ensures
        decode_all(encode_all(vs)) == Ok::<Seq<nat>, VarintError>(vs.map_values(|x: u32| x as nat)),
    decreases vs.len(),
{
    if vs.len() == 0 {
        assert(encode_all(vs) =~= Seq::<u8>::empty());
        assert(vs.map_values(|x: u32| x as nat) =~= Seq::<nat>::empty());
    } else {
        let e = encode_unsigned(vs[0] as nat);
        let rest = encode_all(vs.drop_first());
        let s = encode_all(vs);
        assert(s == e + rest);
        lemma_decode_encoded(vs[0], rest);
        assert(s.skip(e.len() as int) =~= rest);
        lemma_decode_all_encoded(vs.drop_first());
        assert(seq![vs[0] as nat] + vs.drop_first().map_values(|x: u32| x as nat) =~= vs.map_values(
            |x: u32| x as nat,
        ));
    }
}

/// Reading a run of one to four continuation bytes finds the input ending
/// mid-value.
proof fn lemma_decode_from_truncated(tail: Seq<u8>, i: nat)
    requires
        1 <= tail.len() <= 4,
        i <= tail.len(),
        forall|j: int| 0 <= j < tail.len() ==> #[trigger] tail[j] >= 128,
    ensures
        decode_from(tail, i) == Err::<(nat, nat), VarintError>(VarintError::Truncated),
    decreases tail.len() - i,
{
    if i < tail.len() {
        lemma_decode_from_truncated(tail, i + 1);
    }
}

/// Law: complete varints followed by a partial one (one to four bytes that all
/// carry the continuation bit) read, as a whole, as `Truncated`: a trailing
/// partial value is an error, never silently dropped.
pub proof fn lemma_decode_all_truncated(vs: Seq<u32>, tail: Seq<u8>)
    requires
        1 <= tail.len() <= 4,
        forall|j: int| 0 <= j < tail.len() ==> #[trigger] tail[j] >= 128,
    ensures
        decode_all(encode_all(vs) + tail) == Err::<Seq<nat>, VarintError>(VarintError::Truncated),
    decreases vs.len(),
{
    if vs.len() == 0 {
        assert(encode_all(vs) + tail =~= tail);
        lemma_decode_from_truncated(tail, 0);
    } else {
        let e = encode_unsigned(vs[0] as nat);
        let rest = encode_all(vs.drop_first()) + tail;
        let s = encode_all(vs) + tail;
        assert(s =~= e + rest);
        lemma_decode_encoded(vs[0], rest);
        assert(s.skip(e.len() as int) =~= rest);
        lemma_decode_all_truncated(vs.drop_first(), tail);
    }
}

/// Append the unsigned LEB128 encoding of `value` to `out`.
pub fn write_unsigned(value: u32, out: &mut Vec<u8>)
    ensures
        final(out)@ == old(out)@ + encode_unsigned(value as nat),
{
    let mut v = value;
    let ghost start = out@;
    loop
        invariant
            start + encode_unsigned(v as nat) == old(out)@ + encode_unsigned(value as nat),
            out@ == start,
        decreases v,
    {
        let byte: u8 = (v % 128) as u8;
        let ghost before = v;
        v = v / 128;
        if v == 0 {
            proof {
                assert(encode_unsigned(before as nat) == seq![byte]);
            }
            out.push(byte);
            return;
        }
        proof {
            assert(encode_unsigned(before as nat) == seq![(byte + 128) as u8] + encode_unsigned(
                v as nat,
            ));
        }
        out.push(byte + 128);
        proof {
            start = start.push((byte + 128) as u8);
        }
    }
}

/// Reads the varint that starts at `pos` in `input`.
fn read_at(input: &[u8], pos: usize) -> (r: Result<(u32, usize), VarintError>)
    requires
        pos <= input@.len(),
    ensures
        read_view(r) == decode_unsigned(input@.skip(pos as int)),
{
    let ghost s = input@.skip(pos as int);
    let mut result: u32 = 0;
    let mut mult: u32 = 1;
    let mut i: usize = 0;
    proof {
        lemma_pow128_values();
        assert(s.take(0) =~= Seq::<u8>::empty());
    }
    while i < 5 && i < input.len() - pos
        invariant
            s == input@.skip(pos as int),
            pos <= input@.len(),
            i <= 5,
            i <= s.len(),
            result == groups_value(s.take(i as int)),
            i < 5 ==> mult == pow128(i as nat),
            decode_unsigned(s) == decode_from(s, i as nat),
            pow128(0) == 1,
            pow128(1) == 128,
            pow128(2) == 16384,
            pow128(3) == 2097152,
            pow128(4) == 268435456,
        decreases 5 - i,
    {
        let b = input[pos + i];
        assert(b == s[i as int]);
        if i == 4 && b % 128 > 15 {
            return Err(VarintError::Overflow);
        }
        proof {
            lemma_groups_value_bound(s.take(i as int));
            let t = s.take(i + 1int);
            assert(t.drop_last() =~= s.take(i as int));
            assert(t.last() == b);
        }
        assert((b % 128) as u32 * mult + result <= u32::MAX) by (nonlinear_arith)
            requires
                i <= 4,
                i == 4 ==> b % 128 <= 15,
                result < mult,
                mult == pow128(i as nat),
                i == 0 ==> mult == 1,
                i == 1 ==> mult == 128,
                i == 2 ==> mult == 16384,
                i == 3 ==> mult == 2097152,
                i == 4 ==> mult == 268435456,
        ;
        result = result + (b % 128) as u32 * mult;
        if b < 128 {
            return Ok((result, i + 1));
        }
        if i < 4 {
            mult = mult * 128;
        }
        i = i + 1;
    }
    if input.len() - pos >= 5 {
        Err(VarintError::Overflow)
    } else {
        Err(VarintError::Truncated)
    }
}

/// Decode a single varint from the front of `input`, returning the decoded
/// value and the number of bytes it consumed.
pub fn read_unsigned(input: &[u8]) -> (r: Result<(u32, usize), VarintError>)
    ensures
        read_view(r) == decode_unsigned(input@),
{
    assert(input@.skip(0) =~= input@);
    read_at(input, 0)
}

/// Decode every varint in `input` (which must contain only complete varints).
pub fn read_all_unsigned(input: &[u8]) -> (r: Result<Vec<u32>, VarintError>)
    ensures
        read_all_view(r) == decode_all(input@),
{
    let mut out: Vec<u32> = Vec::new();
    let mut pos: usize = 0;
    assert(input@.skip(0) =~= input@);
    while pos < input.len()
        invariant
            pos <= input@.len(),
            decode_all(input@) == match decode_all(input@.skip(pos as int)) {
                Ok(rest) => Ok(out@.map_values(|x: u32| x as nat) + rest),
                Err(e) => Err(e),
            },
        decreases input@.len() - pos,
    {
        let ghost s = input@.skip(pos as int);
        match read_at(input, pos) {
            Err(e) => {
                return Err(e);
            },
            Ok((value, consumed)) => {
                proof {
                    lemma_decode_length(s, 0);
                    assert(s.skip(consumed as int) =~= input@.skip(pos + consumed));
                }
                let ghost old_out = out@.map_values(|x: u32| x as nat);
                out.push(value);
                assert(out@.map_values(|x: u32| x as nat) =~= old_out + seq![value as nat]);
                proof {
                    match decode_all(s.skip(consumed as int)) {
                        Ok(rest) => {
                            assert(old_out + (seq![value as nat] + rest) =~= old_out + seq![
                                value as nat,
                            ] + rest);
                        },
                        Err(e) => {},
                    }
                }
                pos = pos + consumed;
            },
        }
    }
    assert(input@.skip(pos as int) =~= Seq::<u8>::empty());
    assert(out@.map_values(|x: u32| x as nat) + Seq::<nat>::empty() =~= out@.map_values(
        |x: u32| x as nat,
    ));
    Ok(out)
}

} // verus!
