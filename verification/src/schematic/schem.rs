//! Sponge Schematic serialization (versions **2** and **3**).
//!
//! - **v2** — root NBT compound named `"Schematic"` with the fields directly
//!   inside; `PaletteMax` is the palette entry count; `BlockData` is a byte
//!   array of unsigned-LEB128 palette indices ordered `x + z*W + y*W*L`.
//! - **v3** — an *unnamed* root compound holding a single `"Schematic"` child;
//!   blocks live under a `Blocks` compound as `Palette` (blockstate → int) and
//!   `Data` (the same varint byte array).
//!
//! NBT is big-endian (Java edition); the `.schem` file is gzip-compressed.
//! Fields are written in a fixed order and palette entries in byte-wise order
//! of their names, so the uncompressed output is deterministic.
use std::io::Write;

use flate2::write::GzEncoder;
use flate2::Compression;
use vstd::prelude::*;

use super::key_order::{is_key_order, key_order, key_order_of, utf8_keys};
use super::nbt::{
    be16, be32, byte_array_tag, empty_list_tag, int_array3_tag, int_tag, named_tag, push_be32,
    push_byte_array_tag, push_empty_list_tag, push_int_array3_tag, push_int_tag, push_named_tag,
    push_short_tag, push_string_tag, short_tag, string_tag, TAG_COMPOUND, TAG_END, TAG_INT,
};
use super::varint::{decode_all, encode_all, lemma_decode_all_encoded, write_unsigned, VarintError};
use super::voxel_model::VoxelModel;

verus! {

/// Sponge schematic format version.
#[derive(Debug, Clone, Copy, PartialEq, Eq, Structural)]
pub enum SchematicVersion {
    /// Version 2: root compound named `Schematic`, fields at root. Broadest
    /// WorldEdit/FAWE compatibility.
    V2,
    /// Version 3: unnamed root with a `Schematic` child and a `Blocks` compound.
    /// What current tooling writes; required by some modern viewers.
    V3,
}

/// Options controlling schematic output.
#[derive(Debug, Clone)]
pub struct SchematicOptions {
    /// Minecraft world data version. It must match the target version so the
    /// game's data-fixer interprets block states correctly.
    pub data_version: i32,
    /// Optional paste offset relative to the paste origin.
    pub offset: Option<[i32; 3]>,
    /// Optional schematic name, stored under `Metadata`.
    pub name: Option<String>,
}

#[verifier::external_type_specification]
#[verifier::external_body]
pub struct ExIoError(std::io::Error);

/// Why NBT serialization failed.
#[derive(Debug, Clone, Copy, PartialEq, Eq, Structural)]
pub enum NbtError {
    /// A palette entry carries one of the reserved array-marker names
    /// (see `is_reserved_name`).
    ReservedName,
    /// The block data is longer than an NBT array length (`i32`) can say.
    LengthTooLarge,
}

/// Error serializing a schematic.
#[derive(Debug)]
pub enum SchemError {
    /// NBT serialization failed.
    Nbt(NbtError),
    /// Gzip compression failed.
    Io(std::io::Error),
}

/// The three reserved array-marker names. A compound entry under one of
/// these names is taken as an array marker, so no `Int` can be written under
/// it: a palette holding one is refused with `NbtError::ReservedName`.
pub open spec fn is_reserved_name(s: Seq<char>) -> bool {
    s == "__fastnbt_byte_array"@ || s == "__fastnbt_int_array"@ || s == "__fastnbt_long_array"@
}

/// The varint-encoded block data of a model.
pub open spec fn block_data(m: VoxelModel) -> Seq<u8> {
    encode_all(m.indices())
}

/// The palette positions of a model, sorted by block-state name.
pub open spec fn palette_order(m: VoxelModel) -> Seq<usize> {
    key_order_of(utf8_keys(m.states()))
}

/// The palette compound's entries: one `Int` per state (its palette index),
/// in the given order.
pub open spec fn palette_entries(states: Seq<Seq<char>>, order: Seq<usize>) -> Seq<u8>
    decreases order.len(),
{
    if order.len() == 0 {
        Seq::<u8>::empty()
    } else {
        palette_entries(states, order.drop_last()) + int_tag(
            states[order.last() as int],
            order.last() as int,
        )
    }
}

/// The `Palette` compound (block state → palette index).
pub open spec fn palette_tag(m: VoxelModel) -> Seq<u8> {
    named_tag(TAG_COMPOUND, "Palette"@) + palette_entries(m.states(), palette_order(m)) + seq![
        TAG_END,
    ]
}

/// The `Offset` array, when one is set.
pub open spec fn offset_tag(opts: SchematicOptions) -> Seq<u8> {
    match opts.offset {
        Some(o) => int_array3_tag("Offset"@, o),
        None => Seq::<u8>::empty(),
    }
}

/// The `Metadata` compound holding `Name`, when a name is set.
pub open spec fn metadata_tag(opts: SchematicOptions) -> Seq<u8> {
    match opts.name {
        Some(n) => named_tag(TAG_COMPOUND, "Metadata"@) + string_tag("Name"@, n@) + seq![TAG_END],
        None => Seq::<u8>::empty(),
    }
}

/// `Version`, `DataVersion`, `Width`, `Height`, `Length` and the optional
/// `Offset`: the fields both versions begin with.
pub open spec fn header_fields(version: int, m: VoxelModel, opts: SchematicOptions) -> Seq<u8> {
    int_tag("Version"@, version) + int_tag("DataVersion"@, opts.data_version as int) + short_tag(
        "Width"@,
        m.dims().0 as int,
    ) + short_tag("Height"@, m.dims().1 as int) + short_tag("Length"@, m.dims().2 as int)
        + offset_tag(opts)
}

/// The uncompressed Sponge v2 document.
pub open spec fn nbt_v2(m: VoxelModel, opts: SchematicOptions) -> Seq<u8> {
    named_tag(TAG_COMPOUND, "Schematic"@) + header_fields(2, m, opts) + int_tag(
        "PaletteMax"@,
        m.states().len() as int,
    ) + palette_tag(m) + byte_array_tag("BlockData"@, block_data(m)) + empty_list_tag(
        "BlockEntities"@,
    ) + metadata_tag(opts) + seq![TAG_END]
}

/// The uncompressed Sponge v3 document.
pub open spec fn nbt_v3(m: VoxelModel, opts: SchematicOptions) -> Seq<u8> {
    named_tag(TAG_COMPOUND, ""@) + named_tag(TAG_COMPOUND, "Schematic"@) + header_fields(3, m, opts)
        + metadata_tag(opts) + named_tag(TAG_COMPOUND, "Blocks"@) + palette_tag(m) + byte_array_tag(
        "Data"@,
        block_data(m),
    ) + empty_list_tag("BlockEntities"@) + seq![TAG_END] + seq![TAG_END] + seq![TAG_END]
}

/// The serialization error a model meets, if any: a reserved palette name
/// first (the palette precedes the block data), then over-long block data.
pub open spec fn nbt_error(m: VoxelModel) -> Option<NbtError> {
    if exists|i: int| 0 <= i < m.states().len() && is_reserved_name(#[trigger] m.states()[i]) {
        Some(NbtError::ReservedName)
    } else if block_data(m).len() > i32::MAX {
        Some(NbtError::LengthTooLarge)
    } else {
        None
    }
}

/// What serializing `m` to the document `doc` gives: the document, or the
/// error the model meets.
pub open spec fn nbt_outcome(
    r: Result<Vec<u8>, SchemError>,
    m: VoxelModel,
    doc: Seq<u8>,
) -> bool {
    match nbt_error(m) {
        Some(e) => r matches Err(SchemError::Nbt(e2)) && e2 == e,
        None => r matches Ok(bytes) && bytes@ == doc,
    }
}

/// Little-endian four bytes of `v` modulo 2^32.
pub open spec fn le32(v: int) -> Seq<u8> {
    let u = v % 0x1_0000_0000;
    seq![
        (u % 0x100) as u8,
        (u / 0x100 % 0x100) as u8,
        (u / 0x1_0000 % 0x100) as u8,
        (u / 0x100_0000) as u8,
    ]
}

/// What flate2's `GzEncoder` gives for `data` at the default level, writing
/// into a `Vec`: the gzip stream, or `None` where it reports an error.
pub uninterp spec fn gzip_of(data: Seq<u8>) -> Option<Seq<u8>>;

/// The ten-byte gzip header flate2 writes: magic `1f 8b`, deflate, no flags,
/// no time stamp, default level, unknown OS.
pub open spec fn gzip_header() -> Seq<u8> {
    seq![0x1fu8, 0x8bu8, 8u8, 0u8, 0u8, 0u8, 0u8, 0u8, 0u8, 0xffu8]
}

/// The framing every gzip stream written here has: at least header and
/// trailer long, the header first, the input length (mod 2^32) last.
pub open spec fn gzip_framed(bytes: Seq<u8>, data: Seq<u8>) -> bool {
    &&& bytes.len() >= 18
    &&& bytes.take(10) == gzip_header()
    &&& bytes.skip(bytes.len() - 4) == le32(data.len() as int)
}

/// What compressing `data` gives: exactly `gzip_of(data)`, the stream on
/// success and an I/O error where it is `None`.
pub open spec fn gzip_outcome(r: Result<Vec<u8>, SchemError>, data: Seq<u8>) -> bool {
    match gzip_of(data) {
        Some(stream) => r matches Ok(bytes) && bytes@ == stream && gzip_framed(bytes@, data),
        None => r matches Err(e) && e is Io,
    }
}

/// Compresses `data` with flate2's `GzEncoder` at `Compression::default()`
/// into a fresh `Vec`, in one `write_all` followed by `finish`. Claims: the
/// outcome is `gzip_of(data)`, a function of the data alone (the sink is a
/// `Vec`, flate2 writes no time stamp and a fixed OS byte), so it succeeds
/// exactly when `gzip_of(data)` is `Some`; on success the output starts with
/// the ten-byte header `1f 8b 08 00 00 00 00 00 00 ff` and ends with the
/// input length modulo 2^32, little-endian. Which inputs, if any, make the
/// deflate backend report an error is left unsaid.
#[verifier::external_body]
fn gzip_raw(data: &[u8]) -> (r: Result<Vec<u8>, std::io::Error>)
    ensures
        r is Ok <==> gzip_of(data@) is Some,
        r matches Ok(out) ==> gzip_of(data@) == Some(out@) && gzip_framed(out@, data@),
{
    let mut encoder = GzEncoder::new(Vec::new(), Compression::default());
    encoder.write_all(data)?;
    encoder.finish()
}

/// Gzip-compresses an NBT document.
fn gzip(nbt: Vec<u8>) -> (r: Result<Vec<u8>, SchemError>)
    ensures
        gzip_outcome(r, nbt@),
{
    match gzip_raw(nbt.as_slice()) {
        Ok(out) => Ok(out),
        Err(e) => Err(SchemError::Io(e)),
    }
}

/// Whether `s` is one of the reserved array-marker names.
fn is_reserved(s: &String) -> (r: bool)
    ensures
        r == is_reserved_name(s@),
{
    let byte_array = "__fastnbt_byte_array".to_owned();
    let int_array = "__fastnbt_int_array".to_owned();
    let long_array = "__fastnbt_long_array".to_owned();
    *s == byte_array || *s == int_array || *s == long_array
}

/// The error serializing `model` meets, if any.
fn check_model(model: &VoxelModel, data_len: usize) -> (r: Option<NbtError>)
    requires
        model.wf(),
        data_len == block_data(*model).len(),
    ensures
        r == nbt_error(*model),
{
    let palette = model.palette();
    let mut i: usize = 0;
    while i < palette.len()
        invariant
            i <= palette@.len(),
            palette@.map_values(|s: String| s@) == model.states(),
            forall|j: int| 0 <= j < i ==> !is_reserved_name(#[trigger] model.states()[j]),
        decreases palette@.len() - i,
    {
        if is_reserved(&palette[i]) {
            assert(is_reserved_name(model.states()[i as int]));
            return Some(NbtError::ReservedName);
        }
        i = i + 1;
    }
    if data_len > 0x7fff_ffff {
        Some(NbtError::LengthTooLarge)
    } else {
        None
    }
}

/// The palette positions in name order, and the varint block data.
fn palette_and_data(model: &VoxelModel) -> (r: (Vec<usize>, Vec<u8>))
    requires
        model.wf(),
    ensures
        r.0@ == palette_order(*model),
        is_key_order(utf8_keys(model.states()), r.0@),
        r.1@ == block_data(*model),
{
    // One varint per cell, already in x + z*W + y*W*L order.
    let indices = model.block_indices();
    let mut block_bytes: Vec<u8> = Vec::new();
    let mut i: usize = 0;
    while i < indices.len()
        invariant
            i <= indices@.len(),
            indices@ == model.indices(),
            block_bytes@ == encode_all(indices@.take(i as int)),
        decreases indices@.len() - i,
    {
        write_unsigned(indices[i], &mut block_bytes);
        proof {
            lemma_encode_all_push(indices@.take(i as int), indices@[i as int]);
            assert(indices@.take(i + 1int) =~= indices@.take(i as int).push(indices@[i as int]));
        }
        i = i + 1;
    }
    assert(indices@.take(i as int) =~= indices@);
    let palette = model.palette();
    assert(palette@.map_values(|s: String| s@) == model.states());
    assert forall|i: int, j: int| 0 <= i < j < palette@.len() implies palette@[i]@ != palette@[j]@ by {
        assert(model.states()[i] == palette@[i]@);
        assert(model.states()[j] == palette@[j]@);
    }
    let order = key_order(palette);
    (order, block_bytes)
}

/// Encoding one more value appends its encoding.
proof fn lemma_encode_all_push(vs: Seq<u32>, v: u32)
    ensures
        encode_all(vs.push(v)) == encode_all(vs) + super::varint::encode_unsigned(v as nat),
    decreases vs.len(),
{
    if vs.len() == 0 {
        assert(vs.push(v).drop_first() =~= Seq::<u32>::empty());
        assert(encode_all(Seq::<u32>::empty()) =~= Seq::<u8>::empty());
        assert(encode_all(vs) =~= Seq::<u8>::empty());
        assert(encode_all(vs.push(v)) =~= super::varint::encode_unsigned(v as nat) + Seq::<
            u8,
        >::empty());
    } else {
        assert(vs.push(v).drop_first() =~= vs.drop_first().push(v));
        lemma_encode_all_push(vs.drop_first(), v);
        assert(vs.push(v)[0] == vs[0]);
    }
}

/// Appends the `Palette` compound.
fn push_palette_tag(out: &mut Vec<u8>, model: &VoxelModel, order: &Vec<usize>)
    requires
        model.wf(),
        order@ == palette_order(*model),
        is_key_order(utf8_keys(model.states()), order@),
    ensures
        final(out)@ == old(out)@ + palette_tag(*model),
{
    let palette = model.palette();
    push_named_tag(out, TAG_COMPOUND, "Palette");
    let ghost start = out@;
    let mut k: usize = 0;
    while k < order.len()
        invariant
            k <= order@.len(),
            order@ == palette_order(*model),
            is_key_order(utf8_keys(model.states()), order@),
            palette@.map_values(|s: String| s@) == model.states(),
            model.wf(),
            out@ == start + palette_entries(model.states(), order@.take(k as int)),
        decreases order@.len() - k,
    {
        let idx = order[k];
        assert((idx as int) < model.states().len());
        assert(order@.take(k + 1int).drop_last() =~= order@.take(k as int));
        push_int_tag_bits(out, palette[idx].as_str(), idx as u32);
        k = k + 1;
    }
    assert(order@.take(k as int) =~= order@);
    out.push(TAG_END);
    assert(final(out)@ =~= old(out)@ + palette_tag(*model));
}

/// Appends a named `TAG_Int` given by its bits.
fn push_int_tag_bits(out: &mut Vec<u8>, name: &str, bits: u32)
    ensures
        final(out)@ == old(out)@ + int_tag(name@, bits as int),
{
    push_named_tag(out, TAG_INT, name);
    push_be32(out, bits);
    assert(final(out)@ =~= old(out)@ + int_tag(name@, bits as int));
}

/// The model's dimensions as the schematic's signed `Short`s. `u16 -> i16` is
/// a bit-reinterpretation: the spec treats these as unsigned shorts, so
/// dimensions above 32767 round-trip correctly.
fn dims(model: &VoxelModel) -> (r: (i16, i16, i16))
    ensures
        r.0 as int % 0x1_0000 == model.dims().0,
        r.1 as int % 0x1_0000 == model.dims().1,
        r.2 as int % 0x1_0000 == model.dims().2,
{
    (short_bits(model.width()), short_bits(model.height()), short_bits(model.length()))
}

/// `v` reinterpreted as a signed short.
fn short_bits(v: u16) -> (r: i16)
    ensures
        r as int % 0x1_0000 == v as int,
{
    if v < 0x8000 {
        v as i16
    } else {
        (v as i32 - 0x1_0000) as i16
    }
}

/// Appends a named `TAG_Short` holding the bits of `v`.
fn push_signed_short_tag(out: &mut Vec<u8>, name: &str, v: i16)
    ensures
        final(out)@ == old(out)@ + short_tag(name@, v as int),
{
    let bits: u16 = if v < 0 {
        (v as i32 + 0x1_0000) as u16
    } else {
        v as u16
    };
    push_short_tag(out, name, bits);
    assert(be16(bits as int) == be16(v as int)) by {
        assert((bits as int) % 0x1_0000 == (v as int) % 0x1_0000);
    }
}

/// `be16` only looks at its argument modulo 2^16.
proof fn lemma_be16_mod(a: int, b: int)
    requires
        a % 0x1_0000 == b % 0x1_0000,
    ensures
        be16(a) == be16(b),
{
}

/// Appends the fields both versions begin with.
fn push_header_fields(out: &mut Vec<u8>, version: i32, model: &VoxelModel, opts: &SchematicOptions)
    ensures
        final(out)@ == old(out)@ + header_fields(version as int, *model, *opts),
{
    let (width, height, length) = dims(model);
    proof {
        lemma_be16_mod(width as int, model.dims().0 as int);
        lemma_be16_mod(height as int, model.dims().1 as int);
        lemma_be16_mod(length as int, model.dims().2 as int);
    }
    let ghost s0 = out@;
    push_int_tag(out, "Version", version);
    push_int_tag(out, "DataVersion", opts.data_version);
    let ghost s1 = out@;
    push_signed_short_tag(out, "Width", width);
    push_signed_short_tag(out, "Height", height);
    push_signed_short_tag(out, "Length", length);
    let ghost s2 = out@;
    assert(s2 == s1 + short_tag("Width"@, model.dims().0 as int) + short_tag(
        "Height"@,
        model.dims().1 as int,
    ) + short_tag("Length"@, model.dims().2 as int));
    match opts.offset {
        Some(o) => push_int_array3_tag(out, "Offset", o),
        None => {},
    }
    assert(out@ == s2 + offset_tag(*opts));
    assert(final(out)@ =~= old(out)@ + header_fields(version as int, *model, *opts));
}

/// Appends the `Metadata` compound, when a name is set.
fn push_metadata_tag(out: &mut Vec<u8>, opts: &SchematicOptions)
    ensures
        final(out)@ == old(out)@ + metadata_tag(*opts),
{
    match &opts.name {
        Some(name) => {
            push_named_tag(out, TAG_COMPOUND, "Metadata");
            push_string_tag(out, "Name", name.as_str());
            out.push(TAG_END);
        },
        None => {},
    }
    assert(final(out)@ =~= old(out)@ + metadata_tag(*opts));
}

/// Serialize to uncompressed Sponge v2 NBT (root compound named `"Schematic"`).
pub fn to_nbt_v2(model: &VoxelModel, opts: &SchematicOptions) -> (r: Result<Vec<u8>, SchemError>)
    requires
        model.wf(),
    ensures
        nbt_outcome(r, *model, nbt_v2(*model, *opts)),
        is_key_order(utf8_keys(model.states()), palette_order(*model)),
{
    let (order, block_data) = palette_and_data(model);
    match check_model(model, block_data.len()) {
        Some(e) => {
            return Err(SchemError::Nbt(e));
        },
        None => {},
    }
    let mut out: Vec<u8> = Vec::new();
    push_named_tag(&mut out, TAG_COMPOUND, "Schematic");
    push_header_fields(&mut out, 2, model, opts);
    let n = model.palette().len();
    push_int_tag_bits(&mut out, "PaletteMax", (n as u64 % 0x1_0000_0000) as u32);
    push_palette_tag(&mut out, model, &order);
    push_byte_array_tag(&mut out, "BlockData", block_data.as_slice());
    push_empty_list_tag(&mut out, "BlockEntities");
    push_metadata_tag(&mut out, opts);
    out.push(TAG_END);
    proof {
        lemma_be32_mod_any(n as int);
    }
    assert(out@ =~= nbt_v2(*model, *opts));
    Ok(out)
}

/// Serialize to uncompressed Sponge v3 NBT (unnamed root holding a `"Schematic"`
/// child, blocks under `Blocks { Palette, Data }`).
pub fn to_nbt_v3(model: &VoxelModel, opts: &SchematicOptions) -> (r: Result<Vec<u8>, SchemError>)
    requires
        model.wf(),
    ensures
        nbt_outcome(r, *model, nbt_v3(*model, *opts)),
        is_key_order(utf8_keys(model.states()), palette_order(*model)),
{
    let (order, block_data) = palette_and_data(model);
    match check_model(model, block_data.len()) {
        Some(e) => {
            return Err(SchemError::Nbt(e));
        },
        None => {},
    }
    let mut out: Vec<u8> = Vec::new();
    push_named_tag(&mut out, TAG_COMPOUND, "");
    push_named_tag(&mut out, TAG_COMPOUND, "Schematic");
    push_header_fields(&mut out, 3, model, opts);
    push_metadata_tag(&mut out, opts);
    push_named_tag(&mut out, TAG_COMPOUND, "Blocks");
    push_palette_tag(&mut out, model, &order);
    push_byte_array_tag(&mut out, "Data", block_data.as_slice());
    push_empty_list_tag(&mut out, "BlockEntities");
    out.push(TAG_END);
    out.push(TAG_END);
    out.push(TAG_END);
    assert(out@ =~= nbt_v3(*model, *opts));
    Ok(out)
}

/// `be32` of a number and of its bits modulo 2^32 agree.
proof fn lemma_be32_mod_any(v: int)
    requires
        v >= 0,
    ensures
        be32(v % 0x1_0000_0000) == be32(v),
{
    assert((v % 0x1_0000_0000) % 0x1_0000_0000 == v % 0x1_0000_0000);
}

/// Law: the block data of a well-formed model reads back, as varints, as the
/// model's index array: one index per cell, each naming a palette entry.
pub proof fn lemma_block_data_decodes(m: VoxelModel)
    requires
        m.wf(),
    ensures
        decode_all(block_data(m)) == Ok::<Seq<nat>, VarintError>(
            m.indices().map_values(|x: u32| x as nat),
        ),
        m.indices().len() == m.dims().0 * m.dims().1 * m.dims().2,
        forall|k: int| 0 <= k < m.indices().len() ==> (#[trigger] m.indices()[k] as int) < m.states().len(),
{
    lemma_decode_all_encoded(m.indices());
}

/// Values below 128 take one byte each.
proof fn lemma_encode_all_small(vs: Seq<u32>)
    requires
        forall|k: int| 0 <= k < vs.len() ==> #[trigger] vs[k] < 128,
    ensures
        encode_all(vs).len() == vs.len(),
    decreases vs.len(),
{
    if vs.len() > 0 {
        assert(vs[0] < 128);
        assert(super::varint::encode_unsigned(vs[0] as nat) == seq![vs[0] as u8]);
        assert forall|k: int| 0 <= k < vs.drop_first().len() implies #[trigger] vs.drop_first()[k]
            < 128 by {
            assert(vs.drop_first()[k] == vs[k + 1]);
        }
        lemma_encode_all_small(vs.drop_first());
    }
}

/// Law: with at most 128 palette entries every block takes exactly one byte
/// of block data.
pub proof fn lemma_small_palette_one_byte_per_block(m: VoxelModel)
    requires
        m.wf(),
        m.states().len() <= 128,
    ensures
        block_data(m).len() == m.dims().0 * m.dims().1 * m.dims().2,
{
    assert forall|k: int| 0 <= k < m.indices().len() implies #[trigger] m.indices()[k] < 128 by {}
    lemma_encode_all_small(m.indices());
}

/// Law: the dispatcher writes exactly the version-specific document.
pub proof fn lemma_dispatch_matches_versions(m: VoxelModel, opts: SchematicOptions)
    ensures
        nbt_of(SchematicVersion::V2, m, opts) == nbt_v2(m, opts),
        nbt_of(SchematicVersion::V3, m, opts) == nbt_v3(m, opts),
{
}

/// What compressing the document `doc` of `m` gives: the model's
/// serialization error where it meets one, else exactly `gzip_of(doc)`.
pub open spec fn schem_outcome(r: Result<Vec<u8>, SchemError>, m: VoxelModel, doc: Seq<u8>) -> bool {
    match nbt_error(m) {
        Some(e) => r matches Err(SchemError::Nbt(e2)) && e2 == e,
        None => gzip_outcome(r, doc),
    }
}

/// Law: the outcome of writing a `.schem` is a function of the model and
/// its document: two results that both meet it agree on whether they
/// succeed, on the bytes written, and on the error.
pub proof fn lemma_schem_outcome_determined(
    r1: Result<Vec<u8>, SchemError>,
    r2: Result<Vec<u8>, SchemError>,
    m: VoxelModel,
    doc: Seq<u8>,
)
    requires
        schem_outcome(r1, m, doc),
        schem_outcome(r2, m, doc),
    ensures
        r1 is Ok <==> r2 is Ok,
        r1 matches Ok(a) ==> (r2 matches Ok(b) && a@ == b@),
        r1 matches Err(SchemError::Nbt(e1)) ==> (r2 matches Err(SchemError::Nbt(e2)) && e1 == e2),
        r1 matches Err(SchemError::Io(_)) ==> r2 matches Err(SchemError::Io(_)),
{
}

/// Serialize to a gzip-compressed Sponge v2 `.schem` (`//schem load`).
pub fn to_schem_v2(model: &VoxelModel, opts: &SchematicOptions) -> (r: Result<
    Vec<u8>,
    SchemError,
>)
    requires
        model.wf(),
    ensures
        schem_outcome(r, *model, nbt_v2(*model, *opts)),
{
    let nbt = to_nbt_v2(model, opts)?;
    gzip(nbt)
}

/// Serialize to a gzip-compressed Sponge v3 `.schem`.
pub fn to_schem_v3(model: &VoxelModel, opts: &SchematicOptions) -> (r: Result<
    Vec<u8>,
    SchemError,
>)
    requires
        model.wf(),
    ensures
        schem_outcome(r, *model, nbt_v3(*model, *opts)),
{
    let nbt = to_nbt_v3(model, opts)?;
    gzip(nbt)
}

/// The uncompressed document of the requested version.
pub open spec fn nbt_of(version: SchematicVersion, m: VoxelModel, opts: SchematicOptions) -> Seq<
    u8,
> {
    match version {
        SchematicVersion::V2 => nbt_v2(m, opts),
        SchematicVersion::V3 => nbt_v3(m, opts),
    }
}

/// Serialize to a gzip-compressed `.schem` of the requested version.
pub fn to_schem(version: SchematicVersion, model: &VoxelModel, opts: &SchematicOptions) -> (r:
    Result<Vec<u8>, SchemError>)
    requires
        model.wf(),
    ensures
        schem_outcome(r, *model, nbt_of(version, *model, *opts)),
{
    match version {
        SchematicVersion::V2 => to_schem_v2(model, opts),
        SchematicVersion::V3 => to_schem_v3(model, opts),
    }
}

} // verus!
