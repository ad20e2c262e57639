use std::collections::{BTreeMap, HashMap};
use std::io::Read;

use fastnbt::{ByteArray, IntArray, SerOpts, Value};
use serde::ser::{Serialize, SerializeStruct, Serializer};
use voxelens_core::schematic::{
    read_all_unsigned, to_nbt_v2, to_nbt_v3, to_schem, to_schem_v2, to_schem_v3, write_unsigned,
    NbtError, SchemError, SchematicOptions, SchematicVersion, VoxelModel,
};

const TEST_DATA_VERSION: i32 = 3700;
const AIR_KEY: &str = "minecraft:air";
const OAK: &str = "minecraft:oak_log[axis=y]";

fn oak_column() -> VoxelModel {
    let mut m = VoxelModel::new(1, 2, 1).unwrap();
    m.set(0, 0, 0, OAK);
    m.set(0, 1, 0, OAK);
    m
}

fn opts() -> SchematicOptions {
    SchematicOptions {
        data_version: TEST_DATA_VERSION,
        offset: None,
        name: None,
    }
}

fn gunzip(bytes: &[u8]) -> Vec<u8> {
    let mut decoder = flate2::read::GzDecoder::new(bytes);
    let mut out = Vec::new();
    decoder.read_to_end(&mut out).unwrap();
    out
}

fn decode_block_data(data: &ByteArray) -> Vec<u32> {
    let raw: Vec<u8> = data.iter().map(|&b| b as u8).collect();
    read_all_unsigned(&raw).unwrap()
}

// --- reference documents, written through serde and fastnbt ---------------

struct RefMetadata {
    name: String,
}

impl Serialize for RefMetadata {
    fn serialize<S: Serializer>(&self, s: S) -> Result<S::Ok, S::Error> {
        let mut st = s.serialize_struct("Metadata", 1)?;
        st.serialize_field("Name", &self.name)?;
        st.end()
    }
}

struct RefFields {
    data_version: i32,
    width: i16,
    height: i16,
    length: i16,
    offset: Option<IntArray>,
    metadata: Option<RefMetadata>,
    palette: BTreeMap<String, i32>,
    data: ByteArray,
    palette_max: i32,
}

struct RefV2(RefFields);

impl Serialize for RefV2 {
    fn serialize<S: Serializer>(&self, s: S) -> Result<S::Ok, S::Error> {
        let f = &self.0;
        let mut st = s.serialize_struct("SchematicV2", 11)?;
        st.serialize_field("Version", &2i32)?;
        st.serialize_field("DataVersion", &f.data_version)?;
        st.serialize_field("Width", &f.width)?;
        st.serialize_field("Height", &f.height)?;
        st.serialize_field("Length", &f.length)?;
        if let Some(o) = &f.offset {
            st.serialize_field("Offset", o)?;
        }
        st.serialize_field("PaletteMax", &f.palette_max)?;
        st.serialize_field("Palette", &f.palette)?;
        st.serialize_field("BlockData", &f.data)?;
        st.serialize_field("BlockEntities", &Vec::<i32>::new())?;
        if let Some(m) = &f.metadata {
            st.serialize_field("Metadata", m)?;
        }
        st.end()
    }
}

struct RefBlocks<'a>(&'a RefFields);

impl<'a> Serialize for RefBlocks<'a> {
    fn serialize<S: Serializer>(&self, s: S) -> Result<S::Ok, S::Error> {
        let mut st = s.serialize_struct("BlocksV3", 3)?;
        st.serialize_field("Palette", &self.0.palette)?;
        st.serialize_field("Data", &self.0.data)?;
        st.serialize_field("BlockEntities", &Vec::<i32>::new())?;
        st.end()
    }
}

struct RefV3Body<'a>(&'a RefFields);

impl<'a> Serialize for RefV3Body<'a> {
    fn serialize<S: Serializer>(&self, s: S) -> Result<S::Ok, S::Error> {
        let f = self.0;
        let mut st = s.serialize_struct("SchematicV3Body", 8)?;
        st.serialize_field("Version", &3i32)?;
        st.serialize_field("DataVersion", &f.data_version)?;
        st.serialize_field("Width", &f.width)?;
        st.serialize_field("Height", &f.height)?;
        st.serialize_field("Length", &f.length)?;
        if let Some(o) = &f.offset {
            st.serialize_field("Offset", o)?;
        }
        if let Some(m) = &f.metadata {
            st.serialize_field("Metadata", m)?;
        }
        st.serialize_field("Blocks", &RefBlocks(f))?;
        st.end()
    }
}

struct RefV3(RefFields);

impl Serialize for RefV3 {
    fn serialize<S: Serializer>(&self, s: S) -> Result<S::Ok, S::Error> {
        let mut st = s.serialize_struct("SchematicV3File", 1)?;
        st.serialize_field("Schematic", &RefV3Body(&self.0))?;
        st.end()
    }
}

fn ref_fields(model: &VoxelModel, o: &SchematicOptions) -> RefFields {
    let mut block_bytes = Vec::new();
    for &index in model.block_indices() {
        write_unsigned(index, &mut block_bytes);
    }
    let mut palette = BTreeMap::new();
    for (i, state) in model.palette().iter().enumerate() {
        palette.insert(state.clone(), i as i32);
    }
    RefFields {
        data_version: o.data_version,
        width: model.width() as i16,
        height: model.height() as i16,
        length: model.length() as i16,
        offset: o.offset.map(|v| IntArray::new(v.to_vec())),
        metadata: o.name.clone().map(|name| RefMetadata { name }),
        palette,
        data: ByteArray::new(block_bytes.into_iter().map(|b| b as i8).collect()),
        palette_max: model.palette().len() as i32,
    }
}

fn reference_v2(model: &VoxelModel, o: &SchematicOptions) -> Vec<u8> {
    fastnbt::to_bytes_with_opts(
        &RefV2(ref_fields(model, o)),
        SerOpts::new().root_name("Schematic"),
    )
    .unwrap()
}

fn reference_v3(model: &VoxelModel, o: &SchematicOptions) -> Vec<u8> {
    fastnbt::to_bytes(&RefV3(ref_fields(model, o))).unwrap()
}

// --- generic NBT accessors ----------------------------------------------------

fn as_compound(v: &Value) -> &HashMap<String, Value> {
    match v {
        Value::Compound(m) => m,
        other => panic!("expected Compound, got {other:?}"),
    }
}

fn require<'a>(m: &'a HashMap<String, Value>, key: &str) -> &'a Value {
    m.get(key)
        .unwrap_or_else(|| panic!("missing required field {key:?}"))
}

fn as_int(v: &Value) -> i32 {
    match v {
        Value::Int(i) => *i,
        other => panic!("expected Int, got {other:?}"),
    }
}

fn as_short(v: &Value) -> i16 {
    match v {
        Value::Short(s) => *s,
        other => panic!("expected Short, got {other:?}"),
    }
}

fn as_byte_array(v: &Value) -> &ByteArray {
    match v {
        Value::ByteArray(b) => b,
        other => panic!("expected ByteArray, got {other:?}"),
    }
}

fn as_string(v: &Value) -> &str {
    match v {
        Value::String(s) => s,
        other => panic!("expected String, got {other:?}"),
    }
}

/// Assert the spec's "block container" invariants for a Palette + block-data
/// pair (v2's root fields, or v3's `Blocks` compound).
fn assert_block_container(palette: &Value, data: &Value, w: i16, h: i16, l: i16) {
    // Palette: each value is an Int, and the indices are contiguous 0..N.
    let palette = as_compound(palette);
    let mut indices: Vec<i32> = palette.values().map(as_int).collect();
    indices.sort_unstable();
    let n = indices.len() as i32;
    assert_eq!(
        indices,
        (0..n).collect::<Vec<_>>(),
        "palette indices must be contiguous 0..N"
    );

    // Block data: a varint byte array; one entry per cell; every index valid.
    let raw: Vec<u8> = as_byte_array(data).iter().map(|&b| b as u8).collect();
    let decoded = read_all_unsigned(&raw).expect("block data must be valid varints");
    let volume = w as u16 as usize * h as u16 as usize * l as u16 as usize;
    assert_eq!(
        decoded.len(),
        volume,
        "block count must equal Width*Height*Length"
    );
    assert!(
        decoded.iter().all(|&i| (i as i32) < n),
        "every block index must be < palette size"
    );
}

// --- v2 ---------------------------------------------------------------------

#[test]
fn v2_nbt_round_trips() {
    let nbt = to_nbt_v2(&oak_column(), &opts()).unwrap();
    let root = fastnbt::from_bytes::<Value>(&nbt).unwrap();
    let m = as_compound(&root);

    assert_eq!(as_int(require(m, "Version")), 2);
    assert_eq!(as_int(require(m, "DataVersion")), TEST_DATA_VERSION);
    assert_eq!(
        (
            as_short(require(m, "Width")),
            as_short(require(m, "Height")),
            as_short(require(m, "Length"))
        ),
        (1, 2, 1)
    );
    assert_eq!(as_int(require(m, "PaletteMax")), 2);
    let palette = as_compound(require(m, "Palette"));
    assert_eq!(palette.get(AIR_KEY).map(as_int), Some(0));
    assert_eq!(palette.get(OAK).map(as_int), Some(1));
    assert!(m.get("Offset").is_none());
    assert!(m.get("Metadata").is_none());
    assert_eq!(
        decode_block_data(as_byte_array(require(m, "BlockData"))),
        vec![1, 1]
    );
}

#[test]
fn v2_root_compound_is_named_schematic() {
    let nbt = to_nbt_v2(&oak_column(), &opts()).unwrap();
    assert_eq!(nbt[0], 0x0a, "TAG_Compound");
    assert_eq!(&nbt[1..3], &[0x00, 0x09], "root name length 9");
    assert_eq!(&nbt[3..12], b"Schematic", "root name");
}

#[test]
fn v2_schem_is_gzipped_nbt() {
    let model = oak_column();
    let o = opts();
    let nbt = to_nbt_v2(&model, &o).unwrap();
    let schem = to_schem_v2(&model, &o).unwrap();
    assert_eq!(&schem[0..2], &[0x1f, 0x8b], "gzip magic");
    assert_eq!(gunzip(&schem), nbt);
}

#[test]
fn v2_offset_and_metadata_are_emitted_when_set() {
    let o = SchematicOptions {
        data_version: TEST_DATA_VERSION,
        offset: Some([1, 2, 3]),
        name: Some("col".to_string()),
    };
    let nbt = to_nbt_v2(&oak_column(), &o).unwrap();
    let root = fastnbt::from_bytes::<Value>(&nbt).unwrap();
    let m = as_compound(&root);
    match require(m, "Offset") {
        Value::IntArray(a) => assert_eq!(a.iter().copied().collect::<Vec<i32>>(), vec![1, 2, 3]),
        other => panic!("expected IntArray, got {other:?}"),
    }
    let meta = as_compound(require(m, "Metadata"));
    assert_eq!(as_string(require(meta, "Name")), "col");
}

/// Pins the exact uncompressed bytes against the same document written
/// through serde and fastnbt. Catches any drift in field order, types, or
/// palette ordering.
#[test]
fn v2_matches_golden_nbt() {
    let nbt = to_nbt_v2(&oak_column(), &opts()).unwrap();
    let golden = reference_v2(&oak_column(), &opts());
    assert_eq!(
        nbt, golden,
        "uncompressed v2 NBT drifted from the reference document"
    );
}

// --- v3 ---------------------------------------------------------------------

#[test]
fn v3_nbt_round_trips() {
    let nbt = to_nbt_v3(&oak_column(), &opts()).unwrap();
    let root = fastnbt::from_bytes::<Value>(&nbt).unwrap();
    let s = as_compound(require(as_compound(&root), "Schematic"));

    assert_eq!(as_int(require(s, "Version")), 3);
    assert_eq!(as_int(require(s, "DataVersion")), TEST_DATA_VERSION);
    assert_eq!(
        (
            as_short(require(s, "Width")),
            as_short(require(s, "Height")),
            as_short(require(s, "Length"))
        ),
        (1, 2, 1)
    );
    let blocks = as_compound(require(s, "Blocks"));
    let palette = as_compound(require(blocks, "Palette"));
    assert_eq!(palette.get(AIR_KEY).map(as_int), Some(0));
    assert_eq!(palette.get(OAK).map(as_int), Some(1));
    assert_eq!(
        decode_block_data(as_byte_array(require(blocks, "Data"))),
        vec![1, 1]
    );
}

#[test]
fn v3_root_is_unnamed_with_schematic_child() {
    let nbt = to_nbt_v3(&oak_column(), &opts()).unwrap();
    // Unnamed root compound.
    assert_eq!(nbt[0], 0x0a, "root TAG_Compound");
    assert_eq!(&nbt[1..3], &[0x00, 0x00], "root name length 0 (unnamed)");
    // First child: a compound named "Schematic".
    assert_eq!(nbt[3], 0x0a, "child TAG_Compound");
    assert_eq!(&nbt[4..6], &[0x00, 0x09], "child name length 9");
    assert_eq!(&nbt[6..15], b"Schematic", "child name");
}

#[test]
fn v3_schem_is_gzipped_nbt() {
    let model = oak_column();
    let o = opts();
    let nbt = to_nbt_v3(&model, &o).unwrap();
    let schem = to_schem_v3(&model, &o).unwrap();
    assert_eq!(&schem[0..2], &[0x1f, 0x8b], "gzip magic");
    assert_eq!(gunzip(&schem), nbt);
}

#[test]
fn dispatcher_matches_version_specific() {
    let m = oak_column();
    let o = opts();
    assert_eq!(
        to_schem(SchematicVersion::V2, &m, &o).unwrap(),
        to_schem_v2(&m, &o).unwrap()
    );
    assert_eq!(
        to_schem(SchematicVersion::V3, &m, &o).unwrap(),
        to_schem_v3(&m, &o).unwrap()
    );
}

/// Pins the exact uncompressed v3 bytes against the same document written
/// through serde and fastnbt.
#[test]
fn v3_matches_golden_nbt() {
    let nbt = to_nbt_v3(&oak_column(), &opts()).unwrap();
    let golden = reference_v3(&oak_column(), &opts());
    assert_eq!(
        nbt, golden,
        "uncompressed v3 NBT drifted from the reference document"
    );
}

// --- spec conformance -------------------------------------------------------

#[test]
fn v2_conforms_to_spec() {
    let nbt = to_nbt_v2(&oak_column(), &opts()).unwrap();
    let root = fastnbt::from_bytes::<Value>(&nbt).unwrap();
    let m = as_compound(&root);

    assert_eq!(as_int(require(m, "Version")), 2);
    as_int(require(m, "DataVersion")); // present and an Int
    let (w, h, l) = (
        as_short(require(m, "Width")),
        as_short(require(m, "Height")),
        as_short(require(m, "Length")),
    );
    assert_eq!(
        as_int(require(m, "PaletteMax")),
        as_compound(require(m, "Palette")).len() as i32,
        "PaletteMax must equal the palette entry count"
    );
    assert_block_container(require(m, "Palette"), require(m, "BlockData"), w, h, l);
    assert!(matches!(require(m, "BlockEntities"), Value::List(_)));
}

#[test]
fn v3_conforms_to_spec() {
    let nbt = to_nbt_v3(&oak_column(), &opts()).unwrap();
    let root = fastnbt::from_bytes::<Value>(&nbt).unwrap();
    let schematic = as_compound(require(as_compound(&root), "Schematic"));

    assert_eq!(as_int(require(schematic, "Version")), 3);
    as_int(require(schematic, "DataVersion"));
    let (w, h, l) = (
        as_short(require(schematic, "Width")),
        as_short(require(schematic, "Height")),
        as_short(require(schematic, "Length")),
    );
    assert!(
        !schematic.contains_key("PaletteMax"),
        "v3 must not carry the v2-only PaletteMax field"
    );

    let blocks = as_compound(require(schematic, "Blocks"));
    assert_block_container(require(blocks, "Palette"), require(blocks, "Data"), w, h, l);
    assert!(matches!(require(blocks, "BlockEntities"), Value::List(_)));
}

// --- further cases ----------------------------------------------------------

fn varied_model() -> VoxelModel {
    // Names in no particular order, some sharing prefixes, some non-ASCII
    // (two-, three- and four-byte UTF-8, and NUL).
    let names = [
        "minecraft:stone",
        "b",
        "minecraft:oak_log[axis=x]",
        "Zebra",
        "minecraft:oak_log",
        "caf\u{e9}",
        "\u{4e2d}\u{6587}",
        "emoji\u{1f600}",
        "nul\u{0}byte",
        "minecraft:oak_log[axis=y]",
        "a",
        "",
    ];
    let mut m = VoxelModel::new(4, 3, 5).unwrap();
    let mut k = 0usize;
    for y in 0..3u16 {
        for z in 0..5u16 {
            for x in 0..4u16 {
                if (x + y + z) % 3 != 0 {
                    m.set(x, y, z, names[k % names.len()]);
                    k += 1;
                }
            }
        }
    }
    m
}

#[test]
fn varied_palette_matches_reference_in_both_versions() {
    let m = varied_model();
    for o in [
        opts(),
        SchematicOptions {
            data_version: -5,
            offset: Some([-1, 0, i32::MAX]),
            name: Some("n\u{e4}me\u{1f600}".to_string()),
        },
    ] {
        assert_eq!(to_nbt_v2(&m, &o).unwrap(), reference_v2(&m, &o));
        assert_eq!(to_nbt_v3(&m, &o).unwrap(), reference_v3(&m, &o));
    }
}

#[test]
fn palette_entries_are_listed_in_name_order() {
    let mut m = VoxelModel::new(3, 1, 1).unwrap();
    m.set(0, 0, 0, "c");
    m.set(1, 0, 0, "a");
    m.set(2, 0, 0, "b");
    let nbt = to_nbt_v2(&m, &opts()).unwrap();
    // Position of each name in the output.
    let find = |needle: &[u8]| {
        nbt.windows(needle.len())
            .position(|w| w == needle)
            .expect("name present")
    };
    let pa = find(&[0x03, 0x00, 0x01, b'a']);
    let pb = find(&[0x03, 0x00, 0x01, b'b']);
    let pc = find(&[0x03, 0x00, 0x01, b'c']);
    let pair = find(b"minecraft:air");
    assert!(pa < pb && pb < pc && pc < pair);
}

#[test]
fn wide_dimensions_are_unsigned_shorts() {
    let m = VoxelModel::new(40000, 1, 1).unwrap();
    let nbt = to_nbt_v2(&m, &opts()).unwrap();
    let root = fastnbt::from_bytes::<Value>(&nbt).unwrap();
    let w = as_short(require(as_compound(&root), "Width"));
    assert_eq!(w as u16, 40000);
    assert_eq!(nbt, reference_v2(&m, &opts()));
}

#[test]
fn reserved_palette_name_is_an_nbt_error() {
    for name in [
        "__fastnbt_byte_array",
        "__fastnbt_int_array",
        "__fastnbt_long_array",
    ] {
        let mut m = VoxelModel::new(1, 1, 1).unwrap();
        m.set(0, 0, 0, name);
        assert!(matches!(
            to_nbt_v2(&m, &opts()),
            Err(SchemError::Nbt(NbtError::ReservedName))
        ));
        assert!(matches!(
            to_schem(SchematicVersion::V3, &m, &opts()),
            Err(SchemError::Nbt(NbtError::ReservedName))
        ));
        // The same document written through serde and fastnbt fails too.
        let fields = ref_fields(&m, &opts());
        assert!(fastnbt::to_bytes(&RefV3(fields)).is_err());
    }
}

#[test]
fn gzip_stream_has_fixed_header_and_length_trailer() {
    let m = varied_model();
    let nbt = to_nbt_v3(&m, &opts()).unwrap();
    let schem = to_schem_v3(&m, &opts()).unwrap();
    assert_eq!(&schem[..10], &[0x1f, 0x8b, 8, 0, 0, 0, 0, 0, 0, 0xff]);
    let n = schem.len();
    assert_eq!(&schem[n - 4..], &(nbt.len() as u32).to_le_bytes());
    assert_eq!(gunzip(&schem), nbt);
}

#[test]
fn small_palette_takes_one_byte_per_block() {
    let m = varied_model();
    assert!(m.palette().len() <= 128);
    let nbt = to_nbt_v2(&m, &opts()).unwrap();
    let root = fastnbt::from_bytes::<Value>(&nbt).unwrap();
    let data = as_byte_array(require(as_compound(&root), "BlockData"));
    assert_eq!(data.len(), m.volume());
}

#[test]
fn large_palette_needs_two_bytes_for_high_indices() {
    let mut m = VoxelModel::new(200, 1, 1).unwrap();
    for x in 0..200u16 {
        m.set(x, 0, 0, &format!("block{x}"));
    }
    let nbt = to_nbt_v2(&m, &opts()).unwrap();
    let root = fastnbt::from_bytes::<Value>(&nbt).unwrap();
    let raw: Vec<u8> = as_byte_array(require(as_compound(&root), "BlockData"))
        .iter()
        .map(|&b| b as u8)
        .collect();
    // Indices 1..=127 take one byte, 128..=200 two.
    assert_eq!(raw.len(), 127 + 2 * 73);
    assert_eq!(
        read_all_unsigned(&raw).unwrap(),
        (1..=200u32).collect::<Vec<_>>()
    );
    assert_eq!(nbt, reference_v2(&m, &opts()));
}
