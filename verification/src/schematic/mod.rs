//! The voxel data model and Sponge `.schem` serialization.
//!
//! [`VoxelModel`] is the central 3D grid type produced by reconstruction and
//! consumed by the schematic writer. [`to_schem`] serializes it to a
//! WorldEdit-loadable `.schem` file.
mod key_order;
mod nbt;
mod schem;
mod varint;
mod voxel_model;

pub use key_order::{
    bytes_lt, is_key_order, key_order, key_order_of, lemma_key_order_unique, lemma_lex_asymmetric,
    lemma_lex_irreflexive, lemma_lex_total, lemma_lex_transitive, lex_lt, utf8_keys,
};
pub use nbt::{
    be16, be32, byte_array_tag, empty_list_tag, int_array3_tag, int_tag, java_char, java_utf8,
    lemma_java_char_is_utf8_in_bmp, lemma_java_utf8_is_utf8_in_bmp,
    named_tag, nbt_string, short_tag, string_tag,
};
pub use schem::{
    block_data, gzip_framed, gzip_header, gzip_of, gzip_outcome, header_fields, is_reserved_name, le32,
    lemma_block_data_decodes, lemma_dispatch_matches_versions, lemma_schem_outcome_determined,
    lemma_small_palette_one_byte_per_block, metadata_tag, nbt_error, nbt_of,
    nbt_outcome, nbt_v2, nbt_v3, offset_tag, palette_entries, palette_order, palette_tag,
    schem_outcome, to_nbt_v2, to_nbt_v3, to_schem, to_schem_v2, to_schem_v3, NbtError, SchemError,
    SchematicOptions, SchematicVersion,
};
pub use varint::{
    decode_all, decode_from, decode_unsigned, encode_all, encode_unsigned, groups_value,
    lemma_decode_all_encoded, lemma_decode_all_truncated, lemma_decode_encoded, lemma_encode_shape,
    pow128, read_all_unsigned, read_all_view, read_unsigned, read_view, write_unsigned,
    VarintError,
};
pub use voxel_model::{
    flat_index, lemma_flat_index_bounds, lemma_flat_index_injective, VoxelError, VoxelModel, AIR,
};
