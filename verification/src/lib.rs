//! A versioned, local-only experimental data store for osu!standard difficulty research.

pub mod archive;
pub mod beatmap;
pub mod bytes;
pub mod catalog;
pub mod checksum;
pub mod cookie;
pub mod display;
pub mod export;
pub mod float_bits;
pub mod html;
pub mod imports;
pub mod index;
pub mod mania;
pub mod mania_file;
pub mod mania_index;
pub mod mania_normalizer;
pub mod normalizer;
pub mod normalizer_file;
pub mod ordered;
pub mod packs;
pub mod paths;
pub mod publish;
pub mod records;
pub mod sorting;
pub mod source;
pub mod store;
pub mod text;
pub mod transaction;
pub mod transfer;
pub mod types;
