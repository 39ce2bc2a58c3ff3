//! Reading and writing the ISP tuning parameter file of Ingenic T31 camera
//! firmware (`gc2053-t31.bin`), and its textual form.
//!
//! The layout of a profile comes from the firmware's C header (`header`);
//! the file holds a version string, a header with size and checksum, and a
//! day and a night profile (`blob`); each profile is a sequence of aligned
//! integer arrays (`profile`, `element`); the textual form lists every
//! field of both profiles by name (`toml`, `toml_read`).
pub mod blob;
pub mod complete;
pub mod crc;
pub mod element;
pub mod header;
pub mod header_laws;
pub mod params;
pub mod profile;
pub mod schema;
pub mod text;
pub mod toml;
pub mod toml_fit;
pub mod toml_laws;
pub mod toml_read;

pub use blob::{decode, encode, DecodeError};
pub use header::{parse_schema, HeaderError};
pub use params::{IspParams, ParamMap};
pub use schema::{FieldSpec, Schema};
pub use toml::to_toml;
pub use toml_read::{from_toml, TomlError};
