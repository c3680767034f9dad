//! A library for reading, validating and writing Unified Font Object (UFO)
//! font packages and their `.glif` glyph files.
//!
//! The data model mirrors the on-disk format: a font owns layers, layers own
//! glyphs, and glyphs own outlines, anchors, guidelines and components. Every
//! structural rule of the format (contour grammar, identifier uniqueness,
//! store path validity, kerning group naming) is stated as a contract and
//! machine-checked.

pub mod datastore;
pub mod error;
pub mod filenames;
pub mod fontinfo;
pub mod glyph;
pub mod groups;
pub mod layer;
pub mod plist;
pub mod shared;
pub mod util;

pub use datastore::{DataStore, ImageStore};
pub use filenames::{default_file_name_for_glyph_name, unique_file_name_for_glyph_name};
pub use fontinfo::StyleMapStyle;
pub use error::{Error, ErrorKind, FontInfoErrorKind, GroupsValidationError, StoreError};
pub use groups::validate_groups;
pub use layer::{Layer, LayerSet};
pub use plist::{Plist, Value};
pub use shared::{Color, Guideline, Identifier, Line};
