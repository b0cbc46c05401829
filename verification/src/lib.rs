//! Decoder, validator, and symmetric encoder for the binary catalog tables a
//! family of portable media players keeps on device. A table file holds a
//! fixed 16-byte envelope, a directory of class descriptions, and one class
//! body per description; each body carries a tagged array of elements. Two
//! element layouts are supported: group listings (GPLB) and track listings
//! (TPLB), together the sorted projections of the device's track catalog.

pub mod consistency;
pub mod cursor;
pub mod decode;
pub mod encode;
pub mod laws;
pub mod model;

pub use consistency::Axis;
pub use consistency::IndexInconsistency;
pub use consistency::IndexViolation;
pub use consistency::validate_pair;
pub use decode::parse_table;
pub use encode::encode_table;
pub use encode::is_well_formed;
pub use model::Class;
pub use model::ClassDescription;
pub use model::ClassKind;
pub use model::DecodeError;
pub use model::GplbElement;
pub use model::Table;
pub use model::TplbElement;
