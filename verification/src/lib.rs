//! Reorganizes structure types with native bit-fields into a layout for a
//! target language without a bit-field primitive: consecutive bit-fields are
//! packed into byte-array members with accessor metadata, gaps become explicit
//! padding members, and initialization and compound assignment on bit-fields
//! are rewritten into accessor-call sequences that keep byte size, field order
//! and evaluation order faithful to the source layout.
pub mod ast;
pub mod fields;
pub mod structs;
pub mod info;
pub mod laws;
