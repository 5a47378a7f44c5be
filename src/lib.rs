//! Bill-of-materials extraction from a schematic's placed symbols.

pub mod text;
pub mod reference;
pub mod schematic;
pub mod bom;
pub mod lemmas;

pub use bom::{bom, extract_items, group_items, sort_items, BomError, BomItem};
pub use reference::reference;
pub use schematic::{Property, Schema, SchemaElement, Symbol};
