//! Style attributes over byte ranges of a line of text: colors, font traits,
//! and an ordered map of non-overlapping spans with overwrite-on-insert and
//! split semantics.

pub mod attrs;
pub mod attrs_list;
pub mod color;
pub mod span_map;

pub use attrs::{
    Attrs, AttrsOwned, FaceDescriptor, Family, FamilyOwned, Stretch, Style, Weight, NORMAL_WEIGHT,
    UNIT_SCALING_BITS,
};
pub use attrs_list::AttrsList;
pub use color::Color;
pub use span_map::{Entry, SpanMap};
