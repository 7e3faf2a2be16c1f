//! Editing of ASN.1 TLV trees: a type-aware encoder that turns user text
//! into the content bytes a tag requires, and an arena of nodes whose
//! parent/child links stay consistent across structural edits.

pub mod text;
pub mod value;
pub mod time;
pub mod encode;
pub mod tree;
pub mod project;
pub mod state;
pub mod der;
