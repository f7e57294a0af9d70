//! Edit-resilient text positions, multi-cursor selections and the
//! content-level text queries that interactive text views build on.

pub mod anchor;
pub(crate) mod ids;
pub mod selection;
pub mod text;
pub mod expand;
pub mod state;
pub mod focus;
pub mod glyph;
pub mod key_repeat;
pub mod measure;
pub mod layout;
pub mod rope_view;
pub mod wrap;
pub mod runs;
pub mod rows;
pub mod styled;
pub mod faces;
