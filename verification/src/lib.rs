//! Highlight composition and line layout for a text viewport.
//!
//! Given a text buffer, a stream of nested style scopes, a set of selection
//! ranges and a rectangular viewport, the crate produces the styled,
//! screen-positioned text runs and gutter labels that a painter draws.

pub mod grapheme;
pub mod gutter;
pub mod highlight;
pub mod layering;
pub mod layout;
pub mod selection;
pub mod style;
pub mod text;
pub mod view;
pub mod viewport;
