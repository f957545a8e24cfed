//! Design-token resolution: a set of named tokens whose values may alias,
//! reference or derive from one another is resolved into concrete values, and
//! projected into CSS custom properties, a stylesheet or a path-to-text map.

pub mod css_var;
pub mod error;
pub mod json;
pub mod laws;
pub mod num;
pub mod output;
pub mod palette;
pub mod resolve_lemmas;
pub mod resolve_spec;
pub mod resolver;
pub mod text;
pub mod tokenset;
pub mod transform;
pub mod utils;
pub mod value;
pub mod doc;
