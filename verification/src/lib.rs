use vstd::prelude::*;

pub mod features;
pub mod strings;
pub mod svg_text;
pub mod minify;
pub mod export;
pub mod glyph;
pub mod base64_text;
pub mod fingerprint;
pub mod span_map;
pub mod span_paths;
pub mod text_digest;
pub mod world;
pub mod concepts;
pub mod canvas;
pub mod group_order;
pub mod compile;
pub mod actor;
pub mod hast;
pub mod hex;
pub mod incr;
pub mod item_store;
pub mod sema;
pub mod sema_walk;
pub mod driver;
pub mod font_data;
