//! Incremental Z-ordered draw-list cache, together with a few pure helpers
//! for glTF asset import (image-format detection and buffer bookkeeping).
//!
//! The heart of the crate is [`cache::CachedDrawOrder`]: an ordered list of
//! `(depth, identity)` pairs kept sorted back-to-front (largest depth first),
//! refreshed once per frame from the current membership of visible elements.

pub mod cache;
pub mod importer;
