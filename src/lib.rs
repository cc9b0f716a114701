//! Verified core of a sticker pack importer: pack url parsing, payload
//! normalization decisions, a content-addressed fingerprint store, per-sticker
//! upload decisions and the reduction of per-sticker outcomes into an ordered
//! import result.
pub mod import;
pub mod normalize;
pub mod store;
pub mod text;
pub mod tg;
