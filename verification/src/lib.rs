//! Deduplication of derived implementations.
//!
//! When a program needs a type to support a built-in ability (equality,
//! hashing, encoding, decoding), an implementation of that ability is
//! synthesized for the concrete shape of the type. Implementations are
//! addressed by a fingerprint of the type's structure, so that two
//! requirements with the same structure share one implementation.
//!
//! Different abilities can reuse an implementation on the strength of
//! different properties of a type:
//!
//! - equality and hashing do not care about surface representation; their
//!   implementations are addressed by the layout of a type alone;
//! - encoding must care about surface representation: `{ a: "" }` and
//!   `{ b: "" }` are encoded differently. It need not tell a required
//!   record field from an optional one;
//! - decoding is like encoding, but does tell required from optional fields.
//!
//! For these reasons a fingerprint is always taken under a [`Strategy`].
//!
//! The parts, leaves first:
//!
//! - [`type_graph`]: the resolved types, in an arena;
//! - [`strategy`]: the abilities, their strategies, and what each strategy
//!   observes of a type;
//! - [`shape`]: the shape of a type under a strategy, finite also where the
//!   type mentions itself;
//! - [`content_hash`]: the fingerprint of a shape;
//! - [`deriver_hash`]: the key made of strategy and fingerprint;
//! - [`cache`]: the store of implementations, in which each key is
//!   synthesized at most once;
//! - [`low_level`] and [`implementation`]: the primitive operations and the
//!   bodies that are written over them;
//! - [`place`]: the canonical places by which a body addresses the fields
//!   of a record and the variants of a tag union;
//! - [`compose`] and [`synthesize`]: how the body of a type is put together
//!   from the implementations of its nested types, and the one operation
//!   that hands out the implementation of an ability for a type.
//!
//! [`Strategy`]: strategy::Strategy

pub mod cache;
pub mod compose;
pub mod content_hash;
pub mod deriver_hash;
pub mod implementation;
pub mod low_level;
pub mod place;
pub mod shape;
pub mod strategy;
pub mod synthesize;
pub mod type_graph;
