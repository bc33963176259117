//! Builder for immutable, fixed-capacity, open-addressed hash tables using
//! Robin Hood hashing, together with a histogram accumulator for
//! characterizing probe-length distributions.
//!
//! The builder is a write-once pipeline: plan a power-of-two capacity from an
//! expected entry count, insert every entry (each insertion reports the probe
//! displacement the settled entry required), then render the finished table
//! as a deterministic textual artifact for embedding elsewhere.

pub mod builder;
pub mod capacity;
pub mod hist;
pub mod text;

pub use builder::Builder;
pub use builder::ConstHash;
pub use builder::Entry;
pub use builder::IdentityHash;
pub use builder::KeyHasher;
pub use builder::TableKey;
pub use hist::Hist;
