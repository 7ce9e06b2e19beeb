//! Codecs for packed logical addresses.
//!
//! A logical address packs pool, shard, hash, object and clone identifiers,
//! flags and an offset into 128 bits.  Three layouts exist, one per format
//! generation; they share nothing but the notion of a bit field:
//!
//! - [`variant_a`]: the address in two 64-bit halves, with a random field
//!   whose width depends on whether a shadow flag is in use;
//! - [`variant_b`]: one 128-bit word whose object content is split between
//!   clone id and offset at a width that the caller chooses;
//! - [`variant_c`]: one 128-bit word that decodes to a short form when its
//!   prefix is zero.
//!
//! [`bitfield`] holds the field descriptor and its laws, [`text`] the
//! writing and reading of numbers, [`row`] the rows that a decoded address
//! is shown as, and [`error`] the reasons for which input is rejected.

pub mod bitfield;
pub mod error;
pub mod row;
pub mod text;
pub mod variant_a;
pub mod variant_b;
pub mod variant_c;
