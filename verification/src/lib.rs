//! Byte-order-aware packing of fixed-width values into byte sequences and back.
//!
//! Every packable type implements [`Packable`]: the integers of 8 to 128 bits,
//! byte blocks of fixed length, and the [`Flag`] container. Records of mixed
//! fields are packed and unpacked in one call by [`pack`] and [`unpack`],
//! lists of one type by [`pack_fields`] and [`unpack_fields`].

pub mod block;
pub mod bytes;
pub mod codec;
pub mod error;
pub mod flag;
pub mod numeric;
pub mod record;
pub mod sequence;

pub use crate::codec::Packable;
pub use crate::error::ErrorKind;
pub use crate::error::PackableError;
pub use crate::flag::Flag;
pub use crate::record::pack;
pub use crate::record::unpack;
pub use crate::record::Fields;
pub use crate::sequence::pack_field;
pub use crate::sequence::pack_fields;
pub use crate::sequence::unpack_field;
pub use crate::sequence::unpack_fields;
