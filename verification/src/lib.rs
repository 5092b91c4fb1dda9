//! A codec for a tag-length-value wire format: records, unions, sequences
//! and scalars are packed into bytes and unpacked from them, and readers
//! pass over what they do not know.

pub mod de;
pub mod error;
pub mod layout;
pub mod roundtrip;
pub mod ser;
pub mod value;
pub mod wire;

pub use de::from_bytes;
pub use ser::to_bytes;
