//! Core of a content-addressed object store: the object model (blobs, trees,
//! commits, tags), their wire format, content hashing, compressed storage
//! encoding and the decisions that drive a checkout.
//!
//! The library reads no file and writes none. Its functions take and return
//! bytes; the caller moves them to and from the disk.
//!
//! - `bytes`, `text`, `decimal`, `hex`: byte strings and the small formats
//!   that the others are made of.
//! - `codec`: digests and compression.
//! - `kind`, `tree`, `kvlm`, `object`: the four kinds of object, their
//!   payloads, and the laws that tie reading to writing.
//! - `store`: frames, keys and paths of stored objects.
//! - `checkout`, `plan`: the steps of a checkout, and what they amount to.
//! - `error`: the errors of all of them.

pub mod bytes;
pub mod checkout;
pub mod codec;
pub mod decimal;
pub mod error;
pub mod hex;
pub mod kind;
pub mod kvlm;
pub mod object;
pub mod plan;
pub mod store;
pub mod text;
pub mod tree;
