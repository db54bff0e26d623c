//! MP4 container helpers: NAL / OBU framing, codec header parsing, sample
//! entry construction and encoding, and the `moov` box tree (encoding,
//! decoding and access to its sample tables). Each operation states what it
//! returns for every input, and the laws that tie operations together
//! (round trips, lookups, framing) are stated as proof functions.
use vstd::prelude::*;

pub mod accessor_messages;
pub mod auxiliary;
pub mod av1;
pub mod bits;
pub mod boxes;
pub mod boxes_moov_tree;
pub mod codec;
pub mod container_roundtrips;
pub mod containers;
pub mod error;
pub mod h264;
pub mod h265;
pub mod header_boxes;
pub mod moov_encoders;
pub mod nal;
pub mod opus;
pub mod sample_entries;
pub mod tree_roundtrips;
pub mod vp8;
pub mod vp9;

verus! {
} // verus!
