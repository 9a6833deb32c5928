//! Message-passing datatype and collective-operation abstractions.
//!
//! A datatype descriptor tells the message-passing runtime how the elements
//! of a buffer are laid out in memory.  This crate models a descriptor by the
//! layout it denotes: the byte offsets of the base scalar elements it covers,
//! together with its extent.  Combinators build structured descriptors
//! (contiguous, strided, indexed) from existing ones, buffers pair a memory
//! region with a descriptor and an element count, and the collective layer
//! turns buffers and a topology into the per-participant calls of a
//! collective operation.

use vstd::prelude::*;

pub mod buffer;
pub mod collective;
pub mod datatype;
pub mod partition;

verus! {

/// Element count of a communication call, as the runtime counts elements.
pub type Count = i32;

/// Byte displacement, as the runtime measures addresses.
pub type Address = i64;

} // verus!
