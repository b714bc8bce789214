use vstd::prelude::*;

verus! {

/// Identifier of a stream.
pub type Sid = u64;

/// Identifier of a message.
pub type Mid = u64;

/// Priority of a stream; smaller values are served first.
pub type Prio = u8;

/// Bit set of guarantees that a stream gives.
pub type Promises = u8;

/// Bandwidth in bytes per second.
pub type Bandwidth = u64;

} // verus!
