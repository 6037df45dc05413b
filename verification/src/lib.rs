pub mod bytes;
pub mod code;
pub mod indexed;
pub mod interpreter;
pub mod jit;
pub mod operations;
pub mod word;

use vstd::prelude::*;

verus! {

/// Number of 256-bit words the execution stack can hold.
pub const EVM_STACK_SIZE: usize = 1024;

/// Size in bytes of one stack element (one 256-bit word).
pub const EVM_STACK_ELEMENT_SIZE: usize = 32;

/// Size in bytes of the preallocated linear memory region.
pub const EVM_MEMORY_BYTES: usize = 4096000;

} // verus!
