//! Bit vectors packed into fixed-width blocks: where a bit lies in a sequence
//! of blocks, and how single bits, whole blocks and fields of bits are read
//! from and written to such a sequence.

pub mod arith;
pub mod bits128;
pub mod bits16;
pub mod bits32;
pub mod bits64;
pub mod bits8;
pub mod bits_word;
mod convert;
pub mod laws;
pub mod slice;
pub mod storage;
pub mod traits;

pub use slice::{BitSlice, BitSliceMut};
pub use storage::{Address, BlockType};
pub use traits::{BitSliceable, BitVec, BitVecMut, BitVecPush};
