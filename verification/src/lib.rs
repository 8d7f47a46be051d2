//! Low-level building blocks for block-cipher based message authentication:
//! a fixed 16-byte cipher block with XOR, GF(2^128) doubling and
//! constant-time equality, a block-cipher capability trait, and a streaming
//! CMAC construction over it.

pub mod block;
pub mod block_cipher;
pub mod cmac;

pub use block::Block;
pub use block_cipher::BlockCipher;
pub use cmac::Cmac;
