pub mod bra;
pub mod codec;
pub mod color;
pub mod encode;
pub mod error;
pub mod frame;
pub mod read_util;

pub use codec::decompress;
pub use encode::encode_anim;
