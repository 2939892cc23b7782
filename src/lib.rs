pub mod charset;
pub mod codec;
pub mod error;
pub mod laws;
pub mod markers;
pub mod packing;
pub mod standalone;
pub mod strategy;
pub mod stream;
pub mod text;
pub mod tokenizer;
pub mod versions;
pub mod xstream_simple;
pub mod xstream_transformer;

pub use codec::{decode, decode_with_strategy, encode, encode_with_strategy};
pub use error::Asc100Error;
