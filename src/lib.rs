//! Encoding of token annotation layers as per-token labels, and decoding of
//! predicted labels back into a sentence.

pub mod conllu;
pub mod feature_text;
pub mod layer;
pub mod token;
pub mod traits;
