pub mod common;
pub mod encode;
pub mod error;
pub mod file;
pub mod hex;
pub mod pairs;
pub mod regex;
pub mod roundtrip;
pub mod split;
pub mod tokenizer;
pub mod training;
pub mod types;
pub mod utils;
pub mod words;
mod text;
