pub mod converter;
pub mod dictionary;
pub mod text;
pub mod tokenizer;
