pub mod offsets;
pub mod token;
pub mod tokenizer;
pub mod sourcetext;
pub mod parser;
