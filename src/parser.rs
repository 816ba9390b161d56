pub mod input_stream;
pub mod tokenizer;
