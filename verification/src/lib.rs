pub mod display;
pub mod game;
pub mod library;
pub mod lines;
pub mod manifest;
pub mod numbers;
pub mod pipeline;
pub mod playtime;
pub mod strorder;
pub mod tokenizer;
