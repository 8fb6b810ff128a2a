pub mod problems;
pub mod util;
pub mod chars;
pub mod parser;
pub mod level_agreement;
pub mod bytes_tok;
pub mod model;
pub mod mmap_source;
pub mod bookmarks;
pub mod filter;
pub mod adb;
pub mod indexer;
pub mod export;
pub mod encoding;
pub mod config;
