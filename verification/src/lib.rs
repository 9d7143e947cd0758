pub mod cache;
pub mod cli;
pub mod config;
pub mod db;
pub mod json;
pub mod mcp;
pub mod parser;
pub mod paths;
pub mod text;
pub mod tools;
pub mod utils;
