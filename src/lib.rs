//! Request files: a small text format that describes HTTP requests, with
//! `{{name}}` templates that are resolved against a table of variables.

pub mod components;
pub mod lines;
pub mod parser;
pub mod payload;
pub mod request;
pub mod template;
mod text;
pub mod values;
