//! Block-system kernel: fractional positions, the Markdown block parser and
//! serializer, the operation-log model and the rules around them.

pub mod agent;
pub mod api;
pub mod cli;
pub mod error;
pub mod model;
pub mod parser;
pub mod position;
pub mod service;
pub mod text;
