//! Parsing of shell command lines into pipelines of jobs.
pub mod grammar;
pub mod job;
pub mod lexer;
pub mod pipeline_parser;
pub mod splitter;
