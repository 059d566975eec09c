//! Send a web page to a kindle for reading later: the verified core.
pub mod cli;
pub mod text;
pub mod dom;
pub mod serializer;
pub mod parser;
pub mod configuration;
pub mod email;
