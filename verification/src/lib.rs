pub mod document;
pub mod events;
pub mod models;
pub mod reader;
pub mod statement;
pub mod stream;
mod text;
pub mod xsd;
