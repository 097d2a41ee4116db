//! Plain text: read as paragraphs of lines, written from the Markdown
//! event stream without markup.

pub mod reader;
pub mod writer;
