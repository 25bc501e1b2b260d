//! A terminal Markdown viewer's core: the byte-stream block splitter, the
//! paging state machine, key decoding, the terminal escape sequences and
//! the small parsers that the viewer relies on.

pub mod parser;
pub mod text;
pub mod term;
pub mod pager;
pub mod render;
pub mod pty;
