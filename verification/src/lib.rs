//! Incremental parsing of HTTP/1 responses: byte scanning, the length
//! bookkeeping that decides when a response is complete, header-name
//! formatting, and the response parsers built on them.

pub mod scan;
pub mod text;
pub mod lengths;
pub mod body;
pub mod head;
pub mod header_case;
pub mod parser;
pub mod marked_parser;
pub mod tracking_parser;
pub mod simple_parser;
pub mod pars;
