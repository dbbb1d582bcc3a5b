//! A minimal HTTP/1.1 server core: request parsing from raw bytes, routing,
//! the built-in route handlers, and response serialization. Transport and
//! filesystem I/O live outside this crate; everything here is pure logic over
//! bytes and strings.

pub mod handlers;
pub mod num;
pub mod parse;
pub mod request;
pub mod response;
pub mod text;
