//! A healthcheck for web containers: it reads one URL argument, works out the
//! socket address and path to probe, sends a plain HTTP/1.1 `GET` and judges the
//! status line of the answer.
//!
//! The library holds the logic: the URL grammar (`address`), the request text and
//! the verdict on the response (`connection`), and the byte-level text helpers they
//! share (`text`). Sockets, the command line and the process exit code live in the
//! program around it.

mod text;
pub mod address;
pub mod connection;

pub use text::{decimal_string, parse_usize};
