//! Session descriptions in the Session Description Protocol: reading a text
//! into a description, and writing a description as text.
//!
//! A text is a sequence of lines `tag=value`. This library reads two kinds
//! of line, the protocol version (`v`) and the origin (`o`), and assembles
//! them into a [`SessionDescription`]. Reading never refuses a text: what
//! does not fit is reported beside the description, in a [`ParseResult`].
//! Writing a description and reading the text again gives the description
//! back.

pub mod address;
pub mod assembler;
pub mod grammar;
pub mod ipv4;
pub mod ipv6;
pub mod laws;
pub mod model;
pub mod number;
pub mod parse;
pub mod render;
pub mod report;
pub mod text;

pub use address::IpAddr;
pub use assembler::{Assembler, Context};
pub use grammar::{parse_line, parse_origin, LineError, OriginError, SdpLine};
pub use ipv4::Ipv4Addr;
pub use ipv6::Ipv6Addr;
pub use model::{ConnectionData, MediaDescription, Origin, SessionDescription};
pub use report::ParseResult;
