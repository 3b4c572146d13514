//! Zero-copy reader for the question section of a DNS message.
//!
//! Given a byte buffer holding one wire-format DNS packet, the crate locates
//! and validates each question record (an encoded domain name followed by a
//! 2-byte type code and a 2-byte class code) without copying the buffer, and
//! resolves DNS name compression both for rendering a name as dotted text and
//! for comparing it against a plain string.

pub mod codes;
pub mod name;
pub mod scan;
pub mod question;
pub mod laws;

pub use codes::QueryClass;
pub use codes::QueryKind;
pub use name::ParseError;
pub use name::QuestionName;
pub use question::Question;
pub use question::Questions;
