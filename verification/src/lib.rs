//! A DNS message codec and iterative resolver.
//!
//! The crate decodes and encodes the DNS wire format (RFC 1035 message
//! layout, including label compression on the read side) over a fixed
//! 512-byte packet buffer, and resolves names by walking the delegation
//! hierarchy from a configurable root nameserver downward.  All reads and
//! writes are bounds-checked; the codec is proved to reject out-of-range
//! accesses and over-long labels, and encoding followed by decoding is
//! proved to return the original message.

pub mod buffer;
pub mod error;
pub mod header;
pub mod question;
pub mod packet;
pub mod record;
pub mod resolver;
pub mod roundtrip;
pub mod name;

pub use buffer::BytePacketBuffer;
pub use buffer::MAX_BUFFER_SIZE;
pub use error::DnsError;
pub use header::DnsHeader;
pub use header::ResultCode;
pub use question::DnsQuestion;
pub use question::QueryType;
pub use packet::DnsPacket;
pub use record::DnsRecord;
pub use resolver::Transport;
