//! Discovery of the DNS resolver addresses configured on a host,
//! partitioned by address family.
//!
//! The library parses the text of a resolver configuration file
//! (`nameserver <address>` directives) into typed IPv4 and IPv6
//! addresses, and evaluates the records and status codes of an
//! OS adapter enumeration.  Reading the file or calling the OS is the
//! caller's business: the functions here take and return plain values.

pub mod adapter;
pub mod ip;
pub mod resolver;
pub mod text;

pub use ip::IpAddr;
pub use ip::Ipv4Addr;
pub use ip::Ipv6Addr;
pub use resolver::Error;
pub use resolver::Resolvers;
