//! Parsing of the summary that `ss -s` prints into socket statistics.
pub mod label_map;
pub mod laws;
pub mod metrics;
pub mod number;
pub mod parser;
pub mod stats;
pub mod text;

pub use label_map::LabelMap;
pub use number::parse_u64;
pub use parser::{parse, parse_tcp_line, parse_transport_row};
pub use stats::{Error, SocketStats, TcpStats, TransportRow};
