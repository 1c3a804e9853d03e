//! Resolving an IP address to the autonomous-system range that contains it.
//!
//! A range table is read from tab-separated records (`record`), each holding
//! two address literals (`addr`), an AS number, a country code and a
//! description. Lookups run a binary search over a table sorted by start
//! address (`locate`). A range can be written back as a record line that
//! reads back as the same range (`render`). `text` holds the splitting,
//! trimming and digit reading that the record and address grammars share.

pub mod addr;
pub mod locate;
pub mod record;
pub mod render;
pub mod text;

pub use addr::{parse_ip_addr, IpAddr};
pub use locate::find_asn;
pub use record::{line_to_ip_range, load_ranges, IpRange, ParseError};
