//! Lookup engine for named IPv4 block-lists ("feeds").
//!
//! A feed is a text file whose non-comment lines are IPv4 CIDR networks or
//! bare IPv4 addresses; a leading comment block may carry a category header.
//! The library parses such files into an immutable catalog and answers two
//! queries against every feed at once: does an address appear in a feed, and
//! does a network overlap a feed.

pub mod lookup;
pub mod net;
pub mod parse;
pub mod text;

pub use lookup::Error;
pub use lookup::FeedSource;
pub use lookup::Lookup;
pub use lookup::LookupSets;
pub use lookup::NetSet;
pub use lookup::NetSetFeed;
pub use net::Ipv4Addr;
pub use net::Ipv4Network;
pub use parse::parse_ipv4;
pub use parse::parse_network;
