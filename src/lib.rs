//! Bottleneck ASNs of BGP routing-table snapshots: the AS_PATH of each route is read
//! out of its path-attribute bytes, the paths are gathered per address, and for each
//! address the last ASN of the longest leading run that all its paths share is named
//! its bottleneck.

pub mod address;
pub mod aggregate;
pub mod bottleneck;
pub mod decode;
