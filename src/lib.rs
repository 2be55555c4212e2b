//! Host discovery and port reconnaissance: the record codec, the result store's
//! write plan and queries, and the decisions of the ICMP and TCP SYN scanners.
use vstd::prelude::*;

pub mod text;
pub mod codec;
pub mod store;
pub mod ping;
pub mod portscan;

verus! {

} // verus!
