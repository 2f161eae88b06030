//! A verified core of the qaul.net stack: user identities and sessions,
//! frame sequencing and desequencing, the frame collector, the endpoint
//! driver map and the UDP address table.

pub mod assoc;
pub mod identity;
pub mod frame;
pub mod collector;
pub mod drivers;
pub mod addrs;
pub mod users;
pub mod api;
pub mod utils;
