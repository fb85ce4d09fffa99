//! Who holds the virtual addresses, and telling the network about it.
//!
//! The advertisement parser reads raw, unauthenticated network data. Nothing
//! that arrives is trusted, and nothing that arrives can stop a node.

pub mod address;
pub mod announce;
pub mod carrier;
pub mod checksum;
pub mod echo;
pub mod gateway;
pub mod header;
pub mod interface;
pub mod netlink;
pub mod options;
pub mod packet;
pub mod record;
pub mod route;
pub mod router;
pub mod state;

pub use address::{Address, Answer, Change, Family};
pub use announce::{arp, neighbor, Arp};
pub use carrier::{Carried, Carrier, ANNOUNCEMENTS, GAP};
pub use interface::Interface;
pub use packet::{Advertisement, Malformed, ADVERTISEMENT, GIVING_UP, PROTOCOL, VERSION};
pub use state::{Action, Ignored, Machine, Reason, Settings, State, Transition};
