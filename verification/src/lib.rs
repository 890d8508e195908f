//! Peer-to-peer node synchronization: the wire codec and frame
//! assembler for the peer command protocol, the peer registry and event
//! hub, the introduction handshake, the discovery timer, and the
//! content-addressable file index with its scan reconciliation.
pub mod handshake;
pub mod index;
pub mod protocol;
pub mod registry;
pub mod scan;
pub mod state;
pub mod text;
pub mod timer;

pub use protocol::Introduce;
pub use protocol::PeerCmd;
pub use protocol::PupynetProtocol;
pub use protocol::ByteEater;
pub use state::Args;
pub use state::Event;
pub use state::State;
