//! Engine of a peer-to-peer node: address book, topic subscriptions, gossip buffering, sync
//! session scheduling, inbound connection routing and the supervisor's decisions.
//!
//! Every part is a plain state machine. The transport, the gossip overlay and the sync
//! protocols run outside of it and report what happened as events; the engine answers with
//! the values and actions that follow.
pub mod addr;
pub mod address_book;
pub mod gossip_buffer;
pub mod ids;
pub mod network;
pub mod protocols;
pub mod registry;
pub mod scheduler;
pub mod supervisor;

pub use addr::{NodeAddr, RelayUrl, RelayUrlError, SocketAddress, DEFAULT_STUN_PORT};
pub use address_book::{AddressBook, PeerRecord, PeerSource, PeerSources};
pub use gossip_buffer::{GossipBuffer, GossipEntry};
pub use ids::{PeerId, Topic, TopicId};
pub use network::{
    Config, Delivery, FromNetwork, Network, NetworkBuilder, NetworkError, RelayMode, RelayNode,
    SessionStart, SyncConfiguration, ToNetwork, DEFAULT_BIND_PORT,
};
pub use protocols::{ProtocolMap, Route};
pub use registry::{RegistryError, TopicRegistry};
pub use scheduler::{
    Direction, ResyncConfiguration, SessionEnd, SessionEvent, SessionState, StartError,
    StepOutcome, SyncFailure, SyncScheduler, SyncSession,
};
pub use supervisor::{Branch, ChildExit, LoopAction, LoopEvent, Ready};
