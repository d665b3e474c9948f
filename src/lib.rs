//! Peer-to-peer database synchronization core: hybrid logical clock, operation
//! log with a last-writer-wins merge engine, sync protocol codec, sync manager
//! decisions and device pairing.
use vstd::prelude::*;

pub mod accounts;
pub mod auth;
pub mod crdt;
pub mod error;
pub mod hexcode;
pub mod hlc;
pub mod keyed;
pub mod models;
pub mod protocol;
pub mod schema;
pub mod sync;
mod system;
pub mod text;
pub mod wire;

pub use auth::{
    create_auth_response, AuthChallenge, AuthResponse, AuthResult, AuthorizerWorkflow,
    DeviceAuthManager, NewDeviceWorkflow, PairingSession,
};
pub use crdt::{build_oplog_entry, local_apply, merge, Resolver, Row, Store};
pub use hlc::HybridLogicalClock;
pub use models::{Device, OpType, OplogEntry, Peer, User};
pub use protocol::{decode_sync_message, encode_sync_message, CodecError, SyncMessage};
pub use sync::{partition_batches, P2PConfig, PeerState, SyncManager};

verus! {

} // verus!
