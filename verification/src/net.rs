//! Messages between the client and the server.
use crate::world::registry::BlockId;
use vstd::prelude::*;

verus! {

/// What a client sends to log in.
#[derive(Clone, Debug)]
pub enum ClientToServerLoginPacket {
    Login { username: String },
}

/// What the server sends while playing.
#[derive(Clone, Debug)]
pub enum ServerToClientPlayPacket {
    ChunkData { data: Vec<BlockId> },
}

} // verus!
