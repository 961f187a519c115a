//! Client-side WebSocket protocol engine: frame codec, masking, opening
//! handshake and the receive state machine, with their contracts.

use vstd::prelude::*;

pub mod client;
pub mod codec;
pub mod frame;
pub mod handshake;
pub mod mask;
pub mod opcode;
pub mod utf8;

pub use client::{Action, ClientState, CloseState, Config, RecvState};
pub use codec::{FrameHeader, HeaderError, Violation};
pub use frame::{Frame, Message};
pub use handshake::{ConnectError, Target};
pub use opcode::{CloseCode, Opcode};

verus! {

} // verus!
