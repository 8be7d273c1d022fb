//! Comlink: an RPC implementation over message passing. Values exposed on one
//! thread can be used from another as if they were local.
//!
//! This crate holds the logic that decides what travels and what it means:
//! the value model and its paths, the wire protocol, thrown values and how
//! they are carried, the transfer-handler registry, the origin filter, and the
//! decisions an exposed object and a proxy make for each request.
use vstd::prelude::*;

pub mod handlers;
pub mod origin;
pub mod protocol;
pub mod rpc;
pub mod thrown;
pub mod value;

pub use crate::handlers::{remove_transfer_handler, set_transfer_handler, HandlerTable};
pub use crate::origin::{is_allowed_origin, Origin};
pub use crate::protocol::{Envelope, Message, MessageEvent, MessageType, Transferable, WireValue};
pub use crate::thrown::Thrown;
pub use crate::value::{ArrayBuffer, BufferStore, Value};

verus! {
}
