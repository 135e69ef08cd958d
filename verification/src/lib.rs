//! A lightweight actor runtime and a self-describing binary message
//! transport for inter-process communication over local sockets.
//!
//! The crate is organised around three pieces:
//!
//! * [`value`], [`parsing`] and [`codec`]: a MessagePack-compatible wire
//!   format — a sizer that finds message boundaries in a byte stream, a
//!   codec that turns complete byte ranges into [`value::Value`]s and back,
//!   and an incremental parser that copes with arbitrary fragmentation.
//! * [`runtime`]: a mailbox model that dispatches messages to a
//!   single-owner actor in FIFO order.
//! * [`bridge`]: the decision logic of the connection glue — outbound
//!   write bookkeeping and the bind-retry rule.
//! * [`project`] and [`storage`]: the records and interfaces of the
//!   surrounding management system.

pub mod bridge;
pub mod codec;
pub mod parsing;
pub mod project;
pub mod runtime;
pub mod storage;
pub mod value;

pub use project::Project;
pub use runtime::{Handler, Message};
pub use value::Value;
