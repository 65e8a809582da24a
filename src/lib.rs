//! Codec and connection logic for the Wialon-style telemetry protocol.
//!
//! Terminals send frames of the shape `#TYPE#field;field;...\r\n` over a
//! long-lived TCP stream. This crate splits a byte stream into frames,
//! decodes each frame into a typed record, builds the acknowledgment that
//! the terminal waits for, and keeps the per-connection and per-server state
//! that a readiness-driven event loop needs.
pub mod connection;
pub mod data_packet;
pub mod frame;
pub mod login_packet;
pub mod number;
pub mod packet;
pub mod reactor;
pub mod response_packet;
pub mod scan;
pub mod short_data_packet;
pub mod store;
pub mod text;
pub mod timestamp;

pub use connection::{Action, Connection};
pub use data_packet::{DataPacket, Params};
pub use frame::FrameError;
pub use login_packet::LoginPacket;
pub use number::Decimal;
pub use packet::{decode, AccessError, Packet};
pub use reactor::{Reactor, SERVER};
pub use response_packet::{encode_response, ResponsePacket};
pub use short_data_packet::ShortDataPacket;
pub use store::{ConsoleStore, GeoPacket};
pub use timestamp::Timestamp;
