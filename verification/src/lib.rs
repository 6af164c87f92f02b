//! CD-i Stub protocol implementation.
//!
//! The wire format is that of `stub/stubdefs.d` in the CD-i Stub distribution.
//! Multi-byte numbers are big-endian and every frame ends in the XOR of all
//! preceding frame bytes (including its header).

pub mod conduct;
pub mod conduct_files;
pub mod conduct_mount;
pub mod console;
pub mod dialogue;
pub mod directory;
pub mod directory_laws;
pub mod error;
pub mod fault_laws;
pub mod frame;
pub mod laws;
pub mod line;
pub mod mount;
pub mod mount_laws;
pub mod os9;
pub mod os9_fault_laws;
pub mod os9_laws;
pub mod plan;
pub mod plan_laws;
pub mod player;
pub mod player_files;
pub mod progress;
pub mod record;
pub mod replay;
pub mod replay_laws;
pub mod request_laws;
pub mod response_laws;
pub mod service;
pub mod service_laws;
pub mod session;
pub mod steady_laws;
pub mod stub;
pub mod table;
pub mod text;
pub mod text_laws;
pub mod transport;
pub mod volume;
pub mod volume_laws;
pub mod world;
pub mod world_directories;
pub mod world_files;
pub mod world_mount;
pub mod world_session;

pub use error::Error;
pub use frame::{
    request, ACK, ADDRESS, BAUDRATE, BUFFER, CAN, DLE, EM, END, EXECUTE, NAK, OS9CALL, READ,
    REGISTERS, REG_A0, REG_CARRY, REG_D0, REG_D1, SOH, WRITE,
};
pub use replay::Replay;
pub use session::Session;
pub use transport::{IoError, IoErrorKind, Transport};
