//! The server side of the PostgreSQL frontend/backend protocol (version 3):
//! the wire codec, the per-connection session step, and the result writer
//! a back end uses to stream rows.

pub mod client_message;
pub mod result_writer;
pub mod round_trip;
pub mod server_message;
pub mod session;
pub mod wire;

pub use client_message::{
    read_string, ClientMessage, Describe, FormatCode, PasswordMessage, StartupMessage,
};
pub use result_writer::{format_codes, row_description, Column, CompletedResult, ResultWriter, RowWriter};
pub use server_message::{CommandCompleteTag, ServerMessage, WritePostgresExt};
pub use session::{
    describe_reply, parameter_values, write_handshake, DefaultServerParameters, Flow, HandlerError,
    ParameterValue, Portal,
    PostgresShim, PostgressIntermediary, SessionError,
};
pub use wire::{decode_text, MessageReader, ProtocolError, ReadPostgresExt};
