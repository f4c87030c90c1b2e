//! A minimal network key/value store, with its logic verified: the
//! length-prefixed wire protocol that frames a request, the shared table
//! the workers write to, and the per-connection state machine that walks
//! a connection from accept to close. The surrounding process — binding
//! the listener, the worker pool, the blocking reads and writes — lives
//! outside the library and drives these pieces.

pub mod codec;
pub mod handler;
pub mod laws;
pub mod server;
pub mod store;

pub use codec::CodecError;
pub use codec::HEADER_LEN;
pub use codec::Header;
pub use codec::Request;
pub use codec::decode_header;
pub use codec::decode_payload;
pub use handler::HandlerState;
pub use handler::acknowledgement;
pub use server::Server;
pub use store::Store;
