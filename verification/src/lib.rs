//! Mouse and keyboard sharing between Linux machines, below the compositor.
//!
//! The crate holds the decisions of the programs: the event frame, the
//! encrypted channel, the focus state machine, the peer list and its commands.
//! It performs no I/O. Functions that need bytes from a socket take what was
//! read as an argument, and functions that produce bytes append them to a
//! buffer that the caller writes out.

pub mod args;
pub mod base64_lite;
pub mod bytes;
pub mod cli;
pub mod clipboard;
pub mod config;
pub mod crypto;
pub mod cursor;
pub mod daemon;
pub mod devices;
pub mod event;
pub mod focus;
pub mod handshake;
pub mod keys;
pub mod noise;
pub mod path;
pub mod peers;
pub mod stream;
pub mod text;
pub mod wire;

pub use event::{
    event_of_frame, is_toggle_press, read_event, read_event_step, write_event, EventStep,
    InputEvent, FRAME_LEN, TOGGLE_KEY,
};
pub use stream::{is_read_timeout, read_exact_or_eof};
