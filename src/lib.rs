//! Capture a child's standard streams line by line into an ordered,
//! append-only sled ledger, keyed by stream and a store-wide sequence id.
pub mod stream;
pub mod key;
pub mod framer;
pub mod store;
pub mod capture;
pub mod cli;

pub use stream::Stream;
pub use key::{decode_key, encode_key, KEY_WIDTH};
pub use framer::{FrameResult, LineFramer, NEWLINE};
pub use capture::{check_drawn, check_stored, Capture, CaptureError, Step};
pub use cli::{parse_args, ArgError, Options};
