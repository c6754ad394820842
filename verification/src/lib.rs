//! Flattening of nested JSON documents into delimiter-separated path keys,
//! an ordered row store, and the two read paths over it: rebuilding a
//! subtree and listing the immediate children of a path.

pub mod children;
pub mod codec;
pub mod flatten;
pub mod laws;
pub mod path;
pub mod roundtrip;
pub mod sink;
pub mod store;
pub mod subtree;
pub mod value;

pub use children::{list_children, scan_start, scan_step, ListError, ScanStep};
pub use codec::{console_line, decode, encode, DecodeError};
pub use flatten::{for_each_primitive, index};
pub use path::{is_plain, PathBuffer, PathError, DELIMITER};
pub use sink::Sink;
pub use store::{Row, Store};
pub use subtree::{absorb_row, reconstruct, set_json};
pub use value::{Document, Scalar};
