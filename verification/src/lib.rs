//! Fair gift-exchange support: the constraint logic of an assignment
//! (forbidden pairings, previous years' assignments, cycle moves) and the
//! compact, URL-safe text codecs used to share messages and state.

pub mod assignment;
pub mod constraints;
pub mod moves;
pub mod sampling;
pub mod transport;
pub mod url_encoding;
