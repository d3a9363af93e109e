//! A privilege-separated filesystem agent: lexical path confinement beneath a
//! fixed base directory, a one-way privilege-drop handle, bounded-chunk
//! streaming, a depth-bounded directory walker, and an action dispatcher whose
//! semantics are stated and proved over an explicit filesystem model.

pub mod paths;
pub mod stream;
pub mod fs;
pub mod walk;
pub mod copy;
pub mod agent;
pub mod server;
