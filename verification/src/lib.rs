//! A local, file-backed, content-addressed version-control core.
//!
//! The crate models a repository as in-memory values: a write-once object
//! store keyed by digest, named branch pointers plus a HEAD pointer, a
//! tracklist, and a working-directory snapshot.  Every algorithm — the object
//! codec, status computation, checkout, diff, three-way merge and peer
//! synchronization — is verified against these models; disk and terminal
//! glue lives outside the library.

pub mod bytemap;
pub mod bytes;
pub mod digest;
pub mod files;
pub mod history;
pub mod object;
pub mod serialize;
pub mod refs;
pub mod repository;
pub mod store;
