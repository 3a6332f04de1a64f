//! A bridge through which a sandboxed script runtime keeps key/value tables in
//! a store owned by its host: the value encoding, the host's table store and
//! the calls on it, the guest's table proxy, and snapshots for durable storage.
pub mod boundary;
pub mod codec;
pub mod eval;
pub mod keylist;
pub mod persist;
pub mod proxy;
pub mod store;
