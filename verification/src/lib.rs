//! An arena-backed mutable ordered tree.
//!
//! Nodes live in a single growable store and are addressed by stable
//! positions.  Weak handles ([`id::NodeId`]) pair a position with the
//! identifier of the owning arena, so a handle can outlive any borrow of the
//! tree and is rejected when redeemed against another arena.  Read cursors
//! ([`node_ref::NodeRef`]) and write cursors ([`node_mut::NodeMut`]) navigate
//! the link structure in constant time; structural mutation (append, insert,
//! detach) rewrites links in place and never removes a record from storage.

pub mod id;
pub mod laws;
pub mod node_mut;
pub mod node_ref;
pub mod tree;
