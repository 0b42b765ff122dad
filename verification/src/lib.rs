//! Object-resolution core of a content-addressable object store.
//!
//! Given a fixed-width content hash, the [`compound::Backend`] returns the
//! decoded object bytes, searching an ordered sequence of immutable packed
//! archives ("bundles") first and falling back to a single loose-object
//! store. Lookup and decode are also offered as a two-phase protocol so
//! that composing stores can separate "where is it" from "fetch it".

pub mod cache;
pub mod compound;
pub mod header;
pub mod refspec;
pub mod store;
