//! Navigation engine for a paginated, optionally shuffled image slideshow.
//!
//! The library covers the stateful core of the viewer: the codec that turns a
//! shuffle order (a permutation of image indices) into a URL-safe token and
//! back, the store that holds the current shuffle order, the resolver that
//! turns a request's query parameters into a concrete image index, and the
//! composer that builds the outgoing navigation links.

pub mod ascii;
pub mod codec;
pub mod links;
pub mod nav;
pub mod pictures;
pub mod store;
