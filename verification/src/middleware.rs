//! The two engines the codec runs on: the pass-through [`next::Next`] and the
//! depth-limiting, path-tracing [`tracing::NextTrace`].

pub mod next;
pub mod tracing;
