//! A ranked leaderboard, verified.
//!
//! A [`Board`] ranks entries by points, finds them by key, can be capped in
//! size, and can be saved while it is being written to. It is built from
//! three parts: a height-balanced search [`Tree`] that knows the rank of
//! every entry, a key index that can be read as a frozen snapshot
//! ([`diff_map::DiffMap`]), and a small memory of the two edge queries.
//!
//! Around the board stand the [`registry`] of named boards and API keys,
//! the [`backend`] that carries out requests, the [`codec`] of the saved
//! form, and the decisions of the [`saver`].
//!
//! Every function states in its contract what it returns and what it
//! changes; the contracts are proved, except for the few functions that
//! call the clock, the `bincode` crate or the text formatting of the
//! standard library, whose doc comments say what is taken on trust.

pub mod backend;
pub mod board;
pub mod clock;
pub mod codec;
pub mod cursor;
pub mod cursor_mut;
pub mod diff_map;
pub mod entry;
pub mod grow;
pub mod laws;
pub mod node;
pub mod order;
pub mod ranking;
pub mod registry;
pub mod rotate;
pub mod saver;
pub mod shape;
pub mod shift;
pub mod shrink;
pub mod tree;
pub mod tree_codec;
pub mod window;
pub mod wire;

pub use board::Board;
pub use entry::Entry;
pub use tree::Tree;
