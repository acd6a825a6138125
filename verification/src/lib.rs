//! Decision logic of a set of small peer-to-peer topology demonstrations
//! (two-peer chat, full mesh, star, ring and bus), kept apart from the
//! sockets, threads and terminal that drive them.

pub mod text;
pub mod split;
pub mod order;
pub mod number;
pub mod status;
pub mod links;
pub mod roster;
pub mod ring;
pub mod screen;
pub mod message;
pub mod peers;
pub mod command;
