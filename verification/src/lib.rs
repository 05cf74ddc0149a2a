//! Core of a small multiplayer grid-game server: a byte-stream framer that
//! turns arbitrarily chunked input into discrete frames, a typed message
//! codec over a length-prefixed binary packet format, an authoritative
//! world model whose writes are funnelled through a mutation queue, and a
//! fixed-capacity slot registry for connection identities.

pub mod actor;
pub mod decimal;
pub mod framer;
pub mod packet;
pub mod parser;
pub mod protocol;
pub mod registry;
pub mod store;
pub mod text;
pub mod world;
