//! A publish/subscribe relay core: a registry of connected clients and the
//! topics they follow, with the request handling built on it.

pub mod dispatcher;
pub mod messages;
pub mod settings;
