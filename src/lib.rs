//! A topic-based relay of short text messages to streaming subscribers.
//!
//! The broker keeps a registry from topic names to subscriber handles and
//! plans the fan-out of each published message; a session is the state
//! machine of one streaming connection; the authorizer checks bearer tokens
//! before a session may start.
pub mod auth;
pub mod broker;
pub mod session;
pub mod text;
