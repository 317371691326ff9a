//! A miniature relational engine front end: a dictionary-encoded columnar
//! store, a logical-query-plan builder for a small SQL subset, and the
//! decision logic of a PostgreSQL-wire-protocol connection.

pub mod avc;
pub mod database;
pub mod engine;
pub mod lqp;
pub mod sqlast;
pub mod wire;
