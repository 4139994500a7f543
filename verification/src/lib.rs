//! Access-control hub: the local store of points, users and events, the
//! grant/deny decision at a point, and the reconciliation of the local user
//! roster with the roster held by the cloud.

pub mod domain;
pub mod roster;
pub mod index;
pub mod diff;
pub mod recycle;
pub mod plan;
pub mod store;
pub mod statements;
pub mod laws;
pub mod unique;
pub mod guard;
pub mod access;
pub mod dump;
pub mod mock;
pub mod token;
pub mod json_naive_date_time;
pub mod json_option_naive_date_time;
pub mod heartbeat;
pub mod request;
