//! What the service keeps between requests.

pub mod conversation_db;
pub mod cross_session;
pub mod job_report;
pub mod migrations;
pub mod service_restart;
pub mod session_state;
pub mod store;
pub mod synthetic;
pub mod usage;
