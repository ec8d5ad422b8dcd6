pub mod decimal;
pub mod heartbeat;
pub mod job;
pub mod supervisor;
