pub mod client;
pub mod connection;
pub mod errors;
pub mod messages;
pub mod protocol;
