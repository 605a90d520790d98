pub mod case;
pub mod message;
pub mod text;
pub mod session;
pub mod server;
pub mod db;
pub mod invocation;
