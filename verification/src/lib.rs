pub mod amount;
pub mod bytesrepr;
pub mod config;
pub mod error;
pub mod ordered;
pub mod protocol;
pub mod queue;
pub mod stakes;
pub mod validator;
