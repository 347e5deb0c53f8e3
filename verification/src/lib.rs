pub mod db;
pub mod error;
pub mod json;
pub mod message;
pub mod protocol;
pub mod recency;
pub mod text;
pub mod threads;
pub mod users;
