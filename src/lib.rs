pub mod dns;
pub mod name;
pub mod http;
pub mod text;
pub mod client;

pub use client::Client;
