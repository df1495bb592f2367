pub mod bencode;
pub mod client;
pub mod session;
