//! Verified core of an authenticated FEC tunnel.

pub mod adaptive;
pub mod admission;
pub mod balance;
pub mod clock;
pub mod controller;
pub mod crypto;
pub mod decoder;
pub mod delivery;
pub mod encoder;
pub mod endpoint;
pub mod erasure;
pub mod frame;
pub mod keyring;
pub mod pem;
pub mod product_config;
pub mod quic_auth;
pub mod quic_relay;
pub mod server;
pub mod session;
pub mod tables;
pub mod text;
pub mod wire;
