//! A registry of uniquely numbered digital assets: minting, sales with a
//! royalty split to the creator, price updates, and lookups by owner and by
//! creator. The environment proves control of principals, keeps time, and
//! moves value; the registry decides.

pub mod ids;
pub mod index;
pub mod payment;
pub mod registry;

pub use registry::{Address, CelestiumNFT, Error, Payment, DEFAULT_PRICE, NFT};
