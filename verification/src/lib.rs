//! Verified logic of a set of small line- and byte-oriented network services.

pub mod chat;
pub mod kvstore;
pub mod prices;
pub mod primes;
pub mod proxy;
pub mod speed;
pub mod text;
