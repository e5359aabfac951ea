//! The closing workload: a key-value service over the RPC layer, its
//! client and server glue, the named channel profiles, two textbook ARQ
//! baselines, and a seeded chaos harness checked against a reference
//! store.

pub mod baselines;
pub mod chaos;
pub mod cli;
pub mod client;
pub mod kv;
pub mod profiles;
pub mod rng;
pub mod server;
