//! Verified core of a quantum control stack: gate identifiers, deterministic
//! pulse scheduling, the index and sampling logic of the state-vector
//! simulator, cryostat stage bookkeeping, the surface-code error-correction
//! layer and the circuit API contract.

pub mod gates;
pub mod pulse;
pub mod schedule;
pub mod simulator;
pub mod histogram;
pub mod cryo;
pub mod error_correction;
pub mod interface;
