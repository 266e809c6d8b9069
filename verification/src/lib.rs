//! Two-party federated discovery of a directly-follows graph (DFG).
//!
//! Two organizations each hold part of the events of a shared set of process
//! cases.  They jointly compute the DFG of the merged log without revealing
//! raw events to each other: organization A (the key holder) encrypts its
//! events under a fully homomorphic scheme, organization B evaluates, for
//! every case, a plan of candidate directly-follows edges homomorphically,
//! and A decrypts the resulting ciphertext pairs and aggregates them into
//! the DFG.  Candidates that are not true directly-follows edges collapse
//! to a reserved `BOTTOM` sentinel and are dropped after decryption.
//!
//! The protocol logic — alphabet agreement, the per-case instruction plan,
//! the edge-evaluation kernel, filtering and aggregation, and the windowed
//! driver — is verified: the central theorem shows that the surviving edge
//! pairs of a case are exactly the directly-follows pairs of the two traces
//! merged in timestamp order (ties resolved toward A).

pub mod alphabet;
pub mod comm;
pub mod correct;
pub mod dfg;
pub mod fhe;
pub mod kernel;
pub mod laws;
pub mod log;
pub mod model;
pub mod org;
pub mod pipeline;
pub mod plan;

pub use model::Ev;
pub use plan::Instruction;
