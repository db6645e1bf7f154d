//! Trust-evaluation reasoner for reproducible builds.
//!
//! Given an unresolved build graph (derivations, their outputs, and
//! dependencies), resolutions that replace input references with concrete
//! content hashes, and signed claims that a resolved derivation produces
//! particular output hashes, the reasoner decides whether the designated
//! root derivation is trustworthy: enough independent trusted parties must
//! agree on the content hash of each root output, under a hierarchical,
//! threshold-based trust model.
//!
//! The crate is organised as:
//! - [`string_interner`]: bijection between external string identifiers and
//!   small dense integer ids, tagged by category.
//! - [`model`]: the mathematical model — relations as sets of names, the
//!   trust-propagation closure, and the verification outcome.
//! - [`engine`]: a semi-naive fixed-point evaluator (three-buffer variables
//!   and the agreement counter) used by the trust closure.
//! - [`trust_model_reasoner`]: the executable reasoner, verified against
//!   the model.
//! - [`laws`]: proved properties of the model (idempotence, commutation,
//!   monotonicity, threshold correctness).

pub mod engine;
pub mod laws;
pub mod model;
pub mod string_interner;
pub mod trust_model_reasoner;

pub use string_interner::{Category, ContentHash, RDrv, StringInterner, TrustModel, UDrv,
    UDrvOutput};
pub use trust_model_reasoner::{ReasonerError, TrustModelReasoner};
