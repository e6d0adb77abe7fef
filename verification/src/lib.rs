//! Parameter-space exploration core for a simulated-annealing-style
//! optimizer: discretized parameter domains, a registry of parameters with
//! canonical indices, a compact visited-state index keyed by fingerprints of
//! domain positions, and an adaptive neighborhood sampler that never returns
//! the same configuration twice.

mod configurator;
mod domain;
mod error;
mod fingerprint;
mod registry;
mod rng;
mod visited;

pub use configurator::decl_error;
pub use configurator::first_decl_error;
pub use configurator::lemma_decay_monotone;
pub use configurator::lemma_no_repeat;
pub use configurator::num_to_vary_spec;
pub use configurator::ParamDecl;
pub use configurator::ParamsConfigurator;
pub use configurator::DEFAULT_INITIAL_FRACTION_TENTHS;
pub use domain::build_domain;
pub use domain::domain_matches;
pub use domain::canonical_domain;
pub use domain::domain_len;
pub use domain::lemma_canonical_domain;
pub use error::ParamError;
pub use fingerprint::config_valid;
pub use fingerprint::diff_count;
pub use fingerprint::diff_indices;
pub use fingerprint::fingerprint_of;
pub use fingerprint::fp_rank;
pub use fingerprint::lemma_exhaustion_complete;
pub use fingerprint::lemma_fingerprint_injective;
pub use fingerprint::position_in;
pub use fingerprint::space_size;
pub use fingerprint::valid_fp;
pub use registry::lemma_indices_complete;
pub use registry::ParameterRegistry;
pub use visited::VisitedStateIndex;
