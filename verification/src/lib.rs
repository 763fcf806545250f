//! A scheduler for graphs of homomorphic operations on shortint ciphertexts.
//!
//! A computation is a directed acyclic graph whose nodes each hold one
//! ciphertext: inputs are known from the start, every other node is the
//! programmable bootstrap of a weighted sum of its predecessors.  The crate
//! keeps the graph ([`FheGraph`]), hands out the nodes that are ready in
//! order of the length of the dependency chain below them ([`Engine`]), and
//! takes the results back in any order.
//!
//! The integer side of the cryptography is part of the crate: weighted sums
//! of ciphertexts, the accumulators of lookup tables, key switching and
//! packing, casts between parameter sets, and the tensor product of GLWE
//! ciphertexts with its relinearisation.  The bootstrap itself works on
//! floating-point numbers and is supplied by the caller, as a function.
//!
//! The functions are verified with Verus against the contracts that they
//! carry; the laws that tie several functions together are stated as proof
//! functions beside them.  What rests on other crates (a short vector, a
//! stable filter for duplicates, a seeded shuffle) is reached through a few
//! small functions whose contracts say what is taken on trust.

pub mod cast;
pub mod ciphertext;
pub mod circuits;
pub mod decomposition;
pub mod engine;
pub mod fhe_graph;
pub mod glwe;
pub mod glwe_tensor_product;
pub mod graph;
pub mod key_switching_key;
pub mod keyswitch;
pub mod list_compression;
pub mod parameter_search;
pub mod local_run;
pub mod lut;
pub mod polynomial;
pub mod priority;
pub mod relinearisation;
pub mod scalar_ops;
pub mod server_key;
pub mod task;
pub mod task_graph;
pub mod term_list;

pub use ciphertext::{Ciphertext, CiphertextModulus, LweCiphertext, PBSOrder};
pub use graph::{Edge, Node, NodeGraph, NodeState};
pub use engine::{Dispatch, Engine, EngineError, Phase};
pub use fhe_graph::{FheGraph, GraphError};
pub use local_run::run_to_completion;
pub use glwe::GlweCiphertext;
pub use glwe_tensor_product::glwe_tensor_product;
pub use keyswitch::{keyswitch_lwe_ciphertext, pack_lwe_list_into_glwe, LweCiphertextList, LwePackingKeyswitchKey};
pub use relinearisation::{glwe_relinearisation, tensor_mult_with_relin, GlweRelinearisationKey};
pub use key_switching_key::{KeyMismatch, KeySwitchingKey, KeySwitchingKeyView};
pub use list_compression::{CompressionParameters, DynamicDistribution};
pub use server_key::{
    BootstrappingKey, ClientKey, ClientKeyParameters, EncryptionKeyChoice, LweKeyswitchKey,
    SecretEncryptionKeyView, ServerKey, ShortintKeySwitchingParameters,
};
pub use decomposition::SignedDecomposer;
pub use lut::{LookupTable, Lut, Luts};
pub use priority::Priority;
pub use task::{IndexedCt, IndexedCtAndLut, IndexedCtsAndLut};
pub use task_graph::TaskGraph;
pub use term_list::TermList;
