//! The discrete core of the PhiNetwork chatbot, with its contracts proved: word
//! tokens and the feature space, the memory and model file formats, command
//! parsing, the prediction chain's decisions, the product terms of a phi network,
//! phil's response-length classes, the name/age dataset, and the key material
//! derived from the `phi_all` curve points.
pub mod age;
pub mod age_snapshot;
pub mod bytes;
pub mod chain;
pub mod chatbot;
pub mod commands;
pub mod crypto;
pub mod features;
pub mod hex;
pub mod labels;
pub mod memory;
pub mod order;
pub mod phi_expression;
pub mod phi_key;
pub mod phil;
pub mod phinetwork;
pub mod recovery;
pub mod sparse_phi;
pub mod terms;
pub mod text;
