#![verifier::loop_isolation(false)]
//! Build-orchestration core logic: cross-region cache replication, AST sub-tree
//! caching, role-based access control, supply-chain provenance, MicroVM
//! configuration, WebAssembly plugin management, P2P chunk planning and a
//! plugin marketplace index.

pub mod clock;
pub mod text;
pub mod keyed;
pub mod digest;
pub mod lexing;
pub mod replication;
pub mod ast_cache;
pub mod ast_parse;
pub mod rbac;
pub mod slsa;
pub mod microvm;
pub mod wasm;
pub mod p2p;
pub mod marketplace;
pub mod pkce;
pub mod dashboard;
pub mod tally;
